//! The convenience primality test: cheap short-circuits in front of
//! Miller-Rabin.

use vstd::prelude::*;
use num_bigint::{BigInt, BigUint};
use crate::bignum::{IntValue, nat_of, biguint_from_u32, biguint_eq, biguint_is_even,
    bigint_from_u32, bigint_lt, bigint_to_biguint};
use crate::mrt::{mrt, mr_composite_witness, mr_all_witnesses_certify};

verus! {

/// A convenience primality test over the Miller-Rabin core.
pub trait IsProbablyPrimeMrt: IntValue {
    /// Checks whether this number is probably a prime, settling zero, one,
    /// two, three, negatives and even numbers outright and delegating the
    /// rest to `rounds` Miller-Rabin rounds; a composite survives those
    /// with probability at most `4^-rounds`, while a `false` answer is
    /// backed by a witness against which the number failed its round, and
    /// is owed outright when every admissible witness is such a one.
    fn is_probably_prime_mrt(&self, rounds: u32) -> (res: bool)
        requires
            rounds >= 1,
        ensures
            self.as_int() < 0 ==> !res,
            self.as_int() == 0 || self.as_int() == 1 ==> !res,
            self.as_int() == 2 || self.as_int() == 3 ==> res,
            self.as_int() > 3 && self.as_int() % 2 == 0 ==> !res,
            self.as_int() > 3 && self.as_int() % 2 == 1 && !res ==> exists|a: nat|
                2 <= a <= self.as_int() - 2 && #[trigger] mr_composite_witness(
                    self.as_int() as nat,
                    a,
                ),
            self.as_int() > 3 && self.as_int() % 2 == 1 && mr_all_witnesses_certify(
                self.as_int() as nat,
            ) ==> !res,
    ;
}

impl IsProbablyPrimeMrt for BigUint {
    fn is_probably_prime_mrt(&self, rounds: u32) -> (res: bool) {
        let zero = biguint_from_u32(0);
        let one = biguint_from_u32(1);
        let two = biguint_from_u32(2);
        let three = biguint_from_u32(3);
        if biguint_eq(self, &zero) {
            false
        } else if biguint_eq(self, &one) {
            false
        } else if biguint_eq(self, &two) {
            true
        } else if biguint_eq(self, &three) {
            true
        } else if biguint_is_even(self) {
            false
        } else {
            let res = mrt(self, rounds);
            proof {
                assert(self.as_int() as nat == nat_of(*self));
                if !res {
                    let a = choose|a: nat|
                        2 <= a <= nat_of(*self) - 2 && #[trigger] mr_composite_witness(
                            nat_of(*self),
                            a,
                        );
                    assert(self.as_int() as nat == nat_of(*self));
                    assert(2 <= a <= self.as_int() - 2 && mr_composite_witness(
                        self.as_int() as nat,
                        a,
                    ));
                }
            }
            res
        }
    }
}

impl IsProbablyPrimeMrt for BigInt {
    fn is_probably_prime_mrt(&self, rounds: u32) -> (res: bool) {
        let zero = bigint_from_u32(0);
        if bigint_lt(self, &zero) {
            false
        } else {
            let magnitude = bigint_to_biguint(self);
            match magnitude {
                Option::Some(unsigned) => {
                    proof {
                        assert(unsigned.as_int() == self.as_int());
                    }
                    unsigned.is_probably_prime_mrt(rounds)
                },
                Option::None => {
                    proof {
                        assert(false);
                    }
                    false
                },
            }
        }
    }
}

} // verus!
