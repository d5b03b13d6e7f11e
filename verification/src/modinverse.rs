//! Modular multiplicative inverses, built on the extended Euclidean
//! algorithm.

use vstd::prelude::*;
use vstd::arithmetic::div_mod::{lemma_mod_multiples_vanish, lemma_small_mod};
use num_bigint::BigInt;
use crate::arith::{coprime, abs_of, lemma_divides_zero, lemma_divides_self};
use crate::bignum::{IntValue, int_of, bigint_from_u32, bigint_add, bigint_lt};
use crate::egcd::Egcd;

verus! {

/// The modular multiplicative inverse.
pub trait Modinverse<U: IntValue>: IntValue {
    /// The unique `s` in `[0, modulus)` with `self * s == 1 (mod modulus)`.
    /// It exists only when `self` and `modulus` are coprime; that burden is
    /// the caller's, as is keeping `self` non-negative — for a negative
    /// `self` the Bézout coefficient answers to a gcd of minus one and no
    /// longer inverts.
    fn modinverse(&self, modulus: &U) -> (s: U)
        requires
            modulus.as_int() > 1,
            self.as_int() >= 0,
            coprime(self.as_int(), modulus.as_int()),
        ensures
            0 <= s.as_int() < modulus.as_int(),
            (self.as_int() * s.as_int()) % modulus.as_int() == 1,
    ;
}

impl Modinverse<BigInt> for BigInt {
    fn modinverse(&self, modulus: &BigInt) -> (s: BigInt) {
        let ghost av = int_of(*self);
        let ghost mv = int_of(*modulus);
        proof {
            // Zero shares the divisor `modulus` with `modulus`, so
            // coprimality leaves `self` strictly positive.
            if av == 0 {
                lemma_divides_zero(mv);
                lemma_divides_self(mv);
                assert(false);
            }
        }
        let (g, x, _y) = self.egcd(modulus);
        let ghost xv = int_of(x);
        let ghost yv = int_of(_y);
        proof {
            // The gcd is positive and divides both inputs, so it is one.
            assert(int_of(g) == 1);
            // Hence `self * x` is one more than a multiple of the modulus.
            assert(av * xv == mv * (-yv) + 1) by (nonlinear_arith)
                requires
                    1 == av * xv + mv * yv,
            ;
            lemma_mod_multiples_vanish(-yv, 1, mv);
            lemma_small_mod(1nat, mv as nat);
            assert((av * xv) % mv == 1);
        }
        let zero = bigint_from_u32(0);
        let mut s = x;
        while !bigint_lt(&zero, &s)
            invariant
                int_of(zero) == 0,
                mv > 1,
                int_of(*modulus) == mv,
                (av * int_of(s)) % mv == 1,
                int_of(s) == xv || int_of(s) <= mv,
                abs_of(xv) <= mv,
            decreases mv - int_of(s),
        {
            let ghost sv = int_of(s);
            s = bigint_add(&s, modulus);
            proof {
                assert(av * (sv + mv) == mv * av + av * sv) by (nonlinear_arith);
                lemma_mod_multiples_vanish(av, av * sv, mv);
            }
        }
        proof {
            // The loop stops at the first positive value, which is at most
            // the modulus; it cannot equal the modulus, whose product with
            // `self` leaves remainder zero, never one.
            if int_of(s) == mv {
                assert(av * mv == mv * av) by (nonlinear_arith);
                lemma_mod_multiples_vanish(av, 0, mv);
                lemma_small_mod(0nat, mv as nat);
                assert(false);
            }
        }
        s
    }
}

} // verus!
