//! The Miller-Rabin probabilistic primality test.

use vstd::prelude::*;
use vstd::arithmetic::power::{pow, lemma_pow_mod_noop, lemma_pow_multiplies};
use vstd::arithmetic::power2::{pow2, lemma_pow2_unfold};
use num_bigint::BigUint;
use crate::bignum::{nat_of, biguint_from_u32, biguint_eq, biguint_lt, biguint_add, biguint_sub,
    biguint_div, biguint_is_even, biguint_modpow, rng_new, biguint_random_range};

verus! {

/// `(r, d)` is the decomposition of `n - 1` into `2^r * d` with `d` odd;
/// for an odd `n` above 3 it exists and is unique, with `r >= 1`.
pub open spec fn mr_decomposes(n: nat, r: nat, d: nat) -> bool {
    r >= 1 && d % 2 == 1 && pow2(r) * d == n - 1
}

/// The witness `a` lets `n` pass one Miller-Rabin round for the
/// decomposition `(r, d)` of `n - 1`: either `a^d == 1 (mod n)`, or
/// `a^(d * 2^j) == n - 1 (mod n)` for some `j` below `r`. Every prime `n`
/// passes against every witness; a composite `n` fails against most.
pub open spec fn mr_witness_passes(n: nat, r: nat, d: nat, a: nat) -> bool {
    ||| pow(a as int, d) % (n as int) == 1
    ||| exists|j: nat| j < r && pow(a as int, d * #[trigger] pow2(j)) % (n as int) == n - 1
}

/// Some witness in `[2, n - 2]` certifies `n` composite: `n` fails the
/// round against it, for the decomposition of `n - 1`.
pub open spec fn mr_composite_witness(n: nat, a: nat) -> bool {
    exists|r: nat, d: nat| #[trigger] mr_decomposes(n, r, d) && !mr_witness_passes(n, r, d, a)
}

/// Every admissible witness certifies `n` composite; whatever is drawn,
/// the test must then answer `false`.
pub open spec fn mr_all_witnesses_certify(n: nat) -> bool {
    forall|a: nat| 2 <= a <= n - 2 ==> #[trigger] mr_composite_witness(n, a)
}

/// `n - 1` splits into a power of two and an odd part in only one way.
pub proof fn lemma_mr_decomposition_unique(n: nat, r1: nat, d1: nat, r2: nat, d2: nat)
    requires
        mr_decomposes(n, r1, d1),
        mr_decomposes(n, r2, d2),
    ensures
        r1 == r2,
        d1 == d2,
{
    let (ra, da, rb, db) = if r1 <= r2 {
        (r1, d1, r2, d2)
    } else {
        (r2, d2, r1, d1)
    };
    vstd::arithmetic::power2::lemma_pow2_pos(ra);
    vstd::arithmetic::power2::lemma_pow2_adds(ra, (rb - ra) as nat);
    assert(da == pow2((rb - ra) as nat) * db) by (nonlinear_arith)
        requires
            pow2(ra) * da == pow2(rb) * db,
            pow2(rb) == pow2(ra) * pow2((rb - ra) as nat),
            pow2(ra) >= 1,
    ;
    if ra < rb {
        // The larger exponent would leave the smaller odd part even.
        lemma_pow2_unfold((rb - ra) as nat);
        let h = pow2((rb - ra - 1) as nat);
        assert(da == 2 * (h * db)) by (nonlinear_arith)
            requires
                da == pow2((rb - ra) as nat) * db,
                pow2((rb - ra) as nat) == 2 * h,
        ;
        assert(da % 2 == 0) by {
            vstd::arithmetic::div_mod::lemma_mod_multiples_basic((h * db) as int, 2);
        }
        assert(false);
    }
    assert(pow2(0) == 1) by {
        vstd::arithmetic::power::lemma_pow0(2);
    }
}

/// Factors `n - 1` as `2^r * d` with `d` odd, by halving while even.
pub fn factorize(n: &BigUint) -> (res: (BigUint, BigUint))
    requires
        nat_of(*n) > 3,
        nat_of(*n) % 2 == 1,
    ensures
        mr_decomposes(nat_of(*n), nat_of(res.0), nat_of(res.1)),
{
    let one = biguint_from_u32(1);
    let two = biguint_from_u32(2);
    let mut d = biguint_sub(n, &one);
    let mut r = biguint_from_u32(0);
    proof {
        assert(pow2(0) == 1) by {
            vstd::arithmetic::power::lemma_pow0(2);
        }
    }
    while biguint_is_even(&d)
        invariant
            nat_of(one) == 1,
            nat_of(two) == 2,
            nat_of(*n) > 3,
            nat_of(*n) % 2 == 1,
            nat_of(d) >= 1,
            pow2(nat_of(r)) * nat_of(d) == nat_of(*n) - 1,
            nat_of(r) == 0 ==> nat_of(d) == nat_of(*n) - 1,
        decreases nat_of(d),
    {
        let ghost dv = nat_of(d);
        let ghost rv = nat_of(r);
        d = biguint_div(&d, &two);
        r = biguint_add(&r, &one);
        proof {
            assert(dv == 2 * nat_of(d)) by {
                assert(dv % 2 == 0);
                vstd::arithmetic::div_mod::lemma_fundamental_div_mod(dv as int, 2);
            }
            lemma_pow2_unfold(rv + 1);
            assert(pow2(rv + 1) * nat_of(d) == pow2(rv) * dv) by (nonlinear_arith)
                requires
                    pow2(rv + 1) == 2 * pow2(rv),
                    dv == 2 * nat_of(d),
            ;
        }
    }
    proof {
        // The loop ran at least once, since `n - 1` starts out even.
        if nat_of(r) == 0 {
            assert(false);
        }
    }
    (r, d)
}

/// Draws a uniformly random witness in the closed range `[2, n - 2]`.
/// Nothing is promised of which one: callers hold for every draw.
fn pick_random(n: &BigUint) -> (a: BigUint)
    requires
        nat_of(*n) > 3,
    ensures
        2 <= nat_of(a) <= nat_of(*n) - 2,
{
    let one = biguint_from_u32(1);
    let two = biguint_from_u32(2);
    let upper = biguint_sub(n, &one);
    let mut rng = rng_new();
    biguint_random_range(&mut rng, &two, &upper)
}

/// One Miller-Rabin round: raises the witness `a` to the odd part `d`,
/// then squares up to `r - 1` times, and reports exactly whether `n`
/// passes against `a`.
pub fn mrt_round(n: &BigUint, r: &BigUint, d: &BigUint, a: &BigUint) -> (res: bool)
    requires
        nat_of(*n) > 3,
        nat_of(*r) >= 1,
    ensures
        res == mr_witness_passes(nat_of(*n), nat_of(*r), nat_of(*d), nat_of(*a)),
{
    let ghost nv = nat_of(*n);
    let ghost rv = nat_of(*r);
    let ghost dv = nat_of(*d);
    let ghost av = nat_of(*a);
    let one = biguint_from_u32(1);
    let two = biguint_from_u32(2);
    let m = biguint_sub(n, &one);
    let mut x = biguint_modpow(a, d, n);
    proof {
        assert(pow2(0) == 1) by {
            vstd::arithmetic::power::lemma_pow0(2);
        }
    }
    if biguint_eq(&x, &one) {
        return true;
    }
    if biguint_eq(&x, &m) {
        proof {
            assert(dv * pow2(0) == dv);
            assert(pow(av as int, dv * pow2(0)) % (nv as int) == nv - 1);
        }
        return true;
    }
    let r_minus_1 = biguint_sub(r, &one);
    let mut j = biguint_from_u32(0);
    proof {
        // At entry `x` is `a^d % n`, the power for `j == 0`.
        assert(dv * pow2(0) == dv);
    }
    while biguint_lt(&j, &r_minus_1)
        invariant
            nat_of(one) == 1,
            nat_of(two) == 2,
            nv == nat_of(*n),
            rv == nat_of(*r),
            dv == nat_of(*d),
            av == nat_of(*a),
            nv > 3,
            nat_of(m) == nv - 1,
            nat_of(r_minus_1) == rv - 1,
            rv >= 1,
            nat_of(j) <= rv - 1,
            nat_of(x) as int == pow(av as int, dv * pow2(nat_of(j))) % (nv as int),
            pow(av as int, dv) % (nv as int) != 1,
            forall|jj: nat| jj <= nat_of(j) ==> pow(av as int, dv * #[trigger] pow2(jj)) % (
            nv as int) != nv - 1,
        decreases rv - 1 - nat_of(j),
    {
        let ghost jv = nat_of(j);
        j = biguint_add(&j, &one);
        x = biguint_modpow(&x, &two, n);
        proof {
            let e = dv * pow2(jv);
            lemma_pow_mod_noop(pow(av as int, e), 2, nv as int);
            lemma_pow_multiplies(av as int, e, 2);
            lemma_pow2_unfold(jv + 1);
            assert(e * 2 == dv * pow2(jv + 1)) by (nonlinear_arith)
                requires
                    e == dv * pow2(jv),
                    pow2(jv + 1) == 2 * pow2(jv),
            ;
            assert(nat_of(x) as int == pow(av as int, dv * pow2(jv + 1)) % (nv as int));
        }
        if biguint_eq(&x, &m) {
            proof {
                assert(nat_of(j) < rv);
                assert(pow(av as int, dv * pow2(nat_of(j))) % (nv as int) == nv - 1);
            }
            return true;
        }
        proof {
            assert forall|jj: nat| jj <= nat_of(j) implies pow(av as int, dv * #[trigger] pow2(
                jj)) % (nv as int) != nv - 1 by {
                if jj < nat_of(j) {
                    assert(jj <= jv);
                }
            }
        }
    }
    proof {
        // Every square up to `r - 1` missed `n - 1`, and the first power
        // missed 1: the witness certifies `n` composite.
        assert(nat_of(j) == rv - 1);
        assert forall|jj: nat| jj < rv implies pow(av as int, dv * #[trigger] pow2(jj)) % (
            nv as int) != nv - 1 by {
            assert(jj <= rv - 1);
        }
    }
    false
}

/// Checks whether `n` is probably prime, with `rounds` random witnesses.
///
/// A `false` answer is backed by a witness in `[2, n - 2]` against which
/// `n` failed its round, which no prime has; and a `false` answer is owed
/// whenever every admissible witness so certifies `n`, whatever is drawn.
/// A `true` answer says only that `rounds` independently drawn witnesses
/// all passed; a composite survives that with probability at most
/// `4^-rounds`.
pub fn mrt(n: &BigUint, rounds: u32) -> (res: bool)
    requires
        nat_of(*n) > 3,
        nat_of(*n) % 2 == 1,
        rounds >= 1,
    ensures
        !res ==> exists|a: nat|
            2 <= a <= nat_of(*n) - 2 && #[trigger] mr_composite_witness(nat_of(*n), a),
        mr_all_witnesses_certify(nat_of(*n)) ==> !res,
{
    let (r, d) = factorize(n);
    let mut i: u32 = 0;
    while i < rounds
        invariant
            nat_of(*n) > 3,
            mr_decomposes(nat_of(*n), nat_of(r), nat_of(d)),
            i <= rounds,
            rounds >= 1,
            i > 0 ==> exists|w: nat|
                2 <= w <= nat_of(*n) - 2 && #[trigger] mr_witness_passes(
                    nat_of(*n),
                    nat_of(r),
                    nat_of(d),
                    w,
                ),
        decreases rounds - i,
    {
        let a = pick_random(n);
        if !mrt_round(n, &r, &d, &a) {
            proof {
                assert(mr_composite_witness(nat_of(*n), nat_of(a)));
            }
            return false;
        }
        proof {
            assert(mr_witness_passes(nat_of(*n), nat_of(r), nat_of(d), nat_of(a)));
        }
        i = i + 1;
    }
    proof {
        // Some witness passed its round; were every admissible witness a
        // certificate, that witness would fail the round for the one
        // decomposition of `n - 1` — a contradiction.
        if mr_all_witnesses_certify(nat_of(*n)) {
            let w = choose|w: nat|
                2 <= w <= nat_of(*n) - 2 && #[trigger] mr_witness_passes(
                    nat_of(*n),
                    nat_of(r),
                    nat_of(d),
                    w,
                );
            assert(mr_composite_witness(nat_of(*n), w));
            let (r2, d2) = choose|r2: nat, d2: nat|
                #[trigger] mr_decomposes(nat_of(*n), r2, d2) && !mr_witness_passes(
                    nat_of(*n),
                    r2,
                    d2,
                    w,
                );
            lemma_mr_decomposition_unique(nat_of(*n), nat_of(r), nat_of(d), r2, d2);
            assert(false);
        }
    }
    true
}

} // verus!
