//! The extended Euclidean algorithm.

use vstd::prelude::*;
use num_bigint::BigInt;
use crate::arith::{divides, abs_of, lemma_divides_zero, lemma_divides_self, lemma_divides_add_mul,
    lemma_divides_sub_mul, lemma_abs_opposite_signs};
use crate::bignum::{IntValue, int_of, bigint_clone, bigint_from_u32, bigint_eq, bigint_sub,
    bigint_mul, bigint_div_mod_floor};

verus! {

/// A greatest common divisor together with its Bézout coefficients.
pub trait Egcd<U: IntValue>: IntValue {
    /// Returns `(g, x, y)` with `g == self * x + other * y`, where `g` is a
    /// common divisor of `self` and `other` that, by that identity, every
    /// common divisor divides; so its magnitude is the greatest common
    /// divisor. The sign of `g` follows the last remainder: it is positive
    /// whenever `self` is, and when one operand is zero `g` is the other
    /// operand, sign and all. For positive operands the coefficients stay
    /// within them in magnitude.
    fn egcd(&self, other: &U) -> (r: (U, U, U))
        ensures
            r.0.as_int() == self.as_int() * r.1.as_int() + other.as_int() * r.2.as_int(),
            divides(r.0.as_int(), self.as_int()),
            divides(r.0.as_int(), other.as_int()),
            self.as_int() > 0 ==> r.0.as_int() > 0,
            self.as_int() == 0 ==> r.0.as_int() == other.as_int() && r.1.as_int() == 0
                && r.2.as_int() == 1,
            other.as_int() == 0 && self.as_int() != 0 ==> r.0.as_int() == self.as_int()
                && r.1.as_int() == 1 && r.2.as_int() == 0,
            self.as_int() > 0 && other.as_int() > 0 ==> abs_of(r.1.as_int()) <= other.as_int()
                && abs_of(r.2.as_int()) <= self.as_int(),
    ;
}

impl Egcd<BigInt> for BigInt {
    fn egcd(&self, other: &BigInt) -> (r: (BigInt, BigInt, BigInt)) {
        let ghost a0 = int_of(*self);
        let ghost b0 = int_of(*other);
        let zero = bigint_from_u32(0);
        let mut a = bigint_clone(self);
        let mut b = bigint_clone(other);
        let mut x = bigint_from_u32(0);
        let mut y = bigint_from_u32(1);
        let mut u = bigint_from_u32(1);
        let mut v = bigint_from_u32(0);
        while !bigint_eq(&a, &zero)
            invariant
                int_of(zero) == 0,
                int_of(a) == a0 * int_of(u) + b0 * int_of(v),
                int_of(b) == a0 * int_of(x) + b0 * int_of(y),
                forall|d: int| #[trigger] divides(d, int_of(a)) && divides(d, int_of(b))
                    ==> divides(d, a0) && divides(d, b0),
                forall|d: int| #[trigger] divides(d, a0) && divides(d, b0)
                    ==> divides(d, int_of(a)) && divides(d, int_of(b)),
                a0 > 0 ==> int_of(a) >= 0 && (int_of(a) > 0 || int_of(b) > 0),
                a0 == 0 ==> int_of(a) == 0 && int_of(b) == b0 && int_of(x) == 0
                    && int_of(y) == 1,
                b0 == 0 && a0 != 0 ==> (int_of(a) == a0 && int_of(x) == 0 && int_of(y) == 1
                    && int_of(u) == 1 && int_of(v) == 0)
                    || (int_of(a) == 0 && int_of(b) == a0 && int_of(x) == 1 && int_of(y) == 0),
                a0 > 0 && b0 > 0 ==> int_of(a) >= 0 && int_of(b) > 0
                    && int_of(x) * int_of(u) <= 0
                    && int_of(a) * abs_of(int_of(x)) + int_of(b) * abs_of(int_of(u)) == b0
                    && abs_of(int_of(x)) <= b0
                    && int_of(y) * int_of(v) <= 0
                    && int_of(a) * abs_of(int_of(y)) + int_of(b) * abs_of(int_of(v)) == a0
                    && abs_of(int_of(y)) <= a0,
            decreases abs_of(int_of(a)),
        {
            let (q, rem) = bigint_div_mod_floor(&b, &a);
            let m = bigint_sub(&x, &bigint_mul(&u, &q));
            let n = bigint_sub(&y, &bigint_mul(&v, &q));
            proof {
                let ai = int_of(a);
                let bi = int_of(b);
                let xi = int_of(x);
                let yi = int_of(y);
                let ui = int_of(u);
                let vi = int_of(v);
                let qi = int_of(q);
                let ri = int_of(rem);
                let mi = int_of(m);
                let ni = int_of(n);
                // Bézout identity for the new remainder.
                assert(ri == a0 * mi + b0 * ni) by (nonlinear_arith)
                    requires
                        bi == qi * ai + ri,
                        ai == a0 * ui + b0 * vi,
                        bi == a0 * xi + b0 * yi,
                        mi == xi - ui * qi,
                        ni == yi - vi * qi,
                ;
                // The pairs (rem, a) and (a, b) have the same common divisors.
                assert forall|d: int| #[trigger] divides(d, ri) && divides(d, ai)
                    implies divides(d, a0) && divides(d, b0) by {
                    lemma_divides_add_mul(d, ai, ri, qi);
                    assert(divides(d, bi));
                }
                assert forall|d: int| #[trigger] divides(d, a0) && divides(d, b0)
                    implies divides(d, ri) && divides(d, ai) by {
                    assert(divides(d, ai) && divides(d, bi));
                    lemma_divides_sub_mul(d, bi, ai, qi);
                    assert(divides(d, ri));
                }
                // A zero right operand is consumed in one step, with
                // quotient and remainder both zero.
                if b0 == 0 && a0 != 0 {
                    assert(qi == 0 && ri == 0) by (nonlinear_arith)
                        requires
                            bi == qi * ai + ri,
                            bi == 0,
                            ai != 0,
                            ai > 0 ==> 0 <= ri < ai,
                            ai < 0 ==> ai < ri <= 0,
                    ;
                    assert(mi == 0 && ni == 1) by (nonlinear_arith)
                        requires
                            mi == xi - ui * qi,
                            ni == yi - vi * qi,
                            xi == 0,
                            yi == 1,
                            ui == 1,
                            vi == 0,
                            qi == 0,
                    ;
                }
                // Signs and coefficient magnitudes, for positive inputs.
                if a0 > 0 && b0 > 0 {
                    assert(ai > 0);
                    assert(qi >= 0) by (nonlinear_arith)
                        requires
                            bi == qi * ai + ri,
                            bi > 0,
                            ai > 0,
                            0 <= ri < ai,
                    ;
                    assert(ui * mi <= 0) by (nonlinear_arith)
                        requires
                            mi == xi - ui * qi,
                            xi * ui <= 0,
                            qi >= 0,
                    ;
                    lemma_abs_opposite_signs(xi, ui, qi);
                    let px = abs_of(xi);
                    let pu = abs_of(ui);
                    let pm = abs_of(mi);
                    assert(ri * pu + ai * pm == b0) by (nonlinear_arith)
                        requires
                            pm == px + qi * pu,
                            bi == qi * ai + ri,
                            ai * px + bi * pu == b0,
                    ;
                    assert(pu <= b0) by (nonlinear_arith)
                        requires
                            ai * px + bi * pu == b0,
                            ai > 0,
                            bi >= 1,
                            px >= 0,
                            pu >= 0,
                    ;
                    // The same, for the coefficients of the right operand.
                    assert(vi * ni <= 0) by (nonlinear_arith)
                        requires
                            ni == yi - vi * qi,
                            yi * vi <= 0,
                            qi >= 0,
                    ;
                    lemma_abs_opposite_signs(yi, vi, qi);
                    let py = abs_of(yi);
                    let pv = abs_of(vi);
                    let pn = abs_of(ni);
                    assert(ri * pv + ai * pn == a0) by (nonlinear_arith)
                        requires
                            pn == py + qi * pv,
                            bi == qi * ai + ri,
                            ai * py + bi * pv == a0,
                    ;
                    assert(pv <= a0) by (nonlinear_arith)
                        requires
                            ai * py + bi * pv == a0,
                            ai > 0,
                            bi >= 1,
                            py >= 0,
                            pv >= 0,
                    ;
                }
            }
            b = a;
            a = rem;
            x = u;
            y = v;
            u = m;
            v = n;
        }
        proof {
            let g = int_of(b);
            lemma_divides_zero(g);
            lemma_divides_self(g);
            assert(divides(g, int_of(a)) && divides(g, int_of(b)));
            assert(divides(g, a0) && divides(g, b0));
        }
        (b, x, y)
    }
}

} // verus!
