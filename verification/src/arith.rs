//! Divisibility and coprimality, with the lemmas the algorithms need.

use vstd::prelude::*;

verus! {

/// `d` divides `n`: some integer multiple of `d` equals `n`.
pub open spec fn divides(d: int, n: int) -> bool {
    exists|k: int| n == #[trigger] (d * k)
}

/// `a` and `b` have no common divisor besides 1 and -1.
pub open spec fn coprime(a: int, b: int) -> bool {
    forall|d: int| #[trigger] divides(d, a) && divides(d, b) ==> d == 1 || d == -1
}

/// The absolute value of an integer.
pub open spec fn abs_of(x: int) -> int {
    if x < 0 {
        -x
    } else {
        x
    }
}

/// Everything divides zero.
pub proof fn lemma_divides_zero(d: int)
    ensures
        divides(d, 0),
{
    assert(0 == d * 0);
}

/// Everything divides itself.
pub proof fn lemma_divides_self(d: int)
    ensures
        divides(d, d),
{
    assert(d == d * 1);
}

/// A divisor of `a` and `r` divides `q * a + r`.
pub proof fn lemma_divides_add_mul(d: int, a: int, r: int, q: int)
    requires
        divides(d, a),
        divides(d, r),
    ensures
        divides(d, q * a + r),
{
    let ka = choose|k: int| a == #[trigger] (d * k);
    let kr = choose|k: int| r == #[trigger] (d * k);
    assert(q * a + r == d * (q * ka + kr)) by (nonlinear_arith)
        requires
            a == d * ka,
            r == d * kr,
    ;
}

/// A divisor of `b` and `a` divides `b - q * a`.
pub proof fn lemma_divides_sub_mul(d: int, b: int, a: int, q: int)
    requires
        divides(d, b),
        divides(d, a),
    ensures
        divides(d, b - q * a),
{
    let kb = choose|k: int| b == #[trigger] (d * k);
    let ka = choose|k: int| a == #[trigger] (d * k);
    assert(b - q * a == d * (kb - q * ka)) by (nonlinear_arith)
        requires
            b == d * kb,
            a == d * ka,
    ;
}

/// When `x` and `u` do not share a sign and `q` is not negative, the
/// magnitude of `x - u * q` splits into the two magnitudes.
pub proof fn lemma_abs_opposite_signs(x: int, u: int, q: int)
    requires
        x * u <= 0,
        q >= 0,
    ensures
        abs_of(x - u * q) == abs_of(x) + q * abs_of(u),
{
    if x == 0 {
        assert(abs_of(0 - u * q) == q * abs_of(u)) by (nonlinear_arith)
            requires
                q >= 0,
        ;
    } else if x > 0 {
        assert(u <= 0) by (nonlinear_arith)
            requires
                x * u <= 0,
                x > 0,
        ;
        assert(u * q <= 0) by (nonlinear_arith)
            requires
                u <= 0,
                q >= 0,
        ;
        assert(x - u * q == abs_of(x) + q * abs_of(u)) by (nonlinear_arith)
            requires
                x > 0,
                u <= 0,
                q >= 0,
                abs_of(x) == x,
                abs_of(u) == -u,
        ;
    } else {
        assert(u >= 0) by (nonlinear_arith)
            requires
                x * u <= 0,
                x < 0,
        ;
        assert(u * q >= 0) by (nonlinear_arith)
            requires
                u >= 0,
                q >= 0,
        ;
        assert(-(x - u * q) == abs_of(x) + q * abs_of(u)) by (nonlinear_arith)
            requires
                x < 0,
                u >= 0,
                q >= 0,
                abs_of(x) == -x,
                abs_of(u) == u,
        ;
    }
}

} // verus!
