//! Checked `i128` arithmetic and the integer facts the matrix code leans on.

use vstd::prelude::*;

verus! {

/// `x` is the value of some `i128`.
pub open spec fn fits(x: int) -> bool {
    i128::MIN <= x <= i128::MAX
}

/// The absolute value of `x`.
pub open spec fn iabs(x: int) -> int {
    if x < 0 {
        -x
    } else {
        x
    }
}

/// The sign of `x`: -1, 0 or 1.
pub open spec fn signum(x: int) -> int {
    if x < 0 {
        -1
    } else if x == 0 {
        0
    } else {
        1
    }
}

/// The quotient of `x` by `d` rounded toward zero.
pub open spec fn tdiv(x: int, d: int) -> int {
    signum(x) * signum(d) * (iabs(x) / iabs(d))
}

/// What is left of `x` after taking out `tdiv(x, d)` copies of `d`.
pub open spec fn trem(x: int, d: int) -> int {
    x - tdiv(x, d) * d
}

/// The truncated remainder is smaller than the divisor and keeps the sign
/// of the dividend; for a positive divisor it vanishes exactly when `d`
/// divides `x`.
pub proof fn lemma_trem(x: int, d: int)
    requires
        d != 0,
    ensures
        iabs(trem(x, d)) < iabs(d),
        trem(x, d) == signum(x) * (iabs(x) % iabs(d)),
        d > 0 ==> (trem(x, d) == 0 <==> x % d == 0),
        iabs(x) < iabs(d) ==> tdiv(x, d) == 0,
        tdiv(x, d) == 0 ==> trem(x, d) == x,
{
    let ax = iabs(x);
    let ad = iabs(d);
    let q = ax / ad;
    let r = ax % ad;
    let sx = signum(x);
    let sd = signum(d);
    vstd::arithmetic::div_mod::lemma_fundamental_div_mod(ax, ad);
    vstd::arithmetic::div_mod::lemma_mod_bound(ax, ad);
    assert(ax == ad * q + r);
    assert(sd * d == ad);
    assert(sx * sd * q * d == sx * (ad * q)) by (nonlinear_arith)
        requires
            sd * d == ad,
    ;
    assert(sx * (ad * q + r) == sx * (ad * q) + sx * r) by (nonlinear_arith);
    assert(sx * ax == x);
    assert(trem(x, d) == sx * r);
    if x < 0 {
        assert(sx * r == -r);
    } else if x == 0 {
        assert(sx * r == 0);
    } else {
        assert(sx * r == r);
    }
    if d > 0 {
        lemma_mod_abs(x, d);
    }
    if ax < ad {
        vstd::arithmetic::div_mod::lemma_basic_div(ax, ad);
        assert(sx * sd * 0 == 0);
    }
    if tdiv(x, d) == 0 {
        assert(0 * d == 0);
    }
}

/// Divisibility by a positive number does not depend on the sign of the
/// dividend.
pub proof fn lemma_mod_abs(x: int, d: int)
    requires
        d > 0,
    ensures
        x % d == 0 <==> iabs(x) % d == 0,
{
    if x < 0 {
        if x % d == 0 {
            lemma_mod_combination(x, x, -1, 0, d);
            assert((-1) * x + 0 * x == -x);
        }
        if (-x) % d == 0 {
            lemma_mod_combination(-x, -x, -1, 0, d);
            assert((-1) * (-x) + 0 * (-x) == x);
        }
    }
}

/// A multiple of a positive `d` leaves no remainder on division by `d`.
pub proof fn lemma_multiple_mod(d: int, q: int)
    requires
        d > 0,
    ensures
        (d * q) % d == 0,
{
    vstd::arithmetic::div_mod::lemma_mod_multiples_basic(q, d);
    assert(q * d == d * q) by (nonlinear_arith);
}

/// A combination of two multiples of `d` is a multiple of `d`.
pub proof fn lemma_mod_combination(x: int, y: int, s: int, c: int, d: int)
    requires
        d > 0,
        x % d == 0,
        y % d == 0,
    ensures
        (s * x + c * y) % d == 0,
{
    vstd::arithmetic::div_mod::lemma_fundamental_div_mod(x, d);
    vstd::arithmetic::div_mod::lemma_fundamental_div_mod(y, d);
    let qx = x / d;
    let qy = y / d;
    assert(s * x + c * y == d * (s * qx + c * qy)) by (nonlinear_arith)
        requires
            x == d * qx,
            y == d * qy,
    ;
    lemma_multiple_mod(d, s * qx + c * qy);
}

/// The sign of `i`: -1, 0 or 1.
pub fn sign(i: i128) -> (r: i128)
    ensures
        r == signum(i as int),
{
    if i == 0 {
        0
    } else if i < 0 {
        -1
    } else {
        1
    }
}

/// The absolute value of `v`, which always fits in `u128`.
pub fn magnitude(v: i128) -> (r: u128)
    ensures
        r == iabs(v as int),
{
    if v >= 0 {
        v as u128
    } else if v == i128::MIN {
        0x8000_0000_0000_0000_0000_0000_0000_0000u128
    } else {
        (-v) as u128
    }
}

/// `a + c * b`, or `None` when the product or the sum leaves `i128`.
pub fn mul_add(a: i128, c: i128, b: i128) -> (r: Option<i128>)
    ensures
        r == (if fits(c * b) && fits(a + c * b) {
            Some((a + c * b) as i128)
        } else {
            None
        }),
{
    match c.checked_mul(b) {
        None => None,
        Some(t) => a.checked_add(t),
    }
}

/// The quotient of `x` by a positive `d`, rounded toward zero.
pub fn div_toward_zero(x: i128, d: i128) -> (q: i128)
    requires
        d > 0,
    ensures
        q == tdiv(x as int, d as int),
{
    let q: i128 = x / d;
    proof {
        let ax = iabs(x as int);
        assert(signum(d as int) == 1);
        assert(signum(x as int) * 1 * (ax / (d as int)) == signum(x as int) * (ax / (d as int)))
            by (nonlinear_arith);
        if x >= 0 {
            assert(1 * (ax / (d as int)) == ax / (d as int));
        } else {
            assert((-1) * (ax / (d as int)) == -(ax / (d as int)));
        }
    }
    q
}

} // verus!
