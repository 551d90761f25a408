use vstd::prelude::*;

verus! {

/// Integer division rounded toward zero, for a positive divisor.
pub open spec fn tdiv(a: int, d: int) -> int {
    if a >= 0 {
        a / d
    } else {
        -((-a) / d)
    }
}

/// Division rounded toward zero, as Rust's `/` rounds on signed integers.
pub fn div_toward_zero(a: i64, d: i64) -> (r: i64)
    requires
        d > 0,
        a > i64::MIN,
    ensures
        r == tdiv(a as int, d as int),
{
    if a >= 0 {
        a / d
    } else {
        -((-a) / d)
    }
}

/// The magnitude of a quotient rounded toward zero is at most that of the exact quotient.
pub proof fn lemma_tdiv_bound(a: int, d: int)
    requires
        d > 0,
    ensures
        a >= 0 ==> 0 <= tdiv(a, d) && d * tdiv(a, d) <= a,
        a < 0 ==> tdiv(a, d) <= 0 && a <= d * tdiv(a, d),
        tdiv(-a, d) == -tdiv(a, d),
{
    if a >= 0 {
        assert(0 <= a / d) by (nonlinear_arith) requires a >= 0, d > 0;
        assert(d * (a / d) <= a) by (nonlinear_arith) requires a >= 0, d > 0;
    } else {
        let b = -a;
        assert(0 <= b / d) by (nonlinear_arith) requires b >= 0, d > 0;
        assert(d * (b / d) <= b) by (nonlinear_arith) requires b >= 0, d > 0;
        assert(d * (-(b / d)) == -(d * (b / d))) by (nonlinear_arith);
    }
}

/// Integer division rounded away from zero, for a positive divisor: a
/// nonzero quotient never rounds to nothing.
pub open spec fn adiv(a: int, d: int) -> int {
    if a >= 0 {
        (a + d - 1) / d
    } else {
        -((-a + d - 1) / d)
    }
}

/// Division rounded away from zero.
pub fn div_away_from_zero(a: i64, d: i64) -> (r: i64)
    requires
        d > 0,
        -0x4000_0000_0000_0000 <= a <= 0x4000_0000_0000_0000,
        d <= 0x4000_0000_0000_0000,
    ensures
        r == adiv(a as int, d as int),
{
    if a >= 0 {
        (a + (d - 1)) / d
    } else {
        -((-a + (d - 1)) / d)
    }
}

/// A quotient rounded away from zero keeps the sign of the dividend, is
/// nonzero for a nonzero dividend, and overshoots the exact quotient by less
/// than one.
pub proof fn lemma_adiv_bound(a: int, d: int)
    requires
        d > 0,
    ensures
        a >= 0 ==> 0 <= adiv(a, d) && a <= d * adiv(a, d) < a + d,
        a < 0 ==> adiv(a, d) <= 0 && a - d < d * adiv(a, d) <= a,
        a > 0 ==> adiv(a, d) >= 1,
        a < 0 ==> adiv(a, d) <= -1,
        adiv(-a, d) == -adiv(a, d),
{
    if a >= 0 {
        let n = a + d - 1;
        assert(0 <= n / d) by (nonlinear_arith) requires n >= 0, d > 0;
        assert(d * (n / d) <= n < d * (n / d) + d) by (nonlinear_arith) requires n >= 0, d > 0;
    } else {
        let n = -a + d - 1;
        assert(0 <= n / d) by (nonlinear_arith) requires n >= 0, d > 0;
        assert(d * (n / d) <= n < d * (n / d) + d) by (nonlinear_arith) requires n >= 0, d > 0;
        assert(d * (-(n / d)) == -(d * (n / d))) by (nonlinear_arith);
    }
    assert((d - 1) / d == 0) by (nonlinear_arith) requires d > 0;
    if a > 0 {
        assert(adiv(a, d) >= 1) by (nonlinear_arith)
            requires a > 0, d * adiv(a, d) >= a, d > 0;
    }
    if a < 0 {
        assert(adiv(a, d) <= -1) by (nonlinear_arith)
            requires a < 0, d * adiv(a, d) <= a, d > 0;
    }
}

/// `r` is the least natural number whose square reaches `n`.
pub open spec fn is_ceil_sqrt(n: int, r: int) -> bool {
    &&& 0 <= r
    &&& n <= r * r
    &&& (r == 0 || (r - 1) * (r - 1) < n)
}

/// The least natural number whose square reaches `n`.
pub open spec fn ceil_sqrt_spec(n: int) -> int {
    choose|r: int| is_ceil_sqrt(n, r)
}

proof fn lemma_square_monotone(a: int, b: int)
    requires
        0 <= a <= b,
    ensures
        a * a <= b * b,
{
    assert(a * a <= b * b) by (nonlinear_arith) requires 0 <= a <= b;
}

/// There is at most one least square root above `n`.
pub proof fn lemma_ceil_sqrt_unique(n: int, r: int, s: int)
    requires
        is_ceil_sqrt(n, r),
        is_ceil_sqrt(n, s),
    ensures
        r == s,
{
    if r < s {
        lemma_square_monotone(r, s - 1);
    } else if s < r {
        lemma_square_monotone(s, r - 1);
    }
}

/// The least natural number whose square reaches `n`, found by bisection.
pub fn ceil_sqrt(n: u64) -> (r: u64)
    requires
        n <= 0x4000_0000_0000_0000,
    ensures
        is_ceil_sqrt(n as int, r as int),
        r == ceil_sqrt_spec(n as int),
        r <= 0x8000_0000,
{
    if n == 0 {
        proof {
            lemma_ceil_sqrt_unique(0, 0, ceil_sqrt_spec(0));
        }
        return 0;
    }
    let mut lo: u64 = 0;
    let mut hi: u64 = 0x8000_0000;
    assert(0x8000_0000int * 0x8000_0000int == 0x4000_0000_0000_0000int);
    while hi - lo > 1
        invariant
            0 <= lo < hi <= 0x8000_0000,
            lo * lo < n,
            n <= hi * hi,
        decreases hi - lo,
    {
        let mid: u64 = lo + (hi - lo) / 2;
        assert(mid * mid <= 0x4000_0000_0000_0000) by (nonlinear_arith)
            requires mid <= 0x8000_0000;
        if mid * mid < n {
            lo = mid;
        } else {
            hi = mid;
        }
    }
    assert(is_ceil_sqrt(n as int, hi as int));
    proof {
        lemma_ceil_sqrt_unique(n as int, hi as int, ceil_sqrt_spec(n as int));
    }
    hi
}

} // verus!
