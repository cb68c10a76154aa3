//! Fixed-point arithmetic: integer square root and division rounded toward zero.
use vstd::prelude::*;

verus! {

/// One unit of length, velocity, acceleration or time: a quantity `v` of
/// the library stands for `v / ONE`.
pub const ONE: i128 = 65536;

/// Whether `r` is the integer square root of `n`.
pub open spec fn is_sqrt(n: int, r: int) -> bool {
    0 <= r && r * r <= n < (r + 1) * (r + 1)
}

/// The integer square root: the largest `r` with `r * r <= n`.
pub open spec fn int_sqrt(n: int) -> int {
    choose|r: int| is_sqrt(n, r)
}

/// Quotient rounded toward zero, as Rust's `/` on signed integers.
pub open spec fn div_trunc(a: int, b: int) -> int {
    if a >= 0 {
        a / b
    } else {
        -((-a) / b)
    }
}

/// Square roots are unique.
pub proof fn lemma_sqrt_unique(n: int, r: int, s: int)
    requires
        is_sqrt(n, r),
        is_sqrt(n, s),
    ensures
        r == s,
{
    if r < s {
        assert((r + 1) * (r + 1) <= s * s) by (nonlinear_arith)
            requires
                0 <= r < s,
        ;
    } else if s < r {
        assert((s + 1) * (s + 1) <= r * r) by (nonlinear_arith)
            requires
                0 <= s < r,
        ;
    }
}

/// `int_sqrt(n)` names the square root found by any witness.
pub proof fn lemma_int_sqrt(n: int, r: int)
    requires
        is_sqrt(n, r),
    ensures
        int_sqrt(n) == r,
{
    let s = int_sqrt(n);
    assert(is_sqrt(n, s));
    lemma_sqrt_unique(n, r, s);
}

/// Integer square root by bisection, for `n < 2^86`.
pub fn isqrt(n: u128) -> (r: u128)
    requires
        n < 0x400000_0000000000000000,
    ensures
        r == int_sqrt(n as int),
        is_sqrt(n as int, r as int),
        r < 0x80000000000,
{
    let mut lo: u128 = 0;
    let mut hi: u128 = 0x80000000000;
    assert(hi * hi == 0x400000_0000000000000000) by (nonlinear_arith)
        requires
            hi == 0x80000000000,
    ;
    while hi - lo > 1
        invariant
            lo < hi <= 0x80000000000,
            lo * lo <= n,
            n < hi * hi,
        decreases hi - lo,
    {
        let mid = lo + (hi - lo) / 2;
        assert(mid * mid < 0x400000_0000000000000000) by (nonlinear_arith)
            requires
                mid < 0x80000000000,
        ;
        if mid * mid <= n {
            lo = mid;
        } else {
            hi = mid;
        }
    }
    proof {
        assert(hi == lo + 1);
        lemma_int_sqrt(n as int, lo as int);
    }
    lo
}

/// `a / b` rounded toward zero.
pub fn div_toward_zero(a: i128, b: i128) -> (r: i128)
    requires
        b > 0,
        -0x4000_0000_0000_0000_0000_0000_0000_0000 < a < 0x4000_0000_0000_0000_0000_0000_0000_0000,
    ensures
        r == div_trunc(a as int, b as int),
{
    if a >= 0 {
        let q = (a as u128) / (b as u128);
        q as i128
    } else {
        let q = ((-a) as u128) / (b as u128);
        -(q as i128)
    }
}

/// Rounding toward zero never grows the magnitude beyond `|a| / b`.
pub proof fn lemma_div_trunc_bound(a: int, b: int, m: int)
    requires
        b > 0,
        -(m * b) <= a <= m * b,
        m >= 0,
    ensures
        -m <= div_trunc(a, b) <= m,
{
    if a >= 0 {
        assert(a / b <= m) by (nonlinear_arith)
            requires
                b > 0,
                0 <= a <= m * b,
        ;
        assert(a / b >= 0) by (nonlinear_arith)
            requires
                b > 0,
                0 <= a,
        ;
    } else {
        assert((-a) / b <= m) by (nonlinear_arith)
            requires
                b > 0,
                0 <= -a <= m * b,
        ;
        assert((-a) / b >= 0) by (nonlinear_arith)
            requires
                b > 0,
                0 <= -a,
        ;
    }
}

/// Rounding toward zero is odd: `div_trunc(-a, b) == -div_trunc(a, b)`.
pub proof fn lemma_div_trunc_odd(a: int, b: int)
    requires
        b != 0,
    ensures
        div_trunc(-a, b) == -div_trunc(a, b),
{
    if a == 0 {
        assert(0int / b == 0) by (nonlinear_arith)
            requires
                b != 0,
        ;
    }
}

} // verus!
