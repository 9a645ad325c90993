//! Fixed-point scalars: range, saturation, scaled products and square roots.

use vstd::prelude::*;

verus! {

/// Raw steps in the scalar one.
pub const UNIT: i64 = 1_000_000;

/// Largest magnitude a stored scalar may take, in raw steps.
pub const LIMIT: i64 = 1_000_000_000_000_000_000;

/// Whether `x` can be stored.
pub open spec fn in_range(x: int) -> bool {
    -LIMIT <= x <= LIMIT
}

/// The storable value nearest to `x`.
pub open spec fn clamp(x: int) -> int {
    if x < -LIMIT {
        -LIMIT as int
    } else if x > LIMIT {
        LIMIT as int
    } else {
        x
    }
}

/// The magnitude of `x`.
pub open spec fn magnitude(x: int) -> int {
    if x < 0 {
        -x
    } else {
        x
    }
}

/// `a / d` for `a >= 0` and `d > 0`, rounded up.
pub open spec fn div_up(a: int, d: int) -> int {
    if a % d == 0 {
        a / d
    } else {
        a / d + 1
    }
}

/// `a / d` for `d > 0`, rounded toward zero.
pub open spec fn div_toward_zero(a: int, d: int) -> int {
    if a >= 0 {
        a / d
    } else {
        -((-a) / d)
    }
}

/// `a / d` for `d > 0`, rounded away from zero.
pub open spec fn div_away_from_zero(a: int, d: int) -> int {
    if a >= 0 {
        div_up(a, d)
    } else {
        -div_up(-a, d)
    }
}

/// Whether `r` is the integer square root of `n`.
pub open spec fn is_root(n: int, r: int) -> bool {
    0 <= r && r * r <= n < (r + 1) * (r + 1)
}

/// The integer square root of `n`: the largest `r` with `r * r <= n`.
pub open spec fn isqrt(n: int) -> int {
    choose|r: int| is_root(n, r)
}

/// A number has at most one integer square root.
pub proof fn lemma_root_unique(n: int, r: int, s: int)
    requires
        is_root(n, r),
        is_root(n, s),
    ensures
        r == s,
{
    if r < s {
        assert((r + 1) * (r + 1) <= s * s) by (nonlinear_arith)
            requires
                0 <= r,
                r + 1 <= s,
        ;
    } else if s < r {
        assert((s + 1) * (s + 1) <= r * r) by (nonlinear_arith)
            requires
                0 <= s,
                s + 1 <= r,
        ;
    }
}

/// Every number that is not negative has an integer square root.
pub proof fn lemma_root_exists(n: int)
    requires
        n >= 0,
    ensures
        is_root(n, isqrt(n)),
    decreases n,
{
    if n == 0 {
        assert(is_root(0, 0));
    } else {
        lemma_root_exists(n - 1);
        let r: int = isqrt(n - 1);
        if (r + 1) * (r + 1) <= n {
            assert((r + 1) * (r + 1) < (r + 2) * (r + 2)) by (nonlinear_arith)
                requires
                    0 <= r,
            ;
            assert(is_root(n, r + 1));
        } else {
            assert(is_root(n, r));
        }
    }
}

/// Whatever satisfies `is_root` is the value that `isqrt` names.
pub proof fn lemma_root_is_isqrt(n: int, r: int)
    requires
        is_root(n, r),
    ensures
        isqrt(n) == r,
{
    lemma_root_unique(n, r, isqrt(n));
}

/// Brings a wide intermediate result back into the stored range.
pub fn saturate(x: i128) -> (r: i64)
    ensures
        r as int == clamp(x as int),
{
    if x < -(LIMIT as i128) {
        -LIMIT
    } else if x > LIMIT as i128 {
        LIMIT
    } else {
        x as i64
    }
}

/// The magnitude of `x`, widened so that the smallest `i64` has one too.
pub fn magnitude_of(x: i64) -> (m: u128)
    ensures
        m as int == magnitude(x as int),
        m <= 0x8000_0000_0000_0000,
{
    if x >= 0 {
        x as u128
    } else {
        (-(x as i128)) as u128
    }
}

/// `x * k / d`, rounded toward zero.
pub fn mul_div(x: i64, k: u64, d: u64) -> (r: i128)
    requires
        d > 0,
    ensures
        r as int == div_toward_zero(x as int * k as int, d as int),
{
    let m: u128 = magnitude_of(x);
    assert(m * k <= 0x8000_0000_0000_0000 * 0xffff_ffff_ffff_ffff) by (nonlinear_arith)
        requires
            0 <= m <= 0x8000_0000_0000_0000,
            0 <= k <= 0xffff_ffff_ffff_ffff,
    ;
    let p: u128 = m * (k as u128);
    let q: u128 = p / (d as u128);
    proof {
        assert(0 <= p as int / d as int <= p as int) by (nonlinear_arith)
            requires
                0 <= p,
                d > 0,
        ;
        if x >= 0 {
            assert(x as int * k as int >= 0) by (nonlinear_arith)
                requires
                    x >= 0,
                    k >= 0,
            ;
        } else {
            assert(-(x as int * k as int) == (-(x as int)) * k as int) by (nonlinear_arith);
            assert((-(x as int)) * k as int >= 0) by (nonlinear_arith)
                requires
                    x < 0,
                    k >= 0,
            ;
        }
    }
    if x >= 0 {
        q as i128
    } else {
        -(q as i128)
    }
}

/// `x * k / d`, rounded away from zero.
pub fn mul_div_away(x: i64, k: u64, d: u64) -> (r: i128)
    requires
        d > 0,
    ensures
        r as int == div_away_from_zero(x as int * k as int, d as int),
{
    let m: u128 = magnitude_of(x);
    assert(m * k <= 0x8000_0000_0000_0000 * 0xffff_ffff_ffff_ffff) by (nonlinear_arith)
        requires
            0 <= m <= 0x8000_0000_0000_0000,
            0 <= k <= 0xffff_ffff_ffff_ffff,
    ;
    let p: u128 = m * (k as u128);
    let q: u128 = p / (d as u128);
    let rem: u128 = p % (d as u128);
    proof {
        assert(0 <= p as int / d as int <= p as int) by (nonlinear_arith)
            requires
                0 <= p,
                d > 0,
        ;
        if x >= 0 {
            assert(x as int * k as int >= 0) by (nonlinear_arith)
                requires
                    x >= 0,
                    k >= 0,
            ;
        } else {
            assert(-(x as int * k as int) == (-(x as int)) * k as int) by (nonlinear_arith);
            assert((-(x as int)) * k as int >= 0) by (nonlinear_arith)
                requires
                    x < 0,
                    k >= 0,
            ;
        }
    }
    let up: u128 = if rem == 0 {
        q
    } else {
        q + 1
    };
    proof {
        let a: int = x as int * k as int;
        assert(p as int == magnitude(a));
        assert(up as int == div_up(p as int, d as int));
        if a == 0 {
            assert(0int % (d as int) == 0 && 0int / (d as int) == 0) by (nonlinear_arith)
                requires
                    d > 0,
            ;
        }
    }
    if x >= 0 {
        up as i128
    } else {
        -(up as i128)
    }
}

/// The fixed-point product of `x` and `k`, rounded toward zero.
pub open spec fn product(x: int, k: int) -> int {
    div_toward_zero(x * k, UNIT as int)
}

/// Rounding toward zero treats a value and its negation alike.
pub proof fn lemma_div_toward_zero_odd(a: int, d: int)
    requires
        d > 0,
    ensures
        div_toward_zero(-a, d) == -div_toward_zero(a, d),
{
    if a == 0 {
        assert(0int / d == 0) by (nonlinear_arith)
            requires
                d > 0,
        ;
    }
}

/// Rounding toward zero never grows a magnitude, and keeps the sign.
pub proof fn lemma_div_toward_zero_bound(a: int, d: int)
    requires
        d > 0,
    ensures
        magnitude(div_toward_zero(a, d)) <= magnitude(a),
        a >= 0 ==> div_toward_zero(a, d) >= 0,
        a <= 0 ==> div_toward_zero(a, d) <= 0,
{
    let m: int = magnitude(a);
    assert(0 <= m / d <= m) by (nonlinear_arith)
        requires
            0 <= m,
            d > 0,
    ;
}

/// Rounding away from zero overshoots by less than one, and keeps the sign.
pub proof fn lemma_div_away_from_zero_bound(a: int, d: int)
    requires
        d > 0,
    ensures
        magnitude(a) <= magnitude(div_away_from_zero(a, d)) * d < magnitude(a) + d,
        a > 0 ==> div_away_from_zero(a, d) >= 1,
        a < 0 ==> div_away_from_zero(a, d) <= -1,
        a == 0 ==> div_away_from_zero(a, d) == 0,
{
    let m: int = magnitude(a);
    let q: int = m / d;
    let r: int = m % d;
    assert(m == q * d + r && 0 <= r < d && 0 <= q) by (nonlinear_arith)
        requires
            q == m / d,
            r == m % d,
            0 <= m,
            d > 0,
    ;
    assert((q + 1) * d == q * d + d) by (nonlinear_arith);
    if m > 0 && div_up(m, d) < 1 {
        assert(q * d == 0) by (nonlinear_arith)
            requires
                q == 0,
        ;
    }
}

/// The fixed-point product of `x` and `k`, saturated into the stored range.
pub fn times(x: i64, k: i64) -> (r: i64)
    ensures
        r as int == clamp(product(x as int, k as int)),
{
    let m: u128 = magnitude_of(k);
    let q: i128 = mul_div(x, m as u64, UNIT as u64);
    proof {
        let a: int = x as int * m as int;
        lemma_div_toward_zero_bound(a, UNIT as int);
        assert(magnitude(a) <= 0x8000_0000_0000_0000 * 0x8000_0000_0000_0000)
            by (nonlinear_arith)
            requires
                a == x as int * m as int,
                -0x8000_0000_0000_0000 <= x as int <= 0x8000_0000_0000_0000,
                0 <= m as int <= 0x8000_0000_0000_0000,
        ;
        if k < 0 {
            assert(x as int * k as int == -a) by (nonlinear_arith)
                requires
                    a == x as int * m as int,
                    k as int == -(m as int),
            ;
            lemma_div_toward_zero_odd(a, UNIT as int);
        }
    }
    if k >= 0 {
        saturate(q)
    } else {
        saturate(-q)
    }
}

/// The integer square root of `n`.
pub fn root(n: u128) -> (r: u64)
    ensures
        r as int == isqrt(n as int),
        is_root(n as int, r as int),
{
    let mut lo: u128 = 0;
    let mut hi: u128 = 0x1_0000_0000_0000_0000;
    assert(0x1_0000_0000_0000_0000int * 0x1_0000_0000_0000_0000int
        == 0x1_0000_0000_0000_0000_0000_0000_0000_0000int) by (nonlinear_arith);
    while hi - lo > 1
        invariant
            lo < hi <= 0x1_0000_0000_0000_0000,
            lo * lo <= n < hi * hi,
        decreases hi - lo,
    {
        let mid: u128 = lo + (hi - lo) / 2;
        assert(mid * mid <= 0xffff_ffff_ffff_ffff * 0xffff_ffff_ffff_ffff) by (nonlinear_arith)
            requires
                0 <= mid <= 0xffff_ffff_ffff_ffff,
        ;
        if mid * mid <= n {
            lo = mid;
        } else {
            hi = mid;
        }
    }
    proof {
        assert(hi == lo + 1);
        lemma_root_is_isqrt(n as int, lo as int);
    }
    lo as u64
}

} // verus!
