//! Fixed-point scalars.
//!
//! Every coordinate, length, speed and duration in this crate is an `i64`
//! that counts units of 2^-32: the raw value `ONE` stands for the number
//! one.  All operations are total.  A result that does not fit is replaced
//! by the nearest representable value, and a quotient or a product is
//! rounded toward zero.
use vstd::prelude::*;

verus! {

/// Raw value of the number one.
pub const ONE: i64 = 0x1_0000_0000;

/// Raw value of one half.
pub const HALF: i64 = 0x8000_0000;

/// Raw value of the number two.
pub const TWO: i64 = 0x2_0000_0000;

/// Raw value of the number three.
pub const THREE: i64 = 0x3_0000_0000;

/// Raw value of the number minus one.
pub const MINUS_ONE: i64 = -0x1_0000_0000;

/// Raw value of the number minus two.
pub const MINUS_TWO: i64 = -0x2_0000_0000;

/// Raw value of minus one half.
pub const MINUS_HALF: i64 = -0x8000_0000;

/// The largest raw value, in either direction, that is far enough from the
/// ends of the `i64` range for sums of a few such values to be exact.
pub const LIMIT: i64 = 0x1000_0000_0000_0000;

/// The raw value `v` is at most `LIMIT` away from zero.
pub open spec fn tame(v: i64) -> bool {
    -LIMIT <= v <= LIMIT
}

/// The representable raw value nearest to `v`.
pub open spec fn clamp(v: int) -> i64 {
    if v > i64::MAX {
        i64::MAX
    } else if v < i64::MIN {
        i64::MIN
    } else {
        v as i64
    }
}

/// The distance of `v` from zero.
pub open spec fn magnitude(v: int) -> int {
    if v < 0 {
        -v
    } else {
        v
    }
}

/// The quotient of `n` by a positive `d`, rounded toward zero.
pub open spec fn toward_zero(n: int, d: int) -> int
    recommends
        d > 0,
{
    if n >= 0 {
        n / d
    } else {
        -((-n) / d)
    }
}

/// `a + b`, saturating.
pub open spec fn sum(a: i64, b: i64) -> i64 {
    clamp(a + b)
}

/// `a - b`, saturating.
pub open spec fn diff(a: i64, b: i64) -> i64 {
    clamp(a - b)
}

/// `-a`, saturating: the negation of `i64::MIN` is `i64::MAX`.
pub open spec fn negated(a: i64) -> i64 {
    clamp(-a)
}

/// `|a|`, saturating: the absolute value of `i64::MIN` is `i64::MAX`.
pub open spec fn absolute(a: i64) -> i64 {
    clamp(magnitude(a as int))
}

/// The fixed-point product of `a` and `b`: the exact product of the two raw
/// values divided by `ONE`, rounded toward zero, saturating.
pub open spec fn prod(a: i64, b: i64) -> i64 {
    clamp(toward_zero(a * b, ONE as int))
}

/// The fixed-point quotient of `a` by `b`, rounded toward zero, saturating.
/// A quotient by zero is the extreme value with the sign of `a`, and zero
/// for `a == 0`.
pub open spec fn ratio(a: i64, b: i64) -> i64 {
    if b == 0 {
        if a > 0 {
            i64::MAX
        } else if a < 0 {
            i64::MIN
        } else {
            0
        }
    } else if b > 0 {
        clamp(toward_zero(a * ONE, b as int))
    } else {
        clamp(toward_zero(-(a * ONE), -b))
    }
}

/// The fixed-point value of the integer `n`, saturating.
pub open spec fn whole(n: int) -> i64 {
    clamp(n * ONE)
}

/// The length of the hypotenuse over the legs `x` and `y`, rounded down to a
/// raw unit, saturating: the integer square root of the exact sum of the
/// two squared raw values.
pub open spec fn hypot(x: i64, y: i64) -> i64 {
    clamp(root(x * x + y * y))
}

/// `r` is the integer square root of `n`: the largest integer whose square
/// does not exceed `n`.
pub open spec fn is_root(n: int, r: int) -> bool {
    0 <= r && r * r <= n && n < (r + 1) * (r + 1)
}

/// The integer square root of `n`, for `n >= 0`.
pub open spec fn root(n: int) -> int {
    choose|r: int| is_root(n, r)
}

/// Squaring is strictly monotonic on the non-negative integers.
pub proof fn lemma_square_monotonic(a: int, b: int)
    requires
        0 <= a < b,
    ensures
        a * a < b * b,
{
    assert(a * a <= a * b) by (nonlinear_arith)
        requires
            0 <= a < b,
    ;
    assert(a * b < b * b) by (nonlinear_arith)
        requires
            0 <= a < b,
    ;
}

/// An integer square root is unique: whatever satisfies `is_root` is `root`.
pub proof fn lemma_root_unique(n: int, r: int)
    requires
        is_root(n, r),
    ensures
        root(n) == r,
{
    let s = root(n);
    assert(is_root(n, s));
    if s < r {
        lemma_square_monotonic(s + 1, r + 1);
        if s + 1 < r {
            lemma_square_monotonic(s + 1, r);
        }
    } else if r < s {
        lemma_square_monotonic(r + 1, s + 1);
        if r + 1 < s {
            lemma_square_monotonic(r + 1, s);
        }
    }
}

/// Every non-negative integer has an integer square root, and it is at most
/// the integer itself.
pub proof fn lemma_root_exists(n: int)
    requires
        0 <= n,
    ensures
        is_root(n, root(n)),
        root(n) <= n,
    decreases n,
{
    if n == 0 {
        lemma_root_unique(0, 0);
    } else {
        lemma_root_exists(n - 1);
        let r = root(n - 1);
        if (r + 1) * (r + 1) <= n {
            assert((r + 2) * (r + 2) > (r + 1) * (r + 1)) by (nonlinear_arith)
                requires
                    r >= 0,
            ;
            assert(is_root(n, r + 1));
            assert(r + 1 <= n) by (nonlinear_arith)
                requires
                    r >= 0,
                    (r + 1) * (r + 1) <= n,
            ;
        } else {
            assert(is_root(n, r));
        }
        let s = root(n);
        assert(s <= n) by {
            if s > n {
                assert(s * s > n) by (nonlinear_arith)
                    requires
                        s > n,
                        n >= 1,
                ;
            }
        }
    }
}

/// A square does not shrink when its base grows, on the non-negative
/// integers.
pub proof fn lemma_square_ordered(a: int, b: int)
    requires
        0 <= a <= b,
    ensures
        a * a <= b * b,
{
    if a < b {
        lemma_square_monotonic(a, b);
    }
}

/// Of two non-negative integers, the one with the smaller square is the
/// smaller.
pub proof fn lemma_square_smaller(a: int, b: int)
    requires
        0 <= a,
        0 <= b,
        a * a < b * b,
    ensures
        a < b,
{
    if b <= a {
        lemma_square_ordered(b, a);
    }
}

/// Rounding a quotient toward zero keeps its sign and takes away less than
/// one: the rounded quotient times the divisor is as far from zero as the
/// dividend, less some part of the divisor.
pub proof fn lemma_toward_zero(n: int, d: int)
    requires
        d > 0,
    ensures
        n >= 0 ==> toward_zero(n, d) >= 0,
        n <= 0 ==> toward_zero(n, d) <= 0,
        magnitude(toward_zero(n, d)) * d <= magnitude(n) < (magnitude(toward_zero(n, d)) + 1) * d,
{
    let m = magnitude(n);
    vstd::arithmetic::div_mod::lemma_fundamental_div_mod(m, d);
    vstd::arithmetic::div_mod::lemma_mod_pos_bound(m, d);
    let t = m / d;
    assert(t >= 0) by (nonlinear_arith)
        requires
            m == d * t + m % d,
            0 <= m % d < d,
            m >= 0,
            d > 0,
    ;
    assert(magnitude(toward_zero(n, d)) == t);
    assert(t * d <= m < (t + 1) * d) by (nonlinear_arith)
        requires
            m == d * t + m % d,
            0 <= m % d < d,
    ;
}

/// The length of a vector along an axis is the distance of its one
/// coordinate from zero.
pub proof fn lemma_hypot_axis(x: i64)
    ensures
        hypot(x, 0) == absolute(x),
        hypot(0, x) == absolute(x),
{
    let m = magnitude(x as int);
    assert(m * m == x * x) by (nonlinear_arith)
        requires
            m == x || m == -x,
    ;
    assert((m + 1) * (m + 1) > m * m) by (nonlinear_arith)
        requires
            m >= 0,
    ;
    assert(is_root(x * x + 0 * 0, m));
    lemma_root_unique(x * x + 0 * 0, m);
    assert(0 * 0 + x * x == x * x + 0 * 0);
}

/// `a + b`, saturating.
pub fn fx_add(a: i64, b: i64) -> (r: i64)
    ensures
        r == sum(a, b),
{
    let s: i128 = a as i128 + b as i128;
    if s > i64::MAX as i128 {
        i64::MAX
    } else if s < i64::MIN as i128 {
        i64::MIN
    } else {
        s as i64
    }
}

/// `a - b`, saturating.
pub fn fx_sub(a: i64, b: i64) -> (r: i64)
    ensures
        r == diff(a, b),
{
    let s: i128 = a as i128 - b as i128;
    if s > i64::MAX as i128 {
        i64::MAX
    } else if s < i64::MIN as i128 {
        i64::MIN
    } else {
        s as i64
    }
}

/// `-a`, saturating.
pub fn fx_neg(a: i64) -> (r: i64)
    ensures
        r == negated(a),
{
    if a == i64::MIN {
        i64::MAX
    } else {
        -a
    }
}

/// `|a|`, saturating.
pub fn fx_abs(a: i64) -> (r: i64)
    ensures
        r == absolute(a),
        r >= 0,
{
    if a == i64::MIN {
        i64::MAX
    } else if a < 0 {
        -a
    } else {
        a
    }
}

/// The distance of `a` from zero, which always fits in 128 bits.
fn distance(a: i64) -> (r: u128)
    ensures
        r == magnitude(a as int),
        r <= 0x8000_0000_0000_0000,
{
    if a < 0 {
        (-(a as i128)) as u128
    } else {
        a as u128
    }
}

/// The value of distance `q` taken with a sign, saturating.
fn with_sign(q: u128, negative: bool) -> (r: i64)
    ensures
        r == clamp(
            if negative {
                -(q as int)
            } else {
                q as int
            },
        ),
{
    if negative {
        if q >= 0x8000_0000_0000_0000 {
            i64::MIN
        } else {
            -(q as i64)
        }
    } else {
        if q > 0x7fff_ffff_ffff_ffff {
            i64::MAX
        } else {
            q as i64
        }
    }
}

/// The fixed-point product of `a` and `b`.
pub fn fx_mul(a: i64, b: i64) -> (r: i64)
    ensures
        r == prod(a, b),
{
    let ua = distance(a);
    let ub = distance(b);
    assert(ua * ub <= 0x4000_0000_0000_0000_0000_0000_0000_0000) by (nonlinear_arith)
        requires
            ua <= 0x8000_0000_0000_0000,
            ub <= 0x8000_0000_0000_0000,
    ;
    let q: u128 = (ua * ub) / 0x1_0000_0000;
    let negative = (a < 0) != (b < 0);
    proof {
        let p = a * b;
        assert(magnitude(p) == ua * ub && (p < 0 ==> negative) && (negative ==> p <= 0))
            by (nonlinear_arith)
            requires
                ua == magnitude(a as int),
                ub == magnitude(b as int),
                p == a * b,
                negative == ((a < 0) != (b < 0)),
        ;
        if p == 0 {
            assert(q == 0);
        }
    }
    with_sign(q, negative)
}

/// The fixed-point quotient of `a` by `b`.
pub fn fx_div(a: i64, b: i64) -> (r: i64)
    ensures
        r == ratio(a, b),
{
    if b == 0 {
        if a > 0 {
            i64::MAX
        } else if a < 0 {
            i64::MIN
        } else {
            0
        }
    } else {
        let ua = distance(a);
        let ub = distance(b);
        let n: u128 = ua * 0x1_0000_0000;
        let q: u128 = n / ub;
        let negative = (a < 0) != (b < 0);
        proof {
            if a == 0 {
                assert(q == 0);
            }
        }
        with_sign(q, negative)
    }
}

/// The fixed-point value of `n`.
pub fn fx_from_isize(n: isize) -> (r: i64)
    ensures
        r == whole(n as int),
{
    let p: i128 = (n as i128) * 0x1_0000_0000;
    if p > i64::MAX as i128 {
        i64::MAX
    } else if p < i64::MIN as i128 {
        i64::MIN
    } else {
        p as i64
    }
}

/// The fixed-point value of `n`.
pub fn fx_from_usize(n: usize) -> (r: i64)
    ensures
        r == whole(n as int),
{
    if n > 0x7fff_ffff {
        i64::MAX
    } else {
        (n as i64) * 0x1_0000_0000
    }
}

/// The integer square root of `n`.
pub fn isqrt(n: u128) -> (r: u128)
    ensures
        r == root(n as int),
        r <= 0xffff_ffff_ffff_ffff,
{
    let mut lo: u128 = 0;
    let mut hi: u128 = 0x1_0000_0000_0000_0000;
    proof {
        assert(hi * hi > n) by (nonlinear_arith)
            requires
                hi == 0x1_0000_0000_0000_0000,
                n <= u128::MAX,
        ;
    }
    while hi - lo > 1
        invariant
            lo < hi <= 0x1_0000_0000_0000_0000,
            lo * lo <= n,
            n < hi * hi,
        decreases hi - lo,
    {
        let mid: u128 = lo + (hi - lo) / 2;
        assert(mid * mid <= u128::MAX) by (nonlinear_arith)
            requires
                mid <= 0xffff_ffff_ffff_ffff,
        ;
        if mid * mid <= n {
            lo = mid;
        } else {
            hi = mid;
        }
    }
    proof {
        assert(hi == lo + 1);
        assert(is_root(n as int, lo as int));
        lemma_root_unique(n as int, lo as int);
    }
    lo
}

/// The length of the hypotenuse over the legs `x` and `y`.
pub fn fx_hypot(x: i64, y: i64) -> (r: i64)
    ensures
        r == hypot(x, y),
        r >= 0,
{
    let ax = distance(x);
    let ay = distance(y);
    assert(ax * ax <= 0x4000_0000_0000_0000_0000_0000_0000_0000) by (nonlinear_arith)
        requires
            ax <= 0x8000_0000_0000_0000,
    ;
    assert(ay * ay <= 0x4000_0000_0000_0000_0000_0000_0000_0000) by (nonlinear_arith)
        requires
            ay <= 0x8000_0000_0000_0000,
    ;
    assert(ax * ax == x * x) by (nonlinear_arith)
        requires
            ax == x || ax == -x,
    ;
    assert(ay * ay == y * y) by (nonlinear_arith)
        requires
            ay == y || ay == -y,
    ;
    let r: u128 = isqrt(ax * ax + ay * ay);
    proof {
        lemma_root_exists(x * x + y * y);
    }
    if r > 0x7fff_ffff_ffff_ffff {
        i64::MAX
    } else {
        r as i64
    }
}

} // verus!
