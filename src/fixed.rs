//! Fixed-point scalars: a real number `x` is held as the integer `x * ONE`,
//! rounded toward negative infinity.
use vstd::prelude::*;

verus! {

/// The integer that stands for 1.0.
pub const ONE: i64 = 1_000_000;

/// `ONE * ONE`: 1.0 at the scale of a product of two fixed-point numbers.
pub const ONE_SQUARED: i128 = 1_000_000_000_000;

/// The largest magnitude of a component on which products are taken
/// (one million units).
pub const LIMIT: i64 = 1_000_000_000_000;

/// `a * b` for two fixed-point numbers, rounded down.
pub open spec fn fmul(a: int, b: int) -> int {
    a * b / (ONE as int)
}

/// `a / b` for two fixed-point numbers, rounded down.
pub open spec fn fdiv(a: int, b: int) -> int {
    if b > 0 {
        a * (ONE as int) / b
    } else {
        -a * (ONE as int) / -b
    }
}

pub open spec fn is_floor_sqrt(n: int, r: int) -> bool {
    0 <= r && r * r <= n && n < (r + 1) * (r + 1)
}

/// The square root of `n`, rounded down.
pub open spec fn floor_sqrt(n: int) -> int {
    choose|r: int| is_floor_sqrt(n, r)
}

/// The square root of a fixed-point number, as a fixed-point number.
pub open spec fn fsqrt(x: int) -> int {
    floor_sqrt(x * (ONE as int))
}

pub proof fn lemma_square_monotone(a: int, b: int)
    requires
        0 <= a <= b,
    ensures
        a * a <= b * b,
{
    assert(a * a <= b * b) by (nonlinear_arith)
        requires
            0 <= a <= b,
    ;
}

/// The floor square root is unique.
pub proof fn lemma_floor_sqrt_unique(n: int, r: int)
    requires
        n >= 0,
        is_floor_sqrt(n, r),
    ensures
        floor_sqrt(n) == r,
{
    lemma_floor_sqrt_exists(n);
    let s = floor_sqrt(n);
    if s < r {
        lemma_square_monotone(s + 1, r);
    } else if r < s {
        lemma_square_monotone(r + 1, s);
    }
}

/// Every non-negative integer has a floor square root.
pub proof fn lemma_floor_sqrt_exists(n: int)
    requires
        n >= 0,
    ensures
        is_floor_sqrt(n, floor_sqrt(n)),
    decreases n,
{
    if n == 0 {
        assert(is_floor_sqrt(0, 0));
    } else {
        lemma_floor_sqrt_exists(n - 1);
        let r = floor_sqrt(n - 1);
        if (r + 1) * (r + 1) <= n {
            assert((r + 1) * (r + 1) < (r + 2) * (r + 2)) by (nonlinear_arith)
                requires
                    r >= 0,
            ;
            assert(is_floor_sqrt(n, r + 1));
        } else {
            assert(is_floor_sqrt(n, r));
        }
    }
}

/// A number whose square is at most `n` is at most the floor square root of `n`.
pub proof fn lemma_floor_sqrt_bounds(n: int, x: int)
    requires
        n >= 0,
        x * x <= n,
    ensures
        is_floor_sqrt(n, floor_sqrt(n)),
        x <= floor_sqrt(n),
        -x <= floor_sqrt(n),
{
    lemma_floor_sqrt_exists(n);
    let s = floor_sqrt(n);
    if s < x {
        lemma_square_monotone(s + 1, x);
    }
    if s < -x {
        assert((-x) * (-x) == x * x) by (nonlinear_arith);
        lemma_square_monotone(s + 1, -x);
    }
}

/// Relies on `u128::isqrt`: the square root of its argument, rounded down.
#[verifier::external_body]
fn isqrt_u128(n: u128) -> (r: u128)
    ensures
        r * r <= n,
        n < (r + 1) * (r + 1),
{
    n.isqrt()
}

/// The square root of `n`, rounded down.
pub fn sqrt_floor(n: i128) -> (r: i128)
    requires
        n >= 0,
    ensures
        r == floor_sqrt(n as int),
        is_floor_sqrt(n as int, r as int),
{
    let s = isqrt_u128(n as u128);
    proof {
        lemma_floor_sqrt_unique(n as int, s as int);
        if s > 0x1_0000_0000_0000_0000u128 {
            lemma_square_monotone(0x1_0000_0000_0000_0000int, s as int);
        }
    }
    s as i128
}

/// The square root of the fixed-point number `x`, rounded down.
pub fn fixed_sqrt(x: i64) -> (r: i64)
    requires
        0 <= x <= LIMIT,
    ensures
        r == fsqrt(x as int),
        is_floor_sqrt(x * ONE, r as int),
        0 <= r <= 1_000_000_001,
{
    let n = x as i128 * ONE as i128;
    let s = sqrt_floor(n);
    proof {
        if s > 1_000_000_001 {
            lemma_square_monotone(1_000_000_001, s as int);
        }
    }
    s as i64
}

/// `n / d` rounded toward negative infinity.
pub fn div_floor(n: i128, d: i128) -> (r: i128)
    requires
        d > 0,
    ensures
        r == n / d,
{
    if n >= 0 {
        n / d
    } else {
        let m = -(n + 1);
        let q = m / d;
        proof {
            assert(n / d == -q - 1) by (nonlinear_arith)
                requires
                    d > 0,
                    m == -(n + 1),
                    m >= 0,
                    q == m / d,
            {
                assert(m == d * q + m % d);
            }
        }
        -q - 1
    }
}

pub proof fn lemma_mul_within(a: int, b: int, ma: int, mb: int)
    requires
        -ma <= a <= ma,
        -mb <= b <= mb,
    ensures
        -(ma * mb) <= a * b <= ma * mb,
{
    assert(-(ma * mb) <= a * b <= ma * mb) by (nonlinear_arith)
        requires
            -ma <= a <= ma,
            -mb <= b <= mb,
    ;
}

/// Dividing by `ONE` a number of magnitude at most `m * ONE` leaves one of
/// magnitude at most `m`.
pub proof fn lemma_div_one_within(n: int, m: int)
    requires
        -(m * ONE) <= n <= m * ONE,
    ensures
        -m <= n / (ONE as int) <= m,
{
    let one = ONE as int;
    assert(-m <= n / one <= m) by (nonlinear_arith)
        requires
            -(m * one) <= n <= m * one,
            one > 0,
    {
        assert(n == one * (n / one) + n % one);
        assert(0 <= n % one < one);
    }
}

/// The fixed-point product of two numbers of magnitude at most `LIMIT`.
pub fn fixed_mul(a: i64, b: i64) -> (r: i64)
    requires
        -LIMIT <= a <= LIMIT,
        -LIMIT <= b <= LIMIT,
    ensures
        r == fmul(a as int, b as int),
{
    proof {
        lemma_mul_within(a as int, b as int, LIMIT as int, LIMIT as int);
    }
    let p = a as i128 * b as i128;
    div_floor(p, ONE as i128) as i64
}

/// The fixed-point quotient of a number of magnitude at most `LIMIT` by a
/// non-zero number.
pub fn fixed_div(a: i64, b: i64) -> (r: i64)
    requires
        -LIMIT <= a <= LIMIT,
        b != 0,
    ensures
        r == fdiv(a as int, b as int),
{
    let n = a as i128 * ONE as i128;
    if b > 0 {
        let q = div_floor(n, b as i128);
        proof {
            lemma_quotient_within(n as int, b as int);
        }
        q as i64
    } else {
        let q = div_floor(-n, -(b as i128));
        proof {
            lemma_quotient_within(-n as int, -b as int);
        }
        q as i64
    }
}

proof fn lemma_quotient_within(n: int, d: int)
    requires
        d >= 1,
        -1_000_000_000_000_000_000 <= n <= 1_000_000_000_000_000_000,
    ensures
        -1_000_000_000_000_000_000 <= n / d <= 1_000_000_000_000_000_000,
{
    assert(-1_000_000_000_000_000_000 <= n / d <= 1_000_000_000_000_000_000) by (nonlinear_arith)
        requires
            d >= 1,
            -1_000_000_000_000_000_000 <= n <= 1_000_000_000_000_000_000,
    {
        assert(n == d * (n / d) + n % d);
    }
}

} // verus!
