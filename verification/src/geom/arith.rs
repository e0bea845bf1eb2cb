use vstd::prelude::*;

verus! {

/// The sign of an integer: -1, 0 or 1.
pub open spec fn sign(v: int) -> int {
    if v > 0 {
        1
    } else if v < 0 {
        -1
    } else {
        0
    }
}

/// The absolute value of an integer.
pub open spec fn abs(v: int) -> int {
    if v < 0 {
        -v
    } else {
        v
    }
}

/// `n / d` rounded to the nearest integer, halves rounded up.
pub open spec fn round_div(n: int, d: int) -> int
    recommends
        n >= 0,
        d > 0,
{
    (2 * n + d) / (2 * d)
}

/// The product of two 64-bit values always fits 128 bits.
pub proof fn lemma_mul_fits(a: int, b: int, k: int)
    requires
        -k <= a <= k,
        -k <= b <= k,
    ensures
        -(k * k) <= a * b <= k * k,
{
    assert(-(k * k) <= a * b <= k * k) by (nonlinear_arith)
        requires
            -k <= a <= k,
            -k <= b <= k,
    {
        assert((k - a) * (k - b) >= 0);
        assert((k + a) * (k + b) >= 0);
        assert((k - a) * (k + b) >= 0);
        assert((k + a) * (k - b) >= 0);
    }
}

/// The exact product of two 64-bit integers.
pub fn mul_wide(a: i64, b: i64) -> (r: i128)
    ensures
        r == a * b,
{
    proof {
        lemma_mul_fits(a as int, b as int, 0x8000_0000_0000_0000);
        assert(0x8000_0000_0000_0000int * 0x8000_0000_0000_0000int
            == 0x4000_0000_0000_0000_0000_0000_0000_0000int) by (nonlinear_arith);
    }
    (a as i128) * (b as i128)
}

/// The sign of a wide integer.
pub fn sign_of(v: i128) -> (r: i8)
    ensures
        r == sign(v as int),
{
    if v > 0 {
        1
    } else if v < 0 {
        -1
    } else {
        0
    }
}

/// The absolute value of a wide integer that is not the least one.
pub fn abs_of(v: i128) -> (r: u128)
    requires
        v > i128::MIN,
    ensures
        r == abs(v as int),
{
    if v < 0 {
        (-v) as u128
    } else {
        v as u128
    }
}

/// Division with rounding to nearest on unsigned operands.
pub fn round_div_exec(n: u128, d: u128) -> (r: u128)
    requires
        d > 0,
        2 * n + d <= u128::MAX,
        2 * d <= u128::MAX,
    ensures
        r == round_div(n as int, d as int),
        (n as int) <= (d as int) * (u64::MAX as int) ==> r <= u64::MAX,
{
    let r: u128 = (2 * n + d) / (2 * d);
    proof {
        lemma_round_div_bound(n as int, d as int, u64::MAX as int);
    }
    r
}

/// The quotient `n / d` rounded down and rounded up.
pub fn div_floor_ceil(n: u64, d: u64, k: u64) -> (r: (u64, u64))
    requires
        d > 0,
        n <= d * k,
    ensures
        r.0 == n as int / d as int,
        r.1 == (n + d - 1) / (d as int),
        r.0 <= r.1 <= k,
{
    let wide: u128 = n as u128 + d as u128 - 1;
    let down: u64 = n / d;
    let up: u128 = wide / d as u128;
    assert(down <= up <= k) by (nonlinear_arith)
        requires
            down == n as int / d as int,
            up == (n + d - 1) / (d as int),
            d > 0,
            n >= 0,
            k >= 0,
            n <= d * k,
    {
        assert(n + d - 1 < d * (k + 1));
        assert((n + d - 1) / (d as int) < k + 1);
        assert(n as int / d as int <= (n + d - 1) / (d as int));
    }
    (down, up as u64)
}

/// A rounded quotient does not exceed a bound that the exact quotient meets.
pub proof fn lemma_round_div_bound(n: int, d: int, k: int)
    requires
        n >= 0,
        d > 0,
        k >= 0,
    ensures
        round_div(n, d) >= 0,
        n <= d * k ==> round_div(n, d) <= k,
{
    let q = (2 * n + d) / (2 * d);
    assert(q >= 0) by (nonlinear_arith)
        requires
            q == (2 * n + d) / (2 * d),
            n >= 0,
            d > 0,
    ;
    if n <= d * k {
        assert(q <= k) by (nonlinear_arith)
            requires
                q == (2 * n + d) / (2 * d),
                n >= 0,
                d > 0,
                k >= 0,
                n <= d * k,
        {
            assert(2 * n + d <= 2 * d * k + d);
            assert(2 * d * k + d < 2 * d * (k + 1));
            assert((2 * n + d) / (2 * d) < k + 1);
        }
    }
}

} // verus!
