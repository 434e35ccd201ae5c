use vstd::prelude::*;
use vstd::math::abs;

verus! {

/// Scale of the fixed-point representation used throughout the pipeline:
/// one unit (one degree, one metre, one model unit) is `ONE` ticks.
pub const ONE: i64 = 1_000_000;

/// The floor of the square root of a non-negative integer, characterized
/// by the unique `r` with `r * r <= n < (r + 1) * (r + 1)`.
pub open spec fn sqrt_floor(n: int) -> int {
    choose|r: int| 0 <= r && #[trigger] (r * r) <= n && n < (r + 1) * (r + 1)
}

/// Any `r` that brackets `n` between consecutive squares is the unique
/// square-root floor of `n`.
pub proof fn lemma_sqrt_floor_unique(n: int, r: int)
    requires
        0 <= r,
        r * r <= n,
        n < (r + 1) * (r + 1),
    ensures
        sqrt_floor(n) == r,
{
    assert(exists|q: int| 0 <= q && #[trigger] (q * q) <= n && n < (q + 1) * (q + 1)) by {
        assert(0 <= r && r * r <= n && n < (r + 1) * (r + 1));
    }
    let q = sqrt_floor(n);
    assert(0 <= q && q * q <= n && n < (q + 1) * (q + 1));
    assert(q == r) by (nonlinear_arith)
        requires
            0 <= r,
            r * r <= n,
            n < (r + 1) * (r + 1),
            0 <= q,
            q * q <= n,
            n < (q + 1) * (q + 1),
    ;
}

/// Floor of the square root, computed by binary search on the answer.
pub fn isqrt(n: u128) -> (r: u128)
    requires
        n < 0x1000000000000_000000000000,
    ensures
        r * r <= n,
        n < (r + 1) * (r + 1),
        r == sqrt_floor(n as int),
{
    let mut lo: u128 = 0;
    let mut hi: u128 = 0x1_0000_0000_0000;
    while hi - lo > 1
        invariant
            lo < hi <= 0x1_0000_0000_0000,
            lo * lo <= n,
            n < hi * hi,
        decreases hi - lo,
    {
        let mid: u128 = lo + (hi - lo) / 2;
        assert(mid * mid <= 0x1000000000000_000000000000) by (nonlinear_arith)
            requires
                mid <= 0x1_0000_0000_0000,
        ;
        if mid * mid <= n {
            lo = mid;
        } else {
            hi = mid;
        }
    }
    proof {
        lemma_sqrt_floor_unique(n as int, lo as int);
    }
    lo
}

/// `a * ONE / d` rounded toward zero, the fixed-point quotient of `a`
/// by `d` whole units.
pub open spec fn scale_ratio(a: int, d: int) -> int
    recommends
        d >= 1,
{
    if a < 0 {
        -((abs(a) as int * ONE) / d)
    } else {
        (a * ONE) / d
    }
}

/// `a * b / ONE` rounded toward zero, the product of two fixed-point
/// quantities.
pub open spec fn mul_div_one(a: int, b: int) -> int {
    if (a < 0) != (b < 0) {
        -((abs(a) as int * abs(b) as int) / (ONE as int))
    } else {
        (abs(a) as int * abs(b) as int) / (ONE as int)
    }
}

/// The magnitude of a value away from the type's far edge.
pub fn abs64(x: i64) -> (r: u64)
    requires
        x > i64::MIN,
    ensures
        r == abs(x as int),
{
    if x < 0 {
        (-x) as u64
    } else {
        x as u64
    }
}


/// The magnitude of a fixed-point product is bounded by the product of
/// the factors' bounds.
pub proof fn lemma_mul_div_one_bound(a: int, b: int, ab: int, bb: int)
    requires
        abs(a) <= ab,
        abs(b) <= bb,
    ensures
        abs(mul_div_one(a, b)) <= ab * bb / (ONE as int),
{
    let m = abs(a) as int * abs(b) as int;
    assert(m <= ab * bb) by (nonlinear_arith)
        requires
            0 <= abs(a) <= ab,
            0 <= abs(b) <= bb,
            m == abs(a) as int * abs(b) as int,
    ;
    assert(m >= 0) by (nonlinear_arith)
        requires
            m == abs(a) as int * abs(b) as int,
    ;
    vstd::arithmetic::div_mod::lemma_div_is_ordered(m, ab * bb, ONE as int);
    vstd::arithmetic::div_mod::lemma_div_pos_is_pos(m, ONE as int);
}


/// A square-root floor exists for every non-negative number, so the
/// chosen value has its defining property.
pub proof fn lemma_sqrt_floor_props(n: int)
    requires
        n >= 0,
    ensures
        0 <= sqrt_floor(n),
        sqrt_floor(n) * sqrt_floor(n) <= n,
        n < (sqrt_floor(n) + 1) * (sqrt_floor(n) + 1),
    decreases n,
{
    if n == 0 {
        lemma_sqrt_floor_unique(0, 0);
    } else {
        lemma_sqrt_floor_props(n - 1);
        let r = sqrt_floor(n - 1);
        if n < (r + 1) * (r + 1) {
            lemma_sqrt_floor_unique(n, r);
        } else {
            assert(n == (r + 1) * (r + 1));
            assert(n < (r + 2) * (r + 2)) by (nonlinear_arith)
                requires
                    n == (r + 1) * (r + 1),
                    r >= 0,
            ;
            lemma_sqrt_floor_unique(n, r + 1);
        }
    }
}

/// The fixed-point quotient of a part by a whole stays within one
/// whole unit.
pub proof fn lemma_scale_ratio_bound(a: int, d: int)
    requires
        1 <= d,
        abs(a) <= d,
    ensures
        -ONE <= scale_ratio(a, d) <= ONE,
{
    let m = abs(a) as int;
    assert(m * ONE <= d * ONE) by (nonlinear_arith)
        requires
            m <= d,
    ;
    vstd::arithmetic::div_mod::lemma_multiply_divide_le(m * ONE, d, ONE as int);
    vstd::arithmetic::div_mod::lemma_div_pos_is_pos(m * ONE, d);
}

} // verus!
