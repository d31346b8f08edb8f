//! Integer arithmetic underpinning the jump statistics: windowed sums over a
//! return series, and floor square / cube roots with exact characterizations.
use vstd::prelude::*;

verus! {

/// Magnitude of a value.
pub open spec fn mag(x: int) -> int {
    if x < 0 {
        -x
    } else {
        x
    }
}

/// Sum of squares of the entries of `s`.
pub open spec fn sum_sq(s: Seq<int>) -> int
    decreases s.len(),
{
    if s.len() == 0 {
        0
    } else {
        sum_sq(s.drop_last()) + s.last() * s.last()
    }
}

/// Sum over adjacent pairs of the product of magnitudes.
pub open spec fn sum_adj(s: Seq<int>) -> int
    decreases s.len(),
{
    if s.len() < 2 {
        0
    } else {
        sum_adj(s.drop_last()) + mag(s[s.len() - 2]) * mag(s.last())
    }
}

/// Sum over adjacent triples of the product of the entries.
pub open spec fn sum_tri(s: Seq<int>) -> int
    decreases s.len(),
{
    if s.len() < 3 {
        0
    } else {
        sum_tri(s.drop_last()) + s[s.len() - 3] * s[s.len() - 2] * s.last()
    }
}

pub proof fn lemma_sum_sq_nonneg(s: Seq<int>)
    ensures
        sum_sq(s) >= 0,
    decreases s.len(),
{
    if s.len() > 0 {
        lemma_sum_sq_nonneg(s.drop_last());
        assert(s.last() * s.last() >= 0) by (nonlinear_arith);
    }
}

pub proof fn lemma_sum_adj_nonneg(s: Seq<int>)
    ensures
        sum_adj(s) >= 0,
    decreases s.len(),
{
    if s.len() >= 2 {
        lemma_sum_adj_nonneg(s.drop_last());
        assert(mag(s[s.len() - 2]) * mag(s.last()) >= 0) by (nonlinear_arith);
    }
}

pub proof fn lemma_sum_tri_nonneg(s: Seq<int>)
    requires
        forall|i: int| 0 <= i < s.len() ==> s[i] >= 0,
    ensures
        sum_tri(s) >= 0,
    decreases s.len(),
{
    if s.len() >= 3 {
        lemma_sum_tri_nonneg(s.drop_last());
        let a = s[s.len() - 3];
        let b = s[s.len() - 2];
        let c = s.last();
        assert(a * b * c >= 0) by (nonlinear_arith)
            requires
                a >= 0 && b >= 0 && c >= 0,
        ;
    }
}

/// The sum of squares of an all-zero sequence is zero.
pub proof fn lemma_sum_sq_all_zero(s: Seq<int>)
    requires
        forall|i: int| 0 <= i < s.len() ==> s[i] == 0,
    ensures
        sum_sq(s) == 0,
    decreases s.len(),
{
    if s.len() > 0 {
        lemma_sum_sq_all_zero(s.drop_last());
    }
}

/// Two times the adjacent-product sum never exceeds two times the sum of
/// squares minus the squares of the endpoints (a windowed arithmetic-geometric
/// mean inequality).
proof fn lemma_sum_adj_vs_sq_strong(s: Seq<int>)
    requires
        s.len() >= 1,
    ensures
        2 * sum_adj(s) <= 2 * sum_sq(s) - mag(s[0]) * mag(s[0]) - mag(s.last()) * mag(s.last()),
    decreases s.len(),
{
    if s.len() == 1 {
        let v = s[0];
        let y = mag(v);
        assert(s.last() == v);
        assert(y * y == v * v) by (nonlinear_arith)
            requires
                y == v || y == -v,
        ;
        assert(sum_adj(s) == 0);
        assert(sum_sq(s) == sum_sq(s.drop_last()) + v * v);
        assert(sum_sq(s.drop_last()) == 0);
    } else {
        let t = s.drop_last();
        lemma_sum_adj_vs_sq_strong(t);
        let x = mag(s[s.len() - 2]);
        let y = mag(s.last());
        let z = mag(s[0]);
        let v = s.last();
        assert(t.last() == s[s.len() - 2]);
        assert(t[0] == s[0]);
        assert(2 * sum_adj(t) <= 2 * sum_sq(t) - z * z - x * x);
        assert(sum_adj(s) == sum_adj(t) + x * y);
        assert(sum_sq(s) == sum_sq(t) + v * v);
        assert(2 * (x * y) <= x * x + y * y) by (nonlinear_arith)
            requires
                x >= 0 && y >= 0,
        ;
        assert(v * v == y * y) by (nonlinear_arith)
            requires
                y == v || y == -v,
        ;
        assert(2 * sum_adj(s) <= 2 * sum_sq(s) - z * z - y * y);
    }
}

/// The adjacent-product sum never exceeds the sum of squares.
pub proof fn lemma_sum_adj_le_sum_sq(s: Seq<int>)
    ensures
        sum_adj(s) <= sum_sq(s),
{
    if s.len() == 0 {
    } else {
        lemma_sum_adj_vs_sq_strong(s);
        assert(mag(s[0]) * mag(s[0]) >= 0) by (nonlinear_arith);
        assert(mag(s.last()) * mag(s.last()) >= 0) by (nonlinear_arith);
    }
}

/// `r` is the floor of the square root of `x`.
pub open spec fn is_sqrt_floor(r: int, x: int) -> bool {
    0 <= r && r * r <= x && x < (r + 1) * (r + 1)
}

/// `r` is the floor of the cube root of `x`.
pub open spec fn is_cbrt_floor(r: int, x: int) -> bool {
    0 <= r && r * r * r <= x && x < (r + 1) * (r + 1) * (r + 1)
}

pub proof fn lemma_sqrt_floor_unique(r1: int, r2: int, x: int)
    requires
        is_sqrt_floor(r1, x),
        is_sqrt_floor(r2, x),
    ensures
        r1 == r2,
{
    assert(r1 == r2) by (nonlinear_arith)
        requires
            0 <= r1 && r1 * r1 <= x && x < (r1 + 1) * (r1 + 1),
            0 <= r2 && r2 * r2 <= x && x < (r2 + 1) * (r2 + 1);
}

pub proof fn lemma_cbrt_floor_unique(r1: int, r2: int, x: int)
    requires
        is_cbrt_floor(r1, x),
        is_cbrt_floor(r2, x),
    ensures
        r1 == r2,
{
    assert(r1 == r2) by (nonlinear_arith)
        requires
            0 <= r1 && r1 * r1 * r1 <= x && x < (r1 + 1) * (r1 + 1) * (r1 + 1),
            0 <= r2 && r2 * r2 * r2 <= x && x < (r2 + 1) * (r2 + 1) * (r2 + 1);
}

pub proof fn lemma_sqrt_floor_exists(x: int)
    requires
        x >= 0,
    ensures
        exists|r: int| #[trigger] is_sqrt_floor(r, x),
    decreases x,
{
    if x == 0 {
        assert(is_sqrt_floor(0, 0)) by (nonlinear_arith);
    } else {
        lemma_sqrt_floor_exists(x - 1);
        let r = choose|r: int| #[trigger] is_sqrt_floor(r, x - 1);
        if (r + 1) * (r + 1) <= x {
            assert(is_sqrt_floor(r + 1, x)) by (nonlinear_arith)
                requires
                    0 <= r && (r + 1) * (r + 1) <= x && x - 1 < (r + 1) * (r + 1);
        } else {
            assert(is_sqrt_floor(r, x));
        }
    }
}

pub proof fn lemma_cbrt_floor_exists(x: int)
    requires
        x >= 0,
    ensures
        exists|r: int| #[trigger] is_cbrt_floor(r, x),
    decreases x,
{
    if x == 0 {
        assert(is_cbrt_floor(0, 0)) by (nonlinear_arith);
    } else {
        lemma_cbrt_floor_exists(x - 1);
        let r = choose|r: int| #[trigger] is_cbrt_floor(r, x - 1);
        if (r + 1) * (r + 1) * (r + 1) <= x {
            assert(is_cbrt_floor(r + 1, x)) by (nonlinear_arith)
                requires
                    0 <= r && (r + 1) * (r + 1) * (r + 1) <= x && x - 1 < (r + 1) * (r + 1) * (r
                        + 1);
        } else {
            assert(is_cbrt_floor(r, x));
        }
    }
}

/// The floor of the square root of `x`, as a value.
pub open spec fn sqrt_floor(x: int) -> int {
    choose|r: int| #[trigger] is_sqrt_floor(r, x)
}

/// The floor of the cube root of `x`, as a value.
pub open spec fn cbrt_floor(x: int) -> int {
    choose|r: int| #[trigger] is_cbrt_floor(r, x)
}

pub proof fn lemma_sqrt_floor_is_sqrt(x: int)
    requires
        x >= 0,
    ensures
        is_sqrt_floor(sqrt_floor(x), x),
{
    lemma_sqrt_floor_exists(x);
}

pub proof fn lemma_cbrt_floor_is_cbrt(x: int)
    requires
        x >= 0,
    ensures
        is_cbrt_floor(cbrt_floor(x), x),
{
    lemma_cbrt_floor_exists(x);
}

/// A cube bound on `x` bounds its floor cube root.
pub proof fn lemma_cbrt_floor_bound(x: int, b: int)
    requires
        0 <= x,
        0 <= b,
        x <= b * b * b,
    ensures
        cbrt_floor(x) <= b,
{
    lemma_cbrt_floor_is_cbrt(x);
    let r = cbrt_floor(x);
    assert(r <= b) by (nonlinear_arith)
        requires
            0 <= r && r * r * r <= x && 0 <= b && x <= b * b * b;
}

/// A square bound on `x` bounds its floor square root.
pub proof fn lemma_sqrt_floor_bound(x: int, b: int)
    requires
        0 <= x,
        0 <= b,
        x <= b * b,
    ensures
        sqrt_floor(x) <= b,
{
    lemma_sqrt_floor_is_sqrt(x);
    let r = sqrt_floor(x);
    assert(r <= b) by (nonlinear_arith)
        requires
            0 <= r && r * r <= x && 0 <= b && x <= b * b;
}

/// Floor square root by bisection.
pub fn isqrt(x: u128) -> (r: u128)
    requires
        x < 0x100000000000000000000,  // 2^80
    ensures
        is_sqrt_floor(r as int, x as int),
        r == sqrt_floor(x as int),
{
    let mut lo: u128 = 0;
    let mut hi: u128 = 0x10000000000;  // 2^40
    while lo + 1 < hi
        invariant
            lo < hi,
            hi <= 0x10000000000,
            x < 0x100000000000000000000,
            lo * lo <= x,
            x < hi * hi,
        decreases hi - lo,
    {
        let mid = lo + (hi - lo) / 2;
        assert(lo < mid && mid < hi);
        assert(mid * mid < 0x100000000000000000000) by (nonlinear_arith)
            requires
                mid < 0x10000000000,
        ;
        if mid * mid <= x {
            lo = mid;
        } else {
            hi = mid;
        }
    }
    assert(hi == lo + 1);
    proof {
        lemma_sqrt_floor_exists(x as int);
        lemma_sqrt_floor_is_sqrt(x as int);
        lemma_sqrt_floor_unique(lo as int, sqrt_floor(x as int), x as int);
    }
    lo
}

/// Floor cube root by bisection.
pub fn icbrt(x: u128) -> (r: u128)
    requires
        x < 0x40000000000000000000000000000000,  // 2^126
    ensures
        is_cbrt_floor(r as int, x as int),
        r == cbrt_floor(x as int),
{
    let mut lo: u128 = 0;
    let mut hi: u128 = 0x40000000000;  // 2^42
    while lo + 1 < hi
        invariant
            lo < hi,
            hi <= 0x40000000000,
            x < 0x40000000000000000000000000000000,
            lo * lo * lo <= x,
            x < hi * hi * hi,
        decreases hi - lo,
    {
        let mid = lo + (hi - lo) / 2;
        assert(lo < mid && mid < hi);
        assert(mid * mid < 0x1000000000000000000000) by (nonlinear_arith)
            requires
                0 <= mid < 0x40000000000,
        ;
        assert(mid * mid * mid < 0x40000000000000000000000000000000) by (nonlinear_arith)
            requires
                0 <= mid < 0x40000000000,
        ;
        if mid * mid * mid <= x {
            lo = mid;
        } else {
            hi = mid;
        }
    }
    assert(hi == lo + 1);
    proof {
        lemma_cbrt_floor_exists(x as int);
        lemma_cbrt_floor_is_cbrt(x as int);
        lemma_cbrt_floor_unique(lo as int, cbrt_floor(x as int), x as int);
    }
    lo
}

} // verus!
