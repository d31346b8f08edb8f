//! The jump statistics: realized variance, bipower variation, tripower
//! quarticity, and the jump z-score, all in fixed-point integer arithmetic.
//!
//! A log return is an `i64` scaled by 1e9 (one unit is 1e-9). Variance-like
//! quantities (realized variance, bipower variation) carry a 1e12 scale,
//! tripower quarticity a 1e18 scale, and z-scores a 1e6 scale. Every public
//! function's result is pinned exactly by a spec function over the integer
//! model; each division is a floor division exactly as the spec functions
//! state.
use vstd::prelude::*;

use crate::arith::cbrt_floor;
use crate::arith::icbrt;
use crate::arith::isqrt;
use crate::arith::lemma_cbrt_floor_bound;
use crate::arith::lemma_sqrt_floor_bound;
use crate::arith::lemma_sum_adj_le_sum_sq;
use crate::arith::lemma_sum_adj_nonneg;
use crate::arith::lemma_sum_sq_nonneg;
use crate::arith::lemma_sum_tri_nonneg;
use crate::arith::mag;
use crate::arith::sqrt_floor;
use crate::arith::sum_adj;
use crate::arith::sum_sq;
use crate::arith::sum_tri;
use vstd::arithmetic::div_mod::lemma_div_by_multiple;
use vstd::arithmetic::div_mod::lemma_div_is_ordered;
use vstd::arithmetic::div_mod::lemma_div_is_ordered_by_denominator;
use vstd::arithmetic::div_mod::lemma_div_nonincreasing;
use vstd::arithmetic::div_mod::lemma_div_pos_is_pos;
use vstd::arithmetic::mul::lemma_mul_inequality;

verus! {

/// Largest magnitude of a log return the statistics accept: 2.0 at the 1e-9
/// scale (a price ratio of e^2 between consecutive observations).
pub const MAX_RET: i64 = 2_000_000_000;

/// Largest series length the statistics accept.
pub const MAX_SERIES_LEN: usize = 4096;

/// mu(1) = sqrt(2/pi) ~= 0.797884561, at the 1e-9 scale (nearest integer).
pub const MU_1_NANO: u64 = 797_884_561;

/// mu(4/3) = 2^(2/3) * Gamma(7/6) / Gamma(1/2) ~= 0.830860925, at the 1e-9
/// scale (nearest integer).
pub const MU_4_3_NANO: u64 = 830_860_925;

/// mu(1)^-2 = pi/2 ~= 1.570796, at the 1e-6 scale (nearest integer).
pub const INV_MU_1_SQ_MICRO: u128 = 1_570_796;

/// mu(4/3)^-3 ~= 1.743472, at the 1e-6 scale (nearest integer).
pub const INV_MU_4_3_CUBED_MICRO: u128 = 1_743_472;

/// pi^2/4 + pi - 5 ~= 0.608994, at the 1e-6 scale (nearest integer).
pub const ZTEST_COEF_MICRO: u128 = 608_994;

/// The 99.9th percentile of the standard normal distribution ~= 3.090232, at
/// the 1e-6 scale (nearest integer).
pub const Z_CRIT_MICRO: i64 = 3_090_232;

/// The mathematical values of a series of scaled log returns.
pub open spec fn ints(y: Seq<i64>) -> Seq<int> {
    y.map_values(|x: i64| x as int)
}

/// The statistics are defined on series of at most `MAX_SERIES_LEN` returns,
/// each of magnitude at most `MAX_RET`.
pub open spec fn rets_ok(s: Seq<int>) -> bool {
    &&& s.len() <= MAX_SERIES_LEN
    &&& forall|i: int| 0 <= i < s.len() ==> mag(s[i]) <= MAX_RET as int
}

/// Realized variance: the sum of squared returns, at the 1e12 scale.
pub open spec fn spec_rv(s: Seq<int>) -> int {
    sum_sq(s) / 1_000_000
}

/// Bipower variation: mu(1)^-2 times the sum of adjacent products of return
/// magnitudes, at the 1e12 scale.
pub open spec fn spec_bpv(s: Seq<int>) -> int {
    sum_adj(s) / 1_000_000 * (INV_MU_1_SQ_MICRO as int) / 1_000_000
}

/// A return magnitude raised to the power 4/3, at the 1e9 scale: the floor
/// cube root of its fourth power, scaled down.
pub open spec fn spec_t(v: int) -> int {
    cbrt_floor(mag(v) * mag(v) * (mag(v) * mag(v))) / 1000
}

/// The series of 4/3-power magnitudes of a return series.
pub open spec fn tvals(s: Seq<int>) -> Seq<int> {
    s.map_values(|v: int| spec_t(v))
}

/// Tripower quarticity: mu(4/3)^-3 * n^2/(n-2) times the sum of adjacent
/// triple products of 4/3-power magnitudes, at the 1e18 scale.
pub open spec fn spec_tq(s: Seq<int>) -> int {
    sum_tri(tvals(s)) / 1_000_000_000 * (INV_MU_4_3_CUBED_MICRO as int) / 1_000_000 * s.len()
        * s.len() / (s.len() - 2)
}

/// Magnitude of the z-score numerator (RV - BPV) / RV, at the 1e6 scale.
pub open spec fn spec_num_mag(s: Seq<int>) -> int {
    mag(spec_rv(s) - spec_bpv(s)) * 1_000_000 / spec_rv(s)
}

/// The squared bipower variation, at the 1e18 scale.
pub open spec fn spec_bpv_sq(s: Seq<int>) -> int {
    spec_bpv(s) * spec_bpv(s) / 1_000_000
}

/// max(1, TQ / BPV^2), at the 1e6 scale.
pub open spec fn spec_max_ratio(s: Seq<int>) -> int {
    let ratio = spec_tq(s) * 1_000_000 / spec_bpv_sq(s);
    if ratio < 1_000_000 {
        1_000_000
    } else {
        ratio
    }
}

/// The squared z-score, at the 1e12 scale.
pub open spec fn spec_z2(s: Seq<int>) -> int {
    spec_num_mag(s) * spec_num_mag(s) * s.len() / (ZTEST_COEF_MICRO as int) * 1_000_000_000_000
        / spec_max_ratio(s)
}

/// The jump z-score at the 1e6 scale, or `None` when the series is shorter
/// than 3 or so degenerate (zero realized variance, or bipower variation
/// below the representable floor) that the test statistic is undefined.
pub open spec fn spec_zscore(s: Seq<int>) -> Option<int> {
    if s.len() < 3 || spec_rv(s) <= 0 || spec_bpv_sq(s) <= 0 {
        None
    } else {
        let za = sqrt_floor(spec_z2(s));
        if spec_rv(s) >= spec_bpv(s) {
            Some(za)
        } else {
            Some(-za)
        }
    }
}

/// An executable optional z-score agrees with its mathematical value.
pub open spec fn zscore_matches(r: Option<i64>, z: Option<int>) -> bool {
    match r {
        Option::None => z is None,
        Option::Some(a) => z == Option::Some(a as int),
    }
}

/// Whether the series carries a statistically significant jump: a defined
/// z-score whose magnitude exceeds the 99.9th normal percentile. An undefined
/// (degenerate) z-score is never a signal.
pub open spec fn spec_jump_detected(s: Seq<int>) -> bool {
    match spec_zscore(s) {
        Option::None => false,
        Option::Some(z) => mag(z) > Z_CRIT_MICRO as int,
    }
}

/// Realized variance `RV = sum y_i^2` of the series, at the 1e12 scale.
pub fn realized_variance(y: &Vec<i64>) -> (r: u128)
    requires
        rets_ok(ints(y@)),
    ensures
        r == spec_rv(ints(y@)),
        r <= 16_384_000_000_000_000,
{
    let ghost p = ints(y@);
    let mut acc: u128 = 0;
    let mut i: usize = 0;
    while i < y.len()
        invariant
            rets_ok(p),
            p == ints(y@),
            i <= y.len(),
            y@.len() == p.len(),
            acc == sum_sq(p.take(i as int)),
            acc <= i * 4_000_000_000_000_000_000,
        decreases y.len() - i,
    {
        let xi = y[i] as i128;
        proof {
            assert(p[i as int] == y@[i as int] as int);
            assert(xi * xi <= 4_000_000_000_000_000_000 && xi * xi >= 0) by (nonlinear_arith)
                requires
                    -2_000_000_000 <= xi <= 2_000_000_000,
            ;
            assert(p.take(i + 1).drop_last() =~= p.take(i as int));
            assert(p.take(i + 1).last() == p[i as int]);
            lemma_mul_inequality(i as int, 4095, 4_000_000_000_000_000_000);
            assert((i + 1) * 4_000_000_000_000_000_000 == i * 4_000_000_000_000_000_000
                + 4_000_000_000_000_000_000) by (nonlinear_arith);
        }
        acc = acc + (xi * xi) as u128;
        i = i + 1;
    }
    proof {
        assert(p.take(p.len() as int) =~= p);
        lemma_mul_inequality(i as int, 4096, 4_000_000_000_000_000_000);
        lemma_div_is_ordered(acc as int, 16_384_000_000_000_000_000_000, 1_000_000);
        assert(16_384_000_000_000_000_000_000int / 1_000_000 == 16_384_000_000_000_000);
    }
    acc / 1_000_000
}

/// Bipower variation `BPV = mu(1)^-2 * sum |y_i| |y_i+1|`, at the 1e12 scale.
pub fn bipower_variation(y: &Vec<i64>) -> (r: u128)
    requires
        rets_ok(ints(y@)),
    ensures
        r == spec_bpv(ints(y@)),
        r <= 25_800_000_000_000_000,
{
    let ghost p = ints(y@);
    let mut acc: u128 = 0;
    let mut i: usize = 1;
    while i < y.len()
        invariant
            rets_ok(p),
            p == ints(y@),
            1 <= i,
            i <= 4096,
            y@.len() == p.len(),
            i <= y.len() || y.len() == 0,
            acc == sum_adj(p.take(if i <= p.len() { i as int } else { p.len() as int })),
            acc <= i * 4_000_000_000_000_000_000,
        decreases y.len() - i,
    {
        let a = y[i - 1] as i128;
        let b = y[i] as i128;
        let ma = if a < 0 { -a } else { a };
        let mb = if b < 0 { -b } else { b };
        proof {
            assert(p[i - 1] == y@[i - 1] as int);
            assert(p[i as int] == y@[i as int] as int);
            assert(ma == mag(p[i - 1]) && mb == mag(p[i as int]));
            assert(ma * mb <= 4_000_000_000_000_000_000 && ma * mb >= 0) by (nonlinear_arith)
                requires
                    0 <= ma <= 2_000_000_000 && 0 <= mb <= 2_000_000_000,
            ;
            assert(p.take(i + 1).drop_last() =~= p.take(i as int));
            assert(p.take(i + 1).last() == p[i as int]);
            assert(p.take(i + 1)[i - 1] == p[i - 1]);
            lemma_mul_inequality(i as int, 4095, 4_000_000_000_000_000_000);
            assert((i + 1) * 4_000_000_000_000_000_000 == i * 4_000_000_000_000_000_000
                + 4_000_000_000_000_000_000) by (nonlinear_arith);
        }
        acc = acc + (ma * mb) as u128;
        i = i + 1;
    }
    proof {
        if p.len() > 0 {
            assert(p.take(p.len() as int) =~= p);
        } else {
            assert(p.take(0int) =~= p);
        }
        lemma_mul_inequality(i as int, 4096, 4_000_000_000_000_000_000);
        lemma_div_is_ordered(acc as int, 16_384_000_000_000_000_000_000, 1_000_000);
        assert(16_384_000_000_000_000_000_000int / 1_000_000 == 16_384_000_000_000_000);
    }
    let s1 = acc / 1_000_000;
    proof {
        assert(s1 * 1_570_796 <= 16_384_000_000_000_000 * 1_570_796) by (nonlinear_arith)
            requires
                0 <= s1 <= 16_384_000_000_000_000,
        ;
        lemma_div_is_ordered((s1 * 1_570_796) as int, 16_384_000_000_000_000int * 1_570_796, 1_000_000);
        assert(16_384_000_000_000_000int * 1_570_796 / 1_000_000 <= 25_800_000_000_000_000);
    }
    s1 * INV_MU_1_SQ_MICRO / 1_000_000
}

/// Tripower quarticity
/// `TQ = mu(4/3)^-3 * n^2/(n-2) * sum |y_i|^(4/3) |y_i+1|^(4/3) |y_i+2|^(4/3)`,
/// at the 1e18 scale.
pub fn tripower_quarticity(y: &Vec<i64>) -> (r: u128)
    requires
        rets_ok(ints(y@)),
        y@.len() >= 3,
    ensures
        r == spec_tq(ints(y@)),
        r <= 3_000_000_000_000_000_000_000_000_000_000,
{
    let ghost p = ints(y@);
    let ghost ts = tvals(p);
    let n = y.len();

    // 4/3-power magnitudes of the returns
    let mut tv: Vec<u128> = Vec::new();
    let mut i: usize = 0;
    while i < n
        invariant
            rets_ok(p),
            p == ints(y@),
            ts == tvals(p),
            i <= n,
            n == y@.len(),
            y@.len() == p.len(),
            tv@.len() == i,
            forall|j: int| 0 <= j < i ==> tv@[j] == ts[j] && 0 <= #[trigger] tv@[j]
                <= 2_519_843_000,
        decreases n - i,
    {
        let v = y[i] as i128;
        let m = (if v < 0 { -v } else { v }) as u128;
        proof {
            assert(p[i as int] == y@[i as int] as int);
            assert(m == mag(p[i as int]));
            assert(m * m <= 4_000_000_000_000_000_000) by (nonlinear_arith)
                requires
                    0 <= m <= 2_000_000_000,
            ;
            assert((m * m) * (m * m) <= 16_000_000_000_000_000_000_000_000_000_000_000_000 && (m
                * m) * (m * m) < 0x40000000000000000000000000000000) by (nonlinear_arith)
                requires
                    0 <= m * m <= 4_000_000_000_000_000_000,
            ;
        }
        let m4 = (m * m) * (m * m);
        let c = icbrt(m4);
        proof {
            assert(2_519_843_000_000int * 2_519_843_000_000 * 2_519_843_000_000
                >= 16_000_000_000_000_000_000_000_000_000_000_000_000);
            lemma_cbrt_floor_bound(m4 as int, 2_519_843_000_000);
            lemma_div_is_ordered(c as int, 2_519_843_000_000, 1000);
            assert(2_519_843_000_000int / 1000 == 2_519_843_000);
            assert(ts[i as int] == spec_t(p[i as int]));
        }
        tv.push(c / 1000);
        i = i + 1;
    }

    // sum of adjacent triple products
    let mut acc: u128 = 0;
    let mut j: usize = 2;
    proof {
        assert(ts.len() == p.len());
    }
    while j < n
        invariant
            2 <= j,
            j <= n,
            n == y@.len(),
            n >= 3,
            n <= 4096,
            p == ints(y@),
            ts == tvals(p),
            ts.len() == p.len(),
            tv@.len() == n,
            forall|k: int| 0 <= k < n ==> tv@[k] == ts[k] && 0 <= #[trigger] tv@[k]
                <= 2_519_843_000,
            acc == sum_tri(ts.take(j as int)),
            acc <= j * 17_000_000_000_000_000_000_000_000_000,
        decreases n - j,
    {
        let a = tv[j - 2];
        let b = tv[j - 1];
        let c = tv[j];
        proof {
            assert(a * b <= 6_400_000_000_000_000_000 && a * b >= 0) by (nonlinear_arith)
                requires
                    0 <= a <= 2_519_843_000 && 0 <= b <= 2_519_843_000,
            ;
            assert((a * b) * c <= 17_000_000_000_000_000_000_000_000_000 && (a * b) * c >= 0)
                by (nonlinear_arith)
                requires
                    0 <= a * b <= 6_400_000_000_000_000_000 && 0 <= c <= 2_519_843_000,
            ;
            assert(ts.take(j + 1).drop_last() =~= ts.take(j as int));
            assert(ts.take(j + 1).last() == ts[j as int]);
            assert(ts.take(j + 1)[j - 1] == ts[j - 1]);
            assert(ts.take(j + 1)[j - 2] == ts[j - 2]);
            assert(ts[j - 2] * ts[j - 1] * ts[j as int] == (a * b) * c) by (nonlinear_arith)
                requires
                    ts[j - 2] == a && ts[j - 1] == b && ts[j as int] == c,
            ;
            lemma_mul_inequality(j as int, 4095, 17_000_000_000_000_000_000_000_000_000);
            assert((j + 1) * 17_000_000_000_000_000_000_000_000_000 == j
                * 17_000_000_000_000_000_000_000_000_000 + 17_000_000_000_000_000_000_000_000_000)
                by (nonlinear_arith);
        }
        acc = acc + (a * b) * c;
        j = j + 1;
    }
    proof {
        assert(ts.take(n as int) =~= ts);
        assert forall|k: int| 0 <= k < ts.len() implies ts[k] >= 0 by {
            assert(ts[k] == tv@[k]);
        }
        lemma_sum_tri_nonneg(ts);
        lemma_mul_inequality(j as int, 4096, 17_000_000_000_000_000_000_000_000_000);
        lemma_div_is_ordered(
            acc as int,
            69_632_000_000_000_000_000_000_000_000_000,
            1_000_000_000,
        );
        assert(69_632_000_000_000_000_000_000_000_000_000int / 1_000_000_000
            == 69_632_000_000_000_000_000_000);
    }
    let s1 = acc / 1_000_000_000;
    proof {
        assert(s1 * 1_743_472 <= 69_632_000_000_000_000_000_000 * 1_743_472) by (nonlinear_arith)
            requires
                0 <= s1 <= 69_632_000_000_000_000_000_000,
        ;
        assert(69_632_000_000_000_000_000_000int * 1_743_472
            <= 130_000_000_000_000_000_000_000_000_000);
    }
    let s2 = s1 * INV_MU_4_3_CUBED_MICRO;
    proof {
        lemma_div_is_ordered(s2 as int, 130_000_000_000_000_000_000_000_000_000, 1_000_000);
        assert(130_000_000_000_000_000_000_000_000_000int / 1_000_000
            == 130_000_000_000_000_000_000_000);
    }
    let s3 = s2 / 1_000_000;
    let nn = n as u128;
    proof {
        assert(s3 * nn <= 130_000_000_000_000_000_000_000 * 4096 && s3 * nn >= 0)
            by (nonlinear_arith)
            requires
                0 <= s3 <= 130_000_000_000_000_000_000_000 && 0 <= nn <= 4096,
        ;
        assert((s3 * nn) * nn <= 130_000_000_000_000_000_000_000 * 4096 * 4096 && (s3 * nn) * nn
            >= 0) by (nonlinear_arith)
            requires
                0 <= s3 * nn <= 130_000_000_000_000_000_000_000 * 4096 && 0 <= nn <= 4096,
        ;
        assert(130_000_000_000_000_000_000_000int * 4096 * 4096
            <= 3_000_000_000_000_000_000_000_000_000_000);
    }
    let s4 = s3 * nn * nn;
    let r = s4 / (nn - 2);
    proof {
        lemma_div_nonincreasing(s4 as int, nn as int - 2);
    }
    r
}

/// The jump z-score of the series at the 1e6 scale, `None` when the series is
/// shorter than 3 or degenerate.
/// `z = ((RV-BPV)/RV) / sqrt((pi^2/4 + pi - 5)/n * max(1, TQ/BPV^2))`.
pub fn zscore(y: &Vec<i64>) -> (r: Option<i64>)
    requires
        rets_ok(ints(y@)),
    ensures
        zscore_matches(r, spec_zscore(ints(y@))),
        match r {
            Option::None => true,
            Option::Some(z) => -200_000_000_000 <= z <= 200_000_000_000,
        },
{
    let ghost p = ints(y@);
    if y.len() < 3 {
        return None;
    }
    let rv = realized_variance(y);
    let bpv = bipower_variation(y);
    if rv == 0 {
        return None;
    }
    proof {
        assert(bpv * bpv <= 25_800_000_000_000_000 * 25_800_000_000_000_000) by (nonlinear_arith)
            requires
                0 <= bpv <= 25_800_000_000_000_000,
        ;
    }
    let d = bpv * bpv / 1_000_000;
    if d == 0 {
        return None;
    }
    let tq = tripower_quarticity(y);
    proof {
        assert(tq * 1_000_000 <= 3_000_000_000_000_000_000_000_000_000_000 * 1_000_000)
            by (nonlinear_arith)
            requires
                0 <= tq <= 3_000_000_000_000_000_000_000_000_000_000,
        ;
    }
    let ratio = tq * 1_000_000 / d;
    let m = if ratio < 1_000_000 {
        1_000_000u128
    } else {
        ratio
    };

    // |RV - BPV| * 1e6 / RV is at most 2e6, because BPV <= 2 RV:
    // the adjacent-product sum is at most the square sum, and the
    // mu(1)^-2 factor is below 2.
    let (diff, pos) = if rv >= bpv {
        (rv - bpv, true)
    } else {
        (bpv - rv, false)
    };
    proof {
        lemma_sum_sq_nonneg(p);
        lemma_sum_adj_nonneg(p);
        lemma_sum_adj_le_sum_sq(p);
        lemma_div_is_ordered(sum_adj(p), sum_sq(p), 1_000_000);
        lemma_div_pos_is_pos(sum_adj(p), 1_000_000);
        let a = sum_adj(p) / 1_000_000;
        let rvi = sum_sq(p) / 1_000_000;
        lemma_mul_inequality(a, rvi, INV_MU_1_SQ_MICRO as int);
        lemma_div_is_ordered(a * 1_570_796, rvi * 1_570_796, 1_000_000);
        lemma_div_is_ordered(rvi * 1_570_796, (2 * rvi) * 1_000_000, 1_000_000);
        lemma_div_by_multiple(2 * rvi, 1_000_000);
        assert(spec_bpv(p) <= 2 * spec_rv(p));
        assert(diff <= 2 * rv);
        lemma_div_is_ordered((diff * 1_000_000) as int, 2_000_000 * (rv as int), rv as int);
        lemma_div_by_multiple(2_000_000, rv as int);
        assert(diff * 1_000_000 / (rv as int) <= 2_000_000);
        assert(diff == mag(spec_rv(p) - spec_bpv(p)));
    }
    let num = diff * 1_000_000 / rv;
    let nn = y.len() as u128;
    proof {
        assert(num * num <= 4_000_000_000_000 && num * num >= 0) by (nonlinear_arith)
            requires
                0 <= num <= 2_000_000,
        ;
        assert((num * num) * nn <= 16_384_000_000_000_000 && (num * num) * nn >= 0)
            by (nonlinear_arith)
            requires
                0 <= num * num <= 4_000_000_000_000 && 0 <= nn <= 4096,
        ;
    }
    let q = num * num * nn / ZTEST_COEF_MICRO;
    proof {
        lemma_div_nonincreasing((num * num * nn) as int, ZTEST_COEF_MICRO as int);
        assert(q * 1_000_000_000_000 <= 16_384_000_000_000_000 * 1_000_000_000_000 && q
            * 1_000_000_000_000 >= 0) by (nonlinear_arith)
            requires
                0 <= q <= 16_384_000_000_000_000,
        ;
        lemma_div_is_ordered_by_denominator((q * 1_000_000_000_000) as int, 1_000_000, m as int);
        assert(q * 1_000_000_000_000 == (q * 1_000_000) * 1_000_000) by (nonlinear_arith);
        lemma_div_by_multiple((q * 1_000_000) as int, 1_000_000);
        assert(q * 1_000_000 <= 16_384_000_000_000_000 * 1_000_000) by (nonlinear_arith)
            requires
                0 <= q <= 16_384_000_000_000_000,
        ;
        assert(16_384_000_000_000_000int * 1_000_000 < 0x100000000000000000000);
    }
    let z2 = q * 1_000_000_000_000 / m;
    let za = isqrt(z2);
    proof {
        assert(200_000_000_000int * 200_000_000_000 >= 16_384_000_000_000_000 * 1_000_000);
        lemma_sqrt_floor_bound(z2 as int, 200_000_000_000);
    }
    let zi = za as i64;
    if pos {
        Some(zi)
    } else {
        Some(-zi)
    }
}

} // verus!
