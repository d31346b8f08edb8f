use jump_diffusion::math::bipower_variation;
use jump_diffusion::math::realized_variance;
use jump_diffusion::math::tripower_quarticity;
use jump_diffusion::math::zscore;
use jump_diffusion::math::INV_MU_1_SQ_MICRO;
use jump_diffusion::math::INV_MU_4_3_CUBED_MICRO;
use jump_diffusion::math::MU_1_NANO;
use jump_diffusion::math::MU_4_3_NANO;
use jump_diffusion::math::ZTEST_COEF_MICRO;
use jump_diffusion::math::Z_CRIT_MICRO;
use statrs::distribution::ContinuousCDF;
use statrs::distribution::Normal;
use statrs::function::gamma::gamma;

/// The half-normal moment constant mu(p) = 2^(p/2) Gamma((p+1)/2) / Gamma(1/2).
fn mu(x: f64) -> f64 {
    f64::powf(2.0, x / 2.0) * gamma((x + 1.0) / 2.0) / gamma(0.5)
}

#[test]
fn mu_constants_match_gamma_function() {
    assert!((MU_1_NANO as f64 / 1e9 - mu(1.0)).abs() < 1e-9);
    assert!((MU_4_3_NANO as f64 / 1e9 - mu(4.0 / 3.0)).abs() < 1e-9);
}

#[test]
fn derived_constants_match_their_formulas() {
    let inv_mu1_sq = 1.0 / (mu(1.0) * mu(1.0));
    assert!((INV_MU_1_SQ_MICRO as f64 / 1e6 - inv_mu1_sq).abs() < 1e-6);
    let inv_mu43_cubed = 1.0 / f64::powi(mu(4.0 / 3.0), 3);
    assert!((INV_MU_4_3_CUBED_MICRO as f64 / 1e6 - inv_mu43_cubed).abs() < 1e-6);
    let coef = f64::powi(std::f64::consts::FRAC_PI_2, 2) + std::f64::consts::PI - 5.0;
    assert!((ZTEST_COEF_MICRO as f64 / 1e6 - coef).abs() < 1e-6);
}

#[test]
fn critical_value_is_the_999th_normal_percentile() {
    let d = Normal::new(0.0, 1.0).expect("standard normal");
    let q = d.inverse_cdf(0.999);
    assert!((Z_CRIT_MICRO as f64 / 1e6 - q).abs() < 1e-6);
}

#[test]
fn realized_variance_exact_value() {
    // returns 0.001 and -0.002: RV = 1e-6 + 4e-6 = 5e-6, i.e. 5_000_000 at 1e12
    let y: Vec<i64> = vec![1_000_000, -2_000_000];
    assert_eq!(realized_variance(&y), 5_000_000);
}

#[test]
fn bipower_variation_exact_value() {
    // |0.001|*|0.002| = 2e-6; times pi/2 (1.570796 at 1e6): 3_141_592 at 1e12
    let y: Vec<i64> = vec![1_000_000, -2_000_000];
    assert_eq!(bipower_variation(&y), 2_000_000 * 1_570_796 / 1_000_000);
}

#[test]
fn tripower_quarticity_exact_value() {
    // all returns 0.001: |y|^(4/3) = 1e-4, t = 100_000 at 1e9 scale;
    // one window: t^3 = 1e15; tq = (1e15/1e9) * 1_743_472 / 1e6 * 9 / 1
    let y: Vec<i64> = vec![1_000_000, 1_000_000, 1_000_000];
    let expected: u128 = 1_000_000 * 1_743_472 / 1_000_000 * 9 / 1;
    assert_eq!(tripower_quarticity(&y), expected);
}

#[test]
fn zscore_of_outlier_series_exceeds_critical_value() {
    let mut y: Vec<i64> = Vec::new();
    for i in 0..20 {
        y.push(if i % 2 == 0 { 100_000 } else { -100_000 });
    }
    y.push(50_000_000);
    let z = zscore(&y).expect("defined statistic");
    assert_eq!(z, 5_853_081);
    assert!(z.abs() > Z_CRIT_MICRO);
}

#[test]
fn zscore_of_uniform_noise_stays_below_critical_value() {
    let mut y: Vec<i64> = Vec::new();
    for i in 0..21 {
        y.push(if i % 2 == 0 { 100_000 } else { -100_000 });
    }
    let z = zscore(&y).expect("defined statistic");
    assert_eq!(z, -2_912_597);
    assert!(z.abs() <= Z_CRIT_MICRO);
}

#[test]
fn zscore_is_undefined_for_degenerate_inputs() {
    assert_eq!(zscore(&vec![0; 10]), None);
    assert_eq!(zscore(&vec![1_000_000, -1_000_000]), None);
    assert_eq!(zscore(&Vec::new()), None);
}
