use scrapbox::config::{
    ConfigError, DensityEvaluator, GceProjectionParams, PrattParams,
    SpectrumSource as SpectrumConfig,
};
use scrapbox::density::{
    density_kind_name, CanonicalDensityEvaluator, GceProjectionParamsRuntime, PrattParamsRuntime,
};
use scrapbox::spectrum::lanczos::{lanczos_subspace_dim, LanczosParams};
use scrapbox::spectrum::{spectrum_kind_name, SpectrumSource};
use scrapbox::xc::{xc_kind_name, ExchangeCorrelation};

#[test]
fn rejects_max_iter_below_krylov_dim() {
    let bad = LanczosParams { krylov_dim: None, max_iter: 2, tol_bits: 1e-12_f64.to_bits() };
    assert!(lanczos_subspace_dim(4, &bad).is_err());
}

#[test]
fn lanczos_subspace_dimension_rules() {
    let full = LanczosParams { krylov_dim: None, max_iter: 10, tol_bits: 0 };
    assert_eq!(lanczos_subspace_dim(6, &full).unwrap(), 6);
    let capped = LanczosParams { krylov_dim: Some(20), max_iter: 200, tol_bits: 0 };
    assert_eq!(lanczos_subspace_dim(6, &capped).unwrap(), 6);
    let small = LanczosParams { krylov_dim: Some(3), max_iter: 3, tol_bits: 0 };
    assert_eq!(lanczos_subspace_dim(6, &small).unwrap(), 3);
    assert!(matches!(lanczos_subspace_dim(0, &full), Err(ConfigError::EmptyKrylovSpace)));
    let zero = LanczosParams { krylov_dim: Some(0), max_iter: 5, tol_bits: 0 };
    assert!(matches!(lanczos_subspace_dim(6, &zero), Err(ConfigError::EmptyKrylovSpace)));
    let short = LanczosParams { krylov_dim: None, max_iter: 2, tol_bits: 0 };
    assert!(matches!(
        lanczos_subspace_dim(4, &short),
        Err(ConfigError::MaxIterBelowKrylovDim { max_iter: 2, krylov_dim: 4 })
    ));
}

#[test]
fn spectrum_source_from_config_carries_parameters() {
    assert_eq!(
        SpectrumSource::from_config(&SpectrumConfig::DenseDiag).unwrap(),
        SpectrumSource::DenseDiag
    );
    let tol = 1e-10_f64.to_bits();
    let cfg = SpectrumConfig::Lanczos { krylov_dim: Some(8), max_iter: 50, tol_bits: tol };
    let s = SpectrumSource::from_config(&cfg).unwrap();
    assert_eq!(
        s,
        SpectrumSource::Lanczos(LanczosParams { krylov_dim: Some(8), max_iter: 50, tol_bits: tol })
    );
    assert_eq!(spectrum_kind_name(&s), "lanczos");
    assert_eq!(spectrum_kind_name(&SpectrumSource::DenseDiag), "dense_diag");
}

#[test]
fn density_evaluator_from_config_carries_parameters() {
    let pratt = DensityEvaluator::PrattRecursion { params: PrattParams { spectrum_shift: false } };
    assert_eq!(
        CanonicalDensityEvaluator::from_config(&pratt).unwrap(),
        CanonicalDensityEvaluator::PrattRecursion(PrattParamsRuntime { spectrum_shift: false })
    );
    let gce = DensityEvaluator::GcePlusProjection {
        params: GceProjectionParams { num_quadrature_points: 16, spectrum_shift: true },
    };
    let d = CanonicalDensityEvaluator::from_config(&gce).unwrap();
    assert_eq!(
        d,
        CanonicalDensityEvaluator::GcePlusProjection(GceProjectionParamsRuntime {
            num_quadrature_points: 16,
            spectrum_shift: true,
        })
    );
    assert_eq!(density_kind_name(&d), "gce_plus_projection");
}

#[test]
fn pratt_default_shifts_the_spectrum() {
    let d = CanonicalDensityEvaluator::pratt_default();
    assert_eq!(
        d,
        CanonicalDensityEvaluator::PrattRecursion(PrattParamsRuntime { spectrum_shift: true })
    );
    assert_eq!(density_kind_name(&d), "pratt_recursion");
    let from: PrattParamsRuntime = (&PrattParams { spectrum_shift: true }).into();
    assert!(from.spectrum_shift);
}

#[test]
fn xc_kind_names() {
    assert_eq!(xc_kind_name(&ExchangeCorrelation::HubbardLda), "hubbard_lda");
    assert_eq!(xc_kind_name(&ExchangeCorrelation::Balda), "balda");
    assert_eq!(xc_kind_name(&ExchangeCorrelation::BaldaFiniteT), "balda_finite_t");
    assert_eq!(xc_kind_name(&ExchangeCorrelation::NonInteracting), "non_interacting");
}
