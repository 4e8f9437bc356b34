use scrapbox::config::{
    check_schema_version, default_pulay_history_depth, default_sweep_parallelism,
    default_theta_2_method, default_true, default_units, validate_config, validate_hamiltonian,
    ConfigError, HamiltonianShape, PrattParams, Theta2Spec, SUPPORTED_SCHEMA_VERSION,
};

/// The Hamiltonian section of the reference dimer configuration
/// (`num_sites = 2`, one electron per spin, `beta = 2.0`, uniform potential).
fn dimer() -> HamiltonianShape {
    HamiltonianShape {
        model: "hubbard_1d_inhomogeneous".to_string(),
        num_sites: 2,
        num_electrons_per_spin: 1,
        beta_positive_finite: 2.0_f64 > 0.0 && 2.0_f64.is_finite(),
        units: default_units(),
        explicit_potential_len: None,
    }
}

#[test]
fn dimer_config_passes_validation() {
    assert!(validate_config(&"0.2".to_string(), &dimer()).is_ok());
}

#[test]
fn rejects_schema_version_mismatch() {
    let err = validate_config(&"0.99".to_string(), &dimer()).expect_err("must reject");
    assert!(matches!(err, ConfigError::SchemaVersionMismatch { .. }));
}

#[test]
fn rejects_more_electrons_than_sites() {
    let h = HamiltonianShape { num_electrons_per_spin: 3, ..dimer() };
    let err = validate_config(&"0.2".to_string(), &h).expect_err("must reject");
    assert!(matches!(
        err,
        ConfigError::TooManyElectrons { num_electrons_per_spin: 3, num_sites: 2 }
    ));
}

#[test]
fn rejects_non_positive_beta() {
    let beta = -1.0_f64;
    let h = HamiltonianShape { beta_positive_finite: beta > 0.0 && beta.is_finite(), ..dimer() };
    let err = validate_config(&"0.2".to_string(), &h).expect_err("must reject");
    assert!(matches!(err, ConfigError::NonPositiveBeta));
}

#[test]
fn explicit_external_potential_length_must_match() {
    let h = HamiltonianShape { explicit_potential_len: Some(3), ..dimer() };
    let err = validate_config(&"0.2".to_string(), &h).expect_err("3 != 2");
    assert!(matches!(err, ConfigError::PotentialLength { len: 3, num_sites: 2 }));
}

#[test]
fn hamiltonian_checks_come_in_order() {
    let h = HamiltonianShape { num_sites: 0, num_electrons_per_spin: 5, ..dimer() };
    assert!(matches!(validate_hamiltonian(&h), Err(ConfigError::NoSites)));
    let h = HamiltonianShape { units: "eV".to_string(), model: "other".to_string(), ..dimer() };
    match validate_hamiltonian(&h) {
        Err(ConfigError::UnknownUnits { units }) => assert_eq!(units, "eV"),
        other => panic!("unexpected {other:?}"),
    }
    let h = HamiltonianShape { model: "other".to_string(), ..dimer() };
    match validate_hamiltonian(&h) {
        Err(ConfigError::UnsupportedModel { model }) => assert_eq!(model, "other"),
        other => panic!("unexpected {other:?}"),
    }
    let h = HamiltonianShape { units: "absolute".to_string(), explicit_potential_len: Some(2), ..dimer() };
    assert!(validate_hamiltonian(&h).is_ok());
}

#[test]
fn schema_version_check() {
    assert_eq!(SUPPORTED_SCHEMA_VERSION, "0.2");
    assert!(check_schema_version(&"0.2".to_string()).is_ok());
    match check_schema_version(&"0.1".to_string()) {
        Err(ConfigError::SchemaVersionMismatch { found }) => assert_eq!(found, "0.1"),
        other => panic!("unexpected {other:?}"),
    }
}

#[test]
fn schema_defaults() {
    assert_eq!(default_units(), "j_units");
    assert!(default_true());
    assert_eq!(default_pulay_history_depth(), 8);
    assert_eq!(default_theta_2_method(), "zero");
    assert_eq!(default_sweep_parallelism(), 1);
    assert!(PrattParams::default().spectrum_shift);
    assert_eq!(Theta2Spec::default().method, "");
}
