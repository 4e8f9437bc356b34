use scrapbox::sweep::{
    axis_lengths, cartesian_product, cell_summary, check_sweep, format_axis_value, grid_size_fits,
    render_subdir, AxisValue, Sweep, SweepAxis, SweepError,
};

/// An axis value with its two renderings, as the sweep runner makes them.
fn value(v: f64) -> AxisValue {
    AxisValue { text: format!("{v}"), fixed: format!("{v:.6}") }
}

fn axis(key: &str, label: Option<&str>, values: &[f64]) -> SweepAxis {
    SweepAxis {
        key: key.to_string(),
        label: label.map(|l| l.to_string()),
        values: values.iter().map(|&v| value(v)).collect(),
    }
}

#[test]
fn cartesian_product_zero_axes() {
    let out = cartesian_product(vec![]);
    assert_eq!(out, vec![Vec::<usize>::new()]);
}

#[test]
fn cartesian_product_two_by_three_yields_six_cells() {
    let out = cartesian_product(vec![2, 3]);
    assert_eq!(out.len(), 6);
    assert_eq!(out[0], vec![0, 0]);
    assert_eq!(out[5], vec![1, 2]);
}

#[test]
fn format_axis_value_filesystem_safe() {
    assert_eq!(format_axis_value(&format!("{:.6}", 2.5_f64)), "2p5");
    assert_eq!(format_axis_value(&format!("{:.6}", -0.1_f64)), "m0p1");
    assert_eq!(format_axis_value(&format!("{:.6}", 4.0_f64)), "4");
}

#[test]
fn render_subdir_substitutes_labels() {
    let axes = vec![
        axis("hamiltonian.on_site_interaction", Some("U"), &[2.0, 4.0, 6.0]),
        axis("hamiltonian.beta", None, &[1.0, 2.0]),
    ];
    let s = render_subdir("U_{U}_beta_{beta}", &axes, &[1, 0]).unwrap();
    assert_eq!(s, "U_4_beta_1");
}

#[test]
fn render_subdir_errors_on_missing_label() {
    let axes = vec![axis("hamiltonian.beta", None, &[1.0])];
    let err = render_subdir("nope", &axes, &[0]).unwrap_err();
    assert!(err.message().contains("subdir_template"));
}

#[test]
fn cartesian_product_last_axis_fastest() {
    let out = cartesian_product(vec![2, 1, 2]);
    assert_eq!(
        out,
        vec![vec![0, 0, 0], vec![0, 0, 1], vec![1, 0, 0], vec![1, 0, 1]]
    );
    assert_eq!(cartesian_product(vec![3, 0, 2]), Vec::<Vec<usize>>::new());
}

#[test]
fn grid_size_fits_detects_overflow() {
    assert!(grid_size_fits(&vec![2, 3, 4]));
    assert!(grid_size_fits(&vec![]));
    assert!(!grid_size_fits(&vec![usize::MAX, 2]));
    assert!(grid_size_fits(&vec![usize::MAX, 1]));
}

#[test]
fn format_axis_value_keeps_integer_zeros_and_precision() {
    assert_eq!(format_axis_value("10.000000"), "10");
    assert_eq!(format_axis_value("100.250000"), "100p25");
    assert_eq!(format_axis_value("0.000000"), "0");
    assert_eq!(format_axis_value("-3.000000"), "m3");
}

#[test]
fn render_subdir_replaces_every_occurrence() {
    let axes = vec![axis("a.b.c", None, &[0.5])];
    let s = render_subdir("{c}/{c}-x", &axes, &[0]).unwrap();
    assert_eq!(s, "0p5/0p5-x");
}

#[test]
fn render_subdir_reports_template_and_label() {
    let axes = vec![
        axis("hamiltonian.on_site_interaction", Some("U"), &[2.0]),
        axis("hamiltonian.beta", None, &[1.0]),
    ];
    match render_subdir("U_{U}", &axes, &[0, 0]) {
        Err(SweepError::UnreferencedLabel { template, label }) => {
            assert_eq!(template, "U_{U}");
            assert_eq!(label, "beta");
        }
        other => panic!("unexpected {other:?}"),
    }
    let err = render_subdir("x", &axes, &[0, 0]).unwrap_err();
    assert_eq!(
        err.message(),
        "subdir_template x does not reference axis label U"
    );
}

#[test]
fn effective_label_falls_back_to_last_key_segment() {
    assert_eq!(axis("hamiltonian.beta", None, &[]).effective_label(), "beta");
    assert_eq!(axis("beta", None, &[]).effective_label(), "beta");
    assert_eq!(axis("a.b.", None, &[]).effective_label(), "");
    assert_eq!(axis("a.b", Some("B"), &[]).effective_label(), "B");
}

#[test]
fn cell_summary_joins_label_value_pairs() {
    let axes = vec![
        axis("hamiltonian.on_site_interaction", Some("U"), &[2.0, 4.5]),
        axis("hamiltonian.beta", None, &[1.0, 2.0]),
    ];
    assert_eq!(cell_summary(&axes, &[1, 0]), "U=4.5, beta=1");
    assert_eq!(cell_summary(&axes, &[]), "");
}

#[test]
fn check_sweep_rules() {
    assert!(matches!(check_sweep(None), Err(SweepError::MissingSection)));
    let empty = Sweep { axes: vec![], subdir_template: "x".to_string(), parallelism: 1 };
    assert!(matches!(check_sweep(Some(&empty)), Err(SweepError::EmptyAxes)));
    let parallel = Sweep {
        axes: vec![axis("hamiltonian.beta", None, &[1.0])],
        subdir_template: "{beta}".to_string(),
        parallelism: 4,
    };
    let err = check_sweep(Some(&parallel)).unwrap_err();
    assert_eq!(
        err.message(),
        "[sweep].parallelism = 4 not yet supported (only 1 \u{2014} sequential)"
    );
    let ok = Sweep { parallelism: 1, ..parallel };
    assert!(check_sweep(Some(&ok)).is_ok());
    assert_eq!(axis_lengths(&ok.axes), vec![1]);
}

#[test]
fn sweep_error_messages() {
    assert_eq!(
        SweepError::MissingSection.message(),
        "[sweep] section missing \u{2014} scrapbox sweep requires it"
    );
    assert_eq!(SweepError::EmptyAxes.message(), "[sweep].axes must be non-empty");
    assert_eq!(
        SweepError::UnsupportedParallelism { parallelism: 120 }.message(),
        "[sweep].parallelism = 120 not yet supported (only 1 \u{2014} sequential)"
    );
}
