use scrapbox::config::{Output, OutputFormat};
use scrapbox::mixing::PulayHistory;
use scrapbox::output::{dump_file_name, plan_output, DumpFile, OutputError};
use scrapbox::text::{contains_text, decimal_text, replace_text};

fn output(dump_eigvecs: bool, overwrite: bool) -> Output {
    Output {
        directory: "runs/dimer_smoke".to_string(),
        format: OutputFormat::Json,
        dump_density: true,
        dump_spectrum: true,
        dump_eigvecs,
        dump_partition_function: true,
        overwrite,
    }
}

#[test]
fn refuses_overwrite_unless_opted_in() {
    assert!(matches!(
        plan_output(true, &output(false, false), false),
        Err(OutputError::DirectoryExists)
    ));
    let plan = plan_output(true, &output(false, true), false).unwrap();
    assert!(!plan.create_directory);
}

#[test]
fn skip_eigvecs_when_not_requested() {
    let plan = plan_output(false, &output(false, false), false).unwrap();
    assert!(plan.files.contains(&DumpFile::Spectrum { with_eigenvectors: false }));
    let plan = plan_output(false, &output(true, false), false).unwrap();
    assert!(plan.files.contains(&DumpFile::Spectrum { with_eigenvectors: true }));
}

#[test]
fn writes_all_dumps_and_observables() {
    let plan = plan_output(false, &output(false, false), true).unwrap();
    assert!(plan.create_directory);
    let names: Vec<&str> = plan.files.iter().map(|&f| dump_file_name(f)).collect();
    assert_eq!(
        names,
        vec!["density.json", "spectrum.json", "partition_function.json", "observables.json", "run.toml"]
    );
}

#[test]
fn observables_always_written() {
    let mut cfg = output(false, false);
    cfg.dump_density = false;
    cfg.dump_spectrum = false;
    cfg.dump_partition_function = false;
    let plan = plan_output(false, &cfg, false).unwrap();
    assert_eq!(plan.files, vec![DumpFile::Observables]);
}

#[test]
fn pulay_history_keeps_latest_pairs() {
    let mut h: PulayHistory<u32> = PulayHistory::new(3);
    assert_eq!(h.history_depth(), 3);
    for x in 1..=5 {
        h.push(x);
    }
    assert_eq!(h.len(), 3);
    assert_eq!(h.entries(), &[3, 4, 5]);
}

#[test]
fn pulay_history_depth_is_at_least_two() {
    let mut h: PulayHistory<(Vec<f64>, Vec<f64>)> = PulayHistory::new(0);
    assert_eq!(h.history_depth(), 2);
    h.push((vec![1.0], vec![0.5]));
    assert_eq!(h.len(), 1);
    h.push((vec![2.0], vec![0.25]));
    h.push((vec![3.0], vec![0.125]));
    assert_eq!(h.len(), 2);
    assert_eq!(h.entries()[0].0, vec![2.0]);
}

#[test]
fn text_search_and_replace() {
    assert!(contains_text("U_{U}_beta", "{U}"));
    assert!(!contains_text("U_beta", "{U}"));
    assert!(contains_text("abc", ""));
    assert!(!contains_text("ab", "abc"));
    assert_eq!(replace_text("aaaa", "aa", "b"), "bb");
    assert_eq!(replace_text("aaa", "aa", "b"), "ba");
    assert_eq!(replace_text("x{L}y{L}", "{L}", "4"), "x4y4");
    assert_eq!(replace_text("μ=1", "μ", "mu"), "mu=1");
}

#[test]
fn decimal_rendering() {
    assert_eq!(decimal_text(0), "0");
    assert_eq!(decimal_text(7), "7");
    assert_eq!(decimal_text(1200), "1200");
    assert_eq!(decimal_text(usize::MAX), format!("{}", usize::MAX));
}
