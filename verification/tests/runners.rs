use scrapbox::bench::{check_bench, Bench, BenchError};
use scrapbox::many_body_ed::{
    check_ed, dense_eigenvalue_count, ed_solver_name, lowest_levels_plan, EdError, EdSolver, EdSpec,
};

#[test]
fn ed_section_checks() {
    assert_eq!(check_ed(None), Err(EdError::MissingSection));
    let sparse = EdSpec { solver: EdSolver::SparseLanczos, num_eigenvalues: None };
    assert_eq!(check_ed(Some(sparse)), Err(EdError::SparseUnavailable));
    let dense = EdSpec { solver: EdSolver::Dense, num_eigenvalues: Some(4) };
    assert_eq!(check_ed(Some(dense)), Ok(dense));
    assert_eq!(ed_solver_name(EdSolver::Dense), "dense");
    assert_eq!(ed_solver_name(EdSolver::MatrixFreeLanczos), "matrix_free_lanczos");
    assert_eq!(ed_solver_name(EdSolver::SparseLanczos), "sparse_lanczos");
}

#[test]
fn dense_eigenvalue_count_clips_to_dim() {
    assert_eq!(dense_eigenvalue_count(None, 400), 400);
    assert_eq!(dense_eigenvalue_count(Some(4), 400), 4);
    assert_eq!(dense_eigenvalue_count(Some(500), 400), 400);
}

#[test]
fn lowest_levels_plan_sizes_krylov_space() {
    // Default of eight levels: Krylov dimension 80, four iterations each.
    let p = lowest_levels_plan(None, 400, 7);
    assert_eq!(p.k_request, 8);
    assert_eq!(p.params.krylov_dim, Some(80));
    assert_eq!(p.params.max_iter, 320);
    assert_eq!(p.params.tol_bits, 7);
    // One level: at least twenty Krylov vectors.
    let p = lowest_levels_plan(Some(1), 400, 0);
    assert_eq!(p.params.krylov_dim, Some(20));
    // Many levels: capped at the dimension.
    let p = lowest_levels_plan(Some(30), 36, 0);
    assert_eq!(p.k_request, 30);
    assert_eq!(p.params.krylov_dim, Some(36));
    assert_eq!(p.params.max_iter, 144);
}

#[test]
fn bench_section_checks() {
    assert_eq!(check_bench(None), Err(BenchError::MissingSection));
    assert_eq!(
        check_bench(Some(Bench { warmup: 1, measured: 0 })),
        Err(BenchError::NoMeasuredRuns)
    );
    let b = Bench { warmup: 0, measured: 3 };
    assert_eq!(check_bench(Some(b)), Ok(b));
}
