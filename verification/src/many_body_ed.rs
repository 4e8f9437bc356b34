//! The `[ed]` section of a configuration and the sizing rules of the
//! many-body exact-diagonalisation runner: how many eigenvalues each
//! solver returns and the Lanczos subspace the matrix-free solver uses.

use vstd::prelude::*;
use crate::spectrum::lanczos::LanczosParams;

verus! {

/// Which many-body eigensolver `scrapbox ed` runs.
#[derive(Clone, Copy, Debug, PartialEq, Eq, Structural)]
pub enum EdSolver {
    /// Full spectrum of the dense Hamiltonian.
    Dense,
    /// Lowest levels by Lanczos on the matrix-free operator.
    MatrixFreeLanczos,
    /// Lowest levels by Lanczos on a sparse matrix (not available).
    SparseLanczos,
}

/// The `[ed]` section.
#[derive(Clone, Copy, Debug, PartialEq, Eq, Structural)]
pub struct EdSpec {
    /// Solver to run.
    pub solver: EdSolver,
    /// How many of the lowest eigenvalues to return.
    pub num_eigenvalues: Option<usize>,
}

/// Why the ED runner refuses a configuration.
#[derive(Clone, Copy, Debug, PartialEq, Eq, Structural)]
pub enum EdError {
    /// The configuration has no `[ed]` section.
    MissingSection,
    /// The sparse Lanczos backend is reserved and not available.
    SparseUnavailable,
}

/// The name a solver is reported under.
pub open spec fn ed_solver_kind(s: EdSolver) -> Seq<char> {
    match s {
        EdSolver::Dense => "dense"@,
        EdSolver::MatrixFreeLanczos => "matrix_free_lanczos"@,
        EdSolver::SparseLanczos => "sparse_lanczos"@,
    }
}

/// The name a solver is reported under.
pub fn ed_solver_name(s: EdSolver) -> (r: &'static str)
    ensures
        r@ == ed_solver_kind(s),
{
    match s {
        EdSolver::Dense => "dense",
        EdSolver::MatrixFreeLanczos => "matrix_free_lanczos",
        EdSolver::SparseLanczos => "sparse_lanczos",
    }
}

/// Checks the `[ed]` section before a run: it must be present and must
/// not ask for the unavailable sparse backend.
pub fn check_ed(spec: Option<EdSpec>) -> (r: Result<EdSpec, EdError>)
    ensures
        r == (match spec {
            None => Err(EdError::MissingSection),
            Some(s) => if s.solver == EdSolver::SparseLanczos {
                Err(EdError::SparseUnavailable)
            } else {
                Ok(s)
            },
        }),
{
    match spec {
        None => Err(EdError::MissingSection),
        Some(s) => match s.solver {
            EdSolver::SparseLanczos => Err(EdError::SparseUnavailable),
            _ => Ok(s),
        },
    }
}

/// Number of eigenvalues the dense solver returns out of a spectrum of
/// `dim` levels: the requested count (all by default), at most `dim`.
pub fn dense_eigenvalue_count(num_eigenvalues: Option<usize>, dim: usize) -> (r: usize)
    ensures
        r == (match num_eigenvalues {
            Some(k) => if k < dim {
                k
            } else {
                dim
            },
            None => dim,
        }),
{
    match num_eigenvalues {
        Some(k) => if k < dim {
            k
        } else {
            dim
        },
        None => dim,
    }
}

/// The request the matrix-free solver makes of Lanczos.
#[derive(Clone, Copy, Debug, PartialEq, Eq, Structural)]
pub struct LowestLevelsPlan {
    /// How many of the lowest eigenvalues to keep.
    pub k_request: usize,
    /// Lanczos parameters of the run.
    pub params: LanczosParams,
}

/// The count the matrix-free solver keeps: the requested count (eight by
/// default), at most `dim`.
pub open spec fn requested_levels(num_eigenvalues: Option<usize>, dim: nat) -> nat {
    let k = match num_eigenvalues {
        Some(k) => k as nat,
        None => 8,
    };
    if k < dim {
        k
    } else {
        dim
    }
}

/// The Krylov dimension for keeping `k` levels of a `dim`-dimensional
/// space: ten per level, at least twenty, at most `dim`.
pub open spec fn krylov_for(k: nat, dim: nat) -> nat {
    if 10 * k < 20 {
        20
    } else if 10 * k > dim {
        dim
    } else {
        10 * k
    }
}

/// Sizing of a matrix-free Lanczos run on a space of dimension `dim >= 20`:
/// keep `k` levels, use a Krylov space of ten per level clamped to
/// `[20, dim]`, and allow four iterations per Krylov vector.
pub fn lowest_levels_plan(num_eigenvalues: Option<usize>, dim: usize, tol_bits: u64) -> (r:
    LowestLevelsPlan)
    requires
        20 <= dim,
        4 * dim <= usize::MAX,
        10 * requested_levels(num_eigenvalues, dim as nat) <= usize::MAX,
    ensures
        r.k_request == requested_levels(num_eigenvalues, dim as nat),
        r.params.krylov_dim == Some(krylov_for(r.k_request as nat, dim as nat) as usize),
        r.params.max_iter == 4 * krylov_for(r.k_request as nat, dim as nat),
        r.params.tol_bits == tol_bits,
{
    let k = match num_eigenvalues {
        Some(k) => k,
        None => 8,
    };
    let k_request = if k < dim {
        k
    } else {
        dim
    };
    let ten = k_request * 10;
    let krylov = if ten < 20 {
        20
    } else if ten > dim {
        dim
    } else {
        ten
    };
    LowestLevelsPlan {
        k_request,
        params: LanczosParams { krylov_dim: Some(krylov), max_iter: krylov * 4, tol_bits },
    }
}

/// The matrix-free sizing keeps at most `dim` levels and uses a Krylov
/// space between twenty vectors and the full dimension (for `dim >= 20`)
/// holding at least ten vectors per kept level when the dimension allows.
pub proof fn lemma_lowest_levels_bounds(num_eigenvalues: Option<usize>, dim: nat)
    requires
        20 <= dim,
    ensures
        requested_levels(num_eigenvalues, dim) <= dim,
        20 <= krylov_for(requested_levels(num_eigenvalues, dim), dim) <= dim,
        10 * requested_levels(num_eigenvalues, dim) <= dim ==> 10 * requested_levels(
            num_eigenvalues,
            dim,
        ) <= krylov_for(requested_levels(num_eigenvalues, dim), dim),
{
}

} // verus!
