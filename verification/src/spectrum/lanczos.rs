//! Lanczos parameters and the subspace dimension a Lanczos run works in.

use vstd::prelude::*;
use crate::config::ConfigError;

verus! {

/// Parameters for Lanczos iteration.
#[derive(Clone, Copy, Debug, PartialEq, Eq, Structural)]
pub struct LanczosParams {
    /// Krylov subspace dimension; `None` means full (the matrix dimension).
    pub krylov_dim: Option<usize>,
    /// Hard cap on iterations.
    pub max_iter: usize,
    /// IEEE-754 binary64 bit pattern of the early-termination tolerance;
    /// the library carries it without reading it.
    pub tol_bits: u64,
}

/// The subspace dimension for an `n x n` matrix: the requested
/// dimension (or `n` when none is given), capped at `n`.
pub open spec fn subspace_dim(n: nat, krylov_dim: Option<usize>) -> nat {
    let k = match krylov_dim {
        Some(k) => k as nat,
        None => n,
    };
    if k < n {
        k
    } else {
        n
    }
}

/// What a Lanczos run on an `n x n` matrix with `params` works with: the
/// subspace dimension, or why the parameters are refused.
pub open spec fn lanczos_plan(n: nat, params: LanczosParams) -> Result<usize, ConfigError> {
    let m = subspace_dim(n, params.krylov_dim);
    if m == 0 {
        Err(ConfigError::EmptyKrylovSpace)
    } else if params.max_iter < m {
        Err(ConfigError::MaxIterBelowKrylovDim { max_iter: params.max_iter, krylov_dim: m as usize })
    } else {
        Ok(m as usize)
    }
}

/// The Krylov subspace dimension of a Lanczos run on an `n x n` matrix:
/// `krylov_dim` (or `n`) capped at `n`. A zero dimension, and an
/// iteration cap below the dimension, are refused.
pub fn lanczos_subspace_dim(n: usize, params: &LanczosParams) -> (r: Result<usize, ConfigError>)
    ensures
        r == lanczos_plan(n as nat, *params),
{
    let k = match params.krylov_dim {
        Some(k) => k,
        None => n,
    };
    let m = if k < n {
        k
    } else {
        n
    };
    if m == 0 {
        return Err(ConfigError::EmptyKrylovSpace);
    }
    if params.max_iter < m {
        return Err(ConfigError::MaxIterBelowKrylovDim { max_iter: params.max_iter, krylov_dim: m });
    }
    Ok(m)
}

/// A Lanczos run that is not refused works in a subspace of dimension
/// between one and the matrix dimension, and is allowed at least as many
/// iterations as that dimension.
pub proof fn lemma_lanczos_plan_bounds(n: nat, params: LanczosParams)
    ensures
        lanczos_plan(n, params) matches Ok(m) ==> 1 <= m <= n && m <= params.max_iter,
        lanczos_plan(n, params) is Ok <==> (n > 0 && params.krylov_dim != Some(0usize)
            && subspace_dim(n, params.krylov_dim) <= params.max_iter),
{
}

} // verus!
