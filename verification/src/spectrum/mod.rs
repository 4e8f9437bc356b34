//! Spectrum sources: the choice of eigensolver, the Lanczos subspace
//! rules, and the integer side of the many-body Hubbard operator.

pub mod hubbard_jw;
pub mod lanczos;

use vstd::prelude::*;
use crate::config::{ConfigError, SpectrumSource as SpectrumConfig};
use crate::spectrum::lanczos::LanczosParams;

verus! {

/// Dispatching enum over spectrum-source variants.
#[derive(Clone, Copy, Debug, PartialEq, Eq, Structural)]
pub enum SpectrumSource {
    /// Dense eigendecomposition.
    DenseDiag,
    /// Lanczos tridiagonalization plus a dense solve of `T_m`.
    Lanczos(LanczosParams),
}

impl SpectrumSource {
    /// The source a configuration section selects, with its parameters
    /// carried over field by field.
    pub open spec fn configured(cfg: SpectrumConfig) -> Self {
        match cfg {
            SpectrumConfig::DenseDiag => SpectrumSource::DenseDiag,
            SpectrumConfig::Lanczos { krylov_dim, max_iter, tol_bits } => SpectrumSource::Lanczos(
                LanczosParams { krylov_dim, max_iter, tol_bits },
            ),
        }
    }

    /// Build from config. Every configured source is accepted.
    pub fn from_config(cfg: &SpectrumConfig) -> (r: Result<Self, ConfigError>)
        ensures
            r == Ok::<Self, ConfigError>(Self::configured(*cfg)),
    {
        match cfg {
            SpectrumConfig::DenseDiag => Ok(SpectrumSource::DenseDiag),
            SpectrumConfig::Lanczos { krylov_dim, max_iter, tol_bits } => Ok(
                SpectrumSource::Lanczos(
                    LanczosParams { krylov_dim: *krylov_dim, max_iter: *max_iter, tol_bits: *tol_bits },
                ),
            ),
        }
    }
}

/// The configuration name of a spectrum source.
pub open spec fn spectrum_kind(s: SpectrumSource) -> Seq<char> {
    match s {
        SpectrumSource::DenseDiag => "dense_diag"@,
        SpectrumSource::Lanczos(_) => "lanczos"@,
    }
}

/// The configuration name of a spectrum source, as reports print it.
pub fn spectrum_kind_name(s: &SpectrumSource) -> (r: &'static str)
    ensures
        r@ == spectrum_kind(*s),
{
    match s {
        SpectrumSource::DenseDiag => "dense_diag",
        SpectrumSource::Lanczos(_) => "lanczos",
    }
}

} // verus!
