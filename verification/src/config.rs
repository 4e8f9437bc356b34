//! The parts of a run configuration that hold no floating-point values,
//! the defaults the schema fills in, and the semantic checks a parsed
//! configuration must pass before a run.

use vstd::prelude::*;

verus! {

/// `schema_version` value this build supports.
pub const SUPPORTED_SCHEMA_VERSION: &'static str = "0.2";

/// Run identity. Free-form except `name` (must be filesystem-safe).
#[derive(Clone, Debug)]
pub struct Meta {
    /// Filesystem-safe identifier for the run.
    pub name: String,
    /// Optional human-readable description.
    pub description: Option<String>,
    /// Optional creation date (free-form string, typically ISO 8601).
    pub created: Option<String>,
    /// Optional tags.
    pub tags: Vec<String>,
}

/// How to obtain the eigendecomposition of the Kohn-Sham matrix.
#[derive(Clone, Copy, Debug)]
pub enum SpectrumSource {
    /// Dense eigendecomposition.
    DenseDiag,
    /// Lanczos tridiagonalization followed by a dense solve of `T_m`.
    Lanczos {
        /// Krylov subspace dimension; `None` means the full dimension.
        krylov_dim: Option<usize>,
        /// Hard cap on iterations.
        max_iter: usize,
        /// IEEE-754 binary64 bit pattern of the early-termination
        /// tolerance; the library carries it without reading it.
        tol_bits: u64,
    },
}

/// Numerical parameters for the Pratt recursion.
#[derive(Clone, Copy, Debug)]
pub struct PrattParams {
    /// Subtract the lowest level before the recursion to avoid overflow.
    pub spectrum_shift: bool,
}

impl Default for PrattParams {
    fn default() -> (r: Self)
        ensures
            r.spectrum_shift,
    {
        PrattParams { spectrum_shift: true }
    }
}

/// Numerical parameters for the grand-canonical-plus-projection evaluator.
#[derive(Clone, Copy, Debug)]
pub struct GceProjectionParams {
    /// Number of unit-circle fugacity quadrature points.
    pub num_quadrature_points: usize,
    /// Subtract the lowest level before exponentiation.
    pub spectrum_shift: bool,
}

/// How to assemble the canonical densities and partition function.
#[derive(Clone, Copy, Debug)]
pub enum DensityEvaluator {
    /// Pratt-Borrmann-Franke recursion (exact for non-interacting fermions).
    PrattRecursion {
        /// Tunable knobs.
        params: PrattParams,
    },
    /// Grand-canonical quadrature on the fugacity circle plus projection.
    GcePlusProjection {
        /// Tunable knobs.
        params: GceProjectionParams,
    },
}

/// How to estimate the quantum correction `Theta_2`.
#[derive(Clone, Debug)]
pub struct Theta2Spec {
    /// `zero` (neglect) or `lda`.
    pub method: String,
}

impl Default for Theta2Spec {
    /// The value an absent `[observables].theta_2` table takes: an empty
    /// method name (the per-field default applies only inside a table).
    fn default() -> (r: Self)
        ensures
            r.method@ == Seq::<char>::empty(),
    {
        Theta2Spec { method: String::new() }
    }
}

/// Which observables to compute and dump.
#[derive(Clone, Debug)]
pub struct Observables {
    /// Compute the mean work (requires a quench).
    pub mean_work: bool,
    /// Compute the irreversible entropy (requires a quench).
    pub irreversible_entropy: bool,
    /// Compute the second moment and variance of the work distribution.
    pub work_variance: bool,
    /// How to estimate `Theta_2`.
    pub theta_2: Theta2Spec,
    /// Dump the free energy.
    pub free_energy: bool,
    /// Dump the per-spin canonical partition function.
    pub partition_function: bool,
}

/// Serialization format for output files.
#[derive(Clone, Copy, Debug)]
pub enum OutputFormat {
    /// JSON.
    Json,
}

/// Where to write results.
#[derive(Clone, Debug)]
pub struct Output {
    /// Directory path.
    pub directory: String,
    /// Output format.
    pub format: OutputFormat,
    /// Dump the converged density vector.
    pub dump_density: bool,
    /// Dump the Kohn-Sham spectrum.
    pub dump_spectrum: bool,
    /// Dump the Kohn-Sham eigenvectors.
    pub dump_eigvecs: bool,
    /// Dump the partition-function intermediates.
    pub dump_partition_function: bool,
    /// Replace an existing output directory.
    pub overwrite: bool,
}

/// Default unit convention: `"j_units"`.
pub fn default_units() -> (r: String)
    ensures
        r@ == "j_units"@,
{
    String::from_str("j_units")
}

/// Default for the boolean switches that are on unless turned off.
pub fn default_true() -> (r: bool)
    ensures
        r,
{
    true
}

/// Default Pulay history depth: eight (density, residual) pairs.
pub fn default_pulay_history_depth() -> (r: usize)
    ensures
        r == 8,
{
    8
}

/// Default `Theta_2` method inside an `[observables.theta_2]` table:
/// `"zero"`.
pub fn default_theta_2_method() -> (r: String)
    ensures
        r@ == "zero"@,
{
    String::from_str("zero")
}

/// Default number of sweep workers: one (sequential).
pub fn default_sweep_parallelism() -> (r: usize)
    ensures
        r == 1,
{
    1
}

/// A configuration that parsed but breaks a rule of the schema.
#[derive(Clone, Debug)]
pub enum ConfigError {
    /// `schema_version` is not the one this build supports.
    SchemaVersionMismatch { found: String },
    /// `hamiltonian.num_sites` is zero.
    NoSites,
    /// More electrons per spin than sites.
    TooManyElectrons { num_electrons_per_spin: usize, num_sites: usize },
    /// `hamiltonian.beta` is not a positive finite number.
    NonPositiveBeta,
    /// `hamiltonian.units` is neither `"j_units"` nor `"absolute"`.
    UnknownUnits { units: String },
    /// An explicit external potential whose length is not `num_sites`.
    PotentialLength { len: usize, num_sites: usize },
    /// A lattice model this build does not support.
    UnsupportedModel { model: String },
    /// A Lanczos subspace of dimension zero.
    EmptyKrylovSpace,
    /// A Lanczos iteration cap below the subspace dimension.
    MaxIterBelowKrylovDim { max_iter: usize, krylov_dim: usize },
}

/// Checks `schema_version` against the supported version.
pub fn check_schema_version(found: &String) -> (r: Result<(), ConfigError>)
    ensures
        r == (if found@ == SUPPORTED_SCHEMA_VERSION@ {
            Ok(())
        } else {
            Err(ConfigError::SchemaVersionMismatch { found: *found })
        }),
{
    let supported = String::from_str(SUPPORTED_SCHEMA_VERSION);
    if *found == supported {
        Ok(())
    } else {
        Err(ConfigError::SchemaVersionMismatch { found: found.clone() })
    }
}

/// What the checks of the Hamiltonian section read of it. The flag
/// `beta_positive_finite` holds whether `beta` is positive and finite.
#[derive(Clone, Debug)]
pub struct HamiltonianShape {
    /// Lattice model identifier.
    pub model: String,
    /// Number of lattice sites.
    pub num_sites: usize,
    /// Electrons per spin sector.
    pub num_electrons_per_spin: usize,
    /// Whether `beta > 0` and `beta` is finite.
    pub beta_positive_finite: bool,
    /// Unit convention.
    pub units: String,
    /// Length of an explicit external potential; `None` for the
    /// uniform and comb potentials.
    pub explicit_potential_len: Option<usize>,
}

/// The outcome of the Hamiltonian checks, in the order they are made.
pub open spec fn hamiltonian_check(h: HamiltonianShape) -> Result<(), ConfigError> {
    if h.num_sites == 0 {
        Err(ConfigError::NoSites)
    } else if h.num_electrons_per_spin > h.num_sites {
        Err(
            ConfigError::TooManyElectrons {
                num_electrons_per_spin: h.num_electrons_per_spin,
                num_sites: h.num_sites,
            },
        )
    } else if !h.beta_positive_finite {
        Err(ConfigError::NonPositiveBeta)
    } else if !(h.units@ == "j_units"@ || h.units@ == "absolute"@) {
        Err(ConfigError::UnknownUnits { units: h.units })
    } else if h.explicit_potential_len is Some && h.explicit_potential_len->0 != h.num_sites {
        Err(
            ConfigError::PotentialLength {
                len: h.explicit_potential_len->0,
                num_sites: h.num_sites,
            },
        )
    } else if h.model@ != "hubbard_1d_inhomogeneous"@ {
        Err(ConfigError::UnsupportedModel { model: h.model })
    } else {
        Ok(())
    }
}

/// Checks the Hamiltonian section: at least one site, at most one
/// electron per spin and site, positive finite `beta`, a known unit
/// convention, an explicit potential of one value per site, and the
/// supported model; the first rule broken is reported.
pub fn validate_hamiltonian(h: &HamiltonianShape) -> (r: Result<(), ConfigError>)
    ensures
        r == hamiltonian_check(*h),
{
    if h.num_sites == 0 {
        return Err(ConfigError::NoSites);
    }
    if h.num_electrons_per_spin > h.num_sites {
        return Err(
            ConfigError::TooManyElectrons {
                num_electrons_per_spin: h.num_electrons_per_spin,
                num_sites: h.num_sites,
            },
        );
    }
    if !h.beta_positive_finite {
        return Err(ConfigError::NonPositiveBeta);
    }
    let j_units = String::from_str("j_units");
    let absolute = String::from_str("absolute");
    if !(h.units == j_units || h.units == absolute) {
        return Err(ConfigError::UnknownUnits { units: h.units.clone() });
    }
    if let Some(len) = h.explicit_potential_len {
        if len != h.num_sites {
            return Err(ConfigError::PotentialLength { len, num_sites: h.num_sites });
        }
    }
    let model = String::from_str("hubbard_1d_inhomogeneous");
    if h.model != model {
        return Err(ConfigError::UnsupportedModel { model: h.model.clone() });
    }
    Ok(())
}

/// The checks a parsed configuration must pass, in order: the schema
/// version, then the Hamiltonian section.
pub fn validate_config(schema_version: &String, hamiltonian: &HamiltonianShape) -> (r: Result<
    (),
    ConfigError,
>)
    ensures
        r == (if schema_version@ == SUPPORTED_SCHEMA_VERSION@ {
            hamiltonian_check(*hamiltonian)
        } else {
            Err(ConfigError::SchemaVersionMismatch { found: *schema_version })
        }),
{
    match check_schema_version(schema_version) {
        Ok(()) => validate_hamiltonian(hamiltonian),
        Err(e) => Err(e),
    }
}

/// Rules of the Hamiltonian section, stated field by field: a section is
/// accepted exactly when it has at least one site, at most one electron
/// per spin and site (`num_electrons_per_spin <= num_sites`, so any
/// filling up to full is allowed), a positive finite `beta`, the unit
/// convention `"j_units"` or `"absolute"`, an explicit potential (if any)
/// of one value per site, and the model `"hubbard_1d_inhomogeneous"`; and
/// it is refused for too many electrons exactly when there are sites and
/// more electrons per spin than sites.
pub proof fn lemma_hamiltonian_rules(h: HamiltonianShape)
    ensures
        hamiltonian_check(h) is Ok <==> {
            &&& h.num_sites > 0
            &&& h.num_electrons_per_spin <= h.num_sites
            &&& h.beta_positive_finite
            &&& (h.units@ == "j_units"@ || h.units@ == "absolute"@)
            &&& (h.explicit_potential_len is None || h.explicit_potential_len == Some(h.num_sites))
            &&& h.model@ == "hubbard_1d_inhomogeneous"@
        },
        (hamiltonian_check(h) matches Err(ConfigError::TooManyElectrons { num_electrons_per_spin, num_sites })
            && num_electrons_per_spin == h.num_electrons_per_spin && num_sites == h.num_sites) <==> (
        h.num_sites > 0 && h.num_electrons_per_spin > h.num_sites),
        (hamiltonian_check(h) == Err::<(), ConfigError>(ConfigError::NoSites)) <==> h.num_sites == 0,
{
}

} // verus!
