//! Canonical density evaluators: the runtime parameters of each
//! evaluator and the choice between them.

use vstd::prelude::*;
use crate::config::{ConfigError, DensityEvaluator, GceProjectionParams, PrattParams};

verus! {

/// Runtime mirror of [`PrattParams`].
#[derive(Clone, Copy, Debug, PartialEq, Eq, Structural)]
pub struct PrattParamsRuntime {
    /// Subtract the lowest level before the recursion to avoid overflow.
    pub spectrum_shift: bool,
}

impl<'a> From<&'a PrattParams> for PrattParamsRuntime {
    fn from(p: &'a PrattParams) -> (r: Self) {
        PrattParamsRuntime { spectrum_shift: p.spectrum_shift }
    }
}

impl<'a> vstd::std_specs::convert::FromSpecImpl<&'a PrattParams> for PrattParamsRuntime {
    open spec fn obeys_from_spec() -> bool {
        true
    }

    open spec fn from_spec(p: &'a PrattParams) -> Self {
        PrattParamsRuntime { spectrum_shift: p.spectrum_shift }
    }
}

/// Runtime mirror of [`GceProjectionParams`].
#[derive(Clone, Copy, Debug, PartialEq, Eq, Structural)]
pub struct GceProjectionParamsRuntime {
    /// Number of unit-circle fugacity quadrature points.
    pub num_quadrature_points: usize,
    /// Subtract the lowest level before exponentiation.
    pub spectrum_shift: bool,
}

impl<'a> From<&'a GceProjectionParams> for GceProjectionParamsRuntime {
    fn from(p: &'a GceProjectionParams) -> (r: Self) {
        GceProjectionParamsRuntime {
            num_quadrature_points: p.num_quadrature_points,
            spectrum_shift: p.spectrum_shift,
        }
    }
}

impl<'a> vstd::std_specs::convert::FromSpecImpl<&'a GceProjectionParams> for GceProjectionParamsRuntime {
    open spec fn obeys_from_spec() -> bool {
        true
    }

    open spec fn from_spec(p: &'a GceProjectionParams) -> Self {
        GceProjectionParamsRuntime {
            num_quadrature_points: p.num_quadrature_points,
            spectrum_shift: p.spectrum_shift,
        }
    }
}

/// Dispatching enum over density-evaluator variants.
#[derive(Clone, Copy, Debug, PartialEq, Eq, Structural)]
pub enum CanonicalDensityEvaluator {
    /// Pratt recursion (exact for non-interacting fermions).
    PrattRecursion(PrattParamsRuntime),
    /// Grand-canonical fugacity-circle quadrature plus projection.
    GcePlusProjection(GceProjectionParamsRuntime),
}

impl CanonicalDensityEvaluator {
    /// The evaluator a configuration section selects, with its
    /// parameters carried over field by field.
    pub open spec fn configured(cfg: DensityEvaluator) -> Self {
        match cfg {
            DensityEvaluator::PrattRecursion { params } => CanonicalDensityEvaluator::PrattRecursion(
                PrattParamsRuntime { spectrum_shift: params.spectrum_shift },
            ),
            DensityEvaluator::GcePlusProjection { params } => CanonicalDensityEvaluator::GcePlusProjection(
                GceProjectionParamsRuntime {
                    num_quadrature_points: params.num_quadrature_points,
                    spectrum_shift: params.spectrum_shift,
                },
            ),
        }
    }

    /// Build from config. Every configured evaluator is accepted.
    pub fn from_config(cfg: &DensityEvaluator) -> (r: Result<Self, ConfigError>)
        ensures
            r == Ok::<Self, ConfigError>(Self::configured(*cfg)),
    {
        match cfg {
            DensityEvaluator::PrattRecursion { params } => Ok(
                CanonicalDensityEvaluator::PrattRecursion(PrattParamsRuntime::from(params)),
            ),
            DensityEvaluator::GcePlusProjection { params } => Ok(
                CanonicalDensityEvaluator::GcePlusProjection(GceProjectionParamsRuntime::from(params)),
            ),
        }
    }

    /// Convenience: the Pratt recursion with default parameters (spectrum
    /// shift on).
    pub fn pratt_default() -> (r: Self)
        ensures
            r == CanonicalDensityEvaluator::PrattRecursion(PrattParamsRuntime { spectrum_shift: true }),
    {
        let p = PrattParams::default();
        CanonicalDensityEvaluator::PrattRecursion(PrattParamsRuntime::from(&p))
    }
}

/// The configuration name of an evaluator variant.
pub open spec fn density_kind(d: CanonicalDensityEvaluator) -> Seq<char> {
    match d {
        CanonicalDensityEvaluator::PrattRecursion(_) => "pratt_recursion"@,
        CanonicalDensityEvaluator::GcePlusProjection(_) => "gce_plus_projection"@,
    }
}

/// The configuration name of an evaluator variant, as reports print it.
pub fn density_kind_name(d: &CanonicalDensityEvaluator) -> (r: &'static str)
    ensures
        r@ == density_kind(*d),
{
    match d {
        CanonicalDensityEvaluator::PrattRecursion(_) => "pratt_recursion",
        CanonicalDensityEvaluator::GcePlusProjection(_) => "gce_plus_projection",
    }
}

} // verus!
