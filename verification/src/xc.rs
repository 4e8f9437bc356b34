//! Exchange-correlation functionals: which one a run uses. The
//! functionals' floating-point parameters and their evaluation live with
//! the numerical code outside this library.

use vstd::prelude::*;

verus! {

/// Which exchange-correlation functional a run uses.
#[derive(Clone, Copy, Debug, PartialEq, Eq, Structural)]
pub enum ExchangeCorrelation {
    /// Single-site analytical Hubbard LDA.
    HubbardLda,
    /// Bethe-ansatz local density approximation.
    Balda,
    /// Bethe-ansatz LDA with its finite-temperature correction.
    BaldaFiniteT,
    /// No Hartree-exchange-correlation potential.
    NonInteracting,
}

/// The configuration name of a functional.
pub open spec fn xc_kind(xc: ExchangeCorrelation) -> Seq<char> {
    match xc {
        ExchangeCorrelation::HubbardLda => "hubbard_lda"@,
        ExchangeCorrelation::Balda => "balda"@,
        ExchangeCorrelation::BaldaFiniteT => "balda_finite_t"@,
        ExchangeCorrelation::NonInteracting => "non_interacting"@,
    }
}

/// The configuration name of a functional, as reports print it.
pub fn xc_kind_name(xc: &ExchangeCorrelation) -> (r: &'static str)
    ensures
        r@ == xc_kind(*xc),
{
    match xc {
        ExchangeCorrelation::HubbardLda => "hubbard_lda",
        ExchangeCorrelation::Balda => "balda",
        ExchangeCorrelation::BaldaFiniteT => "balda_finite_t",
        ExchangeCorrelation::NonInteracting => "non_interacting",
    }
}

} // verus!
