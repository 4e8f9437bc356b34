//! The `[bench]` section of a configuration and the checks the
//! wall-clock benchmark runner makes before timing anything.

use vstd::prelude::*;

verus! {

/// The `[bench]` section: untimed warm-up solves, then timed ones.
#[derive(Clone, Copy, Debug, PartialEq, Eq, Structural)]
pub struct Bench {
    /// Number of solves run and discarded before measuring.
    pub warmup: usize,
    /// Number of timed solves.
    pub measured: usize,
}

/// Why the benchmark runner refuses a configuration.
#[derive(Clone, Copy, Debug, PartialEq, Eq, Structural)]
pub enum BenchError {
    /// The configuration has no `[bench]` section.
    MissingSection,
    /// `[bench].measured` is zero.
    NoMeasuredRuns,
}

/// Checks the `[bench]` section: it must be present and ask for at least
/// one timed solve.
pub fn check_bench(bench: Option<Bench>) -> (r: Result<Bench, BenchError>)
    ensures
        r == (match bench {
            None => Err(BenchError::MissingSection),
            Some(b) => if b.measured == 0 {
                Err(BenchError::NoMeasuredRuns)
            } else {
                Ok(b)
            },
        }),
{
    match bench {
        None => Err(BenchError::MissingSection),
        Some(b) => if b.measured == 0 {
            Err(BenchError::NoMeasuredRuns)
        } else {
            Ok(b)
        },
    }
}

} // verus!
