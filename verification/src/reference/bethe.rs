//! Numerical parameters of the Lieb-Wu Bethe-ansatz reference energy.

use vstd::prelude::*;

verus! {

/// Numerical parameters for the Lieb-Wu Bessel integral.
#[derive(Clone, Copy, Debug, PartialEq, Eq, Structural)]
pub struct LiebWuParams {
    /// Composite Simpson interval count (rounded up to even when used).
    pub simpson_intervals: usize,
}

impl Default for LiebWuParams {
    /// 4096 Simpson intervals.
    fn default() -> (r: Self)
        ensures
            r.simpson_intervals == 4096,
    {
        LiebWuParams { simpson_intervals: 4096 }
    }
}

impl LiebWuParams {
    /// The interval count composite Simpson integration uses: the
    /// configured count rounded up to the next even number.
    pub fn even_intervals(&self) -> (r: usize)
        requires
            self.simpson_intervals < usize::MAX,
        ensures
            r % 2 == 0,
            r == (if self.simpson_intervals % 2 == 0 {
                self.simpson_intervals
            } else {
                (self.simpson_intervals + 1) as usize
            }),
    {
        let n = self.simpson_intervals;
        if n % 2 == 0 {
            n
        } else {
            n + 1
        }
    }
}

} // verus!
