use crate::abstraction::{Abstraction, N_BUCKETS};
use crate::metric::EQUITY_STEP;
use crate::street::Street;
use vstd::prelude::*;

verus! {

/// The ground distance between River abstractions, which are equity
/// buckets: the difference of their equities.
pub struct Equity;

impl Equity {
    /// Distance between two equity buckets, in the units of a metric.
    pub fn distance(x: &Abstraction, y: &Abstraction) -> (r: u64)
        requires
            x.wf(),
            y.wf(),
            x.spec_street() == Street::Rive,
            y.spec_street() == Street::Rive,
        ensures
            r == (if x.spec_index() >= y.spec_index() {
                x.spec_index() - y.spec_index()
            } else {
                y.spec_index() - x.spec_index()
            }) * EQUITY_STEP,
    {
        let i = x.index();
        let j = y.index();
        assert(i <= N_BUCKETS && j <= N_BUCKETS);
        if i >= j {
            (i - j) * EQUITY_STEP
        } else {
            (j - i) * EQUITY_STEP
        }
    }
}

} // verus!
