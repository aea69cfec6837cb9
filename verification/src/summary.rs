use vstd::prelude::*;
use crate::counts::Counts;

verus! {

/// Derived statistics of a finished run: success and failure totals
/// and the failure share in parts per thousand.  A pure read of the
/// final Counts; nothing is mutated.
#[derive(Clone, Copy, PartialEq, Eq, Structural, Debug)]
pub struct RunSummary {
    pub num_requests: u64,
    pub errors: u64,
    pub succeeded: u64,
    pub failure_per_mille: u64,
}

impl RunSummary {
    pub fn new(num_requests: u64, counts: &Counts) -> (r: RunSummary)
        requires
            counts@.errors <= num_requests,
        ensures
            r.num_requests == num_requests,
            r.errors == counts@.errors,
            r.succeeded == num_requests - counts@.errors,
            r.failure_per_mille == if num_requests == 0 {
                0int
            } else {
                counts@.errors * 1000 / (num_requests as int)
            },
            r.failure_per_mille <= 1000,
    {
        let errors = counts.errors;
        let succeeded = num_requests - errors;
        let failure_per_mille: u64 = if num_requests == 0 {
            0
        } else {
            let f = (errors as u128) * 1000 / (num_requests as u128);
            proof {
                assert((errors as int) * 1000 / (num_requests as int) <= 1000
                    && (errors as int) * 1000 / (num_requests as int) >= 0)
                    by (nonlinear_arith)
                    requires 0 < num_requests, 0 <= errors <= num_requests;
            }
            f as u64
        };
        RunSummary { num_requests, errors, succeeded, failure_per_mille }
    }
}

} // verus!
