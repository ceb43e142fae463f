//! The periodic update task: the configuration it carries and the
//! drift-corrected schedule arithmetic that keeps cycles on period.

use crate::cli::Options;
use vstd::prelude::*;

verus! {

/// The periodic update task; every cycle reads its configuration.
pub struct DomainUpdate {
    pub options: Options,
}

impl DomainUpdate {
    pub fn new(options: Options) -> (r: Self)
        ensures
            r.options == options,
    {
        DomainUpdate { options }
    }

    /// Whether any name is configured at all; without one the task has
    /// nothing to keep updated and must not start.
    pub fn has_domains(&self) -> (r: bool)
        ensures
            r == (self.options.domains@.len() > 0),
    {
        self.options.domains.len() > 0
    }
}

/// How long to sleep after a cycle: the remainder of the configured
/// period once the cycle's own wall-clock cost is paid, never negative.
pub fn remaining_sleep_ms(period_ms: u64, elapsed_ms: u64) -> (r: u64)
    ensures
        r as int == if elapsed_ms < period_ms {
            period_ms - elapsed_ms
        } else {
            0
        },
{
    if elapsed_ms < period_ms {
        period_ms - elapsed_ms
    } else {
        0
    }
}

} // verus!
