//! Settings of a log: how often it is replayed and how large a segment may grow.

use vstd::prelude::*;

verus! {

pub struct WalConfig {
    pub flush_interval: std::time::Duration,
    pub max_log_size: u64,
}

impl WalConfig {
    pub fn new(flush_interval: std::time::Duration, max_log_size: u64) -> (r: Self)
        ensures
            r.flush_interval == flush_interval,
            r.max_log_size == max_log_size,
    {
        WalConfig { flush_interval, max_log_size }
    }
}

} // verus!
