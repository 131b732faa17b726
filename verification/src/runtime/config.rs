//! Configuration of the runtime.
use vstd::prelude::*;

verus! {

/// The deepest nesting of `eval`, `source` and command substitution by default.
pub const MAX_RECURSION_DEPTH: u32 = 100;

/// Configuration of the runtime.
#[derive(Debug)]
pub struct BrowserConfig {
    /// How many steps one poll may take; zero for no limit.
    pub step_budget: u64,
    /// Hosts that may be reached over the network; none by default.
    pub allowed_hosts: Vec<String>,
    /// The most visible output; zero for no limit.
    pub output_byte_limit: u64,
    /// The most bytes in pipes; zero for no limit.
    pub pipe_byte_limit: u64,
    pub recursion_limit: u32,
    /// Whether simple commands may take the fast path.
    pub vm_subset_enabled: bool,
}

impl Default for BrowserConfig {
    fn default() -> (r: BrowserConfig)
        ensures
            r.step_budget == 100_000,
            r.allowed_hosts@.len() == 0,
            r.output_byte_limit == 0,
            r.pipe_byte_limit == 0,
            r.recursion_limit == MAX_RECURSION_DEPTH,
            r.vm_subset_enabled,
    {
        BrowserConfig {
            step_budget: 100_000,
            allowed_hosts: Vec::new(),
            output_byte_limit: 0,
            pipe_byte_limit: 0,
            recursion_limit: MAX_RECURSION_DEPTH,
            vm_subset_enabled: true,
        }
    }
}

} // verus!
