//! The bridge to the tailnet node.
use vstd::prelude::*;

verus! {

/// How the tailnet node is configured.
pub struct GhostbridgeConfig {
    pub hostname: String,
    pub authkey: String,
    pub state_dir: String,
    pub control_url: String,
}

/// A running tailnet node.
pub struct GhostbridgeHandle;

impl GhostbridgeHandle {
    /// There is no bridge in this build: always fails, and says so.
    pub fn connect(_config: &GhostbridgeConfig) -> (r: Result<Self, String>)
        ensures
            r matches Err(reason) && reason@ == "not implemented"@,
    {
        Err(String::from_str("not implemented"))
    }
}

} // verus!
