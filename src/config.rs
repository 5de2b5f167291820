use vstd::prelude::*;

verus! {

/// The library's own settings within a configuration.
#[derive(Debug, Clone)]
pub struct GraftonConfig {
    /// The run mode whose file is layered over the defaults, if any.
    pub run_mode: Option<String>,
}

impl Default for GraftonConfig {
    fn default() -> (r: GraftonConfig)
        ensures
            r.run_mode is None,
    {
        GraftonConfig { run_mode: None }
    }
}

} // verus!
