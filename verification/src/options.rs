//! Build and output configuration. A build configuration is immutable for the
//! orchestrator's lifetime; an output configuration is scoped to a single
//! generate or write invocation.
use vstd::prelude::*;

verus! {

/// Configuration fixed when the orchestrator is created: the entry point
/// specifiers and the working directory all relative paths resolve under.
pub struct InputOptions {
    pub entries: Vec<Vec<u8>>,
    pub cwd: Vec<u8>,
}

/// Configuration for one generate or write invocation: the output directory,
/// relative to the working directory.
pub struct OutputOptions {
    pub dir: Vec<u8>,
}

} // verus!
