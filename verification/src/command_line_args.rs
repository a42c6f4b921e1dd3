//! Run configuration: which mesh files to process, an optional explicit
//! processor count that triggers domain decomposition, and a quiet flag that
//! suppresses per-run reporting.

use vstd::prelude::*;

verus! {

/// One run configuration. When `domain_decomposition` is absent, processor
/// assignment is taken from the mesh itself.
pub struct CommandLineArgs {
    pub grid_files: Vec<String>,
    pub domain_decomposition: Option<usize>,
    pub quiet: bool,
}

} // verus!
