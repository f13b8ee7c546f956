//! Generates an aggregate RPM build configuration for a project's
//! transitive dependency tree.
//!
//! The library holds the whole decision pipeline: parsing the
//! depth-annotated dependency tree, suppressing duplicates, filtering
//! dependencies that the target distribution already packages, ordering
//! the survivors so that the deepest dependencies are built first,
//! extracting the generated specification file from the generator's
//! output, and serializing the aggregate configuration. Invoking the
//! external tools (the graph inspector, the distribution query and the
//! per-crate spec generator) and all file handling stay outside, in the
//! accompanying binary, which feeds their textual output to this
//! library as plain values.

use vstd::prelude::*;

pub mod chars;
pub mod config;
pub mod deps;
pub mod genspec;
pub mod order;
pub mod pipeline;
pub mod probe;

verus! {

/// A fatal condition detected by the pipeline's own logic.
///
/// Failures of the external tools themselves (non-zero exit, undecodable
/// output, filesystem trouble) are reported by the caller that invoked
/// them; the variants here are the parse failures that the library's
/// logic decides.
#[derive(Clone, Copy, Debug, PartialEq, Eq, Structural)]
pub enum PipelineError {
    /// The graph inspector's output contained no dependency line at all.
    NoDependencies,
    /// A depth prefix does not fit the machine word that holds depths.
    DepthTooLarge,
    /// The spec generator's output lacks a `Generated: <file>.spec` line.
    NoSpecsGenerated,
}

impl PipelineError {
    /// The diagnostic text shown to the user for this error.
    pub fn message(&self) -> (r: &'static str)
        ensures
            *self is NoDependencies ==> r@ == "No dependencies found"@,
            *self is DepthTooLarge ==> r@ == "Dependency depth too large"@,
            *self is NoSpecsGenerated ==> r@ == "No specs generated"@,
    {
        match self {
            PipelineError::NoDependencies => "No dependencies found",
            PipelineError::DepthTooLarge => "Dependency depth too large",
            PipelineError::NoSpecsGenerated => "No specs generated",
        }
    }
}

} // verus!
