//! The error taxonomy of the pipeline. Every error is fatal to the run in
//! which it occurs: there is no retry and no partial result.

use vstd::prelude::*;

verus! {

/// Why a pipeline run failed.
#[derive(Clone, Debug, PartialEq, Eq)]
pub enum PipelineError {
    /// The configured input path or a required configuration value is absent.
    NotFound,
    /// A configuration value could not be parsed into its expected type.
    InvalidConfig,
    /// End of input fell strictly inside a slot: the input length is not a
    /// multiple of the slot width.
    TruncatedSlot,
    /// A full slot was read but holds no NUL byte anywhere.
    MissingTerminator,
    /// Appending one more distinct value would exceed the range of the
    /// configured key width.
    KeyOverflow,
    /// Any other underlying I/O failure, with its message.
    IoFault(String),
}

impl PipelineError {
    /// An equal copy of the error.
    pub fn duplicate(&self) -> (r: PipelineError)
        ensures
            r == *self,
    {
        match self {
            PipelineError::NotFound => PipelineError::NotFound,
            PipelineError::InvalidConfig => PipelineError::InvalidConfig,
            PipelineError::TruncatedSlot => PipelineError::TruncatedSlot,
            PipelineError::MissingTerminator => PipelineError::MissingTerminator,
            PipelineError::KeyOverflow => PipelineError::KeyOverflow,
            PipelineError::IoFault(m) => PipelineError::IoFault(m.clone()),
        }
    }
}

} // verus!
