//! The error taxonomy of the runtime.
//!
//! Every failure is classified once: fatal errors (unusable persisted state
//! or configuration) terminate the run, recoverable errors (per-command
//! failures) print a message and return control to the prompt.

use vstd::prelude::*;

verus! {

/// All errors the runtime can produce, one closed enum shared by the
/// persistence, session, parsing and execution layers.
#[derive(Debug)]
pub enum ProjectError {
    /// Catch-all for a command whose argument grammar was not satisfied.
    StandardError,
    /// The world file could not be read.
    LocationsFileReadError,
    /// The world file could not be written.
    LocationsFileWriteError,
    /// The world file does not hold a well-formed location mapping.
    LocationsFileDeserializeError,
    /// The location mapping could not be serialized.
    LocationsFileSerializeError,
    /// A location identifier did not resolve in the world mapping; carries
    /// the canonical text of the dangling identifier.
    HashMapGetError(Vec<u8>),
    /// The world mapping was empty at startup, so no current location exists.
    HashMapFirstKeyError,
    /// The input line held no command at all.
    CommandNotGivenError,
    /// The first token of the input line is not a known command; carries
    /// that token.
    CommandUnrecognizedError(Vec<u8>),
    /// A `move` command came without a destination argument.
    MoveNoLocationError,
    /// A `move` destination could not be read as an identifier.
    LocationInvalidIdError,
    /// A `move` destination is not a key of the world mapping.
    LocationNotFoundError,
}

/// Whether an error lets the command loop print a message and re-prompt,
/// rather than terminate the run.
pub open spec fn spec_is_recoverable(e: ProjectError) -> bool {
    match e {
        ProjectError::StandardError => true,
        ProjectError::CommandNotGivenError => true,
        ProjectError::CommandUnrecognizedError(_) => true,
        ProjectError::MoveNoLocationError => true,
        ProjectError::LocationInvalidIdError => true,
        ProjectError::LocationNotFoundError => true,
        _ => false,
    }
}

impl ProjectError {
    /// Classifies this error: `true` for the per-command failures the run
    /// loop recovers from, `false` for the fatal persistence and startup
    /// failures.
    pub fn is_recoverable(&self) -> (r: bool)
        ensures
            r == spec_is_recoverable(*self),
    {
        match self {
            ProjectError::StandardError => true,
            ProjectError::CommandNotGivenError => true,
            ProjectError::CommandUnrecognizedError(_) => true,
            ProjectError::MoveNoLocationError => true,
            ProjectError::LocationInvalidIdError => true,
            ProjectError::LocationNotFoundError => true,
            _ => false,
        }
    }

    /// A static human-readable message for this error, in place of a
    /// `Display` impl.
    pub fn message(&self) -> (r: &'static str)
    {
        match self {
            ProjectError::StandardError => "Standard Error encountered.",
            ProjectError::LocationsFileReadError => "Failed to read locations file.",
            ProjectError::LocationsFileWriteError => "Failed to write locations file.",
            ProjectError::LocationsFileDeserializeError => "Failed to deserialize locations file.",
            ProjectError::LocationsFileSerializeError => "Failed to serialize locations mapping.",
            ProjectError::HashMapGetError(_) => "Failed to retrieve value from key in mapping.",
            ProjectError::HashMapFirstKeyError => "Failed to retrieve first key from mapping.",
            ProjectError::CommandNotGivenError => "Command not provided.",
            ProjectError::CommandUnrecognizedError(_) => "Unrecognized command.",
            ProjectError::MoveNoLocationError => "No destination given.",
            ProjectError::LocationInvalidIdError => "Destination is not a valid identifier.",
            ProjectError::LocationNotFoundError => "Destination location not found.",
        }
    }
}

} // verus!
