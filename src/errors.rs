//! The errors that parsing a command can report.
use vstd::prelude::*;

verus! {

/// Why a line could not be parsed into a command.
#[derive(Debug, Clone, Copy, PartialEq, Eq, Structural)]
pub enum CommandError {
    /// The line does not match the command grammar, or a flag is malformed.
    InvalidSyntax,
    /// A flag has an empty or invalid key.
    MissingFlagKey,
    /// A flag has no value, or an empty one.
    MissingFlagValue,
    /// The command has no verb.
    MissingVerb,
}

} // verus!
