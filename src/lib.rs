//! Parser for slash-prefixed chat commands such as `/cast fireball --power=high`.
//!
//! A line is recognized against the command grammar, the recognized nodes are
//! walked left to right, and the result is a [`ParsedCommand`] (a verb, an
//! optional target and a map of flags) or a [`CommandError`].
pub mod errors;
pub mod flags;
pub mod grammar;
pub mod parser;
pub mod text;

pub use errors::CommandError;
pub use flags::FlagMap;
pub use parser::{parse_command, ParsedCommand};
