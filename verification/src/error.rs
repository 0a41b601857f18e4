//! Errors of command handling.

use vstd::prelude::*;
use crate::frame::Frame;

verus! {

/// Ways in which a request can fail to be a command.
#[derive(Debug)]
pub enum CommandError {
    UnexpectedEndOfFile,
    UnexpectedCharacter(char),
    NegativeSize(i64),
    RedisError(String),
    InvalidCommandFormat,
    CommandNotImplemented(String),
    NonStringArgument(Frame),
    NotEnoughArguments,
    TooManyArguments,
}

} // verus!
