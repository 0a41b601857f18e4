//! What a connection handler does with the outcome of each read of a frame.

use vstd::prelude::*;
use crate::command::{Command, decode_command};
use crate::frame::{Frame, Error};

verus! {

/// The next thing a connection handler does.
pub enum Step {
    /// Run the command and write its reply.
    Run(Command),
    /// The client closed the connection cleanly: stop.
    Closed,
    /// The connection broke (a read or protocol error): stop.
    ClosedAbruptly,
    /// The request could not be decoded into a command: the handler gives up
    /// with this message.
    Fail(String),
}

/// Decides what to do with one read: a frame becomes a command to run, or a
/// failure when it is no command; the end of the stream and a read error
/// both end the connection.
pub fn next_step(read: Result<Option<Frame>, Error>) -> (r: Step)
    ensures
        match read {
            Ok(Some(f)) => match decode_command(f@) {
                Ok(c) => r matches Step::Run(x) && x@ == c,
                Err(m) => r matches Step::Fail(x) && x@ == m,
            },
            Ok(None) => r is Closed,
            Err(_) => r is ClosedAbruptly,
        },
{
    match read {
        Ok(Some(frame)) => match Command::new(frame) {
            Ok(command) => Step::Run(command),
            Err(message) => Step::Fail(message),
        },
        Ok(None) => Step::Closed,
        Err(_) => Step::ClosedAbruptly,
    }
}

} // verus!
