//! Decoding a request frame into a command, and running it.

use vstd::prelude::*;
use crate::buffers::bytes_content;
use crate::commands::{EchoExecutor, ErrorExecutor, GetExecutor, PingExecutor, SetExecutor};
use crate::commands::get_executor::read_reply;
use crate::commands::set_executor::expiry_fits;
use crate::db::{Db, Entry, get_outcome, set_outcome};
use crate::decimal::atoi_i64;
use crate::frame::{Frame, FrameView, views, lemma_views};
use crate::text::{utf8_lossy, uppercase, lowercase, to_uppercase, to_lowercase, same_text};
use crate::wire::encode_frame;

verus! {

/// A decoded request.
pub enum Command {
    PING(PingExecutor),
    ECHO(EchoExecutor),
    GET(GetExecutor),
    SET(SetExecutor),
    ERROR(ErrorExecutor),
}

/// What a command holds.
pub enum CommandView {
    PING,
    ECHO(Seq<u8>),
    GET(Seq<u8>),
    SET(Seq<u8>, FrameView, Option<i64>),
    ERROR(Seq<char>),
}

impl View for Command {
    type V = CommandView;

    open spec fn view(&self) -> CommandView {
        match self {
            Command::PING(_) => CommandView::PING,
            Command::ECHO(e) => CommandView::ECHO(bytes_content(e.value)),
            Command::GET(g) => CommandView::GET(bytes_content(g.key)),
            Command::SET(s) => CommandView::SET(bytes_content(s.key), s.value@, s.px),
            Command::ERROR(e) => CommandView::ERROR(e.value@),
        }
    }
}

pub open spec fn invalid_frame() -> Seq<char> {
    "invalid frame"@
}

/// The SET command that the arguments after `SET` make: a key, a value, and
/// optionally `PX` (in any case) with a number of milliseconds. Wrong
/// arguments make an ERROR command that says what is wrong.
pub open spec fn decode_set(args: Seq<FrameView>) -> CommandView {
    if args.len() == 0 {
        CommandView::ERROR("set needs a key"@)
    } else {
        match args[0] {
            FrameView::Bulk(key) => if args.len() == 1 {
                CommandView::ERROR("set needs a value"@)
            } else if args.len() == 2 {
                CommandView::SET(key, args[1], None)
            } else {
                match args[2] {
                    FrameView::Bulk(option) => if lowercase(utf8_lossy(option)) == "px"@ {
                        if args.len() == 3 {
                            CommandView::ERROR("syntax error"@)
                        } else {
                            match args[3] {
                                FrameView::Bulk(time) => match atoi_i64(time) {
                                    Some(ms) => CommandView::SET(key, args[1], Some(ms)),
                                    None => CommandView::ERROR("value is not an integer or out of range"@),
                                },
                                _ => CommandView::ERROR(invalid_frame()),
                            }
                        }
                    } else {
                        CommandView::ERROR("syntax error"@)
                    },
                    _ => CommandView::ERROR(invalid_frame()),
                }
            },
            _ => CommandView::ERROR(invalid_frame()),
        }
    }
}

/// The command that an upper-cased command name and its arguments make.
/// Arguments past those a command reads are ignored.
pub open spec fn decode_named(name: Seq<char>, args: Seq<FrameView>) -> Result<CommandView, Seq<char>> {
    if name == "PING"@ {
        Ok(CommandView::PING)
    } else if name == "GET"@ {
        if args.len() == 0 {
            Ok(CommandView::ERROR("set needs a key"@))
        } else {
            match args[0] {
                FrameView::Bulk(key) => Ok(CommandView::GET(key)),
                _ => Ok(CommandView::ERROR(invalid_frame())),
            }
        }
    } else if name == "SET"@ {
        Ok(decode_set(args))
    } else if name == "ECHO"@ {
        if args.len() == 0 {
            Err("get needs a value"@)
        } else {
            match args[0] {
                FrameView::Bulk(value) => Ok(CommandView::ECHO(value)),
                _ => Err(invalid_frame()),
            }
        }
    } else {
        Err("invalid command"@)
    }
}

/// The command that a request frame makes: an array whose first element is
/// a bulk string naming the command (in any case), followed by its
/// arguments.
pub open spec fn decode_command(f: FrameView) -> Result<CommandView, Seq<char>> {
    match f {
        FrameView::Array(items) => if items.len() == 0 {
            Err(invalid_frame())
        } else {
            match items[0] {
                FrameView::Bulk(name) => decode_named(uppercase(utf8_lossy(name)), items.skip(1)),
                _ => Err(invalid_frame()),
            }
        },
        _ => Err(invalid_frame()),
    }
}

/// What running a command at time `now` does to the store, and its reply.
pub open spec fn run_outcome(c: CommandView, db: Map<Seq<char>, Entry>, now: u64) -> (Map<Seq<char>, Entry>, FrameView) {
    match c {
        CommandView::PING => (db, FrameView::Simple("PONG"@)),
        CommandView::ECHO(value) => (db, FrameView::Bulk(value)),
        CommandView::GET(key) => {
            let (after, value) = get_outcome(db, utf8_lossy(key), now);
            (after, read_reply(value))
        },
        CommandView::SET(key, value, px) => (
            set_outcome(db, utf8_lossy(key), encode_frame(value), px, now),
            FrameView::Simple("OK"@),
        ),
        CommandView::ERROR(message) => (db, FrameView::Error(message)),
    }
}

/// Whether the command can run at `now`: the expiry of a SET must fit the
/// clock.
pub open spec fn can_run(c: CommandView, now: u64) -> bool {
    match c {
        CommandView::SET(_, _, px) => expiry_fits(px, now),
        _ => true,
    }
}

/// Takes the first frame out of `frames`.
fn take_first(frames: &mut Vec<Frame>) -> (r: Frame)
    requires
        old(frames)@.len() > 0,
    ensures
        r@ == views(old(frames)@)[0],
        views(final(frames)@) == views(old(frames)@).skip(1),
{
    let r = frames.remove(0);
    proof {
        lemma_views(old(frames)@);
        lemma_views(frames@);
        assert(views(frames@) =~= views(old(frames)@).skip(1));
    }
    r
}

fn error_command(message: &str) -> (r: Command)
    ensures
        r@ == CommandView::ERROR(message@),
{
    Command::ERROR(ErrorExecutor { value: String::from_str(message) })
}

impl Command {
    /// Runs the command at time `now`, as `run_outcome` says, and returns the
    /// reply.
    pub fn execute(&self, db: &mut Db, now: u64) -> (r: Frame)
        requires
            can_run(self@, now),
        ensures
            (final(db)@, r@) == run_outcome(self@, old(db)@, now),
    {
        match self {
            Command::PING(executor) => executor.execute(),
            Command::ECHO(executor) => executor.execute(),
            Command::GET(executor) => executor.execute(db, now),
            Command::SET(executor) => executor.execute(db, now),
            Command::ERROR(executor) => executor.execute(),
        }
    }

    /// Decodes a request frame as `decode_command` says.
    pub fn new(frames: Frame) -> (r: Result<Command, String>)
        ensures
            match decode_command(frames@) {
                Ok(c) => r matches Ok(x) && x@ == c,
                Err(m) => r matches Err(x) && x@ == m,
            },
    {
        match frames {
            Frame::Array(mut items) => {
                proof {
                    lemma_views(items@);
                }
                if items.len() == 0 {
                    return Err(String::from_str("invalid frame"));
                }
                let first = take_first(&mut items);
                match first {
                    Frame::Bulk(cmd) => {
                        let text = Frame::string_from_bulk(cmd);
                        let name = to_uppercase(text.as_str());
                        Command::from_name(name.as_str(), items)
                    },
                    _ => Err(String::from_str("invalid frame")),
                }
            },
            _ => Err(String::from_str("invalid frame")),
        }
    }

    /// Decodes a command from its upper-cased name and its arguments, as
    /// `decode_named` says.
    pub fn from_name(name: &str, args: Vec<Frame>) -> (r: Result<Command, String>)
        ensures
            match decode_named(name@, views(args@)) {
                Ok(c) => r matches Ok(x) && x@ == c,
                Err(m) => r matches Err(x) && x@ == m,
            },
    {
        let mut args = args;
        proof {
            lemma_views(args@);
        }
        if same_text(name, "PING") {
            Ok(Command::PING(PingExecutor {}))
        } else if same_text(name, "GET") {
            if args.len() == 0 {
                return Ok(error_command("set needs a key"));
            }
            match take_first(&mut args) {
                Frame::Bulk(key) => Ok(Command::GET(GetExecutor { key })),
                _ => Ok(error_command("invalid frame")),
            }
        } else if same_text(name, "SET") {
            Ok(Command::set_from_args(args))
        } else if same_text(name, "ECHO") {
            if args.len() == 0 {
                return Err(String::from_str("get needs a value"));
            }
            match take_first(&mut args) {
                Frame::Bulk(value) => Ok(Command::ECHO(EchoExecutor { value })),
                _ => Err(String::from_str("invalid frame")),
            }
        } else {
            Err(String::from_str("invalid command"))
        }
    }

    /// Decodes the arguments of SET as `decode_set` says.
    pub fn set_from_args(args: Vec<Frame>) -> (r: Command)
        ensures
            r@ == decode_set(views(args@)),
    {
        let mut args = args;
        let ghost all = views(args@);
        proof {
            lemma_views(args@);
        }
        if args.len() == 0 {
            return error_command("set needs a key");
        }
        let key = match take_first(&mut args) {
            Frame::Bulk(key) => key,
            _ => return error_command("invalid frame"),
        };
        proof {
            lemma_views(args@);
        }
        if args.len() == 0 {
            return error_command("set needs a value");
        }
        let value = take_first(&mut args);
        proof {
            lemma_views(args@);
        }
        if args.len() == 0 {
            return Command::SET(SetExecutor { key, value, px: None });
        }
        let option = match take_first(&mut args) {
            Frame::Bulk(option) => option,
            _ => return error_command("invalid frame"),
        };
        proof {
            lemma_views(args@);
        }
        let option = to_lowercase(Frame::string_from_bulk(option).as_str());
        if !same_text(option.as_str(), "px") {
            return error_command("syntax error");
        }
        if args.len() == 0 {
            return error_command("syntax error");
        }
        let time = match take_first(&mut args) {
            Frame::Bulk(time) => time,
            _ => return error_command("invalid frame"),
        };
        match Frame::decimal_from_bulk(time) {
            Some(ms) => Command::SET(SetExecutor { key, value, px: Some(ms) }),
            None => error_command("value is not an integer or out of range"),
        }
    }
}

} // verus!
