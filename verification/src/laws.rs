//! Laws of the library: what holds across `Frame::check` and `Frame::parse`,
//! across reads of a growing buffer, and across SET and GET.

use vstd::prelude::*;
use crate::frame::{Fault, FrameView, invalid_utf8_message};
use crate::command::{CommandView, run_outcome, decode_command, decode_set};
use crate::decimal::atoi_i64;
use crate::text::{utf8_lossy, uppercase, lowercase};
use vstd::utf8::{valid_utf8, decode_utf8};
use crate::db::{Entry, set_outcome};
use crate::connection::next_frame;
use crate::decimal::atoi_u64;
use crate::wire::{check_stop, parse_stop,
    encode_frame, line_end, read_u8, read_line, read_decimal, check_frames, check_frame,
    parse_frame, parse_frames, lemma_reads_advance, lemma_check_compose, lemma_check_bounds,
    lemma_parse_bounds,
};

verus! {

proof fn lemma_check_parse_frame(s: Seq<u8>, p: int)
    requires
        0 <= p,
    ensures
        check_frame(s, p) matches Ok(e) ==> {
            ||| parse_frame(s, p) matches Ok((_, q)) && q == e
            ||| parse_frame(s, p) == Err::<(FrameView, int), Fault>(Fault::Other(invalid_utf8_message()))
        },
    decreases s.len() - p, 0nat,
{
    lemma_reads_advance(s, p + 1);
    if let Ok((b, p1)) = read_u8(s, p) {
        if b == 43 {
            if let Ok((_, p2)) = read_line(s, p1) {
                assert(check_frames(s, p2, 0) == Ok::<int, Fault>(p2));
            }
        } else if b == 36 {
            if let Ok((_, p2)) = read_decimal(s, p1) {
                lemma_reads_advance(s, p2);
                if let Ok((_, p3)) = read_line(s, p2) {
                    assert(check_frames(s, p3, 0) == Ok::<int, Fault>(p3));
                }
            }
        } else if b == 42 {
            if let Ok((count, p2)) = read_decimal(s, p1) {
                assert((count + 1 - 1) as nat == count as nat);
                lemma_check_parse_frames(s, p2, count as nat);
            }
        }
    }
}

proof fn lemma_check_parse_frames(s: Seq<u8>, p: int, n: nat)
    requires
        0 <= p <= s.len(),
    ensures
        check_frames(s, p, n) matches Ok(e) ==> {
            ||| parse_frames(s, p, n) matches Ok((_, q)) && q == e
            ||| parse_frames(s, p, n) == Err::<(Seq<FrameView>, int), Fault>(Fault::Other(invalid_utf8_message()))
        },
    decreases s.len() - p, 1nat,
{
    if n > 0 {
        lemma_check_compose(s, p, 1, (n - 1) as nat);
        assert(n == (1 + (n - 1) as nat) as nat);
        lemma_check_bounds(s, p, 1);
        lemma_check_parse_frame(s, p);
        lemma_parse_bounds(s, p);
        if let Ok(q) = check_frame(s, p) {
            if p < s.len() {
                if let Ok((f, p1)) = parse_frame(s, p) {
                    lemma_check_parse_frames(s, p1, (n - 1) as nat);
                }
            } else {
                lemma_reads_advance(s, p + 1);
            }
        }
    }
}

/// A frame that `Frame::check` accepts is read by `Frame::parse` up to the
/// same position, unless a simple string in it is not UTF-8.
pub proof fn law_check_then_parse(s: Seq<u8>, p: int)
    requires
        0 <= p,
    ensures
        check_frame(s, p) matches Ok(e) ==> {
            ||| parse_frame(s, p) matches Ok((_, q)) && q == e
            ||| parse_frame(s, p) == Err::<(FrameView, int), Fault>(Fault::Other(invalid_utf8_message()))
        },
{
    lemma_check_parse_frame(s, p);
}

proof fn lemma_line_end_extend(s: Seq<u8>, t: Seq<u8>, i: int)
    ensures
        line_end(s, i) matches Some(j) ==> line_end(s + t, i) == Some(j),
    decreases s.len() - i,
{
    if i < 0 || i + 1 >= s.len() {
    } else {
        assert((s + t)[i] == s[i] && (s + t)[i + 1] == s[i + 1]);
        if !(s[i] == 13 && s[i + 1] == 10) {
            lemma_line_end_extend(s, t, i + 1);
        }
    }
}

proof fn lemma_reads_extend(s: Seq<u8>, t: Seq<u8>, p: int)
    ensures
        read_u8(s, p) is Ok ==> read_u8(s + t, p) == read_u8(s, p),
        read_line(s, p) is Ok ==> read_line(s + t, p) == read_line(s, p),
        read_decimal(s, p) != Err::<(u64, int), Fault>(Fault::Incomplete)
            ==> read_decimal(s + t, p) == read_decimal(s, p),
{
    lemma_line_end_extend(s, t, p);
    lemma_reads_advance(s, p);
    if let Ok((line, q)) = read_line(s, p) {
        assert((s + t).subrange(p, q - 2) =~= s.subrange(p, q - 2));
    }
}

proof fn lemma_check_extend(s: Seq<u8>, t: Seq<u8>, p: int, n: nat)
    ensures
        check_frames(s, p, n) != Err::<int, Fault>(Fault::Incomplete)
            ==> check_frames(s + t, p, n) == check_frames(s, p, n),
    decreases s.len() - p,
{
    if n > 0 {
        lemma_reads_extend(s, t, p);
        lemma_reads_advance(s, p + 1);
        if let Ok((b, p1)) = read_u8(s, p) {
            lemma_reads_extend(s, t, p1);
            if b == 43 {
                if let Ok((_, p2)) = read_line(s, p1) {
                    lemma_check_extend(s, t, p2, (n - 1) as nat);
                }
            } else if b == 42 {
                if let Ok((count, p2)) = read_decimal(s, p1) {
                    lemma_check_extend(s, t, p2, (count + n - 1) as nat);
                }
            } else if b == 36 {
                if let Ok((_, p2)) = read_decimal(s, p1) {
                    lemma_reads_advance(s, p2);
                    lemma_reads_extend(s, t, p2);
                    if let Ok((_, p3)) = read_line(s, p2) {
                        lemma_check_extend(s, t, p3, (n - 1) as nat);
                    }
                }
            }
        }
    }
}

/// Once the bytes read so far decide `Frame::check` (a complete frame, or
/// a frame that can never be valid), reading more bytes does not change it.
pub proof fn law_check_stable_under_more_bytes(s: Seq<u8>, t: Seq<u8>, p: int)
    requires
        check_frame(s, p) != Err::<int, Fault>(Fault::Incomplete),
    ensures
        check_frame(s + t, p) == check_frame(s, p),
{
    lemma_check_extend(s, t, p, 1);
}

proof fn lemma_parse_extend(s: Seq<u8>, t: Seq<u8>, p: int)
    requires
        0 <= p,
    ensures
        parse_frame(s, p) != Err::<(FrameView, int), Fault>(Fault::Incomplete)
            ==> parse_frame(s + t, p) == parse_frame(s, p),
    decreases s.len() - p, 0nat,
{
    lemma_reads_extend(s, t, p);
    lemma_reads_advance(s, p + 1);
    if let Ok((b, p1)) = read_u8(s, p) {
        lemma_reads_extend(s, t, p1);
        if b == 36 {
            if let Ok((_, p2)) = read_decimal(s, p1) {
                lemma_reads_extend(s, t, p2);
            }
        } else if b == 42 {
            if let Ok((count, p2)) = read_decimal(s, p1) {
                lemma_parse_frames_extend(s, t, p2, count as nat);
            }
        }
    }
}

proof fn lemma_parse_frames_extend(s: Seq<u8>, t: Seq<u8>, p: int, n: nat)
    requires
        0 <= p <= s.len(),
    ensures
        parse_frames(s, p, n) != Err::<(Seq<FrameView>, int), Fault>(Fault::Incomplete)
            ==> parse_frames(s + t, p, n) == parse_frames(s, p, n),
    decreases s.len() - p, 1nat,
{
    if n > 0 && p < s.len() {
        lemma_parse_extend(s, t, p);
        lemma_parse_bounds(s, p);
        if let Ok((f, p1)) = parse_frame(s, p) {
            if p < p1 <= s.len() {
                lemma_parse_frames_extend(s, t, p1, (n - 1) as nat);
            }
        }
    }
}

/// Once the bytes a connection has received decide what its next frame is
/// (a complete frame, or bytes that can never be a valid frame), receiving
/// more bytes does not change it.
pub proof fn law_next_frame_stable_under_more_bytes(s: Seq<u8>, t: Seq<u8>)
    requires
        next_frame(s) != Ok::<Option<(FrameView, int)>, Fault>(None),
    ensures
        next_frame(s + t) == next_frame(s),
{
    lemma_check_extend(s, t, 0, 1);
    lemma_check_parse_frame(s, 0);
    lemma_parse_extend(s, t, 0);
}

/// A GET of a key that was SET without an expiry answers the encoded value
/// that was set, at any later time, and leaves the store as it is.
pub proof fn law_get_after_set(db: Map<Seq<char>, Entry>, key: Seq<u8>, value: FrameView, set_at: u64, get_at: u64)
    ensures
        ({
            let (stored, set_reply) = run_outcome(CommandView::SET(key, value, None), db, set_at);
            let (after, get_reply) = run_outcome(CommandView::GET(key), stored, get_at);
            &&& set_reply == FrameView::Simple("OK"@)
            &&& get_reply == FrameView::Bulk(encode_frame(value))
            &&& after == stored
        }),
{
}

/// A GET of a key that was SET with an expiry of `ms > 0` milliseconds
/// answers the value before the expiry time; from the expiry time on it
/// answers null and the key is gone from the store.
pub proof fn law_get_around_expiry(db: Map<Seq<char>, Entry>, key: Seq<u8>, value: FrameView, ms: i64, set_at: u64, get_at: u64)
    requires
        ms > 0,
        set_at + ms <= u64::MAX,
    ensures
        ({
            let (stored, _) = run_outcome(CommandView::SET(key, value, Some(ms)), db, set_at);
            let (after, get_reply) = run_outcome(CommandView::GET(key), stored, get_at);
            if get_at < set_at + ms {
                get_reply == FrameView::Bulk(encode_frame(value)) && after == stored
            } else {
                get_reply == FrameView::Null && after == db.remove(crate::text::utf8_lossy(key))
            }
        }),
{
    let k = crate::text::utf8_lossy(key);
    let stored = set_outcome(db, k, encode_frame(value), Some(ms), set_at);
    assert(stored.remove(k) =~= db.remove(k));
}

/// A SET with an expiry of zero or less milliseconds leaves the store as it
/// is, and still answers `OK`.
pub proof fn law_set_nonpositive_expiry(db: Map<Seq<char>, Entry>, key: Seq<u8>, value: FrameView, ms: i64, now: u64)
    requires
        ms <= 0,
    ensures
        run_outcome(CommandView::SET(key, value, Some(ms)), db, now) == (db, FrameView::Simple("OK"@)),
{
}

/// A GET of a key that the store does not hold answers null and changes
/// nothing.
pub proof fn law_get_missing(db: Map<Seq<char>, Entry>, key: Seq<u8>, now: u64)
    requires
        !db.contains_key(crate::text::utf8_lossy(key)),
    ensures
        run_outcome(CommandView::GET(key), db, now) == (db, FrameView::Null),
{
}

/// A SET changes no key but its own.
pub proof fn law_set_keeps_other_keys(db: Map<Seq<char>, Entry>, key: Seq<u8>, value: FrameView, px: Option<i64>, now: u64, other: Seq<char>)
    requires
        other != crate::text::utf8_lossy(key),
    ensures
        ({
            let (stored, _) = run_outcome(CommandView::SET(key, value, px), db, now);
            &&& stored.contains_key(other) == db.contains_key(other)
            &&& db.contains_key(other) ==> stored[other] == db[other]
        }),
{
}

/// A bulk string is complete only when its line holds exactly the number of
/// bytes its header declares: then the check ends after that line; a line
/// of any other length is refused as a size mismatch.
pub proof fn law_bulk_length_checked(s: Seq<u8>, p: int, len: u64, p2: int, line: Seq<u8>, p3: int)
    requires
        0 <= p,
        read_u8(s, p) == Ok::<(u8, int), Fault>((36u8, p + 1)),
        read_decimal(s, p + 1) == Ok::<(u64, int), Fault>((len, p2)),
        read_line(s, p2) == Ok::<(Seq<u8>, int), Fault>((line, p3)),
    ensures
        line.len() != len ==> check_frame(s, p) == Err::<int, Fault>(Fault::Other("bulk string size not matching"@)),
        line.len() == len ==> check_frame(s, p) == Ok::<int, Fault>(p3),
{
    assert(check_frames(s, p3, 0) == Ok::<int, Fault>(p3));
}

/// A bulk string parses as the bytes of its line.
pub proof fn law_bulk_parses_as_its_line(s: Seq<u8>, p: int, len: u64, p2: int, line: Seq<u8>, p3: int)
    requires
        0 <= p,
        read_u8(s, p) == Ok::<(u8, int), Fault>((36u8, p + 1)),
        read_decimal(s, p + 1) == Ok::<(u64, int), Fault>((len, p2)),
        read_line(s, p2) == Ok::<(Seq<u8>, int), Fault>((line, p3)),
    ensures
        parse_frame(s, p) == Ok::<(FrameView, int), Fault>((FrameView::Bulk(line), p3)),
{
}

/// A simple string is complete once its line ends; it parses as the text
/// its line encodes in UTF-8, and is refused when the line is not UTF-8.
pub proof fn law_simple_string(s: Seq<u8>, p: int, line: Seq<u8>, p2: int)
    requires
        0 <= p,
        read_u8(s, p) == Ok::<(u8, int), Fault>((43u8, p + 1)),
        read_line(s, p + 1) == Ok::<(Seq<u8>, int), Fault>((line, p2)),
    ensures
        check_frame(s, p) == Ok::<int, Fault>(p2),
        valid_utf8(line) ==> parse_frame(s, p) == Ok::<(FrameView, int), Fault>((FrameView::Simple(decode_utf8(line)), p2)),
        !valid_utf8(line) ==> parse_frame(s, p) == Err::<(FrameView, int), Fault>(Fault::Other("protocol error; invalid frame format"@)),
{
    assert(check_frames(s, p2, 0) == Ok::<int, Fault>(p2));
}

/// When the pending bytes start with a complete frame that parses, the
/// connection's next frame is that frame, and it spans the checked bytes.
pub proof fn law_next_frame_complete(s: Seq<u8>, e: int, f: FrameView, q: int)
    requires
        check_frame(s, 0) == Ok::<int, Fault>(e),
        parse_frame(s, 0) == Ok::<(FrameView, int), Fault>((f, q)),
    ensures
        next_frame(s) == Ok::<Option<(FrameView, int)>, Fault>(Some((f, e))),
        q == e,
{
    lemma_check_parse_frame(s, 0);
}

/// While the pending bytes end before the frame does, there is no next
/// frame yet.
pub proof fn law_next_frame_incomplete(s: Seq<u8>)
    requires
        check_frame(s, 0) == Err::<int, Fault>(Fault::Incomplete),
    ensures
        next_frame(s) == Ok::<Option<(FrameView, int)>, Fault>(None),
{
}

/// PING answers `PONG` and leaves the store as it is.
pub proof fn law_run_ping(db: Map<Seq<char>, Entry>, now: u64)
    ensures
        run_outcome(CommandView::PING, db, now) == (db, FrameView::Simple("PONG"@)),
{
}

/// ECHO answers its argument as a bulk string and leaves the store as it is.
pub proof fn law_run_echo(v: Seq<u8>, db: Map<Seq<char>, Entry>, now: u64)
    ensures
        run_outcome(CommandView::ECHO(v), db, now) == (db, FrameView::Bulk(v)),
{
}

/// A command decoded as an error answers its message as an error frame and
/// leaves the store as it is.
pub proof fn law_run_error(m: Seq<char>, db: Map<Seq<char>, Entry>, now: u64)
    ensures
        run_outcome(CommandView::ERROR(m), db, now) == (db, FrameView::Error(m)),
{
}

proof fn lemma_names_differ()
    ensures
        "PING"@ != "GET"@,
        "PING"@ != "SET"@,
        "PING"@ != "ECHO"@,
        "GET"@ != "SET"@,
        "GET"@ != "ECHO"@,
        "SET"@ != "ECHO"@,
{
    reveal_strlit("PING");
    reveal_strlit("GET");
    reveal_strlit("SET");
    reveal_strlit("ECHO");
    assert("PING"@[0] != "GET"@[0]);
    assert("PING"@[0] != "SET"@[0]);
    assert("PING"@[0] != "ECHO"@[0]);
    assert("GET"@[0] != "SET"@[0]);
    assert("GET"@[0] != "ECHO"@[0]);
    assert("SET"@[0] != "ECHO"@[0]);
}

/// A request whose name reads as PING is a PING, whatever follows it.
pub proof fn law_decode_ping(name: Seq<u8>, rest: Seq<FrameView>)
    requires
        uppercase(utf8_lossy(name)) == "PING"@,
    ensures
        decode_command(FrameView::Array(seq![FrameView::Bulk(name)] + rest)) == Ok::<CommandView, Seq<char>>(CommandView::PING),
{
    assert((seq![FrameView::Bulk(name)] + rest)[0] == FrameView::Bulk(name));
}

/// A request `GET key ...` is a GET of that key.
pub proof fn law_decode_get(name: Seq<u8>, key: Seq<u8>, rest: Seq<FrameView>)
    requires
        uppercase(utf8_lossy(name)) == "GET"@,
    ensures
        decode_command(FrameView::Array(seq![FrameView::Bulk(name), FrameView::Bulk(key)] + rest))
            == Ok::<CommandView, Seq<char>>(CommandView::GET(key)),
{
    lemma_names_differ();
    let items = seq![FrameView::Bulk(name), FrameView::Bulk(key)] + rest;
    assert(items[0] == FrameView::Bulk(name));
    assert(items.skip(1)[0] == FrameView::Bulk(key));
}

/// A request `ECHO value ...` is an ECHO of that value.
pub proof fn law_decode_echo(name: Seq<u8>, value: Seq<u8>, rest: Seq<FrameView>)
    requires
        uppercase(utf8_lossy(name)) == "ECHO"@,
    ensures
        decode_command(FrameView::Array(seq![FrameView::Bulk(name), FrameView::Bulk(value)] + rest))
            == Ok::<CommandView, Seq<char>>(CommandView::ECHO(value)),
{
    lemma_names_differ();
    let items = seq![FrameView::Bulk(name), FrameView::Bulk(value)] + rest;
    assert(items[0] == FrameView::Bulk(name));
    assert(items.skip(1)[0] == FrameView::Bulk(value));
}

/// A request `SET key value` stores that value under that key, for good.
pub proof fn law_decode_set(name: Seq<u8>, key: Seq<u8>, value: FrameView)
    requires
        uppercase(utf8_lossy(name)) == "SET"@,
    ensures
        decode_command(FrameView::Array(seq![FrameView::Bulk(name), FrameView::Bulk(key), value]))
            == Ok::<CommandView, Seq<char>>(CommandView::SET(key, value, None)),
{
    lemma_names_differ();
    let items = seq![FrameView::Bulk(name), FrameView::Bulk(key), value];
    assert(items.skip(1) =~= seq![FrameView::Bulk(key), value]);
}

/// A request `SET key value PX ms` stores that value under that key, with
/// the number of milliseconds that `ms` reads as.
pub proof fn law_decode_set_px(name: Seq<u8>, key: Seq<u8>, value: FrameView, option: Seq<u8>, time: Seq<u8>, ms: i64)
    requires
        uppercase(utf8_lossy(name)) == "SET"@,
        lowercase(utf8_lossy(option)) == "px"@,
        atoi_i64(time) == Some(ms),
    ensures
        decode_command(FrameView::Array(seq![
            FrameView::Bulk(name),
            FrameView::Bulk(key),
            value,
            FrameView::Bulk(option),
            FrameView::Bulk(time),
        ])) == Ok::<CommandView, Seq<char>>(CommandView::SET(key, value, Some(ms))),
{
    lemma_names_differ();
    let items = seq![FrameView::Bulk(name), FrameView::Bulk(key), value, FrameView::Bulk(option), FrameView::Bulk(time)];
    assert(items.skip(1) =~= seq![FrameView::Bulk(key), value, FrameView::Bulk(option), FrameView::Bulk(time)]);
}

/// Whatever options follow, a decoded SET keeps the key it was given (the
/// first argument, a bulk string) and the value it was given (the second).
pub proof fn law_decode_set_keeps_key_and_value(args: Seq<FrameView>)
    ensures
        decode_set(args) matches CommandView::SET(key, value, _) ==> {
            &&& args.len() >= 2
            &&& args[0] == FrameView::Bulk(key)
            &&& value == args[1]
        },
{
}

/// A request whose name is none of PING, GET, SET and ECHO is refused.
pub proof fn law_decode_unknown(name: Seq<u8>, rest: Seq<FrameView>)
    requires
        uppercase(utf8_lossy(name)) != "PING"@,
        uppercase(utf8_lossy(name)) != "GET"@,
        uppercase(utf8_lossy(name)) != "SET"@,
        uppercase(utf8_lossy(name)) != "ECHO"@,
    ensures
        decode_command(FrameView::Array(seq![FrameView::Bulk(name)] + rest)) == Err::<CommandView, Seq<char>>("invalid command"@),
{
    assert((seq![FrameView::Bulk(name)] + rest)[0] == FrameView::Bulk(name));
}

/// How SET refuses wrong arguments: each mistake is answered by an ERROR
/// command with its own message.
pub proof fn law_decode_set_errors(args: Seq<FrameView>)
    ensures
        args.len() == 0 ==> decode_set(args) == CommandView::ERROR("set needs a key"@),
        args.len() > 0 && !(args[0] is Bulk) ==> decode_set(args) == CommandView::ERROR("invalid frame"@),
        args.len() == 1 && args[0] is Bulk ==> decode_set(args) == CommandView::ERROR("set needs a value"@),
        args.len() >= 3 && args[0] is Bulk && !(args[2] is Bulk)
            ==> decode_set(args) == CommandView::ERROR("invalid frame"@),
        args.len() >= 3 && args[0] is Bulk && args[2] is Bulk
            && lowercase(utf8_lossy(args[2]->Bulk_0)) != "px"@
            ==> decode_set(args) == CommandView::ERROR("syntax error"@),
        args.len() == 3 && args[0] is Bulk && args[2] is Bulk
            ==> decode_set(args) == CommandView::ERROR("syntax error"@),
        args.len() >= 4 && args[0] is Bulk && args[2] is Bulk
            && lowercase(utf8_lossy(args[2]->Bulk_0)) == "px"@ && !(args[3] is Bulk)
            ==> decode_set(args) == CommandView::ERROR("invalid frame"@),
        args.len() >= 4 && args[0] is Bulk && args[2] is Bulk
            && lowercase(utf8_lossy(args[2]->Bulk_0)) == "px"@ && args[3] is Bulk
            && atoi_i64(args[3]->Bulk_0) is None
            ==> decode_set(args) == CommandView::ERROR("value is not an integer or out of range"@),
{
}

/// GET without a key, or with a key that is not a bulk string, is an ERROR
/// command.
pub proof fn law_decode_get_errors(name: Seq<u8>, key: FrameView, rest: Seq<FrameView>)
    requires
        uppercase(utf8_lossy(name)) == "GET"@,
    ensures
        decode_command(FrameView::Array(seq![FrameView::Bulk(name)]))
            == Ok::<CommandView, Seq<char>>(CommandView::ERROR("set needs a key"@)),
        !(key is Bulk) ==> decode_command(FrameView::Array(seq![FrameView::Bulk(name), key] + rest))
            == Ok::<CommandView, Seq<char>>(CommandView::ERROR("invalid frame"@)),
{
    lemma_names_differ();
    let items = seq![FrameView::Bulk(name), key] + rest;
    assert(items[0] == FrameView::Bulk(name));
    assert(items.skip(1)[0] == key);
    assert(seq![FrameView::Bulk(name)].skip(1).len() == 0);
}

/// ECHO without a value, or with a value that is not a bulk string, is
/// refused.
pub proof fn law_decode_echo_errors(name: Seq<u8>, value: FrameView, rest: Seq<FrameView>)
    requires
        uppercase(utf8_lossy(name)) == "ECHO"@,
    ensures
        decode_command(FrameView::Array(seq![FrameView::Bulk(name)])) == Err::<CommandView, Seq<char>>("get needs a value"@),
        !(value is Bulk) ==> decode_command(FrameView::Array(seq![FrameView::Bulk(name), value] + rest))
            == Err::<CommandView, Seq<char>>("invalid frame"@),
{
    lemma_names_differ();
    let items = seq![FrameView::Bulk(name), value] + rest;
    assert(items[0] == FrameView::Bulk(name));
    assert(items.skip(1)[0] == value);
    assert(seq![FrameView::Bulk(name)].skip(1).len() == 0);
}

/// A number line reads as what `atoi` reads on it; a line that holds no
/// number is refused, and a missing line needs more bytes.
pub proof fn law_read_decimal(s: Seq<u8>, p: int, line: Seq<u8>, q: int)
    requires
        0 <= p < s.len(),
        read_line(s, p) == Ok::<(Seq<u8>, int), Fault>((line, q)),
    ensures
        atoi_u64(line) matches Some(v) ==> read_decimal(s, p) == Ok::<(u64, int), Fault>((v, q)),
        atoi_u64(line) is None ==> read_decimal(s, p)
            == Err::<(u64, int), Fault>(Fault::Other("protocol error: invalid frame format"@)),
{
}

/// A number needs more bytes while its line is not complete.
pub proof fn law_read_decimal_incomplete(s: Seq<u8>, p: int)
    requires
        read_line(s, p) is Err,
    ensures
        read_decimal(s, p) == Err::<(u64, int), Fault>(Fault::Incomplete),
{
    crate::wire::lemma_line_end(s, p);
}

/// Only `+`, `$` and `*` start a frame the reader handles; any other type
/// byte is reported as unsupported, and the reader stops after it.
pub proof fn law_unsupported_type_byte(s: Seq<u8>, p: int)
    requires
        0 <= p < s.len(),
        s[p] != 43 && s[p] != 36 && s[p] != 42,
    ensures
        check_frame(s, p) == Err::<int, Fault>(Fault::Unsupported),
        parse_frame(s, p) == Err::<(FrameView, int), Fault>(Fault::Unsupported),
        check_stop(s, p, 1) == p + 1,
        parse_stop(s, p) == p + 1,
{
}

/// With no byte left at `p`, the reader stops at `p`.
pub proof fn law_stop_at_end(s: Seq<u8>, p: int)
    requires
        0 <= p,
        s.len() <= p,
    ensures
        check_frame(s, p) == Err::<int, Fault>(Fault::Incomplete),
        check_stop(s, p, 1) == p,
        parse_stop(s, p) == p,
{
}

/// A simple string whose line is not complete stops after its type byte; one
/// that does not parse stops after its line.
pub proof fn law_simple_stop(s: Seq<u8>, p: int)
    requires
        0 <= p,
        read_u8(s, p) == Ok::<(u8, int), Fault>((43u8, p + 1)),
    ensures
        read_line(s, p + 1) is Err ==> check_stop(s, p, 1) == p + 1 && parse_stop(s, p) == p + 1,
        (read_line(s, p + 1) matches Ok((_, q)) ==> parse_stop(s, p) == q),
{
}

/// A bulk string or an array whose count line holds no number stops after
/// that line; one whose count line is not complete stops after its type byte.
pub proof fn law_count_stop(s: Seq<u8>, p: int, b: u8)
    requires
        0 <= p,
        b == 36 || b == 42,
        read_u8(s, p) == Ok::<(u8, int), Fault>((b, p + 1)),
        read_decimal(s, p + 1) is Err,
    ensures
        read_line(s, p + 1) is Err ==> check_stop(s, p, 1) == p + 1 && parse_stop(s, p) == p + 1,
        (read_line(s, p + 1) matches Ok((_, q)) ==> check_stop(s, p, 1) == q && parse_stop(s, p) == q),
{
}

/// A bulk string whose line is not complete stops after its length line; one
/// whose line has the wrong length stops after that line.
pub proof fn law_bulk_stop(s: Seq<u8>, p: int, len: u64, p2: int)
    requires
        0 <= p,
        read_u8(s, p) == Ok::<(u8, int), Fault>((36u8, p + 1)),
        read_decimal(s, p + 1) == Ok::<(u64, int), Fault>((len, p2)),
    ensures
        read_line(s, p2) is Err ==> check_stop(s, p, 1) == p2 && parse_stop(s, p) == p2,
        (read_line(s, p2) matches Ok((line, p3)) ==> (line.len() != len ==> check_stop(s, p, 1) == p3)),
{
}

/// Pending bytes that can never form a valid frame are reported with the
/// checker's message; a complete frame that does not parse is reported with
/// the parser's.
pub proof fn law_next_frame_invalid(s: Seq<u8>, m: Seq<char>)
    ensures
        check_frame(s, 0) == Err::<int, Fault>(Fault::Other(m))
            ==> next_frame(s) == Err::<Option<(FrameView, int)>, Fault>(Fault::Other(m)),
        check_frame(s, 0) is Ok && parse_frame(s, 0) == Err::<(FrameView, int), Fault>(Fault::Other(m))
            ==> next_frame(s) == Err::<Option<(FrameView, int)>, Fault>(Fault::Other(m)),
{
}

} // verus!
