//! RESP frames: the values that a client and the server exchange, how the
//! server finds a complete frame in the bytes it has read (`Frame::check`),
//! and how it builds the frame from them (`Frame::parse`).

use vstd::prelude::*;
use vstd::slice::{slice_subrange, slice_to_vec};
use bytes::Bytes;
use crate::buffers::{bytes_content, bytes_copy_from_slice, bytes_as_slice, bytes_from_vec};
use crate::decimal::{write_decimal, write_signed_decimal, decimal, atoi_unsigned, atoi_i64, atoi_signed};
use crate::text::{utf8_to_string, utf8_to_string_lossy, utf8_lossy};
use crate::wire::{
    encode_frame, encode_items, crlf, line_end, read_u8, read_line, read_decimal, check_frames,
    check_frame, parse_frame, parse_frames, lemma_reads_advance, lemma_check_bounds,
    lemma_check_compose, lemma_parse_bounds, check_stop, lemma_check_stop_compose, parse_stop,
    parse_frames_stop,
};

verus! {

/// A RESP value.
#[derive(Debug)]
pub enum Frame {
    Simple(String),
    Error(String),
    Integer(i64),
    Bulk(Bytes),
    Array(Vec<Frame>),
    Null,
}

/// What a frame holds, as mathematical values.
pub enum FrameView {
    Simple(Seq<char>),
    Error(Seq<char>),
    Integer(i64),
    Bulk(Seq<u8>),
    Array(Seq<FrameView>),
    Null,
}

/// What a frame holds.
pub open spec fn frame_view(f: Frame) -> FrameView
    decreases f, 0nat,
{
    match f {
        Frame::Simple(s) => FrameView::Simple(s@),
        Frame::Error(s) => FrameView::Error(s@),
        Frame::Integer(i) => FrameView::Integer(i),
        Frame::Bulk(b) => FrameView::Bulk(bytes_content(b)),
        Frame::Array(v) => FrameView::Array(frames_view(v@, v@.len())),
        Frame::Null => FrameView::Null,
    }
}

/// The views of the first `n` frames of `s`.
pub open spec fn frames_view(s: Seq<Frame>, n: nat) -> Seq<FrameView>
    decreases s, n,
{
    if n == 0 || n > s.len() {
        Seq::empty()
    } else {
        frames_view(s, (n - 1) as nat).push(frame_view(s[n - 1]))
    }
}

/// The views of all the frames of `s`, in order.
pub open spec fn views(s: Seq<Frame>) -> Seq<FrameView> {
    frames_view(s, s.len())
}

impl View for Frame {
    type V = FrameView;

    open spec fn view(&self) -> FrameView {
        frame_view(*self)
    }
}

/// `frames_view` lists the view of each frame, in order.
pub proof fn lemma_frames_view(s: Seq<Frame>, n: nat)
    requires
        n <= s.len(),
    ensures
        frames_view(s, n).len() == n,
        forall|i: int| 0 <= i < n ==> #[trigger] frames_view(s, n)[i] == frame_view(s[i]),
    decreases n,
{
    if n > 0 {
        lemma_frames_view(s, (n - 1) as nat);
    }
}

/// `views` lists the view of each frame, in order.
pub proof fn lemma_views(s: Seq<Frame>)
    ensures
        views(s).len() == s.len(),
        forall|i: int| 0 <= i < s.len() ==> #[trigger] views(s)[i] == frame_view(s[i]),
{
    lemma_frames_view(s, s.len());
}

/// Why reading a frame stopped short.
pub enum Fault {
    /// The bytes end before the frame does.
    Incomplete,
    /// The bytes are not a frame; the message says why.
    Other(Seq<char>),
    /// The frame starts with a type byte that the reader does not handle.
    Unsupported,
}

/// The error of the frame reader.
#[derive(Debug)]
pub enum Error {
    /// Not enough data is available to read a complete frame.
    Incomplete,
    /// The data is not a valid frame.
    Other(String),
}

impl View for Error {
    type V = Fault;

    open spec fn view(&self) -> Fault {
        match self {
            Error::Incomplete => Fault::Incomplete,
            Error::Other(m) => Fault::Other(m@),
        }
    }
}

/// The messages of the reader's errors.
pub open spec fn incomplete_message() -> Seq<char> {
    "stream ended early"@
}

pub open spec fn invalid_format_message() -> Seq<char> {
    "protocol error: invalid frame format"@
}

pub open spec fn invalid_utf8_message() -> Seq<char> {
    "protocol error; invalid frame format"@
}

pub open spec fn size_mismatch_message() -> Seq<char> {
    "bulk string size not matching"@
}

impl Error {
    /// The text that describes the error.
    pub fn message(&self) -> (r: String)
        ensures
            r@ == (match self@ {
                Fault::Incomplete => incomplete_message(),
                Fault::Other(m) => m,
                Fault::Unsupported => Seq::empty(),
            }),
    {
        match self {
            Error::Incomplete => String::from_str("stream ended early"),
            Error::Other(m) => m.clone(),
        }
    }
}

/// Appends the bytes of `data` to `out`.
pub fn append_bytes(out: &mut Vec<u8>, data: &[u8])
    ensures
        final(out)@ == old(out)@ + data@,
{
    let mut i: usize = 0;
    while i < data.len()
        invariant
            i <= data@.len(),
            out@ == old(out)@ + data@.take(i as int),
        decreases data@.len() - i,
    {
        out.push(data[i]);
        proof {
            assert(data@.take(i + 1) =~= data@.take(i as int).push(data@[i as int]));
        }
        i = i + 1;
    }
    proof {
        assert(data@.take(data@.len() as int) =~= data@);
    }
}

/// Why `Frame::scan` stopped: an `Error` of the reader, or a type byte that
/// the reader does not handle.
#[derive(Debug)]
pub enum Stop {
    Incomplete,
    Other(String),
    Unsupported,
}

impl View for Stop {
    type V = Fault;

    open spec fn view(&self) -> Fault {
        match self {
            Stop::Incomplete => Fault::Incomplete,
            Stop::Other(m) => Fault::Other(m@),
            Stop::Unsupported => Fault::Unsupported,
        }
    }
}

impl Stop {
    /// The stop that an error of the reader is.
    pub fn from_error(e: Error) -> (r: Stop)
        ensures
            r@ == e@,
    {
        match e {
            Error::Incomplete => Stop::Incomplete,
            Error::Other(m) => Stop::Other(m),
        }
    }
}

/// A read position in a byte slice.
pub struct Cursor<'a> {
    data: &'a [u8],
    pos: usize,
}

impl<'a> Cursor<'a> {
    /// The bytes read from.
    pub closed spec fn data(&self) -> Seq<u8> {
        self.data@
    }

    /// The position of the next byte to read.
    pub closed spec fn pos(&self) -> int {
        self.pos as int
    }

    /// A cursor at the start of `data`.
    pub fn new(data: &'a [u8]) -> (r: Cursor<'a>)
        ensures
            r.data() == data@,
            r.pos() == 0,
    {
        Cursor { data, pos: 0 }
    }

    /// The position of the next byte to read.
    pub fn position(&self) -> (r: usize)
        ensures
            r == self.pos(),
    {
        self.pos
    }

    /// Moves to `pos`.
    pub fn set_position(&mut self, pos: usize)
        ensures
            final(self).data() == old(self).data(),
            final(self).pos() == pos,
    {
        self.pos = pos;
    }

    /// The bytes read from.
    pub fn get_ref(&self) -> (r: &'a [u8])
        ensures
            r@ == self.data(),
    {
        self.data
    }

    /// Whether a byte is left to read.
    pub fn has_remaining(&self) -> (r: bool)
        ensures
            r == (self.pos() < self.data().len()),
    {
        self.pos < self.data.len()
    }
}

/// Reads one byte. `Incomplete` when none is left, and then the cursor stays.
pub fn get_u8(cursor: &mut Cursor) -> (r: Result<u8, Error>)
    ensures
        final(cursor).data() == old(cursor).data(),
        match read_u8(old(cursor).data(), old(cursor).pos()) {
            Ok((b, q)) => r == Ok::<u8, Error>(b) && final(cursor).pos() == q,
            Err(f) => r matches Err(e) && e@ == f && final(cursor).pos() == old(cursor).pos(),
        },
{
    if !cursor.has_remaining() {
        return Err(Error::Incomplete);
    }
    let b = cursor.data[cursor.pos];
    cursor.pos = cursor.pos + 1;
    Ok(b)
}

/// Reads the bytes up to the next `\r\n` and moves past it. `Incomplete`
/// when no `\r\n` follows, and then the cursor stays.
/// The slice must not be empty: its last index is where the search ends.
pub fn get_line<'a>(cursor: &mut Cursor<'a>) -> (r: Result<&'a [u8], Error>)
    requires
        old(cursor).data().len() >= 1,
    ensures
        final(cursor).data() == old(cursor).data(),
        match read_line(old(cursor).data(), old(cursor).pos()) {
            Ok((line, q)) => r matches Ok(l) && l@ == line && final(cursor).pos() == q,
            Err(f) => r matches Err(e) && e@ == f && final(cursor).pos() == old(cursor).pos(),
        },
{
    let data = cursor.data;
    let start = cursor.pos;
    let end = data.len() - 1;
    let mut i = start;
    while i < end
        invariant
            *cursor == *old(cursor),
            data == cursor.data,
            start == cursor.pos,
            end == data@.len() - 1,
            start <= i,
            line_end(data@, start as int) == line_end(data@, i as int),
        decreases end - i,
    {
        if data[i] == 13 && data[i + 1] == 10 {
            cursor.pos = i + 2;
            return Ok(slice_subrange(data, start, i));
        }
        i = i + 1;
    }
    Err(Error::Incomplete)
}

/// Reads an unsigned decimal number on its own line.
pub fn get_decimal(cursor: &mut Cursor) -> (r: Result<u64, Error>)
    ensures
        final(cursor).data() == old(cursor).data(),
        match read_decimal(old(cursor).data(), old(cursor).pos()) {
            Ok((v, q)) => r == Ok::<u64, Error>(v) && final(cursor).pos() == q,
            Err(f) => r matches Err(e) && e@ == f && final(cursor).pos() == (match read_line(old(cursor).data(), old(cursor).pos()) {
                Ok((_, q)) => q,
                Err(_) => old(cursor).pos(),
            }),
        },
{
    if !cursor.has_remaining() {
        return Err(Error::Incomplete);
    }
    let line = match get_line(cursor) {
        Ok(l) => l,
        Err(e) => return Err(e),
    };
    match atoi_unsigned(line) {
        Some(v) => Ok(v),
        None => Err(Error::Other(String::from_str("protocol error: invalid frame format"))),
    }
}

impl Frame {
    /// Walks the frame that starts at the cursor as `check` does, and also
    /// reports a type byte that the reader does not handle.
    pub fn scan(cursor: &mut Cursor) -> (r: Result<(), Stop>)
        ensures
            final(cursor).data() == old(cursor).data(),
            match check_frame(old(cursor).data(), old(cursor).pos()) {
                Ok(e) => r is Ok && final(cursor).pos() == e,
                Err(f) => r matches Err(x) && x@ == f
                    && final(cursor).pos() == check_stop(old(cursor).data(), old(cursor).pos(), 1),
            },
        decreases old(cursor).data().len() - old(cursor).pos(),
    {
        let ghost s = cursor.data();
        let ghost p = cursor.pos();
        proof {
            lemma_reads_advance(s, p + 1);
        }
        let b = match get_u8(cursor) {
            Ok(b) => b,
            Err(e) => return Err(Stop::from_error(e)),
        };
        if b == 43 {
            match get_line(cursor) {
                Ok(_) => {
                    assert(check_frames(s, cursor.pos(), 0) == Ok::<int, Fault>(cursor.pos()));
                    Ok(())
                },
                Err(e) => Err(Stop::from_error(e)),
            }
        } else if b == 42 {
            let count = match get_decimal(cursor) {
                Ok(c) => c,
                Err(e) => return Err(Stop::from_error(e)),
            };
            let ghost start = cursor.pos();
            proof {
                assert((count + 1 - 1) as nat == count as nat);
                assert(check_frame(s, p) == check_frames(s, start, count as nat));
                assert(check_stop(s, p, 1) == check_stop(s, start, count as nat));
            }
            let mut i: u64 = 0;
            while i < count
                invariant
                    s == old(cursor).data(),
                    p == old(cursor).pos(),
                    cursor.data() == s,
                    0 <= p < start <= cursor.pos() <= s.len(),
                    i <= count,
                    check_frames(s, cursor.pos(), (count - i) as nat) == check_frame(s, p),
                    check_stop(s, cursor.pos(), (count - i) as nat) == check_stop(s, p, 1),
                decreases count - i,
            {
                let ghost cur = cursor.pos();
                proof {
                    lemma_check_compose(s, cur, 1, (count - i - 1) as nat);
                    lemma_check_stop_compose(s, cur, 1, (count - i - 1) as nat);
                    lemma_check_bounds(s, cur, 1);
                    assert((count - i) as nat == (1 + (count - i - 1) as nat) as nat);
                }
                match Self::scan(cursor) {
                    Ok(_) => {},
                    Err(e) => return Err(e),
                }
                i = i + 1;
            }
            assert(check_frames(s, cursor.pos(), 0) == Ok::<int, Fault>(cursor.pos()));
            Ok(())
        } else if b == 36 {
            let len = match get_decimal(cursor) {
                Ok(n) => n,
                Err(e) => return Err(Stop::from_error(e)),
            };
            let line = match get_line(cursor) {
                Ok(l) => l,
                Err(e) => return Err(Stop::from_error(e)),
            };
            if line.len() as u64 != len {
                return Err(Stop::Other(String::from_str("bulk string size not matching")));
            }
            assert(check_frames(s, cursor.pos(), 0) == Ok::<int, Fault>(cursor.pos()));
            Ok(())
        } else {
            Err(Stop::Unsupported)
        }
    }

    /// Checks that a complete frame starts at the cursor, and moves the cursor
    /// past it. The frame must not reach a type byte that the reader does not
    /// handle (only `+`, `$` and `*` are read).
    pub fn check(cursor: &mut Cursor) -> (r: Result<(), Error>)
        requires
            check_frame(old(cursor).data(), old(cursor).pos()) != Err::<int, Fault>(Fault::Unsupported),
        ensures
            final(cursor).data() == old(cursor).data(),
            match check_frame(old(cursor).data(), old(cursor).pos()) {
                Ok(e) => r is Ok && final(cursor).pos() == e,
                Err(f) => r matches Err(x) && x@ == f
                    && final(cursor).pos() == check_stop(old(cursor).data(), old(cursor).pos(), 1),
            },
    {
        match Self::scan(cursor) {
            Ok(()) => Ok(()),
            Err(Stop::Incomplete) => Err(Error::Incomplete),
            Err(Stop::Other(m)) => Err(Error::Other(m)),
            Err(Stop::Unsupported) => {
                proof {
                    assert(false);
                }
                Err(Error::Incomplete)
            },
        }
    }

    /// Reads the frame that starts at the cursor and moves the cursor past
    /// it. The frame must not reach a type byte that the reader does not
    /// handle (only `+`, `$` and `*` are read).
    pub fn parse(cursor: &mut Cursor) -> (r: Result<Frame, Error>)
        requires
            parse_frame(old(cursor).data(), old(cursor).pos()) matches Err(f) ==> f != Fault::Unsupported,
        ensures
            final(cursor).data() == old(cursor).data(),
            match parse_frame(old(cursor).data(), old(cursor).pos()) {
                Ok((f, e)) => r matches Ok(x) && x@ == f && final(cursor).pos() == e,
                Err(f) => r matches Err(x) && x@ == f
                    && final(cursor).pos() == parse_stop(old(cursor).data(), old(cursor).pos()),
            },
        decreases old(cursor).data().len() - old(cursor).pos(),
    {
        let ghost s = cursor.data();
        let ghost p = cursor.pos();
        proof {
            lemma_reads_advance(s, p + 1);
        }
        let b = match get_u8(cursor) {
            Ok(b) => b,
            Err(e) => return Err(e),
        };
        if b == 43 {
            let line = match get_line(cursor) {
                Ok(l) => l,
                Err(e) => return Err(e),
            };
            match utf8_to_string(slice_to_vec(line)) {
                Some(text) => Ok(Frame::Simple(text)),
                None => Err(Error::Other(String::from_str("protocol error; invalid frame format"))),
            }
        } else if b == 36 {
            match get_decimal(cursor) {
                Ok(_) => {},
                Err(e) => return Err(e),
            }
            let line = match get_line(cursor) {
                Ok(l) => l,
                Err(e) => return Err(e),
            };
            Ok(Frame::Bulk(bytes_copy_from_slice(line)))
        } else if b == 42 {
            let count = match get_decimal(cursor) {
                Ok(c) => c,
                Err(e) => return Err(e),
            };
            let ghost start = cursor.pos();
            let mut frames: Vec<Frame> = Vec::new();
            let mut i: u64 = 0;
            proof {
                lemma_views(frames@);
                assert(views(frames@) + Seq::<FrameView>::empty() =~= Seq::<FrameView>::empty());
            }
            while i < count
                invariant
                    s == old(cursor).data(),
                    p == old(cursor).pos(),
                    cursor.data() == s,
                    0 <= p < start <= cursor.pos() <= s.len(),
                    i <= count,
                    frames@.len() == i,
                    parse_frames(s, start, count as nat) == (match parse_frames(s, cursor.pos(), (count - i) as nat) {
                        Ok((rest, e)) => Ok((views(frames@) + rest, e)),
                        Err(x) => Err(x),
                    }),
                    parse_frames(s, start, count as nat) matches Err(f) ==> f != Fault::Unsupported,
                    parse_frame(s, p) == (match parse_frames(s, start, count as nat) {
                        Ok((items, e)) => Ok((FrameView::Array(items), e)),
                        Err(x) => Err(x),
                    }),
                    parse_stop(s, p) == parse_frames_stop(s, cursor.pos(), (count - i) as nat),
                decreases count - i,
            {
                let ghost cur = cursor.pos();
                let ghost before = frames@;
                proof {
                    lemma_parse_bounds(s, cur);
                }
                let f = match Self::parse(cursor) {
                    Ok(f) => f,
                    Err(e) => {
                        assert(parse_frames(s, cur, (count - i) as nat) == Err::<(Seq<FrameView>, int), Fault>(e@));
                        return Err(e);
                    },
                };
                frames.push(f);
                proof {
                    lemma_views(before);
                    lemma_views(frames@);
                    let k = (count - i) as nat;
                    if let Ok((rest, e)) = parse_frames(s, cursor.pos(), (k - 1) as nat) {
                        assert(views(frames@) + rest =~= views(before) + (seq![f@] + rest));
                    }
                }
                i = i + 1;
            }
            proof {
                assert(views(frames@) + Seq::<FrameView>::empty() =~= views(frames@));
            }
            Ok(Frame::Array(frames))
        } else {
            proof {
                assert(false);
            }
            Err(Error::Incomplete)
        }
    }

    /// The bytes of this frame as the server writes it (RESP): `+` or `-`
    /// and the text for a simple string or an error, `:` and the number for
    /// an integer, `$`, the length and the bytes for a bulk string, `*`, the
    /// count and the elements for an array, and `$-1` for null; each line
    /// ends with `\r\n`.
    pub fn encode(&self) -> (r: Bytes)
        ensures
            bytes_content(r) == encode_frame(self@),
    {
        let mut out: Vec<u8> = Vec::new();
        self.encode_into(&mut out);
        proof {
            assert(out@ =~= Seq::<u8>::empty() + encode_frame(self@));
        }
        bytes_from_vec(out)
    }

    /// Appends the bytes of this frame to `out`.
    pub fn encode_into(&self, out: &mut Vec<u8>)
        ensures
            final(out)@ == old(out)@ + encode_frame(self@),
        decreases self,
    {
        match self {
            Frame::Simple(text) => {
                out.push(43);
                append_bytes(out, text.as_str().as_bytes());
                out.push(13);
                out.push(10);
                proof {
                    assert(out@ =~= old(out)@ + encode_frame(self@));
                }
            },
            Frame::Error(text) => {
                out.push(45);
                append_bytes(out, text.as_str().as_bytes());
                out.push(13);
                out.push(10);
                proof {
                    assert(out@ =~= old(out)@ + encode_frame(self@));
                }
            },
            Frame::Integer(i) => {
                out.push(58);
                write_signed_decimal(*i, out);
                out.push(13);
                out.push(10);
                proof {
                    assert(out@ =~= old(out)@ + encode_frame(self@));
                }
            },
            Frame::Bulk(b) => {
                let data = bytes_as_slice(b);
                out.push(36);
                write_decimal(data.len() as u64, out);
                out.push(13);
                out.push(10);
                append_bytes(out, data);
                out.push(13);
                out.push(10);
                proof {
                    assert(out@ =~= old(out)@ + encode_frame(self@));
                }
            },
            Frame::Array(items) => {
                let ghost start = out@;
                out.push(42);
                write_decimal(items.len() as u64, out);
                out.push(13);
                out.push(10);
                let ghost header = out@;
                proof {
                    lemma_views(items@);
                    assert(header =~= start + (seq![42u8] + decimal(items@.len()) + crlf()));
                    assert(out@ =~= header + encode_items(views(items@), 0));
                }
                let mut i: usize = 0;
                while i < items.len()
                    invariant
                        *self == Frame::Array(*items),
                        i <= items@.len(),
                        views(items@).len() == items@.len(),
                        forall|k: int| 0 <= k < items@.len() ==> #[trigger] views(items@)[k] == frame_view(items@[k]),
                        out@ == header + encode_items(views(items@), i as nat),
                    decreases items@.len() - i,
                {
                    proof {
                        assert(decreases_to!(*self => (*self)->Array_0));
                        assert(decreases_to!(*items => items@));
                    }
                    items[i].encode_into(out);
                    proof {
                        assert(out@ =~= header + encode_items(views(items@), (i + 1) as nat));
                    }
                    i = i + 1;
                }
                proof {
                    assert(out@ =~= old(out)@ + encode_frame(self@));
                }
            },
            Frame::Null => {
                out.push(36);
                out.push(45);
                out.push(49);
                out.push(13);
                out.push(10);
                proof {
                    assert(out@ =~= old(out)@ + encode_frame(self@));
                }
            },
        }
    }

    /// The text of a bulk payload, decoded as UTF-8 with U+FFFD in place of
    /// invalid sequences.
    pub fn string_from_bulk(bytes: Bytes) -> (r: String)
        ensures
            r@ == utf8_lossy(bytes_content(bytes)),
    {
        utf8_to_string_lossy(bytes_as_slice(&bytes))
    }

    /// The signed decimal number at the start of a bulk payload, read as
    /// `atoi` reads it.
    pub fn decimal_from_bulk(bytes: Bytes) -> (r: Option<i64>)
        ensures
            r == atoi_i64(bytes_content(bytes)),
    {
        atoi_signed(bytes_as_slice(&bytes))
    }
}

} // verus!
