//! The reading side of a client connection: the bytes received so far, and
//! the frames taken from them.

use vstd::prelude::*;
use bytes::BytesMut;
use crate::buffers::{buffer_content, buffer_with_capacity, buffer_as_slice, buffer_advance};
use crate::frame::{Frame, FrameView, Error, Fault, Cursor, Stop};
use crate::wire::{check_frame, parse_frame, lemma_check_bounds, crlf};
use crate::buffers::bytes_as_slice;
use crate::frame::append_bytes;
use vstd::utf8::encode_utf8;
use crate::laws::law_check_then_parse;

verus! {

/// The capacity that a new connection's buffer starts with.
pub const BUFFER_CAPACITY: usize = 4096;

/// What the next frame in `s` is: `Ok(Some)` with the frame and the length
/// of its bytes when a complete frame starts `s`, `Ok(None)` when more bytes
/// are needed, and `Err` when the bytes can never form a valid frame.
pub open spec fn next_frame(s: Seq<u8>) -> Result<Option<(FrameView, int)>, Fault> {
    match check_frame(s, 0) {
        Ok(e) => match parse_frame(s, 0) {
            Ok((f, _)) => Ok(Some((f, e))),
            Err(x) => Err(x),
        },
        Err(Fault::Incomplete) => Ok(None),
        Err(x) => Err(x),
    }
}

pub open spec fn reset_message() -> Seq<char> {
    "connection reset by peer"@
}

/// Whether the server can write the frame: a simple string or a bulk string.
pub open spec fn is_writable(f: FrameView) -> bool {
    f is Simple || f is Bulk
}

/// The bytes the server writes for a frame: `+`, the text and `\r\n` for a
/// simple string; the payload itself, unframed, for a bulk string (whose
/// payload the server keeps already encoded).
pub open spec fn written_bytes(f: FrameView) -> Seq<u8> {
    match f {
        FrameView::Simple(text) => seq![43u8] + encode_utf8(text) + crlf(),
        FrameView::Bulk(b) => b,
        _ => Seq::empty(),
    }
}

/// The bytes a connection has received and not yet taken as frames.
pub struct Connection {
    pub buffer: BytesMut,
}

impl Connection {
    /// The bytes received and not yet consumed.
    pub open spec fn pending(&self) -> Seq<u8> {
        buffer_content(self.buffer)
    }

    /// A connection that has received nothing yet.
    pub fn new() -> (r: Connection)
        ensures
            r.pending() == Seq::<u8>::empty(),
    {
        Connection { buffer: buffer_with_capacity(BUFFER_CAPACITY) }
    }

    /// Whether the pending bytes reach a frame type that the reader does not
    /// handle, where `parse_frame` cannot go on.
    pub fn reaches_unsupported(&self) -> (r: bool)
        ensures
            r == (check_frame(self.pending(), 0) == Err::<int, Fault>(Fault::Unsupported)),
    {
        let mut cursor = Cursor::new(buffer_as_slice(&self.buffer));
        match Frame::scan(&mut cursor) {
            Err(Stop::Unsupported) => true,
            _ => false,
        }
    }

    /// Takes the next frame off the pending bytes when they hold a complete
    /// one; the bytes of the frame are dropped. Leaves the bytes as they are
    /// when more are needed (`Ok(None)`) or when they are not a valid frame.
    pub fn parse_frame(&mut self) -> (r: Result<Option<Frame>, Error>)
        requires
            check_frame(old(self).pending(), 0) != Err::<int, Fault>(Fault::Unsupported),
        ensures
            match next_frame(old(self).pending()) {
                Ok(Some((f, e))) => r matches Ok(Some(x)) && x@ == f
                    && final(self).pending() == old(self).pending().skip(e),
                Ok(None) => r matches Ok(None) && final(self).pending() == old(self).pending(),
                Err(x) => r matches Err(y) && y@ == x && final(self).pending() == old(self).pending(),
            },
    {
        let ghost s = self.pending();
        let data = buffer_as_slice(&self.buffer);
        let mut cursor = Cursor::new(data);
        match Frame::check(&mut cursor) {
            Ok(_) => {
                let len = cursor.position();
                proof {
                    law_check_then_parse(s, 0);
                    lemma_check_bounds(s, 0, 1);
                }
                cursor.set_position(0);
                let frame = match Frame::parse(&mut cursor) {
                    Ok(f) => f,
                    Err(e) => return Err(e),
                };
                buffer_advance(&mut self.buffer, len);
                Ok(Some(frame))
            },
            Err(Error::Incomplete) => Ok(None),
            Err(e) => Err(e),
        }
    }

    /// The bytes to write to the peer for a reply frame; only simple and
    /// bulk strings can be written.
    pub fn write_frame_bytes(frame: &Frame) -> (r: Vec<u8>)
        requires
            is_writable(frame@),
        ensures
            r@ == written_bytes(frame@),
    {
        let mut out: Vec<u8> = Vec::new();
        match frame {
            Frame::Simple(value) => {
                out.push(43);
                append_bytes(&mut out, value.as_str().as_bytes());
                out.push(13);
                out.push(10);
            },
            Frame::Bulk(bytes) => {
                append_bytes(&mut out, bytes_as_slice(bytes));
            },
            _ => {
                proof {
                    assert(false);
                }
            },
        }
        proof {
            assert(out@ =~= written_bytes(frame@));
        }
        out
    }

    /// What the reader answers once a read from the peer returned `count`
    /// bytes: nothing yet (`None`, keep reading) after a read that got bytes;
    /// at the end of the stream, no frame when nothing is pending and
    /// otherwise an error, since the peer left a frame unfinished.
    pub fn after_read(&self, count: usize) -> (r: Option<Result<Option<Frame>, Error>>)
        ensures
            count != 0 ==> r is None,
            count == 0 && self.pending().len() == 0 ==> r matches Some(Ok(None)),
            count == 0 && self.pending().len() != 0 ==> (r matches Some(Err(e)) && e@ == Fault::Other(reset_message())),
    {
        if count != 0 {
            return None;
        }
        if buffer_as_slice(&self.buffer).len() == 0 {
            Some(Ok(None))
        } else {
            Some(Err(Error::Other(String::from_str("connection reset by peer"))))
        }
    }
}

} // verus!
