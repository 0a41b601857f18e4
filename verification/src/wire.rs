//! The byte grammar of the frames that the server reads, as spec functions
//! over the bytes of a buffer and a position in it.

use vstd::prelude::*;
use vstd::utf8::{valid_utf8, decode_utf8};
use crate::decimal::{atoi_u64, decimal, signed_decimal};
use vstd::utf8::encode_utf8;
use crate::frame::{Fault, FrameView, invalid_format_message, invalid_utf8_message, size_mismatch_message};

verus! {

/// Where the first `\r\n` at or after `i` starts, if `s` holds one.
pub open spec fn line_end(s: Seq<u8>, i: int) -> Option<int>
    decreases s.len() - i,
{
    if i < 0 || i + 1 >= s.len() {
        None
    } else if s[i] == 13 && s[i + 1] == 10 {
        Some(i)
    } else {
        line_end(s, i + 1)
    }
}

/// The byte at `p`, and the position after it.
pub open spec fn read_u8(s: Seq<u8>, p: int) -> Result<(u8, int), Fault> {
    if 0 <= p < s.len() {
        Ok((s[p], p + 1))
    } else {
        Err(Fault::Incomplete)
    }
}

/// The bytes from `p` up to the next `\r\n`, and the position after it.
pub open spec fn read_line(s: Seq<u8>, p: int) -> Result<(Seq<u8>, int), Fault> {
    match line_end(s, p) {
        Some(i) => Ok((s.subrange(p, i), i + 2)),
        None => Err(Fault::Incomplete),
    }
}

/// The unsigned number on the line at `p`, and the position after the line.
pub open spec fn read_decimal(s: Seq<u8>, p: int) -> Result<(u64, int), Fault> {
    if p >= s.len() {
        Err(Fault::Incomplete)
    } else {
        match read_line(s, p) {
            Err(e) => Err(e),
            Ok((line, q)) => match atoi_u64(line) {
                Some(v) => Ok((v, q)),
                None => Err(Fault::Other(invalid_format_message())),
            },
        }
    }
}

pub proof fn lemma_line_end(s: Seq<u8>, i: int)
    ensures
        line_end(s, i) matches Some(j) ==> {
            &&& 0 <= i <= j
            &&& j + 2 <= s.len()
            &&& s[j] == 13 && s[j + 1] == 10
        },
        line_end(s, i) matches Some(j) ==> forall|k: int|
            i <= k < j ==> !(#[trigger] s[k] == 13 && s[k + 1] == 10),
        line_end(s, i) is None ==> forall|k: int|
            0 <= i <= k && k + 1 < s.len() ==> !(#[trigger] s[k] == 13 && s[k + 1] == 10),
    decreases s.len() - i,
{
    if i < 0 || i + 1 >= s.len() {
    } else if s[i] == 13 && s[i + 1] == 10 {
    } else {
        lemma_line_end(s, i + 1);
    }
}

/// Reading a line or a number moves forward by at least the `\r\n`, and
/// stays within the bytes.
pub proof fn lemma_reads_advance(s: Seq<u8>, p: int)
    ensures
        read_line(s, p) matches Ok((line, q)) ==> p + 2 <= q <= s.len() && q == p + line.len() + 2,
        read_decimal(s, p) matches Ok((v, q)) ==> p + 2 <= q <= s.len(),
{
    lemma_line_end(s, p);
}

/// Whether the `n` frames that start at `p` are all complete, and where
/// they end. The elements of an array are counted in with the frames that
/// follow it, so that the frames are checked in the order they are written.
pub open spec fn check_frames(s: Seq<u8>, p: int, n: nat) -> Result<int, Fault>
    decreases s.len() - p,
{
    if n == 0 {
        Ok(p)
    } else {
        match read_u8(s, p) {
            Err(e) => Err(e),
            Ok((b, p1)) => {
                proof {
                    lemma_reads_advance(s, p1);
                }
                if b == 43 {
                    match read_line(s, p1) {
                        Err(e) => Err(e),
                        Ok((_, p2)) => check_frames(s, p2, (n - 1) as nat),
                    }
                } else if b == 42 {
                    match read_decimal(s, p1) {
                        Err(e) => Err(e),
                        Ok((count, p2)) => check_frames(s, p2, (count + n - 1) as nat),
                    }
                } else if b == 36 {
                    match read_decimal(s, p1) {
                        Err(e) => Err(e),
                        Ok((len, p2)) => {
                            proof {
                                lemma_reads_advance(s, p2);
                            }
                            match read_line(s, p2) {
                                Err(e) => Err(e),
                                Ok((line, p3)) => if line.len() != len {
                                    Err(Fault::Other(size_mismatch_message()))
                                } else {
                                    check_frames(s, p3, (n - 1) as nat)
                                },
                            }
                        },
                    }
                } else {
                    Err(Fault::Unsupported)
                }
            },
        }
    }
}

/// The single frame that starts at `p`: `Ok` with where it ends.
pub open spec fn check_frame(s: Seq<u8>, p: int) -> Result<int, Fault> {
    check_frames(s, p, 1)
}

/// Where a read of a number at `p` leaves the cursor when it fails: after
/// the line when the line is there but holds no number, else at `p`.
pub open spec fn decimal_stop(s: Seq<u8>, p: int) -> int {
    match read_line(s, p) {
        Ok((_, q)) => q,
        Err(_) => p,
    }
}

/// Where the cursor stands when checking the `n` frames at `p` fails: just
/// after the last piece that was read whole.
pub open spec fn check_stop(s: Seq<u8>, p: int, n: nat) -> int
    decreases s.len() - p,
{
    if n == 0 {
        p
    } else {
        match read_u8(s, p) {
            Err(_) => p,
            Ok((b, p1)) => {
                proof {
                    lemma_reads_advance(s, p1);
                }
                if b == 43 {
                    match read_line(s, p1) {
                        Err(_) => p1,
                        Ok((_, p2)) => check_stop(s, p2, (n - 1) as nat),
                    }
                } else if b == 42 {
                    match read_decimal(s, p1) {
                        Err(_) => decimal_stop(s, p1),
                        Ok((count, p2)) => check_stop(s, p2, (count + n - 1) as nat),
                    }
                } else if b == 36 {
                    match read_decimal(s, p1) {
                        Err(_) => decimal_stop(s, p1),
                        Ok((len, p2)) => {
                            proof {
                                lemma_reads_advance(s, p2);
                            }
                            match read_line(s, p2) {
                                Err(_) => p2,
                                Ok((line, p3)) => if line.len() != len {
                                    p3
                                } else {
                                    check_stop(s, p3, (n - 1) as nat)
                                },
                            }
                        },
                    }
                } else {
                    p1
                }
            },
        }
    }
}

/// The frame that starts at `p` and the position after it.
pub open spec fn parse_frame(s: Seq<u8>, p: int) -> Result<(FrameView, int), Fault>
    decreases s.len() - p, 0nat,
{
    match read_u8(s, p) {
        Err(e) => Err(e),
        Ok((b, p1)) => {
            proof {
                lemma_reads_advance(s, p1);
            }
            if b == 43 {
                match read_line(s, p1) {
                    Err(e) => Err(e),
                    Ok((line, p2)) => if valid_utf8(line) {
                        Ok((FrameView::Simple(decode_utf8(line)), p2))
                    } else {
                        Err(Fault::Other(invalid_utf8_message()))
                    },
                }
            } else if b == 36 {
                match read_decimal(s, p1) {
                    Err(e) => Err(e),
                    Ok((_, p2)) => match read_line(s, p2) {
                        Err(e) => Err(e),
                        Ok((line, p3)) => Ok((FrameView::Bulk(line), p3)),
                    },
                }
            } else if b == 42 {
                match read_decimal(s, p1) {
                    Err(e) => Err(e),
                    Ok((count, p2)) => match parse_frames(s, p2, count as nat) {
                        Err(e) => Err(e),
                        Ok((items, p3)) => Ok((FrameView::Array(items), p3)),
                    },
                }
            } else {
                Err(Fault::Unsupported)
            }
        },
    }
}

/// The `n` frames that start at `p`, in order, and the position after them.
pub open spec fn parse_frames(s: Seq<u8>, p: int, n: nat) -> Result<(Seq<FrameView>, int), Fault>
    decreases s.len() - p, 1nat,
{
    if n == 0 {
        Ok((Seq::empty(), p))
    } else if p >= s.len() {
        Err(Fault::Incomplete)
    } else {
        match parse_frame(s, p) {
            Err(e) => Err(e),
            Ok((f, p1)) => if p < p1 <= s.len() {
                match parse_frames(s, p1, (n - 1) as nat) {
                    Err(e) => Err(e),
                    Ok((rest, p2)) => Ok((seq![f] + rest, p2)),
                }
            } else {
                Err(Fault::Incomplete)
            },
        }
    }
}

/// `\r\n`, which ends every line of a frame.
pub open spec fn crlf() -> Seq<u8> {
    seq![13u8, 10u8]
}

/// The bytes of a frame as the server writes it.
pub open spec fn encode_frame(f: FrameView) -> Seq<u8>
    decreases f, 0nat,
{
    match f {
        FrameView::Simple(text) => seq![43u8] + encode_utf8(text) + crlf(),
        FrameView::Error(text) => seq![45u8] + encode_utf8(text) + crlf(),
        FrameView::Integer(i) => seq![58u8] + signed_decimal(i as int) + crlf(),
        FrameView::Bulk(b) => seq![36u8] + decimal(b.len()) + crlf() + b + crlf(),
        FrameView::Array(items) => seq![42u8] + decimal(items.len()) + crlf() + encode_items(items, items.len()),
        FrameView::Null => seq![36u8, 45u8, 49u8, 13u8, 10u8],
    }
}

/// The bytes of the first `n` frames of `items`, one after another.
pub open spec fn encode_items(items: Seq<FrameView>, n: nat) -> Seq<u8>
    decreases items, n,
{
    if n == 0 || n > items.len() {
        Seq::empty()
    } else {
        encode_items(items, (n - 1) as nat) + encode_frame(items[n - 1])
    }
}

/// Where the cursor stands when parsing the frame at `p` fails: just after
/// the last piece that was read whole.
pub open spec fn parse_stop(s: Seq<u8>, p: int) -> int
    decreases s.len() - p, 0nat,
{
    match read_u8(s, p) {
        Err(_) => p,
        Ok((b, p1)) => {
            proof {
                lemma_reads_advance(s, p1);
            }
            if b == 43 {
                match read_line(s, p1) {
                    Err(_) => p1,
                    Ok((_, p2)) => p2,
                }
            } else if b == 36 {
                match read_decimal(s, p1) {
                    Err(_) => decimal_stop(s, p1),
                    Ok((_, p2)) => p2,
                }
            } else if b == 42 {
                match read_decimal(s, p1) {
                    Err(_) => decimal_stop(s, p1),
                    Ok((count, p2)) => parse_frames_stop(s, p2, count as nat),
                }
            } else {
                p1
            }
        },
    }
}

/// Where the cursor stands when parsing the `n` frames at `p` fails.
pub open spec fn parse_frames_stop(s: Seq<u8>, p: int, n: nat) -> int
    decreases s.len() - p, 1nat,
{
    if n == 0 || p >= s.len() {
        p
    } else {
        match parse_frame(s, p) {
            Err(_) => parse_stop(s, p),
            Ok((_, p1)) => if p < p1 <= s.len() {
                parse_frames_stop(s, p1, (n - 1) as nat)
            } else {
                p
            },
        }
    }
}

/// Where a failed check of `a + b` frames stops: where checking the first
/// `a` stops, or, when those are complete, where checking `b` more stops.
pub proof fn lemma_check_stop_compose(s: Seq<u8>, p: int, a: nat, b: nat)
    ensures
        check_stop(s, p, a + b) == (match check_frames(s, p, a) {
            Ok(q) => check_stop(s, q, b),
            Err(_) => check_stop(s, p, a),
        }),
    decreases s.len() - p, a,
{
    if a > 0 {
        lemma_reads_advance(s, p + 1);
        if let Ok((x, p1)) = read_u8(s, p) {
            if x == 43 {
                if let Ok((_, p2)) = read_line(s, p1) {
                    lemma_check_stop_compose(s, p2, (a - 1) as nat, b);
                    assert((a + b - 1) as nat == ((a - 1) as nat + b) as nat);
                }
            } else if x == 42 {
                if let Ok((count, p2)) = read_decimal(s, p1) {
                    lemma_check_stop_compose(s, p2, (count + a - 1) as nat, b);
                    assert((count + (a + b) - 1) as nat == ((count + a - 1) as nat + b) as nat);
                }
            } else if x == 36 {
                if let Ok((_, p2)) = read_decimal(s, p1) {
                    lemma_reads_advance(s, p2);
                    if let Ok((_, p3)) = read_line(s, p2) {
                        lemma_check_stop_compose(s, p3, (a - 1) as nat, b);
                        assert((a + b - 1) as nat == ((a - 1) as nat + b) as nat);
                    }
                }
            }
        }
    }
}

/// A frame that parses ends after where it starts and within the bytes;
/// `n` frames that parse are `n` values.
pub proof fn lemma_parse_bounds(s: Seq<u8>, p: int)
    requires
        0 <= p,
    ensures
        parse_frame(s, p) matches Ok((f, q)) ==> p < q <= s.len(),
    decreases s.len() - p, 0nat,
{
    lemma_reads_advance(s, p + 1);
    if let Ok((b, p1)) = read_u8(s, p) {
        if b == 42 {
            if let Ok((count, p2)) = read_decimal(s, p1) {
                lemma_parse_frames_bounds(s, p2, count as nat);
            }
        } else if b == 36 {
            if let Ok((_, p2)) = read_decimal(s, p1) {
                lemma_reads_advance(s, p2);
            }
        }
    }
}

pub proof fn lemma_parse_frames_bounds(s: Seq<u8>, p: int, n: nat)
    requires
        0 <= p <= s.len(),
    ensures
        parse_frames(s, p, n) matches Ok((fs, q)) ==> p <= q <= s.len() && fs.len() == n,
    decreases s.len() - p, 1nat,
{
    if n > 0 && p < s.len() {
        lemma_parse_bounds(s, p);
        if let Ok((f, p1)) = parse_frame(s, p) {
            if p < p1 <= s.len() {
                lemma_parse_frames_bounds(s, p1, (n - 1) as nat);
            }
        }
    }
}

/// Frames that check end within the bytes, at or after where they start.
pub proof fn lemma_check_bounds(s: Seq<u8>, p: int, n: nat)
    requires
        0 <= p <= s.len(),
    ensures
        check_frames(s, p, n) matches Ok(e) ==> p <= e <= s.len(),
        n > 0 ==> (check_frames(s, p, n) matches Ok(e) ==> p < e),
    decreases s.len() - p,
{
    if n > 0 {
        lemma_reads_advance(s, p + 1);
        if let Ok((b, p1)) = read_u8(s, p) {
            if b == 43 {
                if let Ok((_, p2)) = read_line(s, p1) {
                    lemma_check_bounds(s, p2, (n - 1) as nat);
                }
            } else if b == 42 {
                if let Ok((count, p2)) = read_decimal(s, p1) {
                    lemma_check_bounds(s, p2, (count + n - 1) as nat);
                }
            } else if b == 36 {
                if let Ok((_, p2)) = read_decimal(s, p1) {
                    lemma_reads_advance(s, p2);
                    if let Ok((_, p3)) = read_line(s, p2) {
                        lemma_check_bounds(s, p3, (n - 1) as nat);
                    }
                }
            }
        }
    }
}

/// Checking `a + b` frames is checking `a` frames and then `b` more from
/// where they end.
pub proof fn lemma_check_compose(s: Seq<u8>, p: int, a: nat, b: nat)
    ensures
        check_frames(s, p, a + b) == (match check_frames(s, p, a) {
            Ok(q) => check_frames(s, q, b),
            Err(e) => Err(e),
        }),
    decreases s.len() - p, a,
{
    if a > 0 {
        lemma_reads_advance(s, p + 1);
        if let Ok((x, p1)) = read_u8(s, p) {
            if x == 43 {
                if let Ok((_, p2)) = read_line(s, p1) {
                    lemma_check_compose(s, p2, (a - 1) as nat, b);
                    assert((a + b - 1) as nat == ((a - 1) as nat + b) as nat);
                }
            } else if x == 42 {
                if let Ok((count, p2)) = read_decimal(s, p1) {
                    lemma_check_compose(s, p2, (count + a - 1) as nat, b);
                    assert((count + (a + b) - 1) as nat == ((count + a - 1) as nat + b) as nat);
                }
            } else if x == 36 {
                if let Ok((_, p2)) = read_decimal(s, p1) {
                    lemma_reads_advance(s, p2);
                    if let Ok((_, p3)) = read_line(s, p2) {
                        lemma_check_compose(s, p3, (a - 1) as nat, b);
                        assert((a + b - 1) as nat == ((a - 1) as nat + b) as nat);
                    }
                }
            }
        }
    }
}

} // verus!
