//! What the frame reader makes of the bytes the frame writer produces.

use vstd::prelude::*;
use crate::decimal::{decimal, lemma_atoi_decimal, lemma_decimal_digits, is_digit};
use crate::frame::{Fault, FrameView};
use crate::connection::next_frame;
use crate::commands::config_executor::config_reply;
use crate::text::lowercase;
use crate::connection::written_bytes;
use crate::decimal::{signed_decimal, atoi_i64, law_atoi_reads_signed_decimal};
use vstd::utf8::{encode_utf8, encode_utf8_valid_utf8, encode_utf8_decode_utf8};
use crate::wire::{
    line_end, read_u8, read_line, read_decimal, check_frames, check_frame, parse_frame,
    parse_frames, encode_frame, encode_items, crlf,
};

verus! {

/// No `\r\n` inside `b`.
pub open spec fn no_crlf(b: Seq<u8>) -> bool {
    forall|k: int| 0 <= k < b.len() - 1 ==> !(#[trigger] b[k] == 13 && b[k + 1] == 10)
}

/// A frame that the reader reads back as written: a simple string or a bulk
/// string whose bytes hold no `\r\n`, or an array of such frames.
pub open spec fn is_plain(f: FrameView) -> bool
    decreases f, 0nat,
{
    match f {
        FrameView::Simple(text) => no_crlf(encode_utf8(text)),
        FrameView::Bulk(b) => no_crlf(b) && b.len() <= u64::MAX,
        FrameView::Array(items) => items.len() <= u64::MAX && all_plain(items, items.len()),
        _ => false,
    }
}

/// Whether the first `n` frames of `items` are plain.
pub open spec fn all_plain(items: Seq<FrameView>, n: nat) -> bool
    decreases items, n,
{
    if n == 0 || n > items.len() {
        true
    } else {
        all_plain(items, (n - 1) as nat) && is_plain(items[n - 1])
    }
}

proof fn lemma_all_plain(items: Seq<FrameView>, n: nat)
    requires
        n <= items.len(),
    ensures
        all_plain(items, n) <==> forall|i: int| 0 <= i < n ==> #[trigger] is_plain(items[i]),
    decreases n,
{
    if n > 0 {
        lemma_all_plain(items, (n - 1) as nat);
        if all_plain(items, n) {
            assert forall|i: int| 0 <= i < n implies #[trigger] is_plain(items[i]) by {
                if i < n - 1 {
                    assert(is_plain(items[i]));
                }
            }
        }
        if forall|i: int| 0 <= i < n ==> #[trigger] is_plain(items[i]) {
            assert(is_plain(items[n - 1]));
            assert(forall|i: int| 0 <= i < n - 1 ==> #[trigger] is_plain(items[i]));
        }
    }
}

proof fn lemma_encode_items_split(items: Seq<FrameView>, n: nat)
    requires
        1 <= n <= items.len(),
    ensures
        encode_items(items, n) == encode_frame(items[0]) + encode_items(items.skip(1), (n - 1) as nat),
    decreases n,
{
    if n > 1 {
        lemma_encode_items_split(items, (n - 1) as nat);
        assert(items.skip(1)[n - 2] == items[n - 1]);
        assert(encode_items(items, n) =~= encode_frame(items[0]) + encode_items(items.skip(1), (n - 1) as nat));
    } else {
        assert(encode_items(items, 0) =~= Seq::<u8>::empty());
        assert(encode_items(items.skip(1), 0) =~= Seq::<u8>::empty());
        assert(encode_items(items, n) =~= encode_frame(items[0]) + encode_items(items.skip(1), (n - 1) as nat));
    }
}

/// `line_end` finds the first `\r\n`.
proof fn lemma_line_end_at(s: Seq<u8>, i: int, j: int)
    requires
        0 <= i <= j,
        j + 1 < s.len(),
        s[j] == 13 && s[j + 1] == 10,
        forall|k: int| i <= k < j ==> !(#[trigger] s[k] == 13 && s[k + 1] == 10),
    ensures
        line_end(s, i) == Some(j),
    decreases j - i,
{
    if i < j {
        lemma_line_end_at(s, i + 1, j);
    }
}

/// A line without `\r\n` in it, followed by `\r\n`, reads as itself.
proof fn lemma_line_at(s: Seq<u8>, i: int, line: Seq<u8>)
    requires
        0 <= i,
        i + line.len() + 2 <= s.len(),
        s.subrange(i, i + line.len() + 2) == line + crlf(),
        no_crlf(line),
    ensures
        read_line(s, i) == Ok::<(Seq<u8>, int), Fault>((line, i + line.len() + 2)),
{
    let j = i + line.len();
    assert(s[j] == (line + crlf())[line.len() as int]);
    assert(s[j + 1] == (line + crlf())[line.len() + 1int]);
    assert forall|k: int| i <= k < j implies !(#[trigger] s[k] == 13 && s[k + 1] == 10) by {
        assert(s[k] == (line + crlf())[k - i]);
        assert(s[k + 1] == (line + crlf())[k + 1 - i]);
        if k < j - 1 {
            assert(line[k - i] == s[k] && line[k + 1 - i] == s[k + 1]);
        }
    }
    lemma_line_end_at(s, i, j);
    assert(s.subrange(i, j) =~= line);
}

/// The decimal form of a number, followed by `\r\n`, reads as the number.
proof fn lemma_decimal_at(s: Seq<u8>, i: int, n: nat)
    requires
        0 <= i,
        n <= u64::MAX,
        i + decimal(n).len() + 2 <= s.len(),
        s.subrange(i, i + decimal(n).len() + 2) == decimal(n) + crlf(),
    ensures
        read_decimal(s, i) == Ok::<(u64, int), Fault>((n as u64, i + decimal(n).len() + 2)),
{
    lemma_decimal_digits(n);
    let d = decimal(n);
    assert forall|k: int| 0 <= k < d.len() - 1 implies !(#[trigger] d[k] == 13 && d[k + 1] == 10) by {
        assert(is_digit(d[k]));
    }
    lemma_line_at(s, i, d);
    lemma_atoi_decimal(n);
}

/// A piece of what `s` holds at `p` is what `s` holds at the piece's offset.
proof fn lemma_piece(s: Seq<u8>, p: int, x: Seq<u8>, i: int, y: Seq<u8>)
    requires
        0 <= p,
        p + x.len() <= s.len(),
        s.subrange(p, p + x.len()) == x,
        0 <= i,
        i + y.len() <= x.len(),
        x.subrange(i, i + y.len()) == y,
    ensures
        s.subrange(p + i, p + i + y.len()) == y,
{
    assert forall|k: int| 0 <= k < y.len() implies #[trigger] s.subrange(p + i, p + i + y.len())[k] == y[k] by {
        assert(s.subrange(p, p + x.len())[i + k] == x[i + k]);
        assert(x.subrange(i, i + y.len())[k] == x[i + k]);
    }
    assert(s.subrange(p + i, p + i + y.len()) =~= y);
}

/// The reads at the start of the bulk frame `b` written at `p`.
proof fn lemma_bulk_reads(s: Seq<u8>, p: int, b: Seq<u8>)
    requires
        0 <= p,
        no_crlf(b),
        b.len() <= u64::MAX,
        p + encode_frame(FrameView::Bulk(b)).len() <= s.len(),
        s.subrange(p, p + encode_frame(FrameView::Bulk(b)).len()) == encode_frame(FrameView::Bulk(b)),
    ensures
        ({
            let q = p + 1 + decimal(b.len()).len() + 2;
            &&& read_u8(s, p) == Ok::<(u8, int), Fault>((36u8, p + 1))
            &&& read_decimal(s, p + 1) == Ok::<(u64, int), Fault>((b.len() as u64, q))
            &&& read_line(s, q) == Ok::<(Seq<u8>, int), Fault>((b, p + encode_frame(FrameView::Bulk(b)).len()))
        }),
{
    let ef = encode_frame(FrameView::Bulk(b));
    let d = decimal(b.len());
    lemma_decimal_digits(b.len());
    assert(ef =~= seq![36u8] + (d + crlf()) + (b + crlf()));
    assert(s.subrange(p, p + ef.len())[0] == ef[0]);
    assert(ef.subrange(1, 1 + d.len() + 2int) =~= d + crlf());
    lemma_piece(s, p, ef, 1, d + crlf());
    lemma_decimal_at(s, p + 1, b.len());
    let q = p + 1 + d.len() + 2;
    assert(ef.subrange(1 + d.len() + 2int, 1 + d.len() + 2 + b.len() + 2int) =~= b + crlf());
    lemma_piece(s, p, ef, 1 + d.len() + 2int, b + crlf());
    lemma_line_at(s, q, b);
}

/// The reads at the start of the array frame `items` written at `p`.
proof fn lemma_array_reads(s: Seq<u8>, p: int, items: Seq<FrameView>)
    requires
        0 <= p,
        items.len() <= u64::MAX,
        p + encode_frame(FrameView::Array(items)).len() <= s.len(),
        s.subrange(p, p + encode_frame(FrameView::Array(items)).len()) == encode_frame(FrameView::Array(items)),
    ensures
        ({
            let q = p + 1 + decimal(items.len()).len() + 2;
            &&& read_u8(s, p) == Ok::<(u8, int), Fault>((42u8, p + 1))
            &&& read_decimal(s, p + 1) == Ok::<(u64, int), Fault>((items.len() as u64, q))
            &&& encode_frame(FrameView::Array(items)).len() == q - p + encode_items(items, items.len()).len()
        }),
{
    let ef = encode_frame(FrameView::Array(items));
    let d = decimal(items.len());
    lemma_decimal_digits(items.len());
    assert(ef =~= seq![42u8] + (d + crlf()) + encode_items(items, items.len()));
    assert(s.subrange(p, p + ef.len())[0] == ef[0]);
    assert(ef.subrange(1, 1 + d.len() + 2int) =~= d + crlf());
    lemma_piece(s, p, ef, 1, d + crlf());
    lemma_decimal_at(s, p + 1, items.len());
}

/// Where the pieces of `pre + ((x + y) + z) + rest` stand.
proof fn lemma_layout(pre: Seq<u8>, x: Seq<u8>, y: Seq<u8>, z: Seq<u8>, rest: Seq<u8>)
    ensures
        ({
            let s = pre + ((x + y) + z) + rest;
            &&& s.subrange(pre.len() as int, (pre.len() + x.len() + y.len()) as int) == x + y
            &&& s == (pre + (x + y)) + z + rest
            &&& s == (pre + x) + y + (z + rest)
            &&& pre.len() + x.len() + y.len() <= s.len()
        }),
{
    let s = pre + ((x + y) + z) + rest;
    assert(s.subrange(pre.len() as int, (pre.len() + x.len() + y.len()) as int) =~= x + y);
    assert(s =~= (pre + (x + y)) + z + rest);
    assert(s =~= (pre + x) + y + (z + rest));
}

/// One bulk frame, written at `p`, is checked as complete where it ends.
proof fn lemma_check_bulk_step(s: Seq<u8>, p: int, b: Seq<u8>, n: nat)
    requires
        0 <= p,
        n >= 1,
        no_crlf(b),
        b.len() <= u64::MAX,
        p + encode_frame(FrameView::Bulk(b)).len() <= s.len(),
        s.subrange(p, p + encode_frame(FrameView::Bulk(b)).len()) == encode_frame(FrameView::Bulk(b)),
    ensures
        check_frames(s, p, n) == check_frames(s, p + encode_frame(FrameView::Bulk(b)).len(), (n - 1) as nat),
{
    lemma_bulk_reads(s, p, b);
}

/// One simple string, written at `p`, is checked as complete where it ends
/// and parses as itself.
proof fn lemma_simple_step(s: Seq<u8>, p: int, text: Seq<char>, n: nat)
    requires
        0 <= p,
        n >= 1,
        no_crlf(encode_utf8(text)),
        p + encode_frame(FrameView::Simple(text)).len() <= s.len(),
        s.subrange(p, p + encode_frame(FrameView::Simple(text)).len()) == encode_frame(FrameView::Simple(text)),
    ensures
        check_frames(s, p, n) == check_frames(s, p + encode_frame(FrameView::Simple(text)).len(), (n - 1) as nat),
        parse_frame(s, p) == Ok::<(FrameView, int), Fault>((FrameView::Simple(text), p + encode_frame(FrameView::Simple(text)).len())),
{
    let ef = encode_frame(FrameView::Simple(text));
    let b = encode_utf8(text);
    assert(ef =~= seq![43u8] + (b + crlf()));
    assert(s.subrange(p, p + ef.len())[0] == ef[0]);
    assert(ef.subrange(1, 1 + b.len() + 2int) =~= b + crlf());
    lemma_piece(s, p, ef, 1, b + crlf());
    lemma_line_at(s, p + 1, b);
    encode_utf8_valid_utf8(text);
    encode_utf8_decode_utf8(text);
}

/// An array header written at `p` adds its elements to the frames to check.
proof fn lemma_check_array_step(s: Seq<u8>, p: int, items: Seq<FrameView>, n: nat)
    requires
        0 <= p,
        n >= 1,
        items.len() <= u64::MAX,
        p + encode_frame(FrameView::Array(items)).len() <= s.len(),
        s.subrange(p, p + encode_frame(FrameView::Array(items)).len()) == encode_frame(FrameView::Array(items)),
    ensures
        check_frames(s, p, n) == check_frames(s, p + 1 + decimal(items.len()).len() + 2, (items.len() + n - 1) as nat),
{
    lemma_array_reads(s, p, items);
}

/// One bulk frame, written at `p`, parses as itself.
proof fn lemma_parse_bulk_step(s: Seq<u8>, p: int, b: Seq<u8>)
    requires
        0 <= p,
        no_crlf(b),
        b.len() <= u64::MAX,
        p + encode_frame(FrameView::Bulk(b)).len() <= s.len(),
        s.subrange(p, p + encode_frame(FrameView::Bulk(b)).len()) == encode_frame(FrameView::Bulk(b)),
    ensures
        parse_frame(s, p) == Ok::<(FrameView, int), Fault>((FrameView::Bulk(b), p + encode_frame(FrameView::Bulk(b)).len())),
{
    lemma_bulk_reads(s, p, b);
}

/// An array written at `p` parses as its elements do after its header.
proof fn lemma_parse_array_step(s: Seq<u8>, p: int, items: Seq<FrameView>)
    requires
        0 <= p,
        items.len() <= u64::MAX,
        p + encode_frame(FrameView::Array(items)).len() <= s.len(),
        s.subrange(p, p + encode_frame(FrameView::Array(items)).len()) == encode_frame(FrameView::Array(items)),
        parse_frames(s, p + 1 + decimal(items.len()).len() + 2, items.len())
            == Ok::<(Seq<FrameView>, int), Fault>((items, p + encode_frame(FrameView::Array(items)).len())),
    ensures
        parse_frame(s, p) == Ok::<(FrameView, int), Fault>((FrameView::Array(items), p + encode_frame(FrameView::Array(items)).len())),
{
    lemma_array_reads(s, p, items);
}

proof fn lemma_tail_plain(items: Seq<FrameView>)
    requires
        items.len() > 0,
        forall|i: int| 0 <= i < items.len() ==> #[trigger] is_plain(items[i]),
    ensures
        forall|i: int| 0 <= i < items.skip(1).len() ==> #[trigger] is_plain(items.skip(1)[i]),
        is_plain(items[0]),
{
    assert forall|i: int| 0 <= i < items.skip(1).len() implies #[trigger] is_plain(items.skip(1)[i]) by {
        assert(items.skip(1)[i] == items[i + 1]);
    }
}

#[verifier::spinoff_prover]
#[verifier::rlimit(50)]
proof fn lemma_check_encoded(pre: Seq<u8>, items: Seq<FrameView>, rest: Seq<u8>, m: nat)
    requires
        forall|i: int| 0 <= i < items.len() ==> #[trigger] is_plain(items[i]),
    ensures
        ({
            let e = encode_items(items, items.len());
            let s = pre + e + rest;
            check_frames(s, pre.len() as int, items.len() + m) == check_frames(s, (pre.len() + e.len()) as int, m)
        }),
    decreases items,
{
    if items.len() > 0 {
        let e = encode_items(items, items.len());
        let s = pre + e + rest;
        let p = pre.len() as int;
        let n = items.len() + m;
        lemma_encode_items_split(items, items.len());
        lemma_tail_plain(items);
        let f = items[0];
        let tail = items.skip(1);
        let et = encode_items(tail, tail.len());
        match f {
            FrameView::Simple(text) => {
                let ef = encode_frame(f);
                lemma_layout(pre, ef, Seq::empty(), et, rest);
                assert(ef + Seq::<u8>::empty() =~= ef);
                lemma_simple_step(s, p, text, n);
                lemma_check_encoded(pre + ef, tail, rest, m);
            },
            FrameView::Bulk(b) => {
                let ef = encode_frame(f);
                lemma_layout(pre, ef, Seq::empty(), et, rest);
                assert(ef + Seq::<u8>::empty() =~= ef);
                lemma_check_bulk_step(s, p, b, n);
                lemma_check_encoded(pre + ef, tail, rest, m);
            },
            FrameView::Array(sub) => {
                let h = seq![42u8] + (decimal(sub.len()) + crlf());
                let es = encode_items(sub, sub.len());
                assert(encode_frame(f) =~= h + es);
                lemma_layout(pre, h, es, et, rest);
                lemma_all_plain(sub, sub.len());
                lemma_check_array_step(s, p, sub, n);
                assert(decreases_to!(items => items[0]));
                assert(decreases_to!(items[0] => items[0]->Array_0));
                assert((sub.len() + n - 1) as nat == sub.len() + (tail.len() + m));
                lemma_check_encoded(pre + h, sub, et + rest, tail.len() + m);
                lemma_check_encoded(pre + (h + es), tail, rest, m);
            },
            _ => {},
        }
    }
}

proof fn lemma_parse_encoded(pre: Seq<u8>, items: Seq<FrameView>, rest: Seq<u8>)
    requires
        forall|i: int| 0 <= i < items.len() ==> #[trigger] is_plain(items[i]),
    ensures
        ({
            let e = encode_items(items, items.len());
            let s = pre + e + rest;
            parse_frames(s, pre.len() as int, items.len()) == Ok::<(Seq<FrameView>, int), Fault>((items, (pre.len() + e.len()) as int))
        }),
    decreases items,
{
    let e = encode_items(items, items.len());
    let s = pre + e + rest;
    let p = pre.len() as int;
    if items.len() == 0 {
        assert(items =~= Seq::<FrameView>::empty());
    } else {
        lemma_encode_items_split(items, items.len());
        lemma_tail_plain(items);
        let f = items[0];
        let ef = encode_frame(f);
        let tail = items.skip(1);
        let et = encode_items(tail, tail.len());
        match f {
            FrameView::Simple(text) => {
                lemma_layout(pre, ef, Seq::empty(), et, rest);
                assert(ef + Seq::<u8>::empty() =~= ef);
                lemma_simple_step(s, p, text, 1);
            },
            FrameView::Bulk(b) => {
                lemma_layout(pre, ef, Seq::empty(), et, rest);
                assert(ef + Seq::<u8>::empty() =~= ef);
                lemma_parse_bulk_step(s, p, b);
            },
            FrameView::Array(sub) => {
                let h = seq![42u8] + (decimal(sub.len()) + crlf());
                let es = encode_items(sub, sub.len());
                assert(ef =~= h + es);
                lemma_layout(pre, h, es, et, rest);
                lemma_all_plain(sub, sub.len());
                assert(decreases_to!(items => items[0]));
                assert(decreases_to!(items[0] => items[0]->Array_0));
                lemma_parse_encoded(pre + h, sub, et + rest);
                lemma_parse_array_step(s, p, sub);
            },
            _ => {},
        }
        lemma_parse_encoded(pre + ef, tail, rest);
        assert(seq![f] + tail =~= items);
    }
}

/// The reader reads a plain frame back from the bytes the writer produces
/// for it, whatever bytes follow: `Frame::check` finds it complete exactly
/// there, and `Frame::parse` returns the same frame.
pub proof fn law_parse_encoded(f: FrameView, rest: Seq<u8>)
    requires
        is_plain(f),
    ensures
        check_frame(encode_frame(f) + rest, 0) == Ok::<int, Fault>(encode_frame(f).len() as int),
        parse_frame(encode_frame(f) + rest, 0) == Ok::<(FrameView, int), Fault>((f, encode_frame(f).len() as int)),
{
    let items = seq![f];
    let pre = Seq::<u8>::empty();
    assert(encode_items(items, 0) =~= Seq::<u8>::empty());
    assert(encode_items(items, 1) =~= encode_frame(f));
    assert(is_plain(items[0]));
    assert(pre + encode_frame(f) + rest =~= encode_frame(f) + rest);
    lemma_check_encoded(pre, items, rest, 0);
    lemma_parse_encoded(pre, items, rest);
    let s = encode_frame(f) + rest;
    let len = encode_frame(f).len() as int;
    assert(check_frames(s, len, 0) == Ok::<int, Fault>(len));
    assert(parse_frames(s, 0, 1) == Ok::<(Seq<FrameView>, int), Fault>((items, len)));
    assert(parse_frames(s, len, 0) == Ok::<(Seq<FrameView>, int), Fault>((Seq::empty(), len)));
    crate::wire::lemma_parse_bounds(s, 0);
    if let Ok((g, q)) = parse_frame(s, 0) {
        assert(parse_frames(s, q, 0) == Ok::<(Seq<FrameView>, int), Fault>((Seq::empty(), q)));
        assert(seq![g] + Seq::<FrameView>::empty() =~= seq![g]);
        assert(seq![g][0] == g);
        assert(items[0] == f);
    }
}

/// A connection whose pending bytes start with the bytes written for a plain
/// frame takes exactly that frame off them, whatever bytes follow.
pub proof fn law_next_frame_of_encoded(f: FrameView, rest: Seq<u8>)
    requires
        is_plain(f),
    ensures
        next_frame(encode_frame(f) + rest) == Ok::<Option<(FrameView, int)>, Fault>(Some((f, encode_frame(f).len() as int))),
{
    law_parse_encoded(f, rest);
}

/// Whether `f` is a bulk string holding the RESP bulk encoding of `data`,
/// as the reader sees it: `$`, a line with the number of bytes of `data`,
/// then `data` and `\r\n`; and, when `data` holds no `\r\n`, the reader
/// parses it back as `data`.
pub open spec fn holds_bulk_encoding(f: FrameView, data: Seq<u8>) -> bool {
    match f {
        FrameView::Bulk(a) => {
            &&& a.len() > 0 && a[0] == 36u8
            &&& read_decimal(a, 1) matches Ok((n, q)) && n == data.len()
                && a.subrange(q, a.len() as int) == data + crlf()
            &&& no_crlf(data) ==> parse_frame(a, 0)
                == Ok::<(FrameView, int), Fault>((FrameView::Bulk(data), a.len() as int))
        },
        _ => false,
    }
}

/// The reply to CONFIG GET is an array of two bulk strings: the RESP bulk
/// encoding of the setting's name, then that of its value.
pub proof fn law_config_get_reply(command: Seq<char>, key: Seq<char>, value: Seq<char>)
    requires
        lowercase(command) == "get"@,
        encode_utf8(key).len() <= u64::MAX,
        encode_utf8(value).len() <= u64::MAX,
    ensures
        config_reply(command, key, value) is Array,
        config_reply(command, key, value)->Array_0.len() == 2,
        holds_bulk_encoding(config_reply(command, key, value)->Array_0[0], encode_utf8(key)),
        holds_bulk_encoding(config_reply(command, key, value)->Array_0[1], encode_utf8(value)),
{
    lemma_bulk_encoding(encode_utf8(key));
    lemma_bulk_encoding(encode_utf8(value));
}

proof fn lemma_bulk_encoding(data: Seq<u8>)
    requires
        data.len() <= u64::MAX,
    ensures
        holds_bulk_encoding(FrameView::Bulk(encode_frame(FrameView::Bulk(data))), data),
{
    let a = encode_frame(FrameView::Bulk(data));
    let d = decimal(data.len());
    lemma_decimal_digits(data.len());
    assert(a =~= seq![36u8] + (d + crlf()) + (data + crlf()));
    assert(a.subrange(1, 1 + d.len() + 2int) =~= d + crlf());
    lemma_decimal_at(a, 1, data.len());
    let q: int = 1 + d.len() + 2int;
    assert(a.subrange(q, a.len() as int) =~= data + crlf());
    if no_crlf(data) {
        law_parse_encoded(FrameView::Bulk(data), Seq::empty());
        assert(a + Seq::<u8>::empty() =~= a);
    }
}

/// A line is read up to the first `\r\n` at or after its start: the bytes
/// read are the line followed by `\r\n`, and none of them before that pair
/// starts a `\r\n`. The read needs more bytes exactly when no `\r\n`
/// follows the start.
pub proof fn law_read_line(s: Seq<u8>, p: int)
    requires
        0 <= p,
    ensures
        read_line(s, p) matches Ok((line, q)) ==> {
            &&& q == p + line.len() + 2 <= s.len()
            &&& s.subrange(p, q) == line + crlf()
            &&& forall|k: int| p <= k < q - 2 ==> !(#[trigger] s[k] == 13 && s[k + 1] == 10)
        },
        read_line(s, p) is Err ==> {
            &&& read_line(s, p) == Err::<(Seq<u8>, int), Fault>(Fault::Incomplete)
            &&& forall|k: int| p <= k && k + 1 < s.len() ==> !(#[trigger] s[k] == 13 && s[k + 1] == 10)
        },
{
    crate::wire::lemma_line_end(s, p);
    if let Ok((line, q)) = read_line(s, p) {
        assert(s.subrange(p, q) =~= line + crlf());
    }
}

/// A request frame that is not an array of which the first element is a bulk
/// string is refused as an invalid frame.
pub proof fn law_decode_needs_named_array(f: FrameView)
    requires
        !(f matches FrameView::Array(items) && items.len() > 0 && items[0] is Bulk),
    ensures
        crate::command::decode_command(f) == Err::<crate::command::CommandView, Seq<char>>("invalid frame"@),
{
}

/// Any subcommand of CONFIG other than GET (in any case) is answered with an
/// error.
pub proof fn law_config_other_subcommand(command: Seq<char>, key: Seq<char>, value: Seq<char>)
    requires
        lowercase(command) != "get"@,
    ensures
        config_reply(command, key, value) == FrameView::Error("invalid command"@),
{
}

/// What the server writes for a simple string is that string's frame, which
/// the reader reads back (when its bytes hold no `\r\n`); for a bulk
/// string it writes the payload itself.
pub proof fn law_written_bytes(text: Seq<char>, b: Seq<u8>)
    ensures
        written_bytes(FrameView::Simple(text)) == encode_frame(FrameView::Simple(text)),
        no_crlf(encode_utf8(text)) ==> parse_frame(written_bytes(FrameView::Simple(text)), 0)
            == Ok::<(FrameView, int), Fault>((FrameView::Simple(text), written_bytes(FrameView::Simple(text)).len() as int)),
        written_bytes(FrameView::Bulk(b)) == b,
{
    if no_crlf(encode_utf8(text)) {
        law_parse_encoded(FrameView::Simple(text), Seq::empty());
        assert(encode_frame(FrameView::Simple(text)) + Seq::<u8>::empty() =~= encode_frame(FrameView::Simple(text)));
    }
}

proof fn lemma_signed_decimal_no_crlf(i: int)
    ensures
        no_crlf(signed_decimal(i)),
{
    let t = signed_decimal(i);
    if i < 0 {
        let d = decimal((0 - i) as nat);
        lemma_decimal_digits((0 - i) as nat);
        assert forall|k: int| 0 <= k < t.len() - 1 implies !(#[trigger] t[k] == 13 && t[k + 1] == 10) by {
            assert(t[k + 1] == d[k]);
            assert(is_digit(d[k]));
        }
    } else {
        let d = decimal(i as nat);
        lemma_decimal_digits(i as nat);
        assert forall|k: int| 0 <= k < t.len() - 1 implies !(#[trigger] t[k] == 13 && t[k + 1] == 10) by {
            assert(is_digit(d[k]));
        }
    }
}

/// The bytes written for an integer are `:`, then a line that `atoi` reads
/// back as the integer.
pub proof fn law_encode_integer(i: i64)
    ensures
        encode_frame(FrameView::Integer(i))[0] == 58u8,
        read_line(encode_frame(FrameView::Integer(i)), 1) matches Ok((line, q))
            && q == encode_frame(FrameView::Integer(i)).len() && atoi_i64(line) == Some(i),
{
    let e = encode_frame(FrameView::Integer(i));
    let t = signed_decimal(i as int);
    lemma_signed_decimal_no_crlf(i as int);
    law_atoi_reads_signed_decimal(i);
    assert(e =~= seq![58u8] + (t + crlf()));
    assert(e.subrange(1, 1 + t.len() + 2int) =~= t + crlf());
    lemma_line_at(e, 1, t);
}

/// The bytes written for null are `$`, then a line that `atoi` reads as -1.
pub proof fn law_encode_null()
    ensures
        encode_frame(FrameView::Null)[0] == 36u8,
        read_line(encode_frame(FrameView::Null), 1) matches Ok((line, q))
            && q == encode_frame(FrameView::Null).len() && atoi_i64(line) == Some(-1i64),
{
    let e = encode_frame(FrameView::Null);
    law_atoi_reads_signed_decimal(-1i64);
    let t = signed_decimal(-1);
    assert(t =~= seq![45u8, 49u8]);
    lemma_signed_decimal_no_crlf(-1);
    assert(e.subrange(1, 5) =~= t + crlf());
    lemma_line_at(e, 1, t);
}

/// The bytes written for an error are `-`, then the message's UTF-8 bytes on
/// one line (when they hold no `\r\n`).
pub proof fn law_encode_error(message: Seq<char>)
    requires
        no_crlf(encode_utf8(message)),
    ensures
        encode_frame(FrameView::Error(message))[0] == 45u8,
        read_line(encode_frame(FrameView::Error(message)), 1)
            == Ok::<(Seq<u8>, int), Fault>((encode_utf8(message), encode_frame(FrameView::Error(message)).len() as int)),
{
    let e = encode_frame(FrameView::Error(message));
    let b = encode_utf8(message);
    assert(e =~= seq![45u8] + (b + crlf()));
    assert(e.subrange(1, 1 + b.len() + 2int) =~= b + crlf());
    lemma_line_at(e, 1, b);
}

} // verus!
