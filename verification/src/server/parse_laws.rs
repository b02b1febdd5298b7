//! Properties of the parser that span several calls: it reads back what
//! `RespValue::to_resp` writes, and dropping the bytes it has consumed does
//! not change what it reads next.

use vstd::prelude::*;
use crate::server::protocol::{
    crlf, crlf_at, find_crlf, lemma_find_crlf_bounds, parse_items_at, parse_value_at, resp_text,
    resp_texts, text_of, utf8_len, ParseOutcome, RespParser, RespValue, RespView,
};
use crate::text::{
    digit_value, int_text, is_digit, lemma_nat_text_digits, lemma_parse_int_text,
    lemma_parse_nat_text, nat_text, parse_isize, scan_digits, IntErrorKind,
};
use vstd::utf8::{
    char_is_scalar, char_u32_cast, encode_scalar, encode_utf8, encode_utf8_decode_utf8,
    encode_utf8_valid_utf8, is_ascii_chars, is_ascii_chars_encode_utf8,
};

verus! {

/// Whether `s` holds a carriage return directly followed by a line feed.
pub open spec fn has_line_end(s: Seq<char>) -> bool {
    exists|i: int| 0 <= i && i + 1 < s.len() && #[trigger] s[i] == '\r' && s[i + 1] == '\n'
}

/// The encoding of two texts one after the other is the one encoding
/// followed by the other.
pub proof fn lemma_encode_concat(a: Seq<char>, b: Seq<char>)
    ensures
        encode_utf8(a + b) == encode_utf8(a) + encode_utf8(b),
    decreases a.len(),
{
    if a.len() == 0 {
        assert(a + b =~= b);
        assert(encode_utf8(a) + encode_utf8(b) =~= encode_utf8(b));
    } else {
        assert((a + b).drop_first() =~= a.drop_first() + b);
        assert((a + b)[0] == a[0]);
        lemma_encode_concat(a.drop_first(), b);
        assert(encode_utf8(a + b) =~= encode_utf8(a) + encode_utf8(b));
    }
}

/// Each character takes at least one byte.
pub proof fn lemma_encode_len(s: Seq<char>)
    ensures
        encode_utf8(s).len() >= s.len(),
    decreases s.len(),
{
    if s.len() > 0 {
        lemma_scalar_bytes(s[0]);
        lemma_encode_len(s.drop_first());
    }
}

/// A character below 128 is its own single byte; every byte of any other
/// character is 128 or more.
proof fn lemma_scalar_bytes(c: char)
    ensures
        encode_scalar(c as u32).len() >= 1,
        (c as u32) < 128 ==> encode_scalar(c as u32) =~= seq![(c as u32) as u8],
        (c as u32) >= 128 ==> forall|i: int|
            0 <= i < encode_scalar(c as u32).len() ==> #[trigger] encode_scalar(c as u32)[i] >= 128,
{
    char_is_scalar(c);
    let v = c as u32;
    assert(v <= 0x7F ==> (v & 0x7F) as u8 == v as u8) by (bit_vector);
    assert((0xC0u8 | ((v >> 6) & 0x1F) as u8) >= 128) by (bit_vector);
    assert((0xE0u8 | ((v >> 12) & 0x0F) as u8) >= 128) by (bit_vector);
    assert((0xF0u8 | ((v >> 18) & 0x7) as u8) >= 128) by (bit_vector);
    assert((0x80u8 | (v & 0x3F) as u8) >= 128) by (bit_vector);
    assert((0x80u8 | ((v >> 6) & 0x3F) as u8) >= 128) by (bit_vector);
    assert((0x80u8 | ((v >> 12) & 0x3F) as u8) >= 128) by (bit_vector);
}

/// A text with no line end in it has none in its bytes either: the bytes
/// 13 and 10 only ever stand for the characters `\r` and `\n`.
pub proof fn lemma_no_line_end_bytes(s: Seq<char>)
    requires
        !has_line_end(s),
    ensures
        forall|j: int| !crlf_at(encode_utf8(s), j),
    decreases s.len(),
{
    if s.len() > 0 {
        let r = s.drop_first();
        let e0 = encode_scalar(s[0] as u32);
        let er = encode_utf8(r);
        let es = encode_utf8(s);
        assert(es == e0 + er);
        lemma_scalar_bytes(s[0]);
        assert(!has_line_end(r)) by {
            if has_line_end(r) {
                let i = choose|i: int| 0 <= i && i + 1 < r.len() && #[trigger] r[i] == '\r' && r[i + 1] == '\n';
                assert(s[i + 1] == '\r' && s[i + 2] == '\n');
            }
        }
        lemma_no_line_end_bytes(r);
        assert forall|j: int| !crlf_at(es, j) by {
            if crlf_at(es, j) {
                if j + 1 < e0.len() {
                    assert(es[j] == e0[j]);
                } else if j + 1 == e0.len() {
                    assert(es[j] == e0[j]);
                    assert(es[j + 1] == er[0]);
                    assert(r.len() > 0) by {
                        if r.len() == 0 {
                            assert(er.len() == 0);
                        }
                    }
                    lemma_scalar_bytes(r[0]);
                    assert(er == encode_scalar(r[0] as u32) + encode_utf8(r.drop_first()));
                    assert(er[0] == encode_scalar(r[0] as u32)[0]);
                    assert((s[0] as u32) < 128);
                    assert(((s[0] as u32) as u8) == 13u8);
                    assert((s[0] as u32) == 13);
                    char_u32_cast(s[0], 13u32);
                    char_u32_cast('\r', 13u32);
                    assert(s[0] == '\r');
                    assert((r[0] as u32) < 128);
                    assert((r[0] as u32) == 10);
                    assert(s[1] == r[0]);
                    char_u32_cast(r[0], 10u32);
                    char_u32_cast('\n', 10u32);
                    assert(s[1] == '\n');
                    assert(has_line_end(s));
                } else {
                    assert(es[j] == er[j - e0.len()]);
                    assert(es[j + 1] == er[j + 1 - e0.len()]);
                    assert(crlf_at(er, j - e0.len()));
                }
            }
        }
    }
}

/// `find_crlf` stops at the first line end.
pub proof fn lemma_find_crlf_first(b: Seq<u8>, from: int, e: int)
    requires
        0 <= from <= e,
        crlf_at(b, e),
        forall|j: int| from <= j < e ==> !crlf_at(b, j),
    ensures
        find_crlf(b, from) == Some(e),
    decreases e - from,
{
    if from < e {
        lemma_find_crlf_first(b, from + 1, e);
    }
}

/// The bytes of an ASCII text are its characters.
pub proof fn lemma_ascii_bytes(t: Seq<char>)
    requires
        is_ascii_chars(t),
    ensures
        encode_utf8(t) =~= Seq::new(t.len(), |i: int| t[i] as u8),
{
    is_ascii_chars_encode_utf8(t);
}

/// A line `t` whose bytes stand at `p1` in `b`, followed by a line end:
/// the parser finds that line end and reads `t` back.
pub proof fn lemma_line_at(b: Seq<u8>, p1: int, t: Seq<char>)
    requires
        0 <= p1,
        !has_line_end(t),
        p1 + encode_utf8(t).len() + 2 <= b.len(),
        b.subrange(p1, p1 + encode_utf8(t).len()) == encode_utf8(t),
        b[p1 + encode_utf8(t).len()] == 13u8,
        b[p1 + encode_utf8(t).len() + 1] == 10u8,
    ensures
        find_crlf(b, p1) == Some(p1 + encode_utf8(t).len()),
        text_of(b, p1, p1 + encode_utf8(t).len()) == Ok::<Seq<char>, Seq<char>>(t),
{
    let et = encode_utf8(t);
    let e = p1 + et.len();
    lemma_no_line_end_bytes(t);
    assert forall|j: int| p1 <= j < e implies !crlf_at(b, j) by {
        assert(b[j] == et[j - p1]);
        if j + 1 < e {
            assert(b[j + 1] == et[j + 1 - p1]);
            assert(!crlf_at(et, j - p1));
        }
    }
    lemma_find_crlf_first(b, p1, e);
    encode_utf8_valid_utf8(t);
    encode_utf8_decode_utf8(t);
}

/// Whether a value reads back from its wire text as itself: it holds no
/// error reply (an error is written with an `ERR ` prefix, which reads back
/// as part of its text), no simple string with a line end in it, and no
/// length or count beyond `isize::MAX`.
pub open spec fn reads_back(v: RespView) -> bool
    decreases v,
{
    match v {
        RespView::SimpleString(s) => !has_line_end(s),
        RespView::Error(_) => false,
        RespView::Integer(_) => true,
        RespView::BulkString(Some(s)) => utf8_len(s) <= isize::MAX,
        RespView::BulkString(None) => true,
        RespView::Array(items) => items.len() <= isize::MAX && all_read_back(items),
        RespView::Null => true,
    }
}

/// Whether each of `items` reads back from its wire text.
pub open spec fn all_read_back(items: Seq<RespView>) -> bool
    decreases items,
{
    if items.len() == 0 {
        true
    } else {
        all_read_back(items.subrange(0, items.len() - 1)) && reads_back(items[items.len() - 1])
    }
}

/// The bytes on the wire for a value.
pub open spec fn wire_bytes(v: RespView) -> Seq<u8> {
    encode_utf8(resp_text(v))
}

proof fn lemma_all_read_back_index(items: Seq<RespView>, i: int)
    requires
        all_read_back(items),
        0 <= i < items.len(),
    ensures
        reads_back(items[i]),
    decreases items.len(),
{
    if i < items.len() - 1 {
        lemma_all_read_back_index(items.subrange(0, items.len() - 1), i);
    }
}

/// The wire texts of `items` are those of its first `j` items followed by
/// those of the rest.
proof fn lemma_texts_split(items: Seq<RespView>, j: int)
    requires
        0 <= j <= items.len(),
    ensures
        resp_texts(items) == resp_texts(items.subrange(0, j)) + resp_texts(items.subrange(j, items.len() as int)),
    decreases items.len(),
{
    let n = items.len() as int;
    if j == n {
        assert(items.subrange(0, j) =~= items);
        assert(resp_texts(items.subrange(j, n)) =~= Seq::<char>::empty());
        assert(resp_texts(items) + Seq::<char>::empty() =~= resp_texts(items));
    } else {
        let init = items.subrange(0, n - 1);
        lemma_texts_split(init, j);
        assert(init.subrange(0, j) =~= items.subrange(0, j));
        let tail = items.subrange(j, n);
        assert(tail.subrange(0, tail.len() - 1) =~= init.subrange(j, n - 1));
        assert(tail[tail.len() - 1] == items[n - 1]);
        assert(resp_texts(items) =~= resp_texts(items.subrange(0, j)) + resp_texts(tail));
    }
}

/// The wire text of a value starts with its type character.
proof fn lemma_wire_nonempty(v: RespView)
    ensures
        wire_bytes(v).len() >= 1,
{
    lemma_encode_len(resp_text(v));
}

/// The bytes of a line `c t \r\n` followed by `tail`, found at `p` in `b`.
proof fn lemma_head_at(b: Seq<u8>, p: int, c: char, t: Seq<char>, tail: Seq<char>)
    requires
        (c as u32) < 128,
        0 <= p,
        p + encode_utf8(seq![c] + t + crlf() + tail).len() <= b.len(),
        b.subrange(p, p + encode_utf8(seq![c] + t + crlf() + tail).len()) == encode_utf8(
            seq![c] + t + crlf() + tail,
        ),
    ensures
        ({
            let l = encode_utf8(t).len() as int;
            let n = encode_utf8(seq![c] + t + crlf() + tail).len() as int;
            &&& b[p] == (c as u32) as u8
            &&& n == 3 + l + encode_utf8(tail).len()
            &&& b.subrange(p + 1, p + 1 + l) == encode_utf8(t)
            &&& b[p + 1 + l] == 13u8
            &&& b[p + 2 + l] == 10u8
            &&& b.subrange(p + 3 + l, p + n) == encode_utf8(tail)
        }),
{
    let hc = seq![c];
    lemma_encode_concat(hc + t + crlf(), tail);
    lemma_encode_concat(hc + t, crlf());
    lemma_encode_concat(hc, t);
    lemma_scalar_bytes(c);
    assert(hc.drop_first() =~= Seq::<char>::empty());
    assert(hc[0] == c);
    assert(encode_utf8(Seq::<char>::empty()) =~= Seq::<u8>::empty());
    assert(encode_utf8(hc) == encode_scalar(c as u32) + encode_utf8(hc.drop_first()));
    assert(encode_utf8(hc) =~= seq![(c as u32) as u8]);
    assert(is_ascii_chars(crlf()));
    lemma_ascii_bytes(crlf());
    assert(encode_utf8(crlf()) =~= seq![13u8, 10u8]);
    let et = encode_utf8(t);
    let l = et.len() as int;
    let whole = encode_utf8(hc + t + crlf() + tail);
    assert(whole =~= seq![(c as u32) as u8] + et + seq![13u8, 10u8] + encode_utf8(tail));
    let n = whole.len() as int;
    assert(b[p] == whole[0]);
    assert(b.subrange(p + 1, p + 1 + l) =~= et) by {
        assert forall|k: int| 0 <= k < l implies b.subrange(p + 1, p + 1 + l)[k] == et[k] by {
            assert(b[p + 1 + k] == whole[1 + k]);
        }
    }
    assert(b[p + 1 + l] == whole[1 + l]);
    assert(b[p + 2 + l] == whole[2 + l]);
    assert(b.subrange(p + 3 + l, p + n) =~= encode_utf8(tail)) by {
        assert forall|k: int| 0 <= k < n - 3 - l implies b.subrange(p + 3 + l, p + n)[k]
            == encode_utf8(tail)[k] by {
            assert(b[p + 3 + l + k] == whole[3 + l + k]);
        }
    }
}

/// Digits and minus signs hold no line end.
proof fn lemma_number_no_line_end(t: Seq<char>)
    requires
        forall|i: int| 0 <= i < t.len() ==> is_digit(#[trigger] t[i]) || t[i] == '-',
    ensures
        !has_line_end(t),
{
    if has_line_end(t) {
        let i = choose|i: int| 0 <= i && i + 1 < t.len() && #[trigger] t[i] == '\r' && t[i + 1] == '\n';
        assert(is_digit(t[i]) || t[i] == '-');
    }
}

proof fn lemma_int_text_no_line_end(k: int)
    ensures
        !has_line_end(int_text(k)),
{
    let t = int_text(k);
    if k < 0 {
        let m = (-k) as nat;
        lemma_nat_text_digits(m);
        assert forall|i: int| 0 <= i < t.len() implies is_digit(#[trigger] t[i]) || t[i] == '-' by {
            if i > 0 {
                assert(t[i] == nat_text(m)[i - 1]);
            }
        }
    } else {
        lemma_nat_text_digits(k as nat);
    }
    lemma_number_no_line_end(t);
}

/// `-1` reads as the number -1.
proof fn lemma_parse_minus_one()
    ensures
        parse_isize(seq!['-', '1']) == Ok::<int, IntErrorKind>(-1),
{
    let t = seq!['-', '1'];
    let lo = isize::MIN as int;
    let hi = isize::MAX as int;
    assert(is_digit(t[1]));
    assert(digit_value(t[1]) == 1);
    assert(scan_digits(t, 2, -1, true, lo, hi) == Ok::<int, IntErrorKind>(-1));
    assert(scan_digits(t, 1, 0, true, lo, hi) == Ok::<int, IntErrorKind>(-1));
}

/// The parser reads a value back from its wire bytes at `p` in `b`, and
/// stops just after them, whatever else `b` holds.
pub proof fn lemma_parse_wire(b: Seq<u8>, p: int, v: RespView)
    requires
        reads_back(v),
        0 <= p,
        p + wire_bytes(v).len() <= b.len(),
        b.subrange(p, p + wire_bytes(v).len()) == wire_bytes(v),
    ensures
        parse_value_at(b, p) == (ParseOutcome::Complete(v), p + wire_bytes(v).len()),
    decreases v, 1int, 0int,
{
    let e = Seq::<char>::empty();
    assert(encode_utf8(e) =~= Seq::<u8>::empty());
    match v {
        RespView::SimpleString(s) => {
            assert(resp_text(v) =~= seq!['+'] + s + crlf() + e);
            lemma_head_at(b, p, '+', s, e);
            lemma_line_at(b, p + 1, s);
        },
        RespView::Error(_) => {},
        RespView::Integer(k) => {
            let t = int_text(k as int);
            assert(resp_text(v) =~= seq![':'] + t + crlf() + e);
            lemma_head_at(b, p, ':', t, e);
            lemma_int_text_no_line_end(k as int);
            lemma_line_at(b, p + 1, t);
            lemma_parse_int_text(k);
        },
        RespView::BulkString(Some(s)) => {
            let l = utf8_len(s);
            let t = nat_text(l);
            let tail = s + crlf();
            assert(resp_text(v) =~= seq!['$'] + t + crlf() + tail);
            lemma_head_at(b, p, '$', t, tail);
            lemma_nat_text_digits(l);
            lemma_number_no_line_end(t);
            lemma_line_at(b, p + 1, t);
            lemma_parse_nat_text(l, isize::MAX as int, true, isize::MIN as int);
            lemma_encode_concat(s, crlf());
            lemma_ascii_bytes(crlf());
            let ds = p + 3 + encode_utf8(t).len();
            let es = encode_utf8(s);
            assert(b.subrange(ds, ds + l) =~= es) by {
                assert forall|i: int| 0 <= i < l implies b.subrange(ds, ds + l)[i] == es[i] by {
                    assert(b.subrange(ds, p + wire_bytes(v).len())[i] == encode_utf8(tail)[i]);
                }
            }
            lemma_encode_len(s);
            if l == 0 {
                assert(s =~= e);
            } else {
                encode_utf8_valid_utf8(s);
                encode_utf8_decode_utf8(s);
            }
        },
        RespView::BulkString(None) => {
            let t = seq!['-', '1'];
            assert(resp_text(v) =~= seq!['$'] + t + crlf() + e);
            lemma_head_at(b, p, '$', t, e);
            lemma_number_no_line_end(t);
            lemma_line_at(b, p + 1, t);
            lemma_parse_minus_one();
        },
        RespView::Array(items) => {
            let k = items.len();
            let t = nat_text(k);
            let tail = resp_texts(items);
            assert(resp_text(v) =~= seq!['*'] + t + crlf() + tail);
            lemma_head_at(b, p, '*', t, tail);
            lemma_nat_text_digits(k);
            lemma_number_no_line_end(t);
            lemma_line_at(b, p + 1, t);
            lemma_parse_nat_text(k, isize::MAX as int, true, isize::MIN as int);
            let q0 = p + 3 + encode_utf8(t).len();
            assert(items.subrange(0, 0) =~= Seq::<RespView>::empty());
            lemma_parse_items(b, q0, v, items, 0);
        },
        RespView::Null => {
            let t = seq!['-', '1'];
            assert(resp_text(v) =~= seq!['*'] + t + crlf() + e);
            lemma_head_at(b, p, '*', t, e);
            lemma_number_no_line_end(t);
            lemma_line_at(b, p + 1, t);
            lemma_parse_minus_one();
        },
    }
}

/// The parser reads the items of an array back from their wire bytes at
/// `q0`, the first `i` of them already read.
proof fn lemma_parse_items(b: Seq<u8>, q0: int, whole: RespView, items: Seq<RespView>, i: int)
    requires
        whole == RespView::Array(items),
        all_read_back(items),
        0 <= i <= items.len(),
        0 <= q0,
        q0 + encode_utf8(resp_texts(items)).len() <= b.len(),
        b.subrange(q0, q0 + encode_utf8(resp_texts(items)).len()) == encode_utf8(resp_texts(items)),
    ensures
        parse_items_at(
            b,
            q0 + encode_utf8(resp_texts(items.subrange(0, i))).len(),
            items.len() - i,
            items.subrange(0, i),
        ) == (ParseOutcome::Complete(whole), q0 + encode_utf8(resp_texts(items)).len()),
    decreases whole, 0int, items.len() - i,
{
    let n = items.len() as int;
    let all = encode_utf8(resp_texts(items));
    let pre = items.subrange(0, i);
    let q = q0 + encode_utf8(resp_texts(pre)).len();
    if i == n {
        assert(pre =~= items);
    } else {
        let x = items[i];
        let next = items.subrange(0, i + 1);
        assert(next.subrange(0, i) =~= pre);
        assert(next[i] == x);
        assert(resp_texts(next) == resp_texts(pre) + resp_text(x));
        lemma_texts_split(items, i + 1);
        assert(items.subrange(0, i + 1) == next);
        lemma_encode_concat(resp_texts(next), resp_texts(items.subrange(i + 1, n)));
        lemma_encode_concat(resp_texts(pre), resp_text(x));
        let lp = encode_utf8(resp_texts(pre)).len() as int;
        let wx = wire_bytes(x);
        let lx = wx.len() as int;
        assert(all =~= encode_utf8(resp_texts(pre)) + wx + encode_utf8(resp_texts(items.subrange(i + 1, n))));
        assert(b.subrange(q, q + lx) =~= wx) by {
            assert forall|j: int| 0 <= j < lx implies b.subrange(q, q + lx)[j] == wx[j] by {
                assert(b.subrange(q0, q0 + all.len())[lp + j] == all[lp + j]);
            }
        }
        lemma_all_read_back_index(items, i);
        assert(whole->Array_0 == items);
        assert(decreases_to!(whole => whole->Array_0));
        assert(decreases_to!(items => items[i]));
        lemma_parse_wire(b, q, x);
        lemma_wire_nonempty(x);
        assert(pre.push(x) =~= next);
        lemma_parse_items(b, q0, whole, items, i + 1);
    }
}

/// Reading back what `to_resp` writes.  When the parser's buffer holds,
/// from its position on, the bytes of `v.to_resp()` followed by anything
/// at all, parsing gives `v` again and leaves the position just after
/// those bytes.  This holds of every value that `reads_back` admits.
pub proof fn law_parse_reads_back_to_resp(v: RespValue, before: Seq<u8>, after: Seq<u8>)
    requires
        reads_back(v@),
    ensures
        parse_value_at(before + wire_bytes(v@) + after, before.len() as int) == (
            ParseOutcome::Complete(v@),
            (before.len() + wire_bytes(v@).len()) as int,
        ),
{
    let w = wire_bytes(v@);
    let b = before + w + after;
    let p = before.len() as int;
    assert(b.subrange(p, p + w.len()) =~= w);
    lemma_parse_wire(b, p, v@);
}

/// A request that arrives whole is run as it was sent: when the parser's
/// bytes from its position on are those of `v.to_resp()` followed by
/// `after`, parsing gives `v`, and the bytes left after it (those that
/// `next_action` keeps) are exactly `after`.
pub proof fn law_request_runs_as_sent(parser: RespParser, v: RespValue, after: Seq<u8>)
    requires
        reads_back(v@),
        parser.position <= parser.buffer@.len(),
        parser.buffer@.subrange(parser.position as int, parser.buffer@.len() as int) == wire_bytes(v@)
            + after,
    ensures
        parser.spec_parse().0 == ParseOutcome::Complete(v@),
        parser.buffer@.subrange(parser.spec_parse().1, parser.buffer@.len() as int) == after,
{
    let b = parser.buffer@;
    let p = parser.position as int;
    let before = b.subrange(0, p);
    let w = wire_bytes(v@);
    assert(b =~= before + w + after) by {
        assert(b =~= before + b.subrange(p, b.len() as int));
    }
    law_parse_reads_back_to_resp(v, before, after);
    assert(b.subrange(p + w.len(), b.len() as int) =~= after);
}

/// The bytes of a line `c t \r\n` followed by `tail`.
proof fn lemma_wire_layout(c: char, t: Seq<char>, tail: Seq<char>)
    requires
        (c as u32) < 128,
    ensures
        encode_utf8(seq![c] + t + crlf() + tail) == seq![(c as u32) as u8] + encode_utf8(t) + seq![
            13u8,
            10u8,
        ] + encode_utf8(tail),
{
    let hc = seq![c];
    lemma_encode_concat(hc + t + crlf(), tail);
    lemma_encode_concat(hc + t, crlf());
    lemma_encode_concat(hc, t);
    lemma_scalar_bytes(c);
    assert(hc.drop_first() =~= Seq::<char>::empty());
    assert(hc[0] == c);
    assert(encode_utf8(Seq::<char>::empty()) =~= Seq::<u8>::empty());
    assert(encode_utf8(hc) == encode_scalar(c as u32) + encode_utf8(hc.drop_first()));
    assert(encode_utf8(hc) =~= seq![(c as u32) as u8]);
    assert(is_ascii_chars(crlf()));
    lemma_ascii_bytes(crlf());
    assert(encode_utf8(crlf()) =~= seq![13u8, 10u8]);
    assert(encode_utf8(hc + t + crlf() + tail) =~= seq![(c as u32) as u8] + encode_utf8(t) + seq![
        13u8,
        10u8,
    ] + encode_utf8(tail));
}

/// The bytes from `p1` on are the start of a line `t` without its line
/// feed: no line end is found.
proof fn lemma_partial_line(b: Seq<u8>, p1: int, t: Seq<char>)
    requires
        !has_line_end(t),
        0 <= p1 <= b.len(),
        b.len() <= p1 + encode_utf8(t).len() + 1,
        forall|i: int| p1 <= i < b.len() ==> b[i] == (encode_utf8(t) + seq![13u8, 10u8])[i - p1],
    ensures
        find_crlf(b, p1) is None,
    decreases b.len() - p1,
{
    let et = encode_utf8(t);
    lemma_no_line_end_bytes(t);
    if !(p1 + 1 >= b.len()) {
        assert(!crlf_at(b, p1)) by {
            assert(b[p1] == (et + seq![13u8, 10u8])[0]);
            assert(b[p1 + 1] == (et + seq![13u8, 10u8])[1]);
            if p1 + 1 < p1 + et.len() {
                assert(b[p1] == et[0] && b[p1 + 1] == et[1]);
                assert(!crlf_at(et, 0));
            }
        }
        lemma_partial_line_from(b, p1, p1 + 1, t);
    }
}

proof fn lemma_partial_line_from(b: Seq<u8>, p1: int, from: int, t: Seq<char>)
    requires
        !has_line_end(t),
        0 <= p1 <= from,
        from <= b.len(),
        b.len() <= p1 + encode_utf8(t).len() + 1,
        forall|i: int| p1 <= i < b.len() ==> b[i] == (encode_utf8(t) + seq![13u8, 10u8])[i - p1],
    ensures
        find_crlf(b, from) is None,
    decreases b.len() - from,
{
    let et = encode_utf8(t);
    let w = et + seq![13u8, 10u8];
    lemma_no_line_end_bytes(t);
    if !(from + 1 >= b.len()) {
        assert(!crlf_at(b, from)) by {
            assert(b[from] == w[from - p1]);
            assert(b[from + 1] == w[from + 1 - p1]);
            if from + 1 - p1 < et.len() {
                assert(w[from - p1] == et[from - p1] && w[from + 1 - p1] == et[from + 1 - p1]);
                assert(!crlf_at(et, from - p1));
            } else {
                assert(w[from + 1 - p1] == 13u8);
            }
        }
        lemma_partial_line_from(b, p1, from + 1, t);
    }
}

/// The parser, given only the start of a value's wire bytes at `p`,
/// reports that more bytes are needed and leaves the position at `p`.
pub proof fn lemma_parse_partial(b: Seq<u8>, p: int, v: RespView)
    requires
        reads_back(v),
        0 <= p <= b.len(),
        b.len() - p < wire_bytes(v).len(),
        forall|i: int| p <= i < b.len() ==> b[i] == wire_bytes(v)[i - p],
    ensures
        parse_value_at(b, p) == (ParseOutcome::Partial, p),
    decreases v, 1int, 0int,
{
    if p < b.len() {
        let e = Seq::<char>::empty();
        assert(encode_utf8(e) =~= Seq::<u8>::empty());
        let w = wire_bytes(v);
        let (c, t, tail): (char, Seq<char>, Seq<char>) = match v {
            RespView::SimpleString(s) => ('+', s, e),
            RespView::Integer(k) => (':', int_text(k as int), e),
            RespView::BulkString(Some(s)) => ('$', nat_text(utf8_len(s)), s + crlf()),
            RespView::BulkString(None) => ('$', seq!['-', '1'], e),
            RespView::Array(items) => ('*', nat_text(items.len()), resp_texts(items)),
            RespView::Null => ('*', seq!['-', '1'], e),
            RespView::Error(_) => ('-', e, e),
        };
        if !(v is Error) {
            assert(resp_text(v) =~= seq![c] + t + crlf() + tail);
            lemma_wire_layout(c, t, tail);
            let et = encode_utf8(t);
            let lt = et.len() as int;
            let p1 = p + 1;
            assert(b[p] == w[0]);
            assert(!has_line_end(t)) by {
                match v {
                    RespView::SimpleString(_) => {},
                    RespView::Integer(k) => {
                        lemma_int_text_no_line_end(k as int);
                    },
                    RespView::BulkString(Some(s)) => {
                        lemma_nat_text_digits(utf8_len(s));
                        lemma_number_no_line_end(t);
                    },
                    RespView::Array(items) => {
                        lemma_nat_text_digits(items.len());
                        lemma_number_no_line_end(t);
                    },
                    _ => {
                        lemma_number_no_line_end(t);
                    },
                }
            }
            if b.len() <= p1 + lt + 1 {
                assert forall|i: int| p1 <= i < b.len() implies b[i] == (et + seq![13u8, 10u8])[i - p1] by {
                    assert(b[i] == w[i - p]);
                }
                lemma_partial_line(b, p1, t);
            } else {
                assert(encode_utf8(tail).len() > 0);
                assert(b.subrange(p1, p1 + lt) =~= et) by {
                    assert forall|i: int| 0 <= i < lt implies b.subrange(p1, p1 + lt)[i] == et[i] by {
                        assert(b[p1 + i] == w[1 + i]);
                    }
                }
                assert(b[p1 + lt] == w[1 + lt]);
                assert(b[p1 + lt + 1] == w[2 + lt]);
                lemma_line_at(b, p1, t);
                let q0 = p + 3 + lt;
                match v {
                    RespView::BulkString(Some(s)) => {
                        let l = utf8_len(s);
                        lemma_parse_nat_text(l, isize::MAX as int, true, isize::MIN as int);
                        lemma_encode_concat(s, crlf());
                        lemma_ascii_bytes(crlf());
                    },
                    RespView::Array(items) => {
                        lemma_parse_nat_text(items.len(), isize::MAX as int, true, isize::MIN as int);
                        assert(items.subrange(0, 0) =~= Seq::<RespView>::empty());
                        assert(resp_texts(Seq::<RespView>::empty()) =~= Seq::<char>::empty());
                        assert forall|i: int| q0 <= i < b.len() implies b[i] == encode_utf8(resp_texts(items))[i - q0] by {
                            assert(b[i] == w[i - p]);
                        }
                        lemma_partial_items(b, q0, v, items, 0);
                    },
                    _ => {},
                }
            }
        }
    }
}

/// The items of an array whose wire bytes from `q0` on are only partly
/// there: the first `i` of them read, the parser reports that more bytes
/// are needed.
proof fn lemma_partial_items(b: Seq<u8>, q0: int, whole: RespView, items: Seq<RespView>, i: int)
    requires
        whole == RespView::Array(items),
        all_read_back(items),
        0 <= i <= items.len(),
        0 <= q0,
        b.len() - q0 < encode_utf8(resp_texts(items)).len(),
        forall|j: int| q0 <= j < b.len() ==> b[j] == encode_utf8(resp_texts(items))[j - q0],
        q0 + encode_utf8(resp_texts(items.subrange(0, i))).len() <= b.len(),
    ensures
        parse_items_at(
            b,
            q0 + encode_utf8(resp_texts(items.subrange(0, i))).len(),
            items.len() - i,
            items.subrange(0, i),
        ).0 is Partial,
    decreases whole, 0int, items.len() - i,
{
    let n = items.len() as int;
    let all = encode_utf8(resp_texts(items));
    let pre = items.subrange(0, i);
    let q = q0 + encode_utf8(resp_texts(pre)).len();
    if i == n {
        assert(pre =~= items);
    } else {
        let x = items[i];
        let next = items.subrange(0, i + 1);
        assert(next.subrange(0, i) =~= pre);
        assert(next[i] == x);
        assert(resp_texts(next) == resp_texts(pre) + resp_text(x));
        lemma_texts_split(items, i + 1);
        assert(items.subrange(0, i + 1) == next);
        lemma_encode_concat(resp_texts(next), resp_texts(items.subrange(i + 1, n)));
        lemma_encode_concat(resp_texts(pre), resp_text(x));
        let lp = encode_utf8(resp_texts(pre)).len() as int;
        let wx = wire_bytes(x);
        let lx = wx.len() as int;
        assert(all =~= encode_utf8(resp_texts(pre)) + wx + encode_utf8(resp_texts(items.subrange(i + 1, n))));
        lemma_all_read_back_index(items, i);
        assert(whole->Array_0 == items);
        assert(decreases_to!(whole => whole->Array_0));
        assert(decreases_to!(items => items[i]));
        lemma_wire_nonempty(x);
        if q + lx <= b.len() {
            assert(b.subrange(q, q + lx) =~= wx) by {
                assert forall|j: int| 0 <= j < lx implies b.subrange(q, q + lx)[j] == wx[j] by {
                    assert(b[q + j] == all[lp + j]);
                }
            }
            lemma_parse_wire(b, q, x);
            assert(pre.push(x) =~= next);
            lemma_partial_items(b, q0, whole, items, i + 1);
        } else {
            assert forall|j: int| q <= j < b.len() implies b[j] == wx[j - q] by {
                assert(b[j] == all[j - q0]);
                assert(all[j - q0] == wx[j - q]);
            }
            lemma_parse_partial(b, q, x);
        }
    }
}

/// A request that has arrived only in part is not answered: when the
/// parser's bytes from its position on are a proper start of the bytes of
/// `v.to_resp()`, parsing reports that more bytes are needed and leaves
/// the position where it was, so that the request is read whole once the
/// rest has come.  This holds of every value that `reads_back` admits.
pub proof fn law_partial_request_waits(v: RespValue, before: Seq<u8>, cut: int)
    requires
        reads_back(v@),
        0 <= cut < wire_bytes(v@).len(),
    ensures
        parse_value_at(before + wire_bytes(v@).subrange(0, cut), before.len() as int) == (
            ParseOutcome::Partial,
            before.len() as int,
        ),
{
    let w = wire_bytes(v@);
    let b = before + w.subrange(0, cut);
    let p = before.len() as int;
    assert forall|i: int| p <= i < b.len() implies b[i] == w[i - p] by {}
    lemma_parse_partial(b, p, v@);
}

/// `find_crlf` on the bytes from `d` on finds the same line end, counted
/// from `d`.
proof fn lemma_find_crlf_shift(b: Seq<u8>, d: int, from: int)
    requires
        0 <= d <= from,
        d <= b.len(),
    ensures
        find_crlf(b.subrange(d, b.len() as int), from - d) == match find_crlf(b, from) {
            Some(e) => Some(e - d),
            None => None::<int>,
        },
    decreases b.len() - from,
{
    let b2 = b.subrange(d, b.len() as int);
    if !(from + 1 >= b.len()) {
        assert(b2[from - d] == b[from]);
        assert(b2[from - d + 1] == b[from + 1]);
        if !crlf_at(b, from) {
            lemma_find_crlf_shift(b, d, from + 1);
        }
    }
}

/// Parsing at `q` in the bytes from `d` on gives what parsing at `q` in
/// all of `b` gives, positions counted from `d`, unless the parser would
/// panic there.
proof fn lemma_parse_shift(b: Seq<u8>, d: int, q: int)
    requires
        0 <= d <= q,
        d <= b.len(),
        !(parse_value_at(b, q).0 is Crash),
    ensures
        parse_value_at(b.subrange(d, b.len() as int), q - d) == (
            parse_value_at(b, q).0,
            parse_value_at(b, q).1 - d,
        ),
    decreases b.len() - q, 0int, 0int,
{
    let b2 = b.subrange(d, b.len() as int);
    if q < b.len() {
        assert(b2[q - d] == b[q]);
        let p1 = q + 1;
        lemma_find_crlf_shift(b, d, p1);
        lemma_find_crlf_bounds(b, p1);
        match find_crlf(b, p1) {
            None => {},
            Some(e) => {
                assert(b2.subrange(p1 - d, e - d) =~= b.subrange(p1, e));
                let ds = e + 2;
                match text_of(b, p1, e) {
                    Err(_) => {},
                    Ok(s) => {
                        let t = b[q];
                        if t == 36u8 {
                            match parse_isize(s) {
                                Err(_) => {},
                                Ok(len) => {
                                    if len >= 0 && ds + len <= b.len() {
                                        assert(b2.subrange(ds - d, ds - d + len) =~= b.subrange(ds, ds + len));
                                    }
                                },
                            }
                        }
                        if t == 42u8 {
                            match parse_isize(s) {
                                Err(_) => {},
                                Ok(count) => {
                                    if count >= 0 {
                                        lemma_parse_items_shift(b, d, ds, count, Seq::empty());
                                    }
                                },
                            }
                        }
                    },
                }
            },
        }
    }
}

/// `parse_items_at` on the bytes from `d` on, as `lemma_parse_shift` says.
proof fn lemma_parse_items_shift(b: Seq<u8>, d: int, q: int, k: int, acc: Seq<RespView>)
    requires
        0 <= d <= q,
        d <= b.len(),
        !(parse_items_at(b, q, k, acc).0 is Crash),
    ensures
        parse_items_at(b.subrange(d, b.len() as int), q - d, k, acc) == (
            parse_items_at(b, q, k, acc).0,
            parse_items_at(b, q, k, acc).1 - d,
        ),
    decreases b.len() - q, 1int, k,
{
    if !(k <= 0 || q > b.len()) {
        lemma_parse_shift(b, d, q);
        let (r, p2) = parse_value_at(b, q);
        if let ParseOutcome::Complete(v) = r {
            if q < p2 <= b.len() {
                lemma_parse_items_shift(b, d, p2, k - 1, acc.push(v));
            }
        }
    }
}

/// Dropping the bytes already parsed, as `reset` does, does not change what
/// parsing gives next: the same outcome, with the position moved back by
/// the number of bytes dropped.  This holds wherever the parser would not
/// panic on the bytes.
pub proof fn law_reset_keeps_next_parse(before: RespParser, after: RespParser)
    requires
        before.position <= before.buffer@.len(),
        after.buffer@ == before.buffer@.subrange(before.position as int, before.buffer@.len() as int),
        after.position == 0,
        !(before.spec_parse().0 is Crash),
    ensures
        after.spec_parse().0 == before.spec_parse().0,
        after.spec_parse().1 == before.spec_parse().1 - before.position,
{
    let b = before.buffer@;
    let d = before.position as int;
    lemma_parse_shift(b, d, d);
}

} // verus!
