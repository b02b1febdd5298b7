//! RESP (Redis Serialization Protocol) values, their wire text, and an
//! incremental parser over received bytes.

use vstd::prelude::*;
use vstd::utf8::{decode_utf8, encode_utf8, valid_utf8};
use crate::text::{
    int_error_message, int_error_text, int_text, nat_text, owned, parse_i64, parse_i64_str,
    parse_isize, parse_isize_str, push_char, push_int, push_nat, push_str, string_from_utf8,
    utf8_error_text, IntErrorKind,
};

verus! {

/// Represents values in the RESP format.
#[derive(Debug, PartialEq)]
pub enum RespValue {
    /// Simple string: +OK\r\n
    SimpleString(String),
    /// Error: -ERR message\r\n
    Error(String),
    /// Integer: :1000\r\n
    Integer(i64),
    /// Bulk string: $6\r\nfoobar\r\n or null: $-1\r\n
    BulkString(Option<String>),
    /// Array: *2\r\n$3\r\nfoo\r\n$3\r\nbar\r\n
    Array(Vec<RespValue>),
    /// Null (nil), written *-1\r\n
    Null,
}

/// The mathematical value of a `RespValue`: its texts as character sequences.
pub enum RespView {
    SimpleString(Seq<char>),
    Error(Seq<char>),
    Integer(i64),
    BulkString(Option<Seq<char>>),
    Array(Seq<RespView>),
    Null,
}

pub open spec fn resp_view(v: RespValue) -> RespView
    decreases v,
{
    match v {
        RespValue::SimpleString(s) => RespView::SimpleString(s@),
        RespValue::Error(s) => RespView::Error(s@),
        RespValue::Integer(n) => RespView::Integer(n),
        RespValue::BulkString(Some(s)) => RespView::BulkString(Some(s@)),
        RespValue::BulkString(None) => RespView::BulkString(None),
        RespValue::Array(items) => RespView::Array(resp_views(items@)),
        RespValue::Null => RespView::Null,
    }
}

/// The views of a sequence of values.
pub open spec fn resp_views(s: Seq<RespValue>) -> Seq<RespView>
    decreases s,
{
    if s.len() == 0 {
        Seq::empty()
    } else {
        resp_views(s.subrange(0, s.len() - 1)).push(resp_view(s[s.len() - 1]))
    }
}

impl View for RespValue {
    type V = RespView;

    open spec fn view(&self) -> RespView {
        resp_view(*self)
    }
}

pub proof fn lemma_resp_views_len(s: Seq<RespValue>)
    ensures
        resp_views(s).len() == s.len(),
    decreases s.len(),
{
    if s.len() > 0 {
        lemma_resp_views_len(s.subrange(0, s.len() - 1));
    }
}

pub proof fn lemma_resp_views_index(s: Seq<RespValue>, i: int)
    requires
        0 <= i < s.len(),
    ensures
        resp_views(s).len() == s.len(),
        resp_views(s)[i] == resp_view(s[i]),
    decreases s.len(),
{
    lemma_resp_views_len(s);
    if i < s.len() - 1 {
        lemma_resp_views_index(s.subrange(0, s.len() - 1), i);
    }
}

pub proof fn lemma_resp_views_push(s: Seq<RespValue>, v: RespValue)
    ensures
        resp_views(s.push(v)) == resp_views(s).push(resp_view(v)),
{
    assert(s.push(v).subrange(0, s.len() as int) =~= s);
}

/// The number of bytes in the UTF-8 encoding of `s` (std's `str::len`).
pub open spec fn utf8_len(s: Seq<char>) -> nat {
    encode_utf8(s).len()
}

pub open spec fn crlf() -> Seq<char> {
    seq!['\r', '\n']
}

/// The wire text of a value.
pub open spec fn resp_text(v: RespView) -> Seq<char>
    decreases v,
{
    match v {
        RespView::SimpleString(s) => seq!['+'] + s + crlf(),
        RespView::Error(e) => seq!['-', 'E', 'R', 'R', ' '] + e + crlf(),
        RespView::Integer(n) => seq![':'] + int_text(n as int) + crlf(),
        RespView::BulkString(Some(s)) => seq!['$'] + nat_text(utf8_len(s)) + crlf() + s + crlf(),
        RespView::BulkString(None) => seq!['$', '-', '1', '\r', '\n'],
        RespView::Array(items) => seq!['*'] + nat_text(items.len()) + crlf() + resp_texts(items),
        RespView::Null => seq!['*', '-', '1', '\r', '\n'],
    }
}

/// The wire texts of `items`, one after another.
pub open spec fn resp_texts(items: Seq<RespView>) -> Seq<char>
    decreases items,
{
    if items.len() == 0 {
        Seq::empty()
    } else {
        resp_texts(items.subrange(0, items.len() - 1)) + resp_text(items[items.len() - 1])
    }
}

impl RespValue {
    /// A copy of this value.
    pub fn deep_clone(&self) -> (r: RespValue)
        ensures
            r@ == self@,
        decreases self,
    {
        match self {
            RespValue::SimpleString(s) => RespValue::SimpleString(s.clone()),
            RespValue::Error(s) => RespValue::Error(s.clone()),
            RespValue::Integer(n) => RespValue::Integer(*n),
            RespValue::BulkString(Some(s)) => RespValue::BulkString(Some(s.clone())),
            RespValue::BulkString(None) => RespValue::BulkString(None),
            RespValue::Array(items) => {
                let mut out: Vec<RespValue> = Vec::new();
                let mut i: usize = 0;
                assert(out@ =~= items@.subrange(0, 0));
                while i < items.len()
                    invariant
                        *self == RespValue::Array(*items),
                        i <= items.len(),
                        resp_views(out@) == resp_views(items@.subrange(0, i as int)),
                    decreases items.len() - i,
                {
                    proof {
                        assert(self->Array_0 == *items);
                        assert(decreases_to!(*self => self->Array_0));
                        assert(decreases_to!(*items => items@));
                        assert(decreases_to!(items@ => items@[i as int]));
                    }
                    let c = items[i].deep_clone();
                    proof {
                        lemma_resp_views_push(out@, c);
                        let t = items@.subrange(0, i + 1);
                        assert(t.subrange(0, i as int) =~= items@.subrange(0, i as int));
                    }
                    out.push(c);
                    i = i + 1;
                }
                assert(items@.subrange(0, items.len() as int) =~= items@);
                RespValue::Array(out)
            },
            RespValue::Null => RespValue::Null,
        }
    }

    fn write_to(&self, out: &mut String)
        ensures
            final(out)@ == old(out)@ + resp_text(self@),
        decreases self,
    {
        let ghost o = out@;
        match self {
            RespValue::SimpleString(s) => {
                push_char(out, '+');
                push_str(out, s.as_str());
                push_char(out, '\r');
                push_char(out, '\n');
                assert(out@ =~= o + resp_text(self@));
            },
            RespValue::Error(e) => {
                push_char(out, '-');
                push_char(out, 'E');
                push_char(out, 'R');
                push_char(out, 'R');
                push_char(out, ' ');
                push_str(out, e.as_str());
                push_char(out, '\r');
                push_char(out, '\n');
                assert(out@ =~= o + resp_text(self@));
            },
            RespValue::Integer(n) => {
                push_char(out, ':');
                push_int(out, *n);
                push_char(out, '\r');
                push_char(out, '\n');
                assert(out@ =~= o + resp_text(self@));
            },
            RespValue::BulkString(Some(s)) => {
                push_char(out, '$');
                let n = s.as_str().as_bytes().len();
                push_nat(out, n as u64);
                push_char(out, '\r');
                push_char(out, '\n');
                push_str(out, s.as_str());
                push_char(out, '\r');
                push_char(out, '\n');
                assert(out@ =~= o + resp_text(self@));
            },
            RespValue::BulkString(None) => {
                push_char(out, '$');
                push_char(out, '-');
                push_char(out, '1');
                push_char(out, '\r');
                push_char(out, '\n');
                assert(out@ =~= o + resp_text(self@));
            },
            RespValue::Array(items) => {
                push_char(out, '*');
                push_nat(out, items.len() as u64);
                push_char(out, '\r');
                push_char(out, '\n');
                let ghost start = out@;
                let mut i: usize = 0;
                proof {
                    lemma_resp_views_len(items@);
                    assert(resp_views(items@).subrange(0, 0) =~= Seq::<RespView>::empty());
                }
                while i < items.len()
                    invariant
                        *self == RespValue::Array(*items),
                        i <= items.len(),
                        resp_views(items@).len() == items@.len(),
                        out@ == start + resp_texts(resp_views(items@).subrange(0, i as int)),
                    decreases items.len() - i,
                {
                    proof {
                        assert(self->Array_0 == *items);
                        assert(decreases_to!(*self => self->Array_0));
                        assert(decreases_to!(*items => items@));
                        assert(decreases_to!(items@ => items@[i as int]));
                    }
                    items[i].write_to(out);
                    proof {
                        let vs = resp_views(items@);
                        lemma_resp_views_index(items@, i as int);
                        assert(vs.subrange(0, i + 1).subrange(0, i as int) =~= vs.subrange(0, i as int));
                    }
                    i = i + 1;
                }
                proof {
                    assert(resp_views(items@).subrange(0, items.len() as int) =~= resp_views(items@));
                }
                assert(out@ =~= o + resp_text(self@));
            },
            RespValue::Null => {
                push_char(out, '*');
                push_char(out, '-');
                push_char(out, '1');
                push_char(out, '\r');
                push_char(out, '\n');
                assert(out@ =~= o + resp_text(self@));
            },
        }
    }

    /// Converts the RespValue to its RESP wire format string.
    pub fn to_resp(&self) -> (r: String)
        ensures
            r@ == resp_text(self@),
    {
        let mut out = String::new();
        self.write_to(&mut out);
        assert(out@ =~= resp_text(self@));
        out
    }

    /// Creates a SimpleString with value "OK".
    pub fn ok() -> (r: Self)
        ensures
            r@ == RespView::SimpleString("OK"@),
    {
        RespValue::SimpleString(owned("OK"))
    }

    /// Creates a SimpleString from a string.
    pub fn simple_string(s: &str) -> (r: Self)
        ensures
            r@ == RespView::SimpleString(s@),
    {
        RespValue::SimpleString(owned(s))
    }

    /// Creates a BulkString from an Option.
    pub fn bulk_string(s: Option<String>) -> (r: Self)
        ensures
            r@ == RespView::BulkString(
                match s {
                    Some(t) => Some(t@),
                    None => None,
                },
            ),
    {
        match s {
            Some(s) => RespValue::BulkString(Some(s)),
            None => RespValue::BulkString(None),
        }
    }

    /// Creates an Error response.
    pub fn error(s: &str) -> (r: Self)
        ensures
            r@ == RespView::Error(s@),
    {
        RespValue::Error(owned(s))
    }
}

// ---------------------------------------------------------------------------
// Parsing
// ---------------------------------------------------------------------------

/// Error types for protocol parsing.
#[derive(Debug, Clone, PartialEq)]
pub enum ProtocolError {
    /// Invalid protocol, with a description.
    Invalid(String),
    /// Incomplete data: no line end yet.  The parser itself answers this
    /// case with `Ok(None)`, waiting for more bytes.
    Incomplete,
}

/// The mathematical value of a `ProtocolError`.
pub enum ProtocolErrorView {
    Invalid(Seq<char>),
    Incomplete,
}

impl View for ProtocolError {
    type V = ProtocolErrorView;

    open spec fn view(&self) -> ProtocolErrorView {
        match self {
            ProtocolError::Invalid(s) => ProtocolErrorView::Invalid(s@),
            ProtocolError::Incomplete => ProtocolErrorView::Incomplete,
        }
    }
}

/// Result type for protocol operations.
pub type ProtocolResult<T> = Result<T, ProtocolError>;

/// What parsing at a position comes to: a complete value, too few bytes
/// for one yet, a protocol error, or input on which the parser panics.
pub enum ParseOutcome {
    Complete(RespView),
    Partial,
    Failed(ProtocolErrorView),
    Crash,
}

/// Whether `b[i..i+2]` is a line end.
pub open spec fn crlf_at(b: Seq<u8>, i: int) -> bool {
    0 <= i && i + 1 < b.len() && b[i] == 13u8 && b[i + 1] == 10u8
}

/// The first line end at or after `from`.
pub open spec fn find_crlf(b: Seq<u8>, from: int) -> Option<int>
    decreases b.len() - from,
{
    if from < 0 || from + 1 >= b.len() {
        None
    } else if crlf_at(b, from) {
        Some(from)
    } else {
        find_crlf(b, from + 1)
    }
}

pub proof fn lemma_find_crlf_bounds(b: Seq<u8>, from: int)
    ensures
        find_crlf(b, from) matches Some(e) ==> from <= e && e + 2 <= b.len() && crlf_at(b, e),
    decreases b.len() - from,
{
    if !(from < 0 || from + 1 >= b.len()) && !crlf_at(b, from) {
        lemma_find_crlf_bounds(b, from + 1);
    }
}

/// The text of the bytes `b[from..to]`, or the message for invalid UTF-8.
pub open spec fn text_of(b: Seq<u8>, from: int, to: int) -> Result<Seq<char>, Seq<char>> {
    let bytes = b.subrange(from, to);
    if valid_utf8(bytes) {
        Ok(decode_utf8(bytes))
    } else {
        Err(utf8_error_text(bytes))
    }
}

/// The message for a byte that starts no RESP value.
pub open spec fn unknown_type_text(t: u8) -> Seq<char> {
    "Unknown type byte: "@ + nat_text(t as nat) + " ('"@ + seq![t as char] + "')"@
}

/// Parses the value that starts at `p` in `b`: the outcome and the position
/// the parser is left at.  When the value is not all there yet, the
/// position stays at `p`, so that it can be parsed whole once more bytes
/// have come.
pub open spec fn parse_value_at(b: Seq<u8>, p: int) -> (ParseOutcome, int)
    decreases b.len() - p, 1int, 0int,
{
    let r = parse_body_at(b, p);
    if r.0 is Partial {
        (ParseOutcome::Partial, p)
    } else {
        r
    }
}

/// Parses the value that starts at `p` in `b`, leaving the position where
/// the reading stopped.
pub open spec fn parse_body_at(b: Seq<u8>, p: int) -> (ParseOutcome, int)
    decreases b.len() - p, 0int, 0int,
{
    if p < 0 || p >= b.len() {
        (ParseOutcome::Partial, p)
    } else {
        let t = b[p];
        let p1 = p + 1;
        if t == 43u8 || t == 45u8 || t == 58u8 || t == 36u8 || t == 42u8 {
            match find_crlf(b, p1) {
                None => (ParseOutcome::Partial, p1),
                Some(e) => match text_of(b, p1, e) {
                    Err(m) => (ParseOutcome::Failed(ProtocolErrorView::Invalid(m)), p1),
                    Ok(s) => {
                        if t == 43u8 {
                            (ParseOutcome::Complete(RespView::SimpleString(s)), e + 2)
                        } else if t == 45u8 {
                            (ParseOutcome::Complete(RespView::Error(s)), e + 2)
                        } else if t == 58u8 {
                            match parse_i64(s) {
                                Err(k) => (
                                    ParseOutcome::Failed(
                                        ProtocolErrorView::Invalid(
                                            "Invalid integer: "@ + int_error_text(k),
                                        ),
                                    ),
                                    p1,
                                ),
                                Ok(n) => (ParseOutcome::Complete(RespView::Integer(n as i64)), e + 2),
                            }
                        } else if t == 36u8 {
                            match parse_isize(s) {
                                Err(k) => (
                                    ParseOutcome::Failed(
                                        ProtocolErrorView::Invalid(
                                            "Invalid bulk string length: "@ + int_error_text(k),
                                        ),
                                    ),
                                    p1,
                                ),
                                Ok(len) => bulk_body(b, p1, e + 2, len),
                            }
                        } else {
                            match parse_isize(s) {
                                Err(k) => (
                                    ParseOutcome::Failed(
                                        ProtocolErrorView::Invalid(
                                            "Invalid array count: "@ + int_error_text(k),
                                        ),
                                    ),
                                    p1,
                                ),
                                Ok(count) => {
                                    if count == -1 {
                                        (ParseOutcome::Complete(RespView::Null), e + 2)
                                    } else if count < -1 {
                                        (ParseOutcome::Crash, e + 2)
                                    } else {
                                        proof {
                                            lemma_find_crlf_bounds(b, p1);
                                        }
                                        parse_items_at(b, e + 2, count, Seq::empty())
                                    }
                                },
                            }
                        }
                    },
                },
            }
        } else {
            (ParseOutcome::Failed(ProtocolErrorView::Invalid(unknown_type_text(t))), p)
        }
    }
}

/// The data of a bulk string whose length line said `len`, starting at
/// `ds`; `p1` is where the parser stays when the data is not all there.
pub open spec fn bulk_body(b: Seq<u8>, p1: int, ds: int, len: int) -> (ParseOutcome, int) {
    if len == -1 {
        (ParseOutcome::Complete(RespView::BulkString(None)), ds)
    } else if len < -1 {
        // the length wraps round as an unsigned number
        if ds + len + 2 >= 0 {
            (ParseOutcome::Crash, p1)
        } else {
            (ParseOutcome::Partial, p1)
        }
    } else if ds + len + 2 > b.len() {
        (ParseOutcome::Partial, p1)
    } else if len == 0 {
        (ParseOutcome::Complete(RespView::BulkString(Some(Seq::empty()))), ds + 2)
    } else {
        match text_of(b, ds, ds + len) {
            Err(m) => (ParseOutcome::Failed(ProtocolErrorView::Invalid(m)), p1),
            Ok(d) => (ParseOutcome::Complete(RespView::BulkString(Some(d))), ds + len + 2),
        }
    }
}

/// Parses `k` more array items starting at `p`, after the items `acc`.
pub open spec fn parse_items_at(b: Seq<u8>, p: int, k: int, acc: Seq<RespView>) -> (
    ParseOutcome,
    int,
)
    decreases b.len() - p, 2int, k,
{
    if k <= 0 || p > b.len() {
        (ParseOutcome::Complete(RespView::Array(acc)), p)
    } else {
        let (r, p2) = parse_value_at(b, p);
        match r {
            ParseOutcome::Complete(v) => {
                if p < p2 <= b.len() {
                    parse_items_at(b, p2, k - 1, acc.push(v))
                } else {
                    (ParseOutcome::Crash, p2)
                }
            },
            _ => (r, p2),
        }
    }
}

/// The view of an exec parse result.
pub open spec fn result_view(r: ProtocolResult<Option<RespValue>>) -> ParseOutcome {
    match r {
        Ok(Some(v)) => ParseOutcome::Complete(v@),
        Ok(None) => ParseOutcome::Partial,
        Err(e) => ParseOutcome::Failed(e@),
    }
}

enum Parsed {
    Complete(RespValue),
    Partial,
    Failed(ProtocolError),
    Crash,
}

/// `r` and `after` are what parsing from `before` comes to.
spec fn parsed_as(before: RespParser, r: Parsed, after: RespParser) -> bool {
    parsed_by(before, r, after, before.spec_parse())
}

/// `r` and `after` are what reading the value from `before` comes to,
/// before a value that is not all there puts the position back.
spec fn body_parsed_as(before: RespParser, r: Parsed, after: RespParser) -> bool {
    parsed_by(before, r, after, parse_body_at(before.buffer@, before.position as int))
}

spec fn parsed_by(before: RespParser, r: Parsed, after: RespParser, res: (ParseOutcome, int)) -> bool {
    &&& parsed_view(r) == res.0
    &&& after.position == res.1
    &&& after.buffer == before.buffer
    &&& before.position <= before.buffer@.len() ==> after.position <= after.buffer@.len()
    &&& r is Complete ==> before.position < after.position <= after.buffer@.len()
    &&& before.position <= after.position
}

spec fn parsed_view(r: Parsed) -> ParseOutcome {
    match r {
        Parsed::Complete(v) => ParseOutcome::Complete(v@),
        Parsed::Partial => ParseOutcome::Partial,
        Parsed::Failed(e) => ParseOutcome::Failed(e@),
        Parsed::Crash => ParseOutcome::Crash,
    }
}

/// Incremental RESP parser over the bytes received so far.
pub struct RespParser {
    pub buffer: Vec<u8>,
    pub position: usize,
}

impl RespParser {
    /// What `parse` comes to on the current state.
    pub open spec fn spec_parse(&self) -> (ParseOutcome, int) {
        parse_value_at(self.buffer@, self.position as int)
    }

    /// A parser with no bytes.
    pub fn new() -> (r: Self)
        ensures
            r.buffer@ == Seq::<u8>::empty(),
            r.position == 0,
    {
        Self { buffer: Vec::new(), position: 0 }
    }

    /// Appends received bytes.
    pub fn append(&mut self, data: &[u8])
        ensures
            final(self).buffer@ == old(self).buffer@ + data@,
            final(self).position == old(self).position,
    {
        self.buffer.extend_from_slice(data);
    }

    /// Parses the next value at the current position.  `Ok(None)` means
    /// more bytes are needed.  The position moves as the outcome says, also
    /// on errors and when bytes are missing.
    pub fn parse(&mut self) -> (r: ProtocolResult<Option<RespValue>>)
        requires
            !(old(self).spec_parse().0 is Crash),
        ensures
            result_view(r) == old(self).spec_parse().0,
            final(self).position == old(self).spec_parse().1,
            final(self).buffer == old(self).buffer,
            old(self).position <= old(self).buffer@.len() ==> final(self).position
                <= final(self).buffer@.len(),
    {
        match self.parse_value() {
            Parsed::Complete(v) => Ok(Some(v)),
            Parsed::Partial => Ok(None),
            Parsed::Failed(e) => Err(e),
            Parsed::Crash => Ok(None),
        }
    }

    /// Like `parse`, but with `None` where the parser would panic on the
    /// bytes (a negative length other than -1).
    pub fn try_parse(&mut self) -> (r: Option<ProtocolResult<Option<RespValue>>>)
        ensures
            r is None <==> old(self).spec_parse().0 is Crash,
            r matches Some(x) ==> result_view(x) == old(self).spec_parse().0,
            final(self).position == old(self).spec_parse().1,
            final(self).buffer == old(self).buffer,
            old(self).position <= old(self).buffer@.len() ==> final(self).position
                <= final(self).buffer@.len(),
    {
        match self.parse_value() {
            Parsed::Complete(v) => Some(Ok(Some(v))),
            Parsed::Partial => Some(Ok(None)),
            Parsed::Failed(e) => Some(Err(e)),
            Parsed::Crash => None,
        }
    }

    fn find_crlf(&self, from: usize) -> (r: Option<usize>)
        ensures
            match (r, find_crlf(self.buffer@, from as int)) {
                (Some(a), Some(b)) => a == b,
                (None, None) => true,
                _ => false,
            },
            r matches Some(e) ==> from <= e && e + 2 <= self.buffer@.len(),
        decreases self.buffer@.len() - from,
    {
        let n = self.buffer.len();
        if from >= n || from + 1 >= n {
            return None;
        }
        if self.buffer[from] == 13u8 && self.buffer[from + 1] == 10u8 {
            return Some(from);
        }
        self.find_crlf(from + 1)
    }

    fn text_of(&self, from: usize, to: usize) -> (r: Result<String, String>)
        requires
            from <= to <= self.buffer@.len(),
        ensures
            match (r, text_of(self.buffer@, from as int, to as int)) {
                (Ok(a), Ok(b)) => a@ == b,
                (Err(a), Err(b)) => a@ == b,
                _ => false,
            },
    {
        let mut bytes: Vec<u8> = Vec::new();
        let mut i = from;
        while i < to
            invariant
                from <= i <= to <= self.buffer@.len(),
                bytes@ == self.buffer@.subrange(from as int, i as int),
            decreases to - i,
        {
            bytes.push(self.buffer[i]);
            i = i + 1;
            assert(bytes@ =~= self.buffer@.subrange(from as int, i as int));
        }
        string_from_utf8(bytes)
    }

    fn invalid(prefix: &str, k: IntErrorKind) -> (r: ProtocolError)
        ensures
            r@ == ProtocolErrorView::Invalid(prefix@ + int_error_text(k)),
    {
        let mut m = owned(prefix);
        let t = int_error_message(k);
        push_str(&mut m, t.as_str());
        ProtocolError::Invalid(m)
    }

    /// Skips the type byte at the position and reads the line after it:
    /// where its line end is, and its text.  The position is left just
    /// after the type byte.
    fn read_line(&mut self) -> (r: Result<(usize, String), ProtocolError>)
        requires
            old(self).position < old(self).buffer@.len(),
        ensures
            final(self).buffer == old(self).buffer,
            final(self).position == old(self).position + 1,
            match find_crlf(old(self).buffer@, old(self).position + 1) {
                None => r matches Err(x) && x@ == ProtocolErrorView::Incomplete,
                Some(e) => match text_of(old(self).buffer@, old(self).position + 1, e) {
                    Err(m) => r matches Err(x) && x@ == ProtocolErrorView::Invalid(m),
                    Ok(t) => r matches Ok((e2, s)) && e2 == e && s@ == t,
                },
            },
            r matches Ok((e, _)) ==> old(self).position + 1 <= e && e + 2
                <= old(self).buffer@.len(),
    {
        let _n = self.buffer.len();
        let p1 = self.position + 1;
        self.position = p1;
        let e = match self.find_crlf(p1) {
            None => {
                return Err(ProtocolError::Incomplete);
            },
            Some(e) => e,
        };
        match self.text_of(p1, e) {
            Err(m) => Err(ProtocolError::Invalid(m)),
            Ok(s) => Ok((e, s)),
        }
    }

    fn parse_value(&mut self) -> (r: Parsed)
        ensures
            parsed_as(*old(self), r, *final(self)),
        decreases old(self).buffer@.len() - old(self).position, 2int,
    {
        let start = self.position;
        let r = self.parse_body();
        if let Parsed::Partial = r {
            self.position = start;
        }
        r
    }

    fn parse_body(&mut self) -> (r: Parsed)
        ensures
            body_parsed_as(*old(self), r, *final(self)),
        decreases old(self).buffer@.len() - old(self).position, 1int,
    {
        if self.position >= self.buffer.len() {
            return Parsed::Partial;
        }
        let byte = self.buffer[self.position];
        if byte == 43u8 {
            self.parse_simple_string()
        } else if byte == 45u8 {
            self.parse_error()
        } else if byte == 58u8 {
            self.parse_integer()
        } else if byte == 36u8 {
            self.parse_bulk_string()
        } else if byte == 42u8 {
            self.parse_array()
        } else {
            let mut m = owned("Unknown type byte: ");
            push_nat(&mut m, byte as u64);
            push_str(&mut m, " ('");
            push_char(&mut m, byte as char);
            push_str(&mut m, "')");
            assert(m@ =~= unknown_type_text(byte));
            Parsed::Failed(ProtocolError::Invalid(m))
        }
    }

    fn parse_simple_string(&mut self) -> (r: Parsed)
        requires
            old(self).position < old(self).buffer@.len(),
            old(self).buffer@[old(self).position as int] == 43u8,
        ensures
            body_parsed_as(*old(self), r, *final(self)),
    {
        let _n = self.buffer.len();
        match self.read_line() {
            Err(ProtocolError::Incomplete) => Parsed::Partial,
            Err(x) => Parsed::Failed(x),
            Ok((e, s)) => {
                self.position = e + 2;
                Parsed::Complete(RespValue::SimpleString(s))
            },
        }
    }

    fn parse_error(&mut self) -> (r: Parsed)
        requires
            old(self).position < old(self).buffer@.len(),
            old(self).buffer@[old(self).position as int] == 45u8,
        ensures
            body_parsed_as(*old(self), r, *final(self)),
    {
        let _n = self.buffer.len();
        match self.read_line() {
            Err(ProtocolError::Incomplete) => Parsed::Partial,
            Err(x) => Parsed::Failed(x),
            Ok((e, s)) => {
                self.position = e + 2;
                Parsed::Complete(RespValue::Error(s))
            },
        }
    }

    fn parse_integer(&mut self) -> (r: Parsed)
        requires
            old(self).position < old(self).buffer@.len(),
            old(self).buffer@[old(self).position as int] == 58u8,
        ensures
            body_parsed_as(*old(self), r, *final(self)),
    {
        let _n = self.buffer.len();
        match self.read_line() {
            Err(ProtocolError::Incomplete) => Parsed::Partial,
            Err(x) => Parsed::Failed(x),
            Ok((e, s)) => match parse_i64_str(s.as_str()) {
                Err(k) => Parsed::Failed(Self::invalid("Invalid integer: ", k)),
                Ok(n) => {
                    self.position = e + 2;
                    Parsed::Complete(RespValue::Integer(n))
                },
            },
        }
    }

    fn parse_bulk_string(&mut self) -> (r: Parsed)
        requires
            old(self).position < old(self).buffer@.len(),
            old(self).buffer@[old(self).position as int] == 36u8,
        ensures
            body_parsed_as(*old(self), r, *final(self)),
    {
        let _n = self.buffer.len();
        let (len_end, len_str) = match self.read_line() {
            Err(ProtocolError::Incomplete) => {
                return Parsed::Partial;
            },
            Err(x) => {
                return Parsed::Failed(x);
            },
            Ok(v) => v,
        };
        let len = match parse_isize_str(len_str.as_str()) {
            Err(k) => {
                return Parsed::Failed(Self::invalid("Invalid bulk string length: ", k));
            },
            Ok(len) => len,
        };
        // Position now at start of data (after \r\n)
        let data_start = len_end + 2;
        // Null bulk string
        if len == -1 {
            self.position = data_start;
            return Parsed::Complete(RespValue::BulkString(None));
        }
        if len < -1 {
            // the length read as unsigned wraps round
            if (data_start as i128) + (len as i128) + 2 >= 0 {
                return Parsed::Crash;
            } else {
                return Parsed::Partial;
            }
        }
        let len = len as usize;
        // Check if we have enough data: len bytes of data and the line end
        if (data_start as u128) + (len as u128) + 2 > (self.buffer.len() as u128) {
            return Parsed::Partial;
        }
        // Empty bulk string
        if len == 0 {
            self.position = data_start + 2;
            return Parsed::Complete(RespValue::BulkString(Some(String::new())));
        }
        match self.text_of(data_start, data_start + len) {
            Err(m) => Parsed::Failed(ProtocolError::Invalid(m)),
            Ok(data) => {
                // Skip data and trailing \r\n
                self.position = data_start + len + 2;
                Parsed::Complete(RespValue::BulkString(Some(data)))
            },
        }
    }

    fn parse_array(&mut self) -> (r: Parsed)
        requires
            old(self).position < old(self).buffer@.len(),
            old(self).buffer@[old(self).position as int] == 42u8,
        ensures
            body_parsed_as(*old(self), r, *final(self)),
        decreases old(self).buffer@.len() - old(self).position, 0int,
    {
        let _n = self.buffer.len();
        let (end, count_str) = match self.read_line() {
            Err(ProtocolError::Incomplete) => {
                return Parsed::Partial;
            },
            Err(x) => {
                return Parsed::Failed(x);
            },
            Ok(v) => v,
        };
        let count = match parse_isize_str(count_str.as_str()) {
            Err(k) => {
                return Parsed::Failed(Self::invalid("Invalid array count: ", k));
            },
            Ok(c) => c,
        };
        // Skip past count line
        self.position = end + 2;
        if count == -1 {
            return Parsed::Complete(RespValue::Null);
        }
        if count < -1 {
            // the count read as a capacity overflows
            return Parsed::Crash;
        }
        let count = count as usize;
        let ghost b = self.buffer@;
        let ghost ob = self.buffer;
        let ghost p0 = self.position as int;
        let mut items: Vec<RespValue> = Vec::new();
        let mut i: usize = 0;
        assert(resp_views(items@) =~= Seq::<RespView>::empty());
        while i < count
            invariant
                self.buffer == ob,
                ob@ == b,
                b == old(self).buffer@,
                ob == old(self).buffer,
                old(self).position < p0 <= self.position <= b.len(),
                i <= count,
                parse_body_at(b, old(self).position as int) == parse_items_at(
                    b,
                    p0,
                    count as int,
                    Seq::empty(),
                ),
                parse_items_at(b, p0, count as int, Seq::empty()) == parse_items_at(
                    b,
                    self.position as int,
                    count - i,
                    resp_views(items@),
                ),
            decreases count - i,
        {
            match self.parse_value() {
                Parsed::Complete(v) => {
                    proof {
                        lemma_resp_views_push(items@, v);
                    }
                    items.push(v);
                    i = i + 1;
                },
                Parsed::Partial => {
                    return Parsed::Partial;
                },
                Parsed::Failed(e) => {
                    return Parsed::Failed(e);
                },
                Parsed::Crash => {
                    return Parsed::Crash;
                },
            }
        }
        Parsed::Complete(RespValue::Array(items))
    }

    /// Removes the parsed bytes from the buffer.
    pub fn reset(&mut self)
        requires
            old(self).position <= old(self).buffer@.len(),
        ensures
            old(self).position > 0 ==> final(self).buffer@ == old(self).buffer@.subrange(
                old(self).position as int,
                old(self).buffer@.len() as int,
            ) && final(self).position == 0,
            old(self).position == 0 ==> final(self).buffer@ == old(self).buffer@
                && final(self).position == 0,
    {
        if self.position > 0 {
            let mut rest: Vec<u8> = Vec::new();
            let mut i = self.position;
            while i < self.buffer.len()
                invariant
                    self.position <= i <= self.buffer@.len(),
                    rest@ == self.buffer@.subrange(self.position as int, i as int),
                decreases self.buffer.len() - i,
            {
                rest.push(self.buffer[i]);
                i = i + 1;
                assert(rest@ =~= self.buffer@.subrange(self.position as int, i as int));
            }
            self.buffer = rest;
            self.position = 0;
        }
    }
}

impl Clone for RespValue {
    fn clone(&self) -> (r: Self)
        ensures
            r@ == self@,
    {
        self.deep_clone()
    }
}

impl Default for RespParser {
    fn default() -> (r: Self)
        ensures
            r.buffer@ == Seq::<u8>::empty(),
            r.position == 0,
    {
        Self::new()
    }
}



} // verus!
