//! Text helpers shared by the protocol and the commands: character
//! sequences, decimal formatting and parsing, and the order on keys.

use vstd::prelude::*;
use vstd::string::*;

verus! {

// ---------------------------------------------------------------------------
// Building strings
// ---------------------------------------------------------------------------

/// Appends one character to a `String` (std's `String::push`): the new
/// contents are the old ones followed by `c`.
#[verifier::external_body]
pub fn push_char(s: &mut String, c: char)
    ensures
        final(s)@ == old(s)@.push(c),
{
    s.push(c);
}

/// A fresh `String` holding the characters of `s`.
pub fn owned(s: &str) -> (r: String)
    ensures
        r@ == s@,
{
    s.to_owned()
}

/// Appends the characters of `t` to `s`.
pub fn push_str(s: &mut String, t: &str)
    ensures
        final(s)@ == old(s)@ + t@,
{
    s.append(t);
}

/// Whether two string slices hold the same characters.
pub fn str_eq(a: &str, b: &str) -> (r: bool)
    ensures
        r == (a@ == b@),
{
    let x = a.to_owned();
    let y = b.to_owned();
    x == y
}

/// The characters of `s`, one by one.
pub fn chars_of(s: &str) -> (r: Vec<char>)
    ensures
        r@ == s@,
{
    let n = s.unicode_len();
    let mut v: Vec<char> = Vec::new();
    let mut i: usize = 0;
    while i < n
        invariant
            n == s@.len(),
            i <= n,
            v@ == s@.subrange(0, i as int),
        decreases n - i,
    {
        let c = s.get_char(i);
        v.push(c);
        i = i + 1;
        assert(v@ =~= s@.subrange(0, i as int));
    }
    assert(v@ =~= s@);
    v
}

/// Whether `p` is a prefix of `s`.
pub open spec fn has_prefix(s: Seq<char>, p: Seq<char>) -> bool {
    p.len() <= s.len() && s.subrange(0, p.len() as int) == p
}

/// Whether `x` is a suffix of `s`.
pub open spec fn has_suffix(s: Seq<char>, x: Seq<char>) -> bool {
    x.len() <= s.len() && s.subrange(s.len() - x.len(), s.len() as int) == x
}

/// Whether the characters in `v` start with those in `p`.
pub fn starts_with(v: &Vec<char>, p: &Vec<char>) -> (r: bool)
    ensures
        r == has_prefix(v@, p@),
{
    if p.len() > v.len() {
        return false;
    }
    let mut i: usize = 0;
    while i < p.len()
        invariant
            p.len() <= v.len(),
            i <= p.len(),
            forall|j: int| 0 <= j < i ==> v@[j] == p@[j],
        decreases p.len() - i,
    {
        if v[i] != p[i] {
            assert(v@.subrange(0, p.len() as int)[i as int] != p@[i as int]);
            return false;
        }
        i = i + 1;
    }
    assert(v@.subrange(0, p.len() as int) =~= p@);
    true
}

/// Whether the characters in `v` end with those in `x`.
pub fn ends_with(v: &Vec<char>, x: &Vec<char>) -> (r: bool)
    ensures
        r == has_suffix(v@, x@),
{
    if x.len() > v.len() {
        return false;
    }
    let off = v.len() - x.len();
    let mut i: usize = 0;
    while i < x.len()
        invariant
            x.len() <= v.len(),
            off == v.len() - x.len(),
            i <= x.len(),
            forall|j: int| 0 <= j < i ==> v@[off + j] == x@[j],
        decreases x.len() - i,
    {
        if v[off + i] != x[i] {
            assert(v@.subrange(off as int, v.len() as int)[i as int] != x@[i as int]);
            return false;
        }
        i = i + 1;
    }
    assert(v@.subrange(off as int, v.len() as int) =~= x@);
    true
}

/// A `String` holding the characters `v[from..to]`.
pub fn string_of_range(v: &Vec<char>, from: usize, to: usize) -> (r: String)
    requires
        from <= to <= v.len(),
    ensures
        r@ == v@.subrange(from as int, to as int),
{
    let mut s = String::new();
    let mut i = from;
    while i < to
        invariant
            from <= i <= to <= v.len(),
            s@ == v@.subrange(from as int, i as int),
        decreases to - i,
    {
        push_char(&mut s, v[i]);
        i = i + 1;
        assert(s@ =~= v@.subrange(from as int, i as int));
    }
    s
}

// ---------------------------------------------------------------------------
// Decimal numbers
// ---------------------------------------------------------------------------

/// The decimal digit character for `d < 10`.
pub open spec fn digit_char(d: nat) -> char {
    if d == 0 {
        '0'
    } else if d == 1 {
        '1'
    } else if d == 2 {
        '2'
    } else if d == 3 {
        '3'
    } else if d == 4 {
        '4'
    } else if d == 5 {
        '5'
    } else if d == 6 {
        '6'
    } else if d == 7 {
        '7'
    } else if d == 8 {
        '8'
    } else {
        '9'
    }
}

/// Whether `c` is one of the ASCII digits `0` to `9`.
pub open spec fn is_digit(c: char) -> bool {
    '0' <= c && c <= '9'
}

/// The value of an ASCII digit.
pub open spec fn digit_value(c: char) -> nat {
    (c as u32 - '0' as u32) as nat
}

/// The shortest decimal text of `n`: no sign, no leading zeros.
pub open spec fn nat_text(n: nat) -> Seq<char>
    decreases n,
{
    if n < 10 {
        seq![digit_char(n)]
    } else {
        nat_text(n / 10).push(digit_char(n % 10))
    }
}

/// The decimal text of `i`, with a leading `-` when it is negative.
pub open spec fn int_text(i: int) -> Seq<char> {
    if i < 0 {
        seq!['-'] + nat_text((-i) as nat)
    } else {
        nat_text(i as nat)
    }
}

fn digit_of(d: u64) -> (c: char)
    requires
        d < 10,
    ensures
        c == digit_char(d as nat),
{
    if d == 0 {
        '0'
    } else if d == 1 {
        '1'
    } else if d == 2 {
        '2'
    } else if d == 3 {
        '3'
    } else if d == 4 {
        '4'
    } else if d == 5 {
        '5'
    } else if d == 6 {
        '6'
    } else if d == 7 {
        '7'
    } else if d == 8 {
        '8'
    } else {
        '9'
    }
}

/// Appends the decimal text of `n` to `s`.
pub fn push_nat(s: &mut String, n: u64)
    ensures
        final(s)@ == old(s)@ + nat_text(n as nat),
    decreases n,
{
    if n >= 10 {
        push_nat(s, n / 10);
    }
    push_char(s, digit_of(n % 10));
    assert(old(s)@ + nat_text(n as nat) =~= final(s)@) by {
        if n >= 10 {
            assert(nat_text(n as nat) == nat_text((n / 10) as nat).push(digit_char((n % 10) as nat)));
        }
    }
}

/// Appends the decimal text of a signed `n` to `s`.
pub fn push_int(s: &mut String, n: i64)
    ensures
        final(s)@ == old(s)@ + int_text(n as int),
{
    if n < 0 {
        push_char(s, '-');
        let m: i128 = 0i128 - (n as i128);
        push_nat(s, m as u64);
        assert(final(s)@ =~= old(s)@ + int_text(n as int));
    } else {
        push_nat(s, n as u64);
    }
}

/// The decimal text of an unsigned number (std's `to_string` on `usize`).
pub fn usize_to_string(n: usize) -> (r: String)
    ensures
        r@ == nat_text(n as nat),
{
    let mut s = String::new();
    push_nat(&mut s, n as u64);
    assert(s@ =~= nat_text(n as nat));
    s
}

/// The decimal text of a signed number (std's `to_string` on `i64`).
pub fn i64_to_string(n: i64) -> (r: String)
    ensures
        r@ == int_text(n as int),
{
    let mut s = String::new();
    push_int(&mut s, n);
    assert(s@ =~= int_text(n as int));
    s
}

/// Why text is not a number of an integer type (std's `IntErrorKind`).
#[derive(Debug, Clone, Copy, PartialEq, Eq)]
pub enum IntErrorKind {
    Empty,
    InvalidDigit,
    PosOverflow,
    NegOverflow,
}

/// Reads the digits `s[i..]` into `acc`, as std's integer parsing does:
/// the first character that is no digit, or the first digit that leaves
/// `lo..=hi`, decides the error.
pub open spec fn scan_digits(s: Seq<char>, i: int, acc: int, neg: bool, lo: int, hi: int) -> Result<
    int,
    IntErrorKind,
>
    decreases s.len() - i,
{
    if i >= s.len() || i < 0 {
        Ok(acc)
    } else if !is_digit(s[i]) {
        Err(IntErrorKind::InvalidDigit)
    } else {
        let next = if neg {
            acc * 10 - digit_value(s[i])
        } else {
            acc * 10 + digit_value(s[i])
        };
        if next < lo {
            Err(IntErrorKind::NegOverflow)
        } else if next > hi {
            Err(IntErrorKind::PosOverflow)
        } else {
            scan_digits(s, i + 1, next, neg, lo, hi)
        }
    }
}

/// The number that `s` denotes in an integer type with range `lo..=hi`
/// (`signed` when the type has negative values), as std's `str::parse`
/// reads it: an optional `+` (or `-` for signed types), then decimal digits.
pub open spec fn parse_int(s: Seq<char>, lo: int, hi: int, signed: bool) -> Result<
    int,
    IntErrorKind,
> {
    if s.len() == 0 {
        Err(IntErrorKind::Empty)
    } else if s[0] == '+' || (signed && s[0] == '-') {
        if s.len() == 1 {
            Err(IntErrorKind::InvalidDigit)
        } else {
            scan_digits(s, 1, 0, s[0] == '-', lo, hi)
        }
    } else {
        scan_digits(s, 0, 0, false, lo, hi)
    }
}

/// `parse::<i64>()`.
pub open spec fn parse_i64(s: Seq<char>) -> Result<int, IntErrorKind> {
    parse_int(s, i64::MIN as int, i64::MAX as int, true)
}

/// `parse::<isize>()`.
pub open spec fn parse_isize(s: Seq<char>) -> Result<int, IntErrorKind> {
    parse_int(s, isize::MIN as int, isize::MAX as int, true)
}

/// `parse::<usize>()`.
pub open spec fn parse_usize(s: Seq<char>) -> Result<int, IntErrorKind> {
    parse_int(s, 0, usize::MAX as int, false)
}

proof fn lemma_scan_in_range(s: Seq<char>, i: int, acc: int, neg: bool, lo: int, hi: int)
    requires
        lo <= acc <= hi,
    ensures
        scan_digits(s, i, acc, neg, lo, hi) matches Ok(v) ==> lo <= v <= hi,
    decreases s.len() - i,
{
    if i >= s.len() || i < 0 {
    } else if !is_digit(s[i]) {
    } else {
        let next = if neg {
            acc * 10 - digit_value(s[i])
        } else {
            acc * 10 + digit_value(s[i])
        };
        if lo <= next <= hi {
            lemma_scan_in_range(s, i + 1, next, neg, lo, hi);
        }
    }
}

/// A number read by `parse_int` lies in the range it was read for.
pub proof fn lemma_parse_int_range(s: Seq<char>, lo: int, hi: int, signed: bool)
    requires
        lo <= 0 <= hi,
    ensures
        parse_int(s, lo, hi, signed) matches Ok(v) ==> lo <= v <= hi,
{
    if s.len() > 0 {
        if s[0] == '+' || (signed && s[0] == '-') {
            if s.len() > 1 {
                lemma_scan_in_range(s, 1, 0, s[0] == '-', lo, hi);
            }
        } else {
            lemma_scan_in_range(s, 0, 0, false, lo, hi);
        }
    }
}

fn char_digit(c: char) -> (r: Option<i128>)
    ensures
        r is Some <==> is_digit(c),
        r matches Some(d) ==> d == digit_value(c) && 0 <= d <= 9,
{
    if '0' <= c && c <= '9' {
        Some(((c as u32) - ('0' as u32)) as i128)
    } else {
        None
    }
}

/// Reads `s` as a number of the integer type with range `lo..=hi`, exactly
/// as `parse_int` says.
pub fn parse_int_chars(s: &Vec<char>, lo: i128, hi: i128, signed: bool) -> (r: Result<
    i128,
    IntErrorKind,
>)
    requires
        lo <= 0 <= hi,
        -0x1_0000_0000_0000_0000 <= lo,
        hi <= 0x1_0000_0000_0000_0000,
    ensures
        match (r, parse_int(s@, lo as int, hi as int, signed)) {
            (Ok(a), Ok(b)) => a == b,
            (Err(a), Err(b)) => a == b,
            _ => false,
        },
        r matches Ok(v) ==> lo <= v <= hi,
{
    if s.len() == 0 {
        return Err(IntErrorKind::Empty);
    }
    let mut i: usize = 0;
    let mut neg = false;
    if s[0] == '+' || (signed && s[0] == '-') {
        if s.len() == 1 {
            return Err(IntErrorKind::InvalidDigit);
        }
        neg = s[0] == '-';
        i = 1;
    }
    let ghost start = i as int;
    let mut acc: i128 = 0;
    proof {
        lemma_scan_in_range(s@, start, 0, neg, lo as int, hi as int);
    }
    while i < s.len()
        invariant
            lo <= acc <= hi,
            i <= s.len(),
            -0x1_0000_0000_0000_0000 <= lo <= 0 <= hi <= 0x1_0000_0000_0000_0000,
            parse_int(s@, lo as int, hi as int, signed) == scan_digits(
                s@,
                i as int,
                acc as int,
                neg,
                lo as int,
                hi as int,
            ),
        decreases s.len() - i,
    {
        let d = match char_digit(s[i]) {
            Some(d) => d,
            None => {
                return Err(IntErrorKind::InvalidDigit);
            },
        };
        let next = if neg {
            acc * 10 - d
        } else {
            acc * 10 + d
        };
        if next < lo {
            return Err(IntErrorKind::NegOverflow);
        }
        if next > hi {
            return Err(IntErrorKind::PosOverflow);
        }
        acc = next;
        i = i + 1;
    }
    Ok(acc)
}

pub proof fn lemma_nat_text_digits(n: nat)
    ensures
        nat_text(n).len() >= 1,
        forall|i: int| 0 <= i < nat_text(n).len() ==> is_digit(#[trigger] nat_text(n)[i]),
    decreases n,
{
    if n >= 10 {
        lemma_nat_text_digits(n / 10);
    }
}

proof fn lemma_digit_char_value(d: nat)
    requires
        d < 10,
    ensures
        is_digit(digit_char(d)),
        digit_value(digit_char(d)) == d,
{
}

proof fn lemma_scan_push(s: Seq<char>, i: int, acc: int, neg: bool, lo: int, hi: int, c: char)
    requires
        0 <= i <= s.len(),
        scan_digits(s, i, acc, neg, lo, hi) is Ok,
        is_digit(c),
        lo <= (if neg {
            scan_digits(s, i, acc, neg, lo, hi)->Ok_0 * 10 - digit_value(c)
        } else {
            scan_digits(s, i, acc, neg, lo, hi)->Ok_0 * 10 + digit_value(c)
        }) <= hi,
    ensures
        scan_digits(s.push(c), i, acc, neg, lo, hi) == Ok::<int, IntErrorKind>(
            if neg {
                scan_digits(s, i, acc, neg, lo, hi)->Ok_0 * 10 - digit_value(c)
            } else {
                scan_digits(s, i, acc, neg, lo, hi)->Ok_0 * 10 + digit_value(c)
            },
        ),
    decreases s.len() - i,
{
    let t = s.push(c);
    if i == s.len() {
        let next = if neg {
            acc * 10 - digit_value(c)
        } else {
            acc * 10 + digit_value(c)
        };
        assert(t[i] == c);
        assert(scan_digits(t, i + 1, next, neg, lo, hi) == Ok::<int, IntErrorKind>(next));
    } else {
        assert(t[i] == s[i]);
        let next = if neg {
            acc * 10 - digit_value(s[i])
        } else {
            acc * 10 + digit_value(s[i])
        };
        lemma_scan_push(s, i + 1, next, neg, lo, hi, c);
    }
}

/// Decimal digits after any prefix `pre` read back, from where the prefix
/// ends, as their value (negated when `neg`), when that is in range.
proof fn lemma_scan_nat_text(pre: Seq<char>, n: nat, neg: bool, lo: int, hi: int)
    requires
        lo <= 0 <= hi,
        lo <= (if neg {
            -n
        } else {
            n as int
        }) <= hi,
    ensures
        scan_digits(pre + nat_text(n), pre.len() as int, 0, neg, lo, hi) == Ok::<int, IntErrorKind>(
            if neg {
                -n
            } else {
                n as int
            },
        ),
    decreases n,
{
    let d = (n % 10) as nat;
    lemma_digit_char_value(d);
    if n < 10 {
        assert(pre + nat_text(n) =~= pre.push(digit_char(d)));
        assert(scan_digits(pre, pre.len() as int, 0, neg, lo, hi) == Ok::<int, IntErrorKind>(0));
        lemma_scan_push(pre, pre.len() as int, 0, neg, lo, hi, digit_char(d));
    } else {
        let q = n / 10;
        lemma_scan_nat_text(pre, q, neg, lo, hi);
        assert(pre + nat_text(n) =~= (pre + nat_text(q)).push(digit_char(d)));
        lemma_scan_push(pre + nat_text(q), pre.len() as int, 0, neg, lo, hi, digit_char(d));
    }
}

/// Decimal text reads back as the number it was written from: unsigned
/// into any range that holds it.
pub proof fn lemma_parse_nat_text(n: nat, hi: int, signed: bool, lo: int)
    requires
        lo <= 0,
        n <= hi,
    ensures
        parse_int(nat_text(n), lo, hi, signed) == Ok::<int, IntErrorKind>(n as int),
{
    lemma_nat_text_digits(n);
    assert(Seq::<char>::empty() + nat_text(n) =~= nat_text(n));
    lemma_scan_nat_text(Seq::empty(), n, false, lo, hi);
    assert(is_digit(nat_text(n)[0]));
}

/// The decimal text of an `i64` reads back as that number.
pub proof fn lemma_parse_int_text(n: i64)
    ensures
        parse_i64(int_text(n as int)) == Ok::<int, IntErrorKind>(n as int),
{
    if n < 0 {
        let k = (-(n as int)) as nat;
        lemma_nat_text_digits(k);
        lemma_scan_nat_text(seq!['-'], k, true, i64::MIN as int, i64::MAX as int);
        let s = int_text(n as int);
        assert(s == seq!['-'] + nat_text(k));
        assert(s[0] == '-');
    } else {
        lemma_parse_nat_text(n as nat, i64::MAX as int, true, i64::MIN as int);
    }
}

/// `s.parse::<i64>()`.
pub fn parse_i64_str(s: &str) -> (r: Result<i64, IntErrorKind>)
    ensures
        match (r, parse_i64(s@)) {
            (Ok(a), Ok(b)) => a == b,
            (Err(a), Err(b)) => a == b,
            _ => false,
        },
{
    let v = chars_of(s);
    match parse_int_chars(&v, i64::MIN as i128, i64::MAX as i128, true) {
        Ok(n) => Ok(n as i64),
        Err(e) => Err(e),
    }
}

/// `s.parse::<isize>()`.
pub fn parse_isize_str(s: &str) -> (r: Result<isize, IntErrorKind>)
    ensures
        match (r, parse_isize(s@)) {
            (Ok(a), Ok(b)) => a == b,
            (Err(a), Err(b)) => a == b,
            _ => false,
        },
{
    let v = chars_of(s);
    match parse_int_chars(&v, isize::MIN as i128, isize::MAX as i128, true) {
        Ok(n) => Ok(n as isize),
        Err(e) => Err(e),
    }
}

/// `s.parse::<usize>()`.
pub fn parse_usize_str(s: &str) -> (r: Result<usize, IntErrorKind>)
    ensures
        match (r, parse_usize(s@)) {
            (Ok(a), Ok(b)) => a == b,
            (Err(a), Err(b)) => a == b,
            _ => false,
        },
{
    let v = chars_of(s);
    match parse_int_chars(&v, 0, usize::MAX as i128, false) {
        Ok(n) => Ok(n as usize),
        Err(e) => Err(e),
    }
}

/// The message that std's `ParseIntError` shows for each kind.
pub open spec fn int_error_text(k: IntErrorKind) -> Seq<char> {
    match k {
        IntErrorKind::Empty => "cannot parse integer from empty string"@,
        IntErrorKind::InvalidDigit => "invalid digit found in string"@,
        IntErrorKind::PosOverflow => "number too large to fit in target type"@,
        IntErrorKind::NegOverflow => "number too small to fit in target type"@,
    }
}

/// The message for an integer parse error.
pub fn int_error_message(k: IntErrorKind) -> (r: String)
    ensures
        r@ == int_error_text(k),
{
    match k {
        IntErrorKind::Empty => owned("cannot parse integer from empty string"),
        IntErrorKind::InvalidDigit => owned("invalid digit found in string"),
        IntErrorKind::PosOverflow => owned("number too large to fit in target type"),
        IntErrorKind::NegOverflow => owned("number too small to fit in target type"),
    }
}

// ---------------------------------------------------------------------------
// Outside text functions
// ---------------------------------------------------------------------------

/// What std's `str::to_uppercase` makes of a text (Unicode case mapping).
pub uninterp spec fn uppercase(s: Seq<char>) -> Seq<char>;

/// std's `str::to_uppercase`: the result is `uppercase` of the argument's
/// characters.  The Unicode case tables are not restated here.
#[verifier::external_body]
pub fn to_uppercase(s: &str) -> (r: String)
    ensures
        r@ == uppercase(s@),
{
    s.to_uppercase()
}

/// The message std's `FromUtf8Error` shows for invalid bytes.
pub uninterp spec fn utf8_error_text(bytes: Seq<u8>) -> Seq<char>;

/// std's `String::from_utf8`: succeeds exactly on valid UTF-8, with the
/// decoded characters; on failure hands back the error's message, which is
/// named `utf8_error_text` of the bytes and not restated.
#[verifier::external_body]
pub fn string_from_utf8(bytes: Vec<u8>) -> (r: Result<String, String>)
    ensures
        r is Ok <==> vstd::utf8::valid_utf8(bytes@),
        r matches Ok(s) ==> s@ == vstd::utf8::decode_utf8(bytes@),
        r matches Err(m) ==> m@ == utf8_error_text(bytes@),
{
    match String::from_utf8(bytes) {
        Ok(s) => Ok(s),
        Err(e) => Err(e.to_string()),
    }
}

// ---------------------------------------------------------------------------
// Order on keys
// ---------------------------------------------------------------------------

/// Lexicographic order on character sequences by code point, which is the
/// order of their UTF-8 bytes.
pub open spec fn seq_lt(a: Seq<char>, b: Seq<char>) -> bool
    decreases a.len(),
{
    if a.len() == 0 {
        b.len() > 0
    } else if b.len() == 0 {
        false
    } else if a[0] < b[0] {
        true
    } else if a[0] == b[0] {
        seq_lt(a.drop_first(), b.drop_first())
    } else {
        false
    }
}

pub proof fn lemma_seq_lt_irrefl(a: Seq<char>)
    ensures
        !seq_lt(a, a),
    decreases a.len(),
{
    if a.len() > 0 {
        lemma_seq_lt_irrefl(a.drop_first());
    }
}

pub proof fn lemma_seq_lt_trans(a: Seq<char>, b: Seq<char>, c: Seq<char>)
    requires
        seq_lt(a, b),
        seq_lt(b, c),
    ensures
        seq_lt(a, c),
    decreases a.len(),
{
    if a.len() > 0 && b.len() > 0 && c.len() > 0 {
        if a[0] == b[0] && b[0] == c[0] {
            lemma_seq_lt_trans(a.drop_first(), b.drop_first(), c.drop_first());
        }
    }
}

pub proof fn lemma_seq_lt_total(a: Seq<char>, b: Seq<char>)
    ensures
        a == b || seq_lt(a, b) || seq_lt(b, a),
    decreases a.len(),
{
    if a.len() > 0 && b.len() > 0 && a[0] == b[0] {
        lemma_seq_lt_total(a.drop_first(), b.drop_first());
        if a.drop_first() == b.drop_first() {
            assert(a =~= seq![a[0]] + a.drop_first());
            assert(b =~= seq![b[0]] + b.drop_first());
        }
    } else if a.len() == 0 && b.len() == 0 {
        assert(a =~= b);
    }
}

pub proof fn lemma_seq_lt_asym(a: Seq<char>, b: Seq<char>)
    requires
        seq_lt(a, b),
    ensures
        !seq_lt(b, a),
{
    if seq_lt(b, a) {
        lemma_seq_lt_trans(a, b, a);
        lemma_seq_lt_irrefl(a);
    }
}

/// `seq_lt` on the characters held in two vectors.
pub fn chars_lt(a: &Vec<char>, b: &Vec<char>) -> (r: bool)
    ensures
        r == seq_lt(a@, b@),
{
    let mut i: usize = 0;
    assert(a@.skip(0) =~= a@);
    assert(b@.skip(0) =~= b@);
    while i < a.len() && i < b.len()
        invariant
            i <= a.len(),
            i <= b.len(),
            seq_lt(a@, b@) == seq_lt(a@.skip(i as int), b@.skip(i as int)),
        decreases a.len() - i,
    {
        if a[i] < b[i] {
            return true;
        }
        if a[i] > b[i] {
            return false;
        }
        proof {
            let x = a@.skip(i as int);
            let y = b@.skip(i as int);
            assert(x.drop_first() =~= a@.skip(i + 1));
            assert(y.drop_first() =~= b@.skip(i + 1));
        }
        i = i + 1;
    }
    i < b.len() && i == a.len()
}

/// Whether two vectors hold the same characters.
pub fn chars_eq(a: &Vec<char>, b: &Vec<char>) -> (r: bool)
    ensures
        r == (a@ == b@),
{
    if a.len() != b.len() {
        return false;
    }
    let mut i: usize = 0;
    while i < a.len()
        invariant
            a.len() == b.len(),
            i <= a.len(),
            forall|j: int| 0 <= j < i ==> a@[j] == b@[j],
        decreases a.len() - i,
    {
        if a[i] != b[i] {
            return false;
        }
        i = i + 1;
    }
    assert(a@ =~= b@);
    true
}

} // verus!
