use vstd::prelude::*;
use vstd::utf8::{decode_utf8, encode_utf8, valid_utf8};

verus! {

/// Deepest nesting of arrays that the decoder accepts.
pub const MAX_DEPTH: usize = 32;

/// A protocol value as it travels on the wire.
#[derive(Debug, PartialEq)]
pub enum RespValue {
    SimpleString(String),
    Error(String),
    Integer(i64),
    BulkString(Option<Vec<u8>>),
    Array(Vec<RespValue>),
}

/// Mathematical model of a protocol value.
pub enum Frame {
    Simple(Seq<char>),
    Error(Seq<char>),
    Integer(int),
    Bulk(Option<Seq<u8>>),
    Array(Seq<Frame>),
}

/// Why a buffer does not start with a complete value.
#[derive(PartialEq, Eq, Structural, Clone, Copy, Debug)]
pub enum ParseError {
    /// More bytes may still complete the value.
    Incomplete,
    /// No continuation of the bytes can form a value.
    Invalid,
}

/// Outcome of decoding the value that starts at some position.
pub enum Parsed {
    /// The value and the position just past its last byte.
    Complete(Frame, int),
    Incomplete,
    Invalid,
}

/// Outcome of decoding several values one after another.
pub enum ParsedItems {
    Complete(Seq<Frame>, int),
    Incomplete,
    Invalid,
}

impl RespValue {
    pub open spec fn model(&self) -> Frame
        decreases self,
    {
        match self {
            RespValue::SimpleString(s) => Frame::Simple(s@),
            RespValue::Error(s) => Frame::Error(s@),
            RespValue::Integer(i) => Frame::Integer(*i as int),
            RespValue::BulkString(None) => Frame::Bulk(None),
            RespValue::BulkString(Some(d)) => Frame::Bulk(Some(d@)),
            RespValue::Array(items) => Frame::Array(
                Seq::new(
                    items.len() as nat,
                    |i: int|
                        if 0 <= i < items.len() {
                            items[i].model()
                        } else {
                            Frame::Bulk(None)
                        },
                ),
            ),
        }
    }
}

impl View for RespValue {
    type V = Frame;

    open spec fn view(&self) -> Frame {
        self.model()
    }
}

pub open spec fn crlf() -> Seq<u8> {
    seq![13u8, 10u8]
}

/// Decimal digits of `n`, most significant first, without leading zeros.
pub open spec fn decimal(n: nat) -> Seq<u8>
    decreases n,
{
    if n < 10 {
        seq![(48 + n) as u8]
    } else {
        decimal(n / 10).push((48 + n % 10) as u8)
    }
}

pub open spec fn signed_decimal(i: int) -> Seq<u8> {
    if i < 0 {
        seq![45u8] + decimal((-i) as nat)
    } else {
        decimal(i as nat)
    }
}

/// The bytes that stand for a value.
pub open spec fn encode(f: Frame) -> Seq<u8>
    decreases f, 0nat,
{
    match f {
        Frame::Simple(s) => seq![43u8] + encode_utf8(s) + crlf(),
        Frame::Error(s) => seq![45u8] + encode_utf8(s) + crlf(),
        Frame::Integer(i) => seq![58u8] + signed_decimal(i) + crlf(),
        Frame::Bulk(None) => seq![36u8, 45u8, 49u8] + crlf(),
        Frame::Bulk(Some(d)) => seq![36u8] + decimal(d.len()) + crlf() + d + crlf(),
        Frame::Array(items) => seq![42u8] + decimal(items.len()) + crlf() + encode_prefix(
            items,
            items.len(),
        ),
    }
}

/// The encodings of the first `n` items, one after another.
pub open spec fn encode_prefix(items: Seq<Frame>, n: nat) -> Seq<u8>
    decreases items, n,
{
    if n == 0 || n > items.len() {
        Seq::empty()
    } else {
        encode_prefix(items, (n - 1) as nat) + encode(items[n - 1])
    }
}

pub open spec fn crlf_at(s: Seq<u8>, i: int) -> bool {
    0 <= i && i + 1 < s.len() && s[i] == 13u8 && s[i + 1] == 10u8
}

/// Position of the first CR LF pair in `s` at or after `from`.
pub open spec fn line_end(s: Seq<u8>, from: int) -> Option<int>
    decreases s.len() - from,
{
    if from < 0 || from + 1 >= s.len() {
        None
    } else if crlf_at(s, from) {
        Some(from)
    } else {
        line_end(s, from + 1)
    }
}

pub open spec fn is_digit(b: u8) -> bool {
    48u8 <= b <= 57u8
}

pub open spec fn all_digits(d: Seq<u8>) -> bool {
    d.len() > 0 && forall|i: int| 0 <= i < d.len() ==> is_digit(#[trigger] d[i])
}

/// The number that a run of decimal digits stands for.
pub open spec fn digits_value(d: Seq<u8>) -> nat
    decreases d.len(),
{
    if d.len() == 0 {
        0
    } else {
        digits_value(d.drop_last()) * 10 + (d.last() - 48) as nat
    }
}

/// The integer written in `t`: an optional sign, then one or more digits.
pub open spec fn integer_text(t: Seq<u8>) -> Option<int> {
    if t.len() > 0 && t[0] == 45u8 {
        if all_digits(t.drop_first()) {
            Some(-digits_value(t.drop_first()))
        } else {
            None
        }
    } else if t.len() > 0 && t[0] == 43u8 {
        if all_digits(t.drop_first()) {
            Some(digits_value(t.drop_first()) as int)
        } else {
            None
        }
    } else if all_digits(t) {
        Some(digits_value(t) as int)
    } else {
        None
    }
}

/// The integer that the digits `d` stand for, negated if `neg`.
pub open spec fn digit_run(d: Seq<u8>, neg: bool) -> Option<int> {
    if all_digits(d) {
        Some(if neg { -digits_value(d) } else { digits_value(d) as int })
    } else {
        None
    }
}

pub open spec fn fits_i64(n: int) -> bool {
    i64::MIN <= n <= i64::MAX
}

/// The 64-bit integer written in `t`, if it is one.
pub open spec fn i64_text(t: Seq<u8>) -> Option<int> {
    match integer_text(t) {
        Some(n) => if fits_i64(n) {
            Some(n)
        } else {
            None
        },
        None => None,
    }
}

/// Longest text a header line (integer, bulk length, array count) may hold:
/// the length of `-9223372036854775808`.
pub const MAX_HEADER_LEN: usize = 20;

pub open spec fn is_header_tag(b: u8) -> bool {
    b == 58u8 || b == 36u8 || b == 42u8
}

/// The byte at `i` of a header's text may stand in a 64-bit integer literal.
pub open spec fn header_byte_ok(u: Seq<u8>, i: int) -> bool {
    is_digit(u[i]) || (i == 0 && (u[i] == 45u8 || u[i] == 43u8))
}

/// The bytes `t` after a header's tag, with no CR LF among them yet, can
/// still be finished into a header line: a trailing CR may start the
/// terminator, and what comes before it is short enough and made of a sign
/// and digits.
pub open spec fn header_may_continue(t: Seq<u8>) -> bool {
    header_text_ok(pending_text(t))
}

/// `t` without a trailing CR, which may be the start of the terminator.
pub open spec fn pending_text(t: Seq<u8>) -> Seq<u8> {
    if t.len() > 0 && t.last() == 13u8 {
        t.drop_last()
    } else {
        t
    }
}

/// `u` is short enough for a header and made of a sign and digits.
pub open spec fn header_text_ok(u: Seq<u8>) -> bool {
    u.len() <= MAX_HEADER_LEN && forall|i: int| 0 <= i < u.len() ==> #[trigger] header_byte_ok(u, i)
}

pub open spec fn is_tag(b: u8) -> bool {
    b == 43u8 || b == 45u8 || b == 58u8 || b == 36u8 || b == 42u8
}

/// Decoding of the value that starts at `start`, with arrays nested at most
/// `depth` deep.
pub open spec fn parse_frame(s: Seq<u8>, start: int, depth: nat) -> Parsed
    decreases depth, 0nat, 0nat,
{
    if start < 0 || start >= s.len() {
        Parsed::Incomplete
    } else if !is_tag(s[start]) {
        Parsed::Invalid
    } else {
        match line_end(s, start + 1) {
            None => if is_header_tag(s[start]) && !header_may_continue(
                s.subrange(start + 1, s.len() as int),
            ) {
                Parsed::Invalid
            } else {
                Parsed::Incomplete
            },
            Some(e) => {
                let tag = s[start];
                let content = s.subrange(start + 1, e);
                let next = e + 2;
                if tag == 43u8 || tag == 45u8 {
                    if valid_utf8(content) {
                        let text = decode_utf8(content);
                        Parsed::Complete(
                            if tag == 43u8 {
                                Frame::Simple(text)
                            } else {
                                Frame::Error(text)
                            },
                            next,
                        )
                    } else {
                        Parsed::Invalid
                    }
                } else if content.len() > MAX_HEADER_LEN {
                    Parsed::Invalid
                } else {
                    match i64_text(content) {
                        None => Parsed::Invalid,
                        Some(n) => if tag == 58u8 {
                            Parsed::Complete(Frame::Integer(n), next)
                        } else if tag == 36u8 {
                            if n == -1 {
                                Parsed::Complete(Frame::Bulk(None), next)
                            } else if n < 0 {
                                Parsed::Invalid
                            } else if next + n + 2 > s.len() {
                                Parsed::Incomplete
                            } else if crlf_at(s, next + n) {
                                Parsed::Complete(
                                    Frame::Bulk(Some(s.subrange(next, next + n))),
                                    next + n + 2,
                                )
                            } else {
                                Parsed::Invalid
                            }
                        } else {
                            if n < 0 || depth == 0 {
                                Parsed::Invalid
                            } else {
                                match parse_items(s, next, n as nat, (depth - 1) as nat) {
                                    ParsedItems::Complete(items, end) => Parsed::Complete(
                                        Frame::Array(items),
                                        end,
                                    ),
                                    ParsedItems::Incomplete => Parsed::Incomplete,
                                    ParsedItems::Invalid => Parsed::Invalid,
                                }
                            }
                        },
                    }
                }
            },
        }
    }
}

/// Decoding of `count` values in a row, the first at `start`.
pub open spec fn parse_items(s: Seq<u8>, start: int, count: nat, depth: nat) -> ParsedItems
    decreases depth, 1nat, count,
{
    if count == 0 {
        ParsedItems::Complete(Seq::empty(), start)
    } else {
        match parse_items(s, start, (count - 1) as nat, depth) {
            ParsedItems::Complete(items, pos) => match parse_frame(s, pos, depth) {
                Parsed::Complete(f, end) => ParsedItems::Complete(items.push(f), end),
                Parsed::Incomplete => ParsedItems::Incomplete,
                Parsed::Invalid => ParsedItems::Invalid,
            },
            ParsedItems::Incomplete => ParsedItems::Incomplete,
            ParsedItems::Invalid => ParsedItems::Invalid,
        }
    }
}

/// What a decoder result says, in terms of `Parsed`.
pub open spec fn outcome(r: Result<(RespValue, usize), ParseError>) -> Parsed {
    match r {
        Ok((v, end)) => Parsed::Complete(v@, end as int),
        Err(ParseError::Incomplete) => Parsed::Incomplete,
        Err(ParseError::Invalid) => Parsed::Invalid,
    }
}

/// Largest value the digit reader keeps exactly: one past the magnitude of `i64::MIN`.
pub const DIGIT_CAP: u128 = 9223372036854775809;

pub open spec fn capped(n: nat) -> nat {
    if n < DIGIT_CAP {
        n
    } else {
        DIGIT_CAP as nat
    }
}

proof fn lemma_capped_step(x: nat, d: nat)
    requires
        d <= 9,
    ensures
        capped(capped(x) * 10 + d) == capped(x * 10 + d),
{
    if x >= DIGIT_CAP {
        assert(x * 10 + d >= DIGIT_CAP) by (nonlinear_arith)
            requires
                x >= DIGIT_CAP,
        ;
    }
}

/// Bytes `from..to` of `input`, copied.
fn copy_range(input: &[u8], from: usize, to: usize) -> (r: Vec<u8>)
    requires
        from <= to <= input@.len(),
    ensures
        r@ == input@.subrange(from as int, to as int),
{
    let mut r: Vec<u8> = Vec::new();
    let mut i: usize = from;
    while i < to
        invariant
            from <= i <= to,
            to <= input@.len(),
            r@ == input@.subrange(from as int, i as int),
        decreases to - i,
    {
        r.push(input[i]);
        proof {
            assert(r@ =~= input@.subrange(from as int, i + 1));
        }
        i = i + 1;
    }
    r
}

/// Appends every byte of `b` to `out`.
fn push_all(out: &mut Vec<u8>, b: &[u8])
    ensures
        final(out)@ == old(out)@ + b@,
{
    let mut i: usize = 0;
    while i < b.len()
        invariant
            i <= b@.len(),
            out@ == old(out)@ + b@.subrange(0, i as int),
        decreases b@.len() - i,
    {
        out.push(b[i]);
        proof {
            assert(out@ =~= old(out)@ + b@.subrange(0, i + 1));
        }
        i = i + 1;
    }
    proof {
        assert(b@.subrange(0, b@.len() as int) =~= b@);
    }
}

fn push_crlf(out: &mut Vec<u8>)
    ensures
        final(out)@ == old(out)@ + crlf(),
{
    out.push(13u8);
    out.push(10u8);
    proof {
        assert(out@ =~= old(out)@ + crlf());
    }
}

/// Appends the decimal digits of `n` to `out`.
fn push_decimal(out: &mut Vec<u8>, n: u64)
    ensures
        final(out)@ == old(out)@ + decimal(n as nat),
    decreases n,
{
    if n >= 10 {
        push_decimal(out, n / 10);
    }
    out.push((48 + n % 10) as u8);
    proof {
        assert(out@ =~= old(out)@ + decimal(n as nat));
    }
}

/// Relies on std::str::from_utf8: it accepts exactly the well-formed UTF-8
/// byte strings, and the text it returns is the one those bytes encode.
#[verifier::external_body]
fn text_from_utf8(b: &[u8]) -> (r: Option<String>)
    ensures
        r is Some <==> valid_utf8(b@),
        r matches Some(s) ==> s@ == decode_utf8(b@),
{
    match std::str::from_utf8(b) {
        Ok(s) => Some(s.to_string()),
        Err(_) => None,
    }
}

/// Position of the first CR LF pair at or after `from`.
fn find_crlf(input: &[u8], from: usize) -> (r: Option<usize>)
    ensures
        match r {
            Some(i) => line_end(input@, from as int) == Some(i as int),
            None => line_end(input@, from as int) is None,
        },
{
    let mut i: usize = from;
    while i < input.len() && input.len() - i > 1
        invariant
            from <= i,
            line_end(input@, from as int) == line_end(input@, i as int),
        decreases input.len() - i,
    {
        if input[i] == 13u8 && input[i + 1] == 10u8 {
            return Some(i);
        }
        i = i + 1;
    }
    None
}

/// Whether the bytes from `from` to the end of `input`, which hold no CR LF,
/// can still be finished into a header line.
fn check_open_header(input: &[u8], from: usize) -> (r: bool)
    requires
        from <= input@.len(),
    ensures
        r == header_may_continue(input@.subrange(from as int, input@.len() as int)),
{
    let ghost t = input@.subrange(from as int, input@.len() as int);
    let mut end: usize = input.len();
    if end > from && input[end - 1] == 13u8 {
        end = end - 1;
    }
    let ghost u = input@.subrange(from as int, end as int);
    proof {
        assert(t.len() > 0 ==> t.last() == input@[input@.len() - 1]);
        if t.len() > 0 && t.last() == 13u8 {
            assert(u =~= t.drop_last());
        } else {
            assert(u =~= t);
        }
    }
    if end - from > MAX_HEADER_LEN {
        proof {
            assert(u.len() > MAX_HEADER_LEN);
        }
        return false;
    }
    let mut i: usize = from;
    while i < end
        invariant
            from <= i <= end <= input@.len(),
            u == input@.subrange(from as int, end as int),
            t == input@.subrange(from as int, input@.len() as int),
            u == pending_text(t),
            u.len() <= MAX_HEADER_LEN,
            forall|k: int| 0 <= k < i - from ==> #[trigger] header_byte_ok(u, k),
        decreases end - i,
    {
        let b = input[i];
        if !((48u8 <= b && b <= 57u8) || (i == from && (b == 45u8 || b == 43u8))) {
            proof {
                assert(!header_byte_ok(u, i - from));
                assert(!header_text_ok(u));
            }
            return false;
        }
        proof {
            assert(header_byte_ok(u, i - from));
        }
        i = i + 1;
    }
    true
}

/// The 64-bit integer written in bytes `start..end`, if they hold one.
fn parse_integer(input: &[u8], start: usize, end: usize) -> (r: Option<i64>)
    requires
        start <= end <= input@.len(),
    ensures
        i64_text(input@.subrange(start as int, end as int)) == (match r {
            Some(n) => Some(n as int),
            None => None::<int>,
        }),
{
    let ghost t = input@.subrange(start as int, end as int);
    let mut neg = false;
    let mut i: usize = start;
    if i < end && (input[i] == 45u8 || input[i] == 43u8) {
        neg = input[i] == 45u8;
        i = i + 1;
    }
    let ghost signed = i > start;
    proof {
        if signed {
            assert(t[0] == input@[start as int]);
            assert(t.drop_first() =~= input@.subrange(i as int, end as int));
        } else {
            assert(start < end ==> t[0] == input@[start as int]);
            assert(t =~= input@.subrange(i as int, end as int));
        }
    }
    if i == end {
        proof {
            assert(!all_digits(input@.subrange(i as int, end as int)));
        }
        return None;
    }
    proof {
        assert(integer_text(t) == digit_run(input@.subrange(i as int, end as int), neg));
    }
    let mut acc: u128 = 0;
    let mut j: usize = i;
    while j < end
        invariant
            start <= i <= j <= end <= input@.len(),
            acc == capped(digits_value(input@.subrange(i as int, j as int))),
            forall|k: int| i <= k < j ==> is_digit(#[trigger] input@[k]),
            t == input@.subrange(start as int, end as int),
            integer_text(t) == digit_run(input@.subrange(i as int, end as int), neg),
        decreases end - j,
    {
        let b = input[j];
        if b < 48u8 || b > 57u8 {
            proof {
                let d = input@.subrange(i as int, end as int);
                assert(!is_digit(d[j - i]));
            }
            return None;
        }
        proof {
            let d = input@.subrange(i as int, j + 1);
            assert(d.drop_last() =~= input@.subrange(i as int, j as int));
            lemma_capped_step(digits_value(d.drop_last()), (b - 48) as nat);
        }
        acc = acc * 10 + (b - 48u8) as u128;
        if acc > DIGIT_CAP {
            acc = DIGIT_CAP;
        }
        j = j + 1;
    }
    proof {
        let d = input@.subrange(i as int, end as int);
        assert(all_digits(d)) by {
            assert forall|k: int| 0 <= k < d.len() implies is_digit(#[trigger] d[k]) by {
                assert(d[k] == input@[i + k]);
            }
        }
    }
    if neg {
        if acc <= 9223372036854775808 {
            Some((-(acc as i128)) as i64)
        } else {
            None
        }
    } else {
        if acc <= 9223372036854775807 {
            Some(acc as i64)
        } else {
            None
        }
    }
}

proof fn lemma_line_end_bounds(s: Seq<u8>, from: int)
    ensures
        line_end(s, from) matches Some(e) ==> from <= e && crlf_at(s, e),
    decreases s.len() - from,
{
    if from >= 0 && from + 1 < s.len() && !crlf_at(s, from) {
        lemma_line_end_bounds(s, from + 1);
    }
}

/// The models of `items`, in order.
pub open spec fn models(items: Seq<RespValue>) -> Seq<Frame> {
    Seq::new(items.len(), |i: int| items[i]@)
}

/// Once decoding a run of values stops short, decoding a longer run stops
/// there too.
proof fn lemma_items_stuck(s: Seq<u8>, start: int, k: nat, m: nat, depth: nat)
    requires
        k <= m,
        !(parse_items(s, start, k, depth) is Complete),
    ensures
        parse_items(s, start, m, depth) == parse_items(s, start, k, depth),
    decreases m,
{
    if m > k {
        lemma_items_stuck(s, start, k, (m - 1) as nat, depth);
    }
}

fn parse_simple_string(input: &[u8], start: usize, end: usize) -> (r: Option<RespValue>)
    requires
        start <= end <= input@.len(),
    ensures
        valid_utf8(input@.subrange(start as int, end as int)) <==> r is Some,
        r matches Some(v) ==> v@ == Frame::Simple(decode_utf8(input@.subrange(start as int, end as int))),
{
    let bytes = copy_range(input, start, end);
    match text_from_utf8(bytes.as_slice()) {
        Some(text) => Some(RespValue::SimpleString(text)),
        None => None,
    }
}

fn parse_error(input: &[u8], start: usize, end: usize) -> (r: Option<RespValue>)
    requires
        start <= end <= input@.len(),
    ensures
        valid_utf8(input@.subrange(start as int, end as int)) <==> r is Some,
        r matches Some(v) ==> v@ == Frame::Error(decode_utf8(input@.subrange(start as int, end as int))),
{
    let bytes = copy_range(input, start, end);
    match text_from_utf8(bytes.as_slice()) {
        Some(text) => Some(RespValue::Error(text)),
        None => None,
    }
}

fn parse_integer_value(input: &[u8], start: usize, end: usize) -> (r: Option<RespValue>)
    requires
        start <= end <= input@.len(),
    ensures
        i64_text(input@.subrange(start as int, end as int)) is Some <==> r is Some,
        r matches Some(v) ==> v@ == Frame::Integer(i64_text(input@.subrange(start as int, end as int))->0),
{
    match parse_integer(input, start, end) {
        Some(n) => Some(RespValue::Integer(n)),
        None => None,
    }
}

/// Decodes the value that starts at `start`, with arrays nested at most
/// `depth` deep; on success also gives the position just past it.
fn parse_at(input: &[u8], start: usize, depth: usize) -> (r: Result<(RespValue, usize), ParseError>)
    requires
        start <= input@.len(),
    ensures
        outcome(r) == parse_frame(input@, start as int, depth as nat),
        r matches Ok((_, end)) ==> start < end <= input@.len(),
    decreases depth,
{
    let ghost s = input@;
    if start >= input.len() {
        return Err(ParseError::Incomplete);
    }
    let tag = input[start];
    if !(tag == 43u8 || tag == 45u8 || tag == 58u8 || tag == 36u8 || tag == 42u8) {
        return Err(ParseError::Invalid);
    }
    let e = match find_crlf(input, start + 1) {
        Some(e) => e,
        None => {
            if (tag == 58u8 || tag == 36u8 || tag == 42u8) && !check_open_header(input, start + 1) {
                return Err(ParseError::Invalid);
            }
            return Err(ParseError::Incomplete);
        },
    };
    proof {
        lemma_line_end_bounds(s, start + 1);
    }
    let next = e + 2;
    if tag == 43u8 {
        return match parse_simple_string(input, start + 1, e) {
            Some(v) => Ok((v, next)),
            None => Err(ParseError::Invalid),
        };
    }
    if tag == 45u8 {
        return match parse_error(input, start + 1, e) {
            Some(v) => Ok((v, next)),
            None => Err(ParseError::Invalid),
        };
    }
    if e - (start + 1) > MAX_HEADER_LEN {
        return Err(ParseError::Invalid);
    }
    if tag == 58u8 {
        return match parse_integer_value(input, start + 1, e) {
            Some(v) => Ok((v, next)),
            None => Err(ParseError::Invalid),
        };
    }
    let n = match parse_integer(input, start + 1, e) {
        Some(n) => n,
        None => {
            return Err(ParseError::Invalid);
        },
    };
    if tag == 36u8 {
        if n == -1 {
            return Ok((RespValue::BulkString(None), next));
        }
        if n < 0 {
            return Err(ParseError::Invalid);
        }
        if n as u64 > (input.len() - next) as u64 || input.len() - next - (n as usize) < 2 {
            return Err(ParseError::Incomplete);
        }
        let stop = next + n as usize;
        if !(input[stop] == 13u8 && input[stop + 1] == 10u8) {
            return Err(ParseError::Invalid);
        }
        let data = copy_range(input, next, stop);
        return Ok((RespValue::BulkString(Some(data)), stop + 2));
    }
    if n < 0 || depth == 0 {
        return Err(ParseError::Invalid);
    }
    let ghost inner = (depth - 1) as nat;
    let mut items: Vec<RespValue> = Vec::new();
    let mut pos: usize = next;
    let mut k: i64 = 0;
    proof {
        assert(models(items@) =~= Seq::<Frame>::empty());
    }
    while k < n
        invariant
            0 <= k <= n,
            depth > 0,
            inner == depth - 1,
            s == input@,
            start < pos <= input@.len(),
            start < s.len(),
            s[start as int] == 42u8,
            line_end(s, start + 1) == Some(e as int),
            next == e + 2,
            i64_text(s.subrange(start + 1, e as int)) == Some(n as int),
            start + 1 <= e,
            e < s.len(),
            e - (start + 1) <= MAX_HEADER_LEN,
            parse_items(s, next as int, k as nat, inner) == ParsedItems::Complete(
                models(items@),
                pos as int,
            ),
        decreases n - k,
    {
        match parse_at(input, pos, depth - 1) {
            Ok((v, end)) => {
                let ghost before = items@;
                items.push(v);
                pos = end;
                proof {
                    assert(models(items@) =~= models(before).push(v@));
                }
            },
            Err(err) => {
                proof {
                    lemma_items_stuck(s, next as int, (k + 1) as nat, n as nat, inner);
                }
                return Err(err);
            },
        }
        k = k + 1;
    }
    proof {
        assert(RespValue::Array(items)@ == Frame::Array(models(items@))) by {
            assert(RespValue::Array(items)@->Array_0 =~= models(items@));
        }
    }
    Ok((RespValue::Array(items), pos))
}

impl RespValue {
    /// The wire bytes of this value.
    pub fn serialize(&self) -> (r: Vec<u8>)
        ensures
            r@ == encode(self@),
    {
        let mut out: Vec<u8> = Vec::new();
        self.serialize_into(&mut out);
        proof {
            assert(out@ =~= encode(self@));
        }
        out
    }

    fn serialize_into(&self, out: &mut Vec<u8>)
        ensures
            final(out)@ == old(out)@ + encode(self@),
        decreases self,
    {
        match self {
            RespValue::SimpleString(s) => {
                out.push(43u8);
                push_all(out, s.as_str().as_bytes());
                push_crlf(out);
                proof {
                    assert(out@ =~= old(out)@ + encode(self@));
                }
            },
            RespValue::Error(s) => {
                out.push(45u8);
                push_all(out, s.as_str().as_bytes());
                push_crlf(out);
                proof {
                    assert(out@ =~= old(out)@ + encode(self@));
                }
            },
            RespValue::Integer(i) => {
                out.push(58u8);
                if *i < 0 {
                    out.push(45u8);
                    push_decimal(out, (-(*i as i128)) as u64);
                } else {
                    push_decimal(out, *i as u64);
                }
                push_crlf(out);
                proof {
                    assert(out@ =~= old(out)@ + encode(self@));
                }
            },
            RespValue::BulkString(None) => {
                out.push(36u8);
                out.push(45u8);
                out.push(49u8);
                push_crlf(out);
                proof {
                    assert(out@ =~= old(out)@ + encode(self@));
                }
            },
            RespValue::BulkString(Some(d)) => {
                out.push(36u8);
                push_decimal(out, d.len() as u64);
                push_crlf(out);
                push_all(out, d.as_slice());
                push_crlf(out);
                proof {
                    assert(out@ =~= old(out)@ + encode(self@));
                }
            },
            RespValue::Array(items) => {
                out.push(42u8);
                push_decimal(out, items.len() as u64);
                push_crlf(out);
                let ghost head = out@;
                let ghost m = self@->Array_0;
                let mut i: usize = 0;
                while i < items.len()
                    invariant
                        i <= items@.len(),
                        *self is Array,
                        self->Array_0 == *items,
                        m == models(items@),
                        out@ == head + encode_prefix(m, i as nat),
                    decreases items@.len() - i,
                {
                    proof {
                        vstd::std_specs::vec::axiom_vec_index_decreases(*items, i as int);
                        assert(decreases_to!(*self => self->Array_0));
                        assert(decreases_to!(*self => items[i as int]));
                    }
                    items[i].serialize_into(out);
                    proof {
                        assert(out@ =~= head + encode_prefix(m, (i + 1) as nat));
                    }
                    i = i + 1;
                }
                proof {
                    assert(out@ =~= old(out)@ + encode(self@));
                }
            },
        }
    }

    /// Decodes the value at the front of `input`, and how many bytes it
    /// takes up. `Incomplete` means that more bytes may finish it; `Invalid`
    /// that none can.
    pub fn parse(input: &[u8]) -> (r: Result<(RespValue, usize), ParseError>)
        ensures
            outcome(r) == parse_frame(input@, 0, MAX_DEPTH as nat),
            r matches Ok((_, n)) ==> 0 < n <= input@.len(),
    {
        parse_at(input, 0, MAX_DEPTH)
    }
}

/// A bulk string whose declared length runs past the bytes at hand is never
/// reported as complete. When the header is a well-formed 64-bit length, the
/// decoder asks for more bytes; a longer one is a malformed length.
pub proof fn lemma_short_bulk_is_incomplete(s: Seq<u8>, start: int, e: int, n: int, depth: nat)
    requires
        0 <= start < s.len(),
        s[start] == 36u8,
        line_end(s, start + 1) == Some(e),
        integer_text(s.subrange(start + 1, e)) == Some(n),
        n >= 0,
        n > s.len() - (e + 2),
    ensures
        !(parse_frame(s, start, depth) is Complete),
        fits_i64(n) && e - (start + 1) <= MAX_HEADER_LEN ==> parse_frame(s, start, depth)
            == Parsed::Incomplete,
{
    lemma_line_end_bounds(s, start + 1);
    assert(s.subrange(start + 1, e).len() == e - (start + 1));
}

} // verus!
