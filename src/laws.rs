use vstd::prelude::*;
use crate::command::{del_name, get_name, request_of, respond, set_name, upper, verb_is, Request};
use crate::resp::{
    all_digits, crlf, crlf_at, decimal, digits_value, encode, encode_prefix, fits_i64, i64_text,
    line_end, parse_frame, parse_items, signed_decimal, Frame, Parsed, ParsedItems, MAX_DEPTH, MAX_HEADER_LEN,
};
use vstd::utf8::{decode_utf8, encode_utf8, encode_utf8_decode_utf8, encode_utf8_valid_utf8, valid_utf8};

verus! {

/// The command frame whose parts are the bulk strings `args`, in order.
pub open spec fn command_frame(args: Seq<Seq<u8>>) -> Frame {
    Frame::Array(Seq::new(args.len(), |i: int| Frame::Bulk(Some(args[i]))))
}

pub open spec fn set_frame(k: Seq<u8>, v: Seq<u8>) -> Frame {
    command_frame(seq![set_name(), k, v])
}

pub open spec fn get_frame(k: Seq<u8>) -> Frame {
    command_frame(seq![get_name(), k])
}

pub open spec fn del_frame(k: Seq<u8>) -> Frame {
    command_frame(seq![del_name(), k])
}

/// The store after each pair of `ops`, in order, was written with SET.
pub open spec fn set_all(m: Map<Seq<u8>, Seq<u8>>, ops: Seq<(Seq<u8>, Seq<u8>)>) -> Map<
    Seq<u8>,
    Seq<u8>,
>
    decreases ops.len(),
{
    if ops.len() == 0 {
        m
    } else {
        respond(request_of(set_frame(ops.last().0, ops.last().1)), set_all(m, ops.drop_last())).1
    }
}

proof fn lemma_verbs()
    ensures
        verb_is(get_name(), get_name()),
        verb_is(set_name(), set_name()),
        verb_is(del_name(), del_name()),
        !verb_is(set_name(), get_name()),
        !verb_is(del_name(), get_name()),
        !verb_is(del_name(), set_name()),
{
    assert(upper(71u8) == 71u8);
    assert(upper(69u8) == 69u8);
    assert(upper(84u8) == 84u8);
    assert(upper(83u8) == 83u8);
    assert(upper(68u8) == 68u8);
    assert(upper(76u8) == 76u8);
    assert(!verb_is(set_name(), get_name())) by {
        assert(upper(set_name()[0]) != get_name()[0]);
    }
    assert(!verb_is(del_name(), get_name())) by {
        assert(upper(del_name()[0]) != get_name()[0]);
    }
    assert(!verb_is(del_name(), set_name())) by {
        assert(upper(del_name()[0]) != set_name()[0]);
    }
}

/// The frames built by `set_frame`, `get_frame` and `del_frame` carry the
/// commands they are named after.
pub proof fn lemma_frames_carry_commands(k: Seq<u8>, v: Seq<u8>)
    ensures
        request_of(set_frame(k, v)) == Request::Put(k, v),
        request_of(get_frame(k)) == Request::Get(k),
        request_of(del_frame(k)) == Request::Del(k),
{
    lemma_verbs();
}

/// After SET of `v` under `k`, GET of `k` answers `v`, byte for byte.
pub proof fn lemma_set_then_get(m: Map<Seq<u8>, Seq<u8>>, k: Seq<u8>, v: Seq<u8>)
    ensures
        respond(request_of(get_frame(k)), respond(request_of(set_frame(k, v)), m).1).0
            == Frame::Bulk(Some(v)),
{
    lemma_frames_carry_commands(k, v);
}

/// GET of a key that is absent answers the null bulk string, never an error,
/// and changes nothing.
pub proof fn lemma_get_absent(m: Map<Seq<u8>, Seq<u8>>, k: Seq<u8>)
    requires
        !m.contains_key(k),
    ensures
        respond(request_of(get_frame(k)), m) == (Frame::Bulk(None), m),
{
    lemma_frames_carry_commands(k, Seq::empty());
}

/// DEL of a key that is absent succeeds and changes nothing.
pub proof fn lemma_del_absent(m: Map<Seq<u8>, Seq<u8>>, k: Seq<u8>)
    requires
        !m.contains_key(k),
    ensures
        respond(request_of(del_frame(k)), m) == (Frame::Simple("OK"@), m),
{
    lemma_frames_carry_commands(k, Seq::empty());
    assert(m.remove(k) =~= m);
}

/// SET of the same pair twice leaves the store as one SET does, and GET then
/// answers the value.
pub proof fn lemma_set_twice(m: Map<Seq<u8>, Seq<u8>>, k: Seq<u8>, v: Seq<u8>)
    ensures
        respond(request_of(set_frame(k, v)), respond(request_of(set_frame(k, v)), m).1).1
            == respond(request_of(set_frame(k, v)), m).1,
        respond(
            request_of(get_frame(k)),
            respond(request_of(set_frame(k, v)), respond(request_of(set_frame(k, v)), m).1).1,
        ).0 == Frame::Bulk(Some(v)),
{
    lemma_frames_carry_commands(k, v);
    assert(m.insert(k, v).insert(k, v) =~= m.insert(k, v));
}

/// SETs on pairwise distinct keys, in whatever order they run, each leave
/// their own value: GET of each key answers the value written under it.
pub proof fn lemma_distinct_sets_all_kept(m: Map<Seq<u8>, Seq<u8>>, ops: Seq<(Seq<u8>, Seq<u8>)>)
    requires
        forall|i: int, j: int| 0 <= i < j < ops.len() ==> #[trigger] ops[i].0 != #[trigger] ops[j].0,
    ensures
        forall|i: int|
            0 <= i < ops.len() ==> respond(request_of(get_frame(#[trigger] ops[i].0)), set_all(m, ops)).0
                == Frame::Bulk(Some(ops[i].1)),
    decreases ops.len(),
{
    if ops.len() > 0 {
        let rest = ops.drop_last();
        assert forall|i: int, j: int| 0 <= i < j < rest.len() implies #[trigger] rest[i].0
            != #[trigger] rest[j].0 by {
            assert(rest[i] == ops[i] && rest[j] == ops[j]);
        }
        lemma_distinct_sets_all_kept(m, rest);
        let last = ops.last();
        lemma_frames_carry_commands(last.0, last.1);
        assert forall|i: int| 0 <= i < ops.len() implies respond(
            request_of(get_frame(#[trigger] ops[i].0)),
            set_all(m, ops),
        ).0 == Frame::Bulk(Some(ops[i].1)) by {
            lemma_frames_carry_commands(ops[i].0, ops[i].1);
            if i < ops.len() - 1 {
                assert(rest[i] == ops[i]);
                assert(ops[i].0 != ops[ops.len() - 1].0);
            }
        }
    }
}

/// SET with its value missing is answered with an error that names the
/// verb, and the store is left alone.
pub proof fn lemma_set_missing_value(m: Map<Seq<u8>, Seq<u8>>, k: Seq<u8>)
    ensures
        respond(request_of(command_frame(seq![set_name(), k])), m) == (
        Frame::Error("Invalid SET command"@),
        m,
    ),
{
    lemma_verbs();
}

/// `t` holds no CR LF pair.
pub open spec fn no_crlf(t: Seq<u8>) -> bool {
    forall|i: int| 0 <= i < t.len() - 1 ==> !(#[trigger] t[i] == 13u8 && t[i + 1] == 10u8)
}

/// A value that the encoder writes in a form the decoder reads back: texts
/// hold no CR LF pair, numbers and lengths fit in 64 bits, and arrays nest at
/// most `depth` deep.
pub open spec fn well_formed(f: Frame, depth: nat) -> bool
    decreases f,
{
    match f {
        Frame::Simple(t) => no_crlf(encode_utf8(t)),
        Frame::Error(t) => no_crlf(encode_utf8(t)),
        Frame::Integer(i) => fits_i64(i),
        Frame::Bulk(None) => true,
        Frame::Bulk(Some(d)) => d.len() <= i64::MAX,
        Frame::Array(items) => depth > 0 && items.len() <= i64::MAX && forall|i: int|
            0 <= i < items.len() ==> well_formed(#[trigger] items[i], (depth - 1) as nat),
    }
}

proof fn lemma_decimal_digits(n: nat)
    ensures
        all_digits(decimal(n)),
        digits_value(decimal(n)) == n,
    decreases n,
{
    if n >= 10 {
        lemma_decimal_digits(n / 10);
        let d = decimal(n);
        assert(d.drop_last() =~= decimal(n / 10));
        assert(d.last() == (48 + n % 10) as u8);
        assert((n / 10) * 10 + n % 10 == n);
        assert(digits_value(d) == digits_value(d.drop_last()) * 10 + (d.last() - 48) as nat);
        assert forall|i: int| 0 <= i < d.len() implies crate::resp::is_digit(#[trigger] d[i]) by {
            if i < d.len() - 1 {
                assert(d[i] == decimal(n / 10)[i]);
            }
        }
    } else {
        let d = decimal(n);
        assert(d.drop_last() =~= Seq::<u8>::empty());
        assert(digits_value(d.drop_last()) == 0);
        assert(digits_value(d) == digits_value(d.drop_last()) * 10 + (d.last() - 48) as nat);
    }
}

pub open spec fn pow10(k: nat) -> nat
    decreases k,
{
    if k == 0 {
        1
    } else {
        10 * pow10((k - 1) as nat)
    }
}

/// A number below `10^k` takes at most `k` digits.
proof fn lemma_decimal_len(n: nat, k: nat)
    requires
        k >= 1,
        n < pow10(k),
    ensures
        decimal(n).len() <= k,
    decreases k,
{
    if n >= 10 {
        assert(pow10(1) == 10) by {
            assert(pow10(0) == 1);
        }
        assert(k >= 2);
        let p = pow10((k - 1) as nat);
        assert(n / 10 < p) by (nonlinear_arith)
            requires
                n < 10 * p,
        ;
        lemma_decimal_len(n / 10, (k - 1) as nat);
    }
}

proof fn lemma_decimal_len_i64(n: nat)
    requires
        n <= i64::MAX + 1,
    ensures
        decimal(n).len() <= 19,
{
    reveal_with_fuel(pow10, 20);
    assert(pow10(19) == 10000000000000000000);
    lemma_decimal_len(n, 19);
}

proof fn lemma_signed_decimal(i: int)
    requires
        fits_i64(i),
    ensures
        i64_text(signed_decimal(i)) == Some(i),
        no_crlf(signed_decimal(i)),
        signed_decimal(i).len() <= MAX_HEADER_LEN,
        forall|k: int| 0 <= k < signed_decimal(i).len() ==> #[trigger] signed_decimal(i)[k] != 13u8,
{
    if i < 0 {
        lemma_decimal_len_i64((-i) as nat);
        lemma_decimal_digits((-i) as nat);
        let t = signed_decimal(i);
        assert(t.drop_first() =~= decimal((-i) as nat));
        assert forall|k: int| 0 <= k < t.len() implies #[trigger] t[k] != 13u8 by {
            if k > 0 {
                assert(t[k] == decimal((-i) as nat)[k - 1]);
            }
        }
    } else {
        lemma_decimal_len_i64(i as nat);
        lemma_decimal_digits(i as nat);
    }
}

proof fn lemma_unsigned_decimal(n: nat)
    requires
        n <= i64::MAX,
    ensures
        i64_text(decimal(n)) == Some(n as int),
        decimal(n).len() <= MAX_HEADER_LEN,
        forall|k: int| 0 <= k < decimal(n).len() ==> #[trigger] decimal(n)[k] != 13u8,
{
    lemma_signed_decimal(n as int);
}

/// The first CR LF at or after `from` is at `e` when the bytes between hold
/// no CR LF pair.
proof fn lemma_line_end_at(s: Seq<u8>, from: int, e: int)
    requires
        0 <= from <= e,
        crlf_at(s, e),
        forall|i: int| from <= i < e ==> !crlf_at(s, i),
    ensures
        line_end(s, from) == Some(e),
    decreases e - from,
{
    if from < e {
        lemma_line_end_at(s, from + 1, e);
    }
}

/// A window of the bytes that stand at `start` in `s` stands there too.
proof fn lemma_window(s: Seq<u8>, start: int, bytes: Seq<u8>, a: int, b: int)
    requires
        0 <= start,
        start + bytes.len() <= s.len(),
        s.subrange(start, start + bytes.len()) == bytes,
        0 <= a <= b <= bytes.len(),
    ensures
        s.subrange(start + a, start + b) == bytes.subrange(a, b),
{
    assert forall|j: int| 0 <= j < b - a implies s.subrange(start + a, start + b)[j] == bytes.subrange(
        a,
        b,
    )[j] by {
        assert(s.subrange(start, start + bytes.len())[a + j] == s[start + a + j]);
    }
    assert(s.subrange(start + a, start + b) =~= bytes.subrange(a, b));
}

/// A line of `s` at `start` that is a tag byte, then `body`, then CR LF.
proof fn lemma_line(s: Seq<u8>, start: int, body: Seq<u8>)
    requires
        0 <= start,
        start + body.len() + 3 <= s.len(),
        s.subrange(start + 1, start + 1 + body.len()) == body,
        s[start + 1 + body.len()] == 13u8,
        s[start + 2 + body.len()] == 10u8,
        no_crlf(body),
    ensures
        line_end(s, start + 1) == Some(start + 1 + body.len()),
        s.subrange(start + 1, start + 1 + body.len()) == body,
{
    let e = start + 1 + body.len();
    assert forall|i: int| start + 1 <= i < e implies !crlf_at(s, i) by {
        assert(s[i] == body[i - start - 1]);
        if i < e - 1 {
            assert(s[i + 1] == body[i - start]);
        }
    }
    lemma_line_end_at(s, start + 1, e);
}

proof fn lemma_digit_line(t: Seq<u8>)
    requires
        forall|k: int| 0 <= k < t.len() ==> #[trigger] t[k] != 13u8,
    ensures
        no_crlf(t),
{
}

/// The requirements shared by the decoding lemmas below.
pub open spec fn encoded_at(s: Seq<u8>, start: int, f: Frame) -> bool {
    &&& 0 <= start
    &&& start + encode(f).len() <= s.len()
    &&& s.subrange(start, start + encode(f).len()) == encode(f)
}

proof fn lemma_parse_text(s: Seq<u8>, start: int, f: Frame, depth: nat)
    requires
        well_formed(f, depth),
        encoded_at(s, start, f),
        f is Simple || f is Error,
    ensures
        parse_frame(s, start, depth) == Parsed::Complete(f, start + encode(f).len()),
{
    let bytes = encode(f);
    let t = if f is Simple {
        f->Simple_0
    } else {
        f->Error_0
    };
    let body = encode_utf8(t);
    let tag: u8 = if f is Simple {
        43u8
    } else {
        45u8
    };
    assert(bytes =~= seq![tag] + body + crlf());
    assert(s[start] == bytes[0]);
    lemma_window(s, start, bytes, 1, 1 + body.len() as int);
    assert(bytes.subrange(1, 1 + body.len() as int) =~= body);
    assert(s[start + 1 + body.len()] == bytes[1 + body.len() as int]);
    assert(s[start + 2 + body.len()] == bytes[2 + body.len() as int]);
    lemma_line(s, start, body);
    encode_utf8_valid_utf8(t);
    encode_utf8_decode_utf8(t);
}

proof fn lemma_parse_integer(s: Seq<u8>, start: int, f: Frame, depth: nat)
    requires
        well_formed(f, depth),
        encoded_at(s, start, f),
        f is Integer,
    ensures
        parse_frame(s, start, depth) == Parsed::Complete(f, start + encode(f).len()),
{
    let bytes = encode(f);
    let i = f->Integer_0;
    let body = signed_decimal(i);
    lemma_signed_decimal(i);
    assert(bytes =~= seq![58u8] + body + crlf());
    assert(s[start] == bytes[0]);
    lemma_window(s, start, bytes, 1, 1 + body.len() as int);
    assert(bytes.subrange(1, 1 + body.len() as int) =~= body);
    assert(s[start + 1 + body.len()] == bytes[1 + body.len() as int]);
    assert(s[start + 2 + body.len()] == bytes[2 + body.len() as int]);
    lemma_line(s, start, body);
}

proof fn lemma_parse_null(s: Seq<u8>, start: int, f: Frame, depth: nat)
    requires
        encoded_at(s, start, f),
        f == Frame::Bulk(None),
    ensures
        parse_frame(s, start, depth) == Parsed::Complete(f, start + encode(f).len()),
{
    let bytes = encode(f);
    let body = seq![45u8, 49u8];
    assert(s[start] == bytes[0]);
    lemma_window(s, start, bytes, 1, 3);
    assert(bytes.subrange(1, 3) =~= body);
    assert(s[start + 3] == bytes[3]);
    assert(s[start + 4] == bytes[4]);
    lemma_line(s, start, body);
    assert(body.drop_first() =~= seq![49u8]);
    let one = seq![49u8];
    assert(one.drop_last() =~= Seq::<u8>::empty());
    assert(digits_value(one.drop_last()) == 0);
    assert(digits_value(one) == 1);
    assert(all_digits(one));
    assert(i64_text(body) == Some(-1int));
    assert(s.subrange(start + 1, start + 3) == body);
}

/// The header line `<tag><decimal n> CR LF` at `start`, and what follows it.
proof fn lemma_header(s: Seq<u8>, start: int, bytes: Seq<u8>, n: nat, rest: Seq<u8>)
    requires
        n <= i64::MAX,
        bytes == seq![bytes[0]] + decimal(n) + crlf() + rest,
        0 <= start,
        start + bytes.len() <= s.len(),
        s.subrange(start, start + bytes.len()) == bytes,
    ensures
        s[start] == bytes[0],
        line_end(s, start + 1) == Some(start + 1 + decimal(n).len()),
        i64_text(s.subrange(start + 1, start + 1 + decimal(n).len())) == Some(n as int),
        decimal(n).len() <= MAX_HEADER_LEN,
        s.subrange(start + 3 + decimal(n).len(), start + bytes.len()) == rest,
{
    let body = decimal(n);
    lemma_unsigned_decimal(n);
    lemma_digit_line(body);
    let h = 1 + body.len() as int;
    assert(s[start] == bytes[0]);
    lemma_window(s, start, bytes, 1, h);
    assert(bytes.subrange(1, h) =~= body);
    assert(s[start + h] == bytes[h]);
    assert(s[start + h + 1] == bytes[h + 1]);
    lemma_line(s, start, body);
    lemma_window(s, start, bytes, h + 2, bytes.len() as int);
    assert(bytes.subrange(h + 2, bytes.len() as int) =~= rest);
}

proof fn lemma_parse_bulk(s: Seq<u8>, start: int, f: Frame, depth: nat)
    requires
        well_formed(f, depth),
        encoded_at(s, start, f),
        f matches Frame::Bulk(Some(_)),
    ensures
        parse_frame(s, start, depth) == Parsed::Complete(f, start + encode(f).len()),
{
    let bytes = encode(f);
    let d = f->Bulk_0->0;
    let h = 1 + decimal(d.len()).len() as int;
    assert(bytes =~= seq![bytes[0]] + decimal(d.len()) + crlf() + (d + crlf()));
    lemma_header(s, start, bytes, d.len(), d + crlf());
    let next = start + h + 2;
    assert(s.subrange(next, next + d.len()) =~= d) by {
        assert forall|j: int| 0 <= j < d.len() implies s.subrange(next, next + d.len())[j] == d[j] by {
            assert(s.subrange(next, start + bytes.len())[j] == (d + crlf())[j]);
        }
    }
    assert(s.subrange(next, start + bytes.len())[d.len() as int] == 13u8);
    assert(s.subrange(next, start + bytes.len())[d.len() as int + 1] == 10u8);
}

/// Decoding the bytes that encode a well-formed value, wherever they stand
/// in a buffer and whatever follows them, gives back that value and stops
/// right after it.
pub proof fn lemma_parse_encoded(s: Seq<u8>, start: int, f: Frame, depth: nat)
    requires
        well_formed(f, depth),
        encoded_at(s, start, f),
    ensures
        parse_frame(s, start, depth) == Parsed::Complete(f, start + encode(f).len()),
    decreases f, 0nat,
{
    match f {
        Frame::Simple(_) => lemma_parse_text(s, start, f, depth),
        Frame::Error(_) => lemma_parse_text(s, start, f, depth),
        Frame::Integer(_) => lemma_parse_integer(s, start, f, depth),
        Frame::Bulk(None) => lemma_parse_null(s, start, f, depth),
        Frame::Bulk(Some(_)) => lemma_parse_bulk(s, start, f, depth),
        Frame::Array(items) => {
            let bytes = encode(f);
            let rest = encode_prefix(items, items.len());
            let next = start + 3 + decimal(items.len()).len();
            assert(bytes =~= seq![bytes[0]] + decimal(items.len()) + crlf() + rest);
            lemma_header(s, start, bytes, items.len(), rest);
            lemma_parse_items_encoded(s, next, items, items.len(), (depth - 1) as nat);
            assert(items.subrange(0, items.len() as int) =~= items);
        },
    }
}

/// Decoding the encodings of the first `k` items, laid end to end, gives
/// back those items.
proof fn lemma_parse_items_encoded(s: Seq<u8>, start: int, items: Seq<Frame>, k: nat, depth: nat)
    requires
        k <= items.len(),
        forall|i: int| 0 <= i < items.len() ==> well_formed(#[trigger] items[i], depth),
        0 <= start,
        start + encode_prefix(items, k).len() <= s.len(),
        s.subrange(start, start + encode_prefix(items, k).len()) == encode_prefix(items, k),
    ensures
        parse_items(s, start, k, depth) == ParsedItems::Complete(
            items.subrange(0, k as int),
            start + encode_prefix(items, k).len(),
        ),
    decreases items, k,
{
    if k > 0 {
        let before = encode_prefix(items, (k - 1) as nat);
        let last = encode(items[k - 1]);
        assert(encode_prefix(items, k) == before + last);
        assert(s.subrange(start, start + before.len()) =~= before);
        lemma_parse_items_encoded(s, start, items, (k - 1) as nat, depth);
        let pos = start + before.len();
        lemma_window(s, start, before + last, before.len() as int, (before + last).len() as int);
        assert((before + last).subrange(before.len() as int, (before + last).len() as int) =~= last);
        lemma_parse_encoded(s, pos, items[k - 1], depth);
        assert(items.subrange(0, k - 1).push(items[k - 1]) =~= items.subrange(0, k as int));
    } else {
        assert(items.subrange(0, 0) =~= Seq::<Frame>::empty());
    }
}

/// The bytes that `serialize` writes for a well-formed value are read back
/// by `parse` as that same value, taking up exactly those bytes, whatever
/// follows them in the buffer.
pub proof fn lemma_serialize_then_parse(f: Frame, rest: Seq<u8>)
    requires
        well_formed(f, MAX_DEPTH as nat),
    ensures
        parse_frame(encode(f) + rest, 0, MAX_DEPTH as nat) == Parsed::Complete(f, encode(f).len() as int),
{
    let s = encode(f) + rest;
    assert(s.subrange(0, encode(f).len() as int) =~= encode(f));
    lemma_parse_encoded(s, 0, f, MAX_DEPTH as nat);
}

} // verus!
