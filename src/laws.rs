//! Laws of the codec: what decoding makes of encoded values and of
//! malformed input.
use vstd::prelude::*;

use crate::banana::{NoneProfile, Profile};
use crate::error::ErrorKind;
use crate::model::{
    decode_value, decode_values, encoding, encodings, lemma_decode_after_last,
    lemma_decode_values_split, Value,
};
use crate::pb::PB;
use crate::wire::{
    all_digits, be_bytes, digits_value, framed, header, is_delimiter_at, lemma_header_at,
    lemma_be_bytes, lemma_header_extend, lemma_header_framed, lemma_magnitude_digits,
    magnitude_digits, pow256, FLOAT, INT, LIST, NEG, STRING,
};

verus! {

/// The profile leaves the delimiters of plain Banana to it.
pub open spec fn leaves_native<P: Profile>() -> bool {
    forall|d: u8, pre: Seq<u8>, full: Seq<u8>|
        LIST <= d <= FLOAT && framed(d, pre, full) ==> (#[trigger] P::spec_decode(
            d,
            pre,
            full,
        ) matches Err(ErrorKind::UnknownType(_)))
}

/// The bytes of `x` start with a preamble and a delimiter at which the
/// profile decodes `x` back, taking all of them, whatever follows.
pub open spec fn extension_round_trips<P: Profile>(x: P) -> bool {
    let e = x.spec_encode();
    header(e) matches Ok(k) && forall|rest: Seq<u8>|
        #[trigger] P::spec_decode(e[k as int], e.take(k as int), e + rest) == Ok::<
            (P, nat),
            ErrorKind,
        >((x, e.len()))
}

/// Every string and list in `v` is short enough for its length to be read
/// back as an `i32`.
pub open spec fn lengths_fit<P>(v: Value<P>) -> bool
    decreases v,
{
    match v {
        Value::String(s) => s.len() <= i32::MAX,
        Value::List(vs) => vs.len() <= i32::MAX && forall|i: int|
            0 <= i < vs.len() ==> lengths_fit(#[trigger] vs[i]),
        _ => true,
    }
}

/// Every extension value in `v` decodes back from its own bytes.
pub open spec fn extensions_round_trip<P: Profile>(v: Value<P>) -> bool
    decreases v,
{
    match v {
        Value::List(vs) => forall|i: int|
            0 <= i < vs.len() ==> extensions_round_trip(#[trigger] vs[i]),
        Value::Extension(x) => extension_round_trips(x),
        _ => true,
    }
}

/// Round trip: for a profile that leaves plain Banana's delimiters alone,
/// decoding the bytes of a value, whatever follows them, gives the value back
/// and takes exactly its bytes.
pub proof fn lemma_round_trip<P: Profile>(v: Value<P>, rest: Seq<u8>)
    requires
        leaves_native::<P>(),
        lengths_fit(v),
        extensions_round_trip(v),
    ensures
        decode_value::<P>(encoding(v) + rest) == Ok::<(Value<P>, nat), ErrorKind>(
            (v, encoding(v).len()),
        ),
{
    lemma_decode_encoding(v, rest);
}

/// Round trip for Perspective Broker: every value whose strings and lists
/// have lengths that fit an `i32` decodes back from its bytes.
pub proof fn lemma_round_trip_pb(v: Value<PB>, rest: Seq<u8>)
    requires
        lengths_fit(v),
    ensures
        decode_value::<PB>(encoding(v) + rest) == Ok::<(Value<PB>, nat), ErrorKind>(
            (v, encoding(v).len()),
        ),
{
    lemma_pb_leaves_native();
    lemma_pb_extensions_round_trip(v);
    lemma_decode_encoding(v, rest);
}

/// The Perspective Broker profile claims none of plain Banana's delimiters.
pub proof fn lemma_pb_leaves_native()
    ensures
        leaves_native::<PB>(),
{
}

/// The trivial profile claims none of plain Banana's delimiters.
pub proof fn lemma_none_leaves_native()
    ensures
        leaves_native::<NoneProfile>(),
{
}

/// Every Perspective Broker opcode decodes back from its two bytes.
pub proof fn lemma_pb_round_trips(x: PB)
    ensures
        extension_round_trips(x),
{
    let e = x.spec_encode();
    assert(is_delimiter_at(e, 1));
    lemma_header_at(e, 1);
    assert forall|rest: Seq<u8>|
        #[trigger] PB::spec_decode(e[1], e.take(1), e + rest) == Ok::<(PB, nat), ErrorKind>(
            (x, e.len()),
        ) by {
        assert(e.take(1) =~= seq![x.spec_code()]);
    }
}

/// In a Perspective Broker value every extension decodes back.
pub proof fn lemma_pb_extensions_round_trip(v: Value<PB>)
    ensures
        extensions_round_trip(v),
    decreases v,
{
    match v {
        Value::List(vs) => {
            assert forall|i: int| 0 <= i < vs.len() implies extensions_round_trip(
                #[trigger] vs[i],
            ) by {
                lemma_pb_extensions_round_trip(vs[i]);
            }
        },
        Value::Extension(x) => lemma_pb_round_trips(x),
        _ => {},
    }
}

/// Truncation: a string whose declared length exceeds the bytes after its
/// delimiter fails with `TooShort` of the declared length and of the bytes
/// there are.
pub proof fn lemma_string_too_short<P: Profile>(digits: Seq<u8>, rest: Seq<u8>)
    requires
        leaves_native::<P>(),
        all_digits(digits),
        digits_value(digits) <= i32::MAX,
        rest.len() < digits_value(digits),
    ensures
        decode_value::<P>(digits.push(STRING) + rest) == Err::<(Value<P>, nat), ErrorKind>(
            ErrorKind::TooShort(digits_value(digits), rest.len()),
        ),
{
    lemma_native_header::<P>(digits, STRING, rest);
}

/// Overflow: a magnitude beyond `i32::MAX` under the non-negative delimiter,
/// or beyond the magnitude of `i32::MIN` under the negative one, fails with
/// `OverFlow` of its digits.
pub proof fn lemma_magnitude_overflow<P: Profile>(digits: Seq<u8>, d: u8, rest: Seq<u8>)
    requires
        leaves_native::<P>(),
        all_digits(digits),
        d == INT && digits_value(digits) > i32::MAX || d == NEG && digits_value(digits)
            > 0x8000_0000,
    ensures
        decode_value::<P>(digits.push(d) + rest) == Err::<(Value<P>, nat), ErrorKind>(
            ErrorKind::OverFlow(digits),
        ),
{
    lemma_native_header::<P>(digits, d, rest);
}

/// Extension dispatch: where neither the profile nor plain Banana knows the
/// delimiter, decoding fails with `UnknownType` of that delimiter.
pub proof fn lemma_unknown_delimiter<P: Profile>(b: Seq<u8>)
    requires
        header(b) is Ok,
        !(LIST <= b[header(b)->Ok_0 as int] <= FLOAT),
        P::spec_decode(
            b[header(b)->Ok_0 as int],
            b.take(header(b)->Ok_0 as int),
            b,
        ) matches Err(ErrorKind::UnknownType(_)),
    ensures
        decode_value::<P>(b) == Err::<(Value<P>, nat), ErrorKind>(
            ErrorKind::UnknownType(b[header(b)->Ok_0 as int]),
        ),
{
}

/// Digits followed by one of plain Banana's delimiters: the delimiter stands
/// after the digits, and the profile leaves it to plain Banana.
proof fn lemma_native_header<P: Profile>(digits: Seq<u8>, d: u8, rest: Seq<u8>)
    requires
        leaves_native::<P>(),
        all_digits(digits),
        LIST <= d <= FLOAT,
    ensures
        header(digits.push(d) + rest) == Ok::<nat, ErrorKind>(digits.len()),
        (digits.push(d) + rest).take(digits.len() as int) == digits,
        (digits.push(d) + rest)[digits.len() as int] == d,
        P::spec_decode(d, digits, digits.push(d) + rest) matches Err(ErrorKind::UnknownType(_)),
{
    let e = digits.push(d);
    assert(is_delimiter_at(e, digits.len() as int));
    lemma_header_extend(e, rest, digits.len() as int);
    assert((e + rest).take(digits.len() as int) =~= digits);
    lemma_header_framed(e + rest);
}

/// The bytes of an encodable value decode back to it, whatever follows.
proof fn lemma_decode_encoding<P: Profile>(v: Value<P>, rest: Seq<u8>)
    requires
        leaves_native::<P>(),
        lengths_fit(v),
        extensions_round_trip(v),
    ensures
        decode_values::<P>(encoding(v) + rest, 1) == Ok::<(Seq<Value<P>>, nat), ErrorKind>(
            (seq![v], encoding(v).len()),
        ),
    decreases v,
{
    let e = encoding(v);
    let b = e + rest;
    match v {
        Value::Integer(i) => {
            let n: nat = if i >= 0 {
                i as nat
            } else {
                (-i) as nat
            };
            let d = if i >= 0 {
                INT
            } else {
                NEG
            };
            lemma_magnitude_digits(n);
            assert(e =~= magnitude_digits(n).push(d));
            lemma_native_header::<P>(magnitude_digits(n), d, rest);
            lemma_decode_after_last(v, e.len(), b);
        },
        Value::String(s) => {
            let m = magnitude_digits(s.len());
            lemma_magnitude_digits(s.len());
            assert(b =~= m.push(STRING) + (s + rest));
            lemma_native_header::<P>(m, STRING, s + rest);
            assert(b.subrange(m.len() + 1 as int, m.len() + 1 + s.len() as int) =~= s);
            lemma_decode_after_last(v, e.len(), b);
        },
        Value::Float(bits) => {
            reveal_with_fuel(pow256, 9);
            lemma_be_bytes(bits as nat, 8);
            assert(b =~= Seq::<u8>::empty().push(FLOAT) + (be_bytes(bits as nat, 8) + rest));
            lemma_native_header::<P>(Seq::empty(), FLOAT, be_bytes(bits as nat, 8) + rest);
            assert(b.subrange(1, 9) =~= be_bytes(bits as nat, 8));
            lemma_decode_after_last(v, e.len(), b);
        },
        Value::List(vs) => {
            let m = magnitude_digits(vs.len());
            lemma_magnitude_digits(vs.len());
            assert(b =~= m.push(LIST) + (encodings(vs) + rest));
            lemma_native_header::<P>(m, LIST, encodings(vs) + rest);
            assert(b.skip(m.len() + 1 as int) =~= encodings(vs) + rest);
            lemma_decode_encodings(vs, rest);
            assert(vs.take(vs.len() as int) =~= vs);
            assert(seq![Value::List(vs)] + vs.skip(vs.len() as int) =~= seq![v]);
        },
        Value::Extension(x) => {
            let k = header(e)->Ok_0;
            lemma_header_framed(e);
            lemma_header_extend(e, rest, k as int);
            assert(b.take(k as int) =~= e.take(k as int));
            assert(P::spec_decode(e[k as int], e.take(k as int), e + rest) == Ok::<
                (P, nat),
                ErrorKind,
            >((x, e.len())));
            lemma_decode_after_last(v, e.len(), b);
        },
    }
}

/// The bytes of encodable values, one after the other, decode back to them,
/// whatever follows.
proof fn lemma_decode_encodings<P: Profile>(vs: Seq<Value<P>>, rest: Seq<u8>)
    requires
        leaves_native::<P>(),
        forall|i: int| 0 <= i < vs.len() ==> lengths_fit(#[trigger] vs[i]),
        forall|i: int| 0 <= i < vs.len() ==> extensions_round_trip(#[trigger] vs[i]),
    ensures
        decode_values::<P>(encodings(vs) + rest, vs.len()) == Ok::<
            (Seq<Value<P>>, nat),
            ErrorKind,
        >((vs, encodings(vs).len())),
    decreases vs,
{
    if vs.len() == 0 {
        assert(vs =~= Seq::<Value<P>>::empty());
    } else {
        let e0 = encoding(vs[0]);
        let tail = encodings(vs.skip(1));
        let b = encodings(vs) + rest;
        assert(b =~= e0 + (tail + rest));
        lemma_decode_encoding(vs[0], tail + rest);
        lemma_decode_values_split::<P>(b, 1, (vs.len() - 1) as nat);
        assert(b.skip(e0.len() as int) =~= tail + rest);
        lemma_decode_encodings(vs.skip(1), rest);
        assert(seq![vs[0]] + vs.skip(1) =~= vs);
    }
}

} // verus!
