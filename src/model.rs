//! The abstract model of elements: their values, their bytes, and what
//! decoding a byte sequence yields.
use vstd::prelude::*;

use crate::banana::{Element, Profile};
use crate::error::{DecodeError, ErrorKind};
use crate::wire::{
    be_bytes, be_value, digits_value, header, int_encoding, lemma_header_framed, magnitude_digits,
    FLOAT, INT, LIST, NEG, STRING,
};

verus! {

/// The abstract value of an [`Element`].
pub ghost enum Value<P> {
    Integer(i32),
    String(Seq<u8>),
    Float(u64),
    List(Seq<Value<P>>),
    Extension(P),
}

/// The abstract value of an element.
pub open spec fn value_of<P: Profile>(e: Element<P>) -> Value<P>
    decreases e,
{
    match e {
        Element::Integer(i) => Value::Integer(i),
        Element::String(s) => Value::String(s@),
        Element::Float(bits) => Value::Float(bits),
        Element::List(l) => Value::List(values_of(l@)),
        Element::Extension(x) => Value::Extension(x),
    }
}

/// The abstract values of a sequence of elements.
pub open spec fn values_of<P: Profile>(s: Seq<Element<P>>) -> Seq<Value<P>>
    decreases s,
{
    if s.len() == 0 {
        Seq::empty()
    } else {
        seq![value_of(s[0])] + values_of(s.skip(1))
    }
}

impl<P: Profile> View for Element<P> {
    type V = Value<P>;

    open spec fn view(&self) -> Value<P> {
        value_of(*self)
    }
}

/// The bytes of a value.
pub open spec fn encoding<P: Profile>(v: Value<P>) -> Seq<u8>
    decreases v,
{
    match v {
        Value::Integer(i) => int_encoding(i),
        Value::String(s) => magnitude_digits(s.len()).push(STRING) + s,
        Value::Float(bits) => seq![FLOAT] + be_bytes(bits as nat, 8),
        Value::List(vs) => magnitude_digits(vs.len()).push(LIST) + encodings(vs),
        Value::Extension(x) => x.spec_encode(),
    }
}

/// The bytes of a sequence of values, one after the other.
pub open spec fn encodings<P: Profile>(vs: Seq<Value<P>>) -> Seq<u8>
    decreases vs,
{
    if vs.len() == 0 {
        Seq::empty()
    } else {
        encoding(vs[0]) + encodings(vs.skip(1))
    }
}

/// A non-negative magnitude: an `i32`, or `OverFlow` with the digits.
pub open spec fn positive_magnitude(digits: Seq<u8>) -> Result<i32, ErrorKind> {
    if digits_value(digits) <= i32::MAX {
        Ok(digits_value(digits) as i32)
    } else {
        Err(ErrorKind::OverFlow(digits))
    }
}

/// The negative of a magnitude: an `i32`, or `OverFlow` with the digits.
pub open spec fn negative_magnitude(digits: Seq<u8>) -> Result<i32, ErrorKind> {
    if digits_value(digits) <= 0x8000_0000 {
        Ok((-digits_value(digits)) as i32)
    } else {
        Err(ErrorKind::OverFlow(digits))
    }
}

/// Message of the error on a list delimiter with no count before it.
pub open spec fn list_without_length() -> Seq<char> {
    "List without a length"@
}

/// Message of the error on a float delimiter with a preamble.
pub open spec fn float_with_length() -> Seq<char> {
    "Float values must not have a length preamble"@
}

/// Message of the error on bytes after the element, where none may follow.
pub open spec fn trailing_bytes() -> Seq<char> {
    "Trailing bytes after the element"@
}

/// What plain Banana makes of the element at the start of `b`, other than a
/// list, whose delimiter is `d` after the preamble `pre`: its value and the
/// number of bytes it takes.
pub open spec fn decode_scalar<P>(d: u8, pre: Seq<u8>, b: Seq<u8>) -> Result<
    (Value<P>, nat),
    ErrorKind,
> {
    let start = pre.len() + 1;
    if d == INT {
        match positive_magnitude(pre) {
            Ok(i) => Ok((Value::Integer(i), start)),
            Err(e) => Err(e),
        }
    } else if d == NEG {
        match negative_magnitude(pre) {
            Ok(i) => Ok((Value::Integer(i), start)),
            Err(e) => Err(e),
        }
    } else if d == STRING {
        match positive_magnitude(pre) {
            Ok(l) => if start + l > b.len() {
                Err(ErrorKind::TooShort(l as nat, (b.len() - start) as nat))
            } else {
                Ok((Value::String(b.subrange(start as int, start + l)), (start + l) as nat))
            },
            Err(e) => Err(e),
        }
    } else if d == FLOAT {
        if pre.len() != 0 {
            Err(ErrorKind::Invalid(float_with_length()))
        } else if b.len() < 9 {
            Err(ErrorKind::TooShort(9, b.len()))
        } else {
            Ok((Value::Float(be_value(b.subrange(1, 9)) as u64), 9))
        }
    } else {
        Err(ErrorKind::UnknownType(d))
    }
}

/// `head`, taking `n` bytes of `b`, followed by `count` more values decoded
/// from the rest.
pub open spec fn decode_after<P: Profile>(head: Value<P>, n: nat, b: Seq<u8>, count: nat) -> Result<
    (Seq<Value<P>>, nat),
    ErrorKind,
>
    decreases b.len() - n, count, 1nat,
    when n <= b.len()
{
    match decode_values::<P>(b.skip(n as int), count) {
        Ok((vs, m)) => Ok((seq![head] + vs, n + m)),
        Err(e) => Err(e),
    }
}

/// How the element at the start of a byte sequence begins.
pub ghost enum Head<P> {
    /// A whole value, taking the given number of bytes.
    Whole(Value<P>, nat),
    /// A list with the given number of children, which follow its first
    /// bytes (as many as the second number says): count and delimiter.
    List(nat, nat),
}

/// How the element at the start of `b` begins, with profile `P` asked first,
/// or the error met there.
pub open spec fn decode_head<P: Profile>(b: Seq<u8>) -> Result<Head<P>, ErrorKind> {
    match header(b) {
        Err(e) => Err(e),
        Ok(k) => {
            let pre = b.take(k as int);
            let d = b[k as int];
            match P::spec_decode(d, pre, b) {
                Ok((x, n)) => if n <= b.len() {
                    Ok(Head::Whole(Value::Extension(x), n))
                } else {
                    Err(ErrorKind::TooShort(n, b.len()))
                },
                Err(ErrorKind::UnknownType(_)) => if d == LIST {
                    if k == 0 {
                        Err(ErrorKind::Invalid(list_without_length()))
                    } else {
                        match positive_magnitude(pre) {
                            Ok(n) => Ok(Head::List(n as nat, k + 1)),
                            Err(e) => Err(e),
                        }
                    }
                } else {
                    match decode_scalar::<P>(d, pre, b) {
                        Ok((v, n)) => Ok(Head::Whole(v, n)),
                        Err(e) => Err(e),
                    }
                },
                Err(e) => Err(e),
            }
        },
    }
}

/// Decodes `count` consecutive elements from the start of `b`, with profile
/// `P` asked first at each one: their values and the number of bytes they
/// take, or the first error met.
///
/// The children of a list are the elements that follow its delimiter, so a
/// list of `n` at the head is decoded together with the rest: `n + count - 1`
/// elements after its delimiter, of which the first `n` are its children.
pub open spec fn decode_values<P: Profile>(b: Seq<u8>, count: nat) -> Result<
    (Seq<Value<P>>, nat),
    ErrorKind,
>
    decreases b.len(), count, 0nat,
{
    if count == 0 {
        Ok((Seq::empty(), 0))
    } else {
        match decode_head::<P>(b) {
            Err(e) => Err(e),
            Ok(Head::Whole(v, n)) => decode_after(v, n, b, (count - 1) as nat),
            Ok(Head::List(n, k)) => match decode_values::<P>(b.skip(k as int), (n + count - 1) as nat) {
                Ok((vs, m)) => Ok(
                    (seq![Value::List(vs.take(n as int))] + vs.skip(n as int), k + m),
                ),
                Err(e) => Err(e),
            },
        }
    }
}

/// Decodes the element at the start of `b`: its value and the number of bytes
/// it takes.
pub open spec fn decode_value<P: Profile>(b: Seq<u8>) -> Result<(Value<P>, nat), ErrorKind> {
    match decode_values::<P>(b, 1) {
        Ok((vs, n)) => Ok((vs[0], n)),
        Err(e) => Err(e),
    }
}

/// The outcome of decoding `b` is what `decode_value` states, and what is
/// left is the rest of `b`.
pub open spec fn decoded_as<P: Profile>(
    r: Result<(Element<P>, &[u8]), DecodeError>,
    b: Seq<u8>,
) -> bool {
    match (r, decode_value::<P>(b)) {
        (Ok((e, rem)), Ok((v, n))) => e@ == v && n <= b.len() && rem@ == b.skip(n as int),
        (Err(e), Err(f)) => e@ == f,
        _ => false,
    }
}

/// Message of the error on lists nested deeper than allowed.
pub open spec fn too_deep() -> Seq<char> {
    "List nesting too deep"@
}

/// How deeply lists nest in `v`: 0 for a value that is no list, and for a
/// list one more than the deepest of its children.
pub open spec fn nesting<P>(v: Value<P>) -> nat
    decreases v,
{
    match v {
        Value::List(vs) => 1 + max_nesting(vs),
        _ => 0,
    }
}

/// The deepest nesting among `vs`; 0 when there is none.
pub open spec fn max_nesting<P>(vs: Seq<Value<P>>) -> nat
    decreases vs,
{
    if vs.len() == 0 {
        0
    } else {
        let a = max_nesting(vs.drop_last());
        let b = nesting(vs.last());
        if a >= b {
            a
        } else {
            b
        }
    }
}

/// The outcome of decoding `b` with lists nested at most `budget` deep: what
/// `decode_value` states where the value nests no deeper, and otherwise the
/// `Invalid` error of [`too_deep`]. That error comes only where `b` is longer
/// than the budget, and where decoding fails anyway it may come first.
pub open spec fn decoded_within<P: Profile>(
    r: Result<(Element<P>, &[u8]), DecodeError>,
    b: Seq<u8>,
    budget: nat,
) -> bool {
    match (r, decode_value::<P>(b)) {
        (Ok((e, rem)), Ok((v, n))) => e@ == v && nesting(v) <= budget && n <= b.len() && rem@
            == b.skip(n as int),
        (Err(e), Ok((v, _))) => e@ == ErrorKind::Invalid(too_deep()) && nesting(v) > budget
            && b.len() > budget,
        (Err(e), Err(f)) => e@ == f || e@ == ErrorKind::Invalid(too_deep()) && b.len() > budget,
        _ => false,
    }
}

/// Each value of `vs` nests no deeper than `max_nesting(vs)`.
pub proof fn lemma_max_nesting<P>(vs: Seq<Value<P>>)
    ensures
        forall|i: int| 0 <= i < vs.len() ==> nesting(#[trigger] vs[i]) <= max_nesting(vs),
    decreases vs.len(),
{
    if vs.len() > 0 {
        lemma_max_nesting(vs.drop_last());
        assert forall|i: int| 0 <= i < vs.len() implies nesting(#[trigger] vs[i]) <= max_nesting(
            vs,
        ) by {
            if i < vs.len() - 1 {
                assert(vs.drop_last()[i] == vs[i]);
            }
        }
    }
}

/// A scalar element takes at least its delimiter and no more than there is.
pub proof fn lemma_decode_scalar_within<P>(d: u8, pre: Seq<u8>, b: Seq<u8>)
    requires
        pre.len() < b.len(),
    ensures
        decode_scalar::<P>(d, pre, b) matches Ok((_, n)) ==> pre.len() < n <= b.len(),
{
}

/// What `decode_head` finds lies within `b`.
pub proof fn lemma_decode_head_within<P: Profile>(b: Seq<u8>)
    ensures
        decode_head::<P>(b) matches Ok(Head::Whole(_, n)) ==> n <= b.len(),
        decode_head::<P>(b) matches Ok(Head::List(_, k)) ==> 1 <= k <= b.len(),
{
    if let Ok(k) = header(b) {
        lemma_header_framed(b);
        lemma_decode_scalar_within::<P>(b[k as int], b.take(k as int), b);
    }
}

/// Decoding `count` elements yields `count` values and takes no more bytes
/// than there are.
pub proof fn lemma_decode_values_shape<P: Profile>(b: Seq<u8>, count: nat)
    ensures
        decode_values::<P>(b, count) matches Ok((vs, m)) ==> vs.len() == count && m <= b.len(),
    decreases b.len(), count,
{
    if count > 0 {
        lemma_decode_head_within::<P>(b);
        match decode_head::<P>(b) {
            Ok(Head::Whole(v, n)) => {
                lemma_decode_values_shape::<P>(b.skip(n as int), (count - 1) as nat);
                assert(decode_values::<P>(b, count) == decode_after(v, n, b, (count - 1) as nat));
            },
            Ok(Head::List(n, k)) => {
                let bl = b.skip(k as int);
                lemma_decode_values_shape::<P>(bl, (n + count - 1) as nat);
                if let Ok((vs, m)) = decode_values::<P>(bl, (n + count - 1) as nat) {
                    let out = seq![Value::List(vs.take(n as int))] + vs.skip(n as int);
                    assert(out.len() == count);
                }
            },
            Err(_) => {},
        }
    }
}

/// Decoding `a + c` elements is decoding `a`, then `c` from what is left.
pub proof fn lemma_decode_values_split<P: Profile>(b: Seq<u8>, a: nat, c: nat)
    ensures
        decode_values::<P>(b, a + c) == match decode_values::<P>(b, a) {
            Ok((xs, m)) => match decode_values::<P>(b.skip(m as int), c) {
                Ok((ys, m2)) => Ok((xs + ys, m + m2)),
                Err(e) => Err(e),
            },
            Err(e) => Err(e),
        },
    decreases b.len(), a, 2nat,
{
    if a == 0 {
        assert(b.skip(0) =~= b);
        if let Ok((ys, m2)) = decode_values::<P>(b, c) {
            assert(Seq::<Value<P>>::empty() + ys =~= ys);
        }
    } else {
        lemma_decode_head_within::<P>(b);
        match decode_head::<P>(b) {
            Ok(Head::Whole(v, n)) => {
                lemma_after_split::<P>(v, n, b, a, c);
            },
            Ok(Head::List(n, k)) => {
                lemma_list_split::<P>(n, k, b, a, c);
            },
            Err(_) => {},
        }
    }
}

/// The step of [`lemma_decode_values_split`] past a list of `n` children
/// whose count and delimiter take `k` bytes.
proof fn lemma_list_split<P: Profile>(n: nat, k: nat, b: Seq<u8>, a: nat, c: nat)
    requires
        1 <= k <= b.len(),
        a > 0,
    ensures
        ({
            let list_of = |r: Result<(Seq<Value<P>>, nat), ErrorKind>|
                match r {
                    Ok((vs, m)) => Ok::<(Seq<Value<P>>, nat), ErrorKind>(
                        (seq![Value::List(vs.take(n as int))] + vs.skip(n as int), k + m),
                    ),
                    Err(e) => Err(e),
                };
            list_of(decode_values::<P>(b.skip(k as int), (n + (a + c) - 1) as nat)) == match list_of(
                decode_values::<P>(b.skip(k as int), (n + a - 1) as nat),
            ) {
                Ok((xs, m)) => match decode_values::<P>(b.skip(m as int), c) {
                    Ok((ys, m2)) => Ok((xs + ys, m + m2)),
                    Err(e) => Err(e),
                },
                Err(e) => Err(e),
            }
        }),
    decreases b.len(), a, 1nat,
{
    let bl = b.skip(k as int);
    lemma_decode_values_split::<P>(bl, (n + a - 1) as nat, c);
    assert((n + a - 1) as nat + c == (n + (a + c) - 1) as nat);
    if let Ok((vs, m)) = decode_values::<P>(bl, (n + a - 1) as nat) {
        lemma_decode_values_shape::<P>(bl, (n + a - 1) as nat);
        assert(bl.skip(m as int) =~= b.skip((k + m) as int));
        if let Ok((ys, m2)) = decode_values::<P>(bl.skip(m as int), c) {
            let all = vs + ys;
            assert(all.take(n as int) =~= vs.take(n as int));
            assert(all.skip(n as int) =~= vs.skip(n as int) + ys);
            assert(seq![Value::List(all.take(n as int))] + all.skip(n as int) =~= seq![
                Value::List(vs.take(n as int)),
            ] + vs.skip(n as int) + ys);
        }
    }
}

/// The step of [`lemma_decode_values_split`] past a head that takes `n` bytes.
proof fn lemma_after_split<P: Profile>(head: Value<P>, n: nat, b: Seq<u8>, a: nat, c: nat)
    requires
        n <= b.len(),
        a > 0,
    ensures
        decode_after(head, n, b, (a + c - 1) as nat) == match decode_after(
            head,
            n,
            b,
            (a - 1) as nat,
        ) {
            Ok((xs, m)) => match decode_values::<P>(b.skip(m as int), c) {
                Ok((ys, m2)) => Ok((xs + ys, m + m2)),
                Err(e) => Err(e),
            },
            Err(e) => Err(e),
        },
    decreases b.len(), a, 1nat,
{
    let bn = b.skip(n as int);
    lemma_decode_values_split::<P>(bn, (a - 1) as nat, c);
    assert((a - 1) as nat + c == (a + c - 1) as nat);
    if let Ok((xs, m)) = decode_values::<P>(bn, (a - 1) as nat) {
        lemma_decode_values_shape::<P>(bn, (a - 1) as nat);
        assert(bn.skip(m as int) =~= b.skip((n + m) as int));
        if let Ok((ys, m2)) = decode_values::<P>(bn.skip(m as int), c) {
            assert(seq![head] + (xs + ys) =~= seq![head] + xs + ys);
        }
    }
}

/// One element whose head takes `n` bytes is that head alone.
pub proof fn lemma_decode_after_last<P: Profile>(head: Value<P>, n: nat, b: Seq<u8>)
    requires
        n <= b.len(),
    ensures
        decode_after(head, n, b, 0) == Ok::<(Seq<Value<P>>, nat), ErrorKind>((seq![head], n)),
{
    assert(decode_values::<P>(b.skip(n as int), 0) == Ok::<(Seq<Value<P>>, nat), ErrorKind>(
        (Seq::empty(), 0),
    ));
    assert(seq![head] + Seq::<Value<P>>::empty() =~= seq![head]);
}

/// The values of a sequence with one more element.
pub proof fn lemma_values_of_push<P: Profile>(s: Seq<Element<P>>, e: Element<P>)
    ensures
        values_of(s.push(e)) == values_of(s).push(value_of(e)),
    decreases s.len(),
{
    if s.len() == 0 {
        assert(s.push(e).skip(1) =~= Seq::<Element<P>>::empty());
        assert(values_of::<P>(Seq::empty()) =~= Seq::empty());
        assert(values_of(s.push(e)) =~= values_of(s).push(value_of(e)));
    } else {
        lemma_values_of_push(s.skip(1), e);
        assert(s.push(e).skip(1) =~= s.skip(1).push(e));
        assert(values_of(s.push(e)) =~= values_of(s).push(value_of(e)));
    }
}

/// The values of a sequence, one for each element.
pub proof fn lemma_values_of_index<P: Profile>(s: Seq<Element<P>>)
    ensures
        values_of(s).len() == s.len(),
        forall|i: int| 0 <= i < s.len() ==> #[trigger] values_of(s)[i] == value_of(s[i]),
    decreases s.len(),
{
    if s.len() > 0 {
        lemma_values_of_index(s.skip(1));
        assert forall|i: int| 0 <= i < s.len() implies #[trigger] values_of(s)[i] == value_of(
            s[i],
        ) by {
            if i > 0 {
                assert(s.skip(1)[i - 1] == s[i]);
            }
        }
    }
}

/// The bytes of a sequence with one more value.
pub proof fn lemma_encodings_push<P: Profile>(vs: Seq<Value<P>>, x: Value<P>)
    ensures
        encodings(vs.push(x)) == encodings(vs) + encoding(x),
    decreases vs.len(),
{
    if vs.len() == 0 {
        assert(vs.push(x).skip(1) =~= Seq::<Value<P>>::empty());
        assert(encodings::<P>(Seq::empty()) =~= Seq::empty());
        assert(encoding(x) + Seq::<u8>::empty() =~= encoding(x));
        assert(Seq::<u8>::empty() + encoding(x) =~= encoding(x));
    } else {
        lemma_encodings_push(vs.skip(1), x);
        assert(vs.push(x).skip(1) =~= vs.skip(1).push(x));
        assert(encodings(vs.push(x)) =~= encodings(vs) + encoding(x));
    }
}

} // verus!
