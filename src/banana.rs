//! Banana elements, the profile hook, and the recursive decoder and encoder.
use vstd::prelude::*;
use vstd::slice::slice_subrange;
use vstd::slice::slice_to_vec;

use crate::error::{DecodeError, ErrorKind};
use crate::model::{
    decode_scalar, decode_value, decode_values, decoded_as, decoded_within, encoding, encodings,
    lemma_decode_after_last, lemma_max_nesting, max_nesting, lemma_decode_values_shape, lemma_decode_values_split,
    lemma_encodings_push, lemma_values_of_index, lemma_values_of_push, negative_magnitude,
    positive_magnitude, trailing_bytes, value_of, values_of, Value,
};
use crate::wire::{
    all_digits, be_bytes, be_value, digits_value, framed, header, int_encoding, is_delimiter_at,
    lemma_digits_value_suffix, lemma_digits_value_tail, lemma_framed_header, lemma_header_at,
    lemma_header_framed, lemma_pow256_grows, magnitude_digits, pow256, FLOAT, INT, LIST, NEG,
    STRING,
};

verus! {

/// An extension profile: a protocol that claims delimiters of its own on top
/// of plain Banana and decodes its own values there.
pub trait Profile: Sized {
    /// What decoding yields where this profile is asked about an element of
    /// `full` with the given delimiter and preamble: its value and the number
    /// of bytes of `full` that it takes. `UnknownType` means "not mine".
    /// By default a profile claims nothing.
    open spec fn spec_decode(delimiter: u8, preamble: Seq<u8>, full: Seq<u8>) -> Result<
        (Self, nat),
        ErrorKind,
    > {
        Err(ErrorKind::UnknownType(delimiter))
    }

    /// The bytes that `encode` appends for this value.
    open spec fn spec_encode(&self) -> Seq<u8> {
        Seq::empty()
    }

    /// Attempts to decode an element of `full_msg` as one of this profile's
    /// values. `preamble` holds the bytes before the delimiter.
    fn decode<'a>(delimiter: u8, preamble: &'a [u8], full_msg: &'a [u8]) -> (r: Result<
        (Self, &'a [u8]),
        DecodeError,
    >)
        requires
            framed(delimiter, preamble@, full_msg@),
        ensures
            claim_matches(r, Self::spec_decode(delimiter, preamble@, full_msg@), full_msg@),
    ;

    /// Appends this value's bytes, its own delimiter included.
    fn encode(&self, v: &mut Vec<u8>)
        ensures
            final(v)@ == old(v)@ + self.spec_encode(),
    ;
}

/// The outcome of a profile's `decode` is what its `spec_decode` states, and
/// what is left is the rest of `full` after the bytes taken.
pub open spec fn claim_matches<T>(
    r: Result<(T, &[u8]), DecodeError>,
    s: Result<(T, nat), ErrorKind>,
    full: Seq<u8>,
) -> bool {
    match (r, s) {
        (Ok((x, rem)), Ok((y, n))) => x == y && n <= full.len() && rem@ == full.skip(n as int),
        (Err(e), Err(f)) => e@ == f,
        _ => false,
    }
}

/// A Banana element, with the values of profile `P` as extensions.
#[derive(Debug, PartialEq)]
pub enum Element<P: Profile> {
    Integer(i32),
    String(Vec<u8>),
    /// A double-precision float, held as its IEEE-754 bit pattern.
    Float(u64),
    List(Vec<Element<P>>),
    Extension(P),
}

impl<P: Profile + Clone> Clone for Element<P> {
    fn clone(&self) -> (r: Self)
        decreases self,
    {
        match self {
            Element::Integer(i) => Element::Integer(*i),
            Element::String(s) => Element::String(s.clone()),
            Element::Float(f) => Element::Float(*f),
            Element::List(l) => {
                let mut out: Vec<Self> = Vec::new();
                let mut i: usize = 0;
                while i < l.len()
                    invariant
                        i <= l@.len(),
                        *self == Element::<P>::List(*l),
                    decreases l.len() - i,
                {
                    proof {
                        assert(decreases_to!(*self => (*self)->List_0));
                        assert(decreases_to!(*l => l[i as int]));
                    }
                    out.push(l[i].clone());
                    i = i + 1;
                }
                Element::List(out)
            },
            Element::Extension(x) => Element::Extension(x.clone()),
        }
    }
}

/// Magnitude of `i32::MIN`, which `i32` cannot hold.
const ABSMIN32: u64 = 0x8000_0000;

/// An accumulated magnitude at or above this passes `i32::MAX` with one more
/// base-128 digit.
const POS_LIMIT: i32 = 0x100_0000;

/// Negative counterpart of [`POS_LIMIT`]: below it one more digit passes
/// `i32::MIN`, and at it only a zero digit does not.
const NEG_LIMIT: i32 = -0x100_0000;

impl<P: Profile> Element<P> {
    /// Splits `ser` into its preamble and its delimiter, the first byte with
    /// its high bit set.
    pub fn length_type<'a>(ser: &'a [u8]) -> (r: Result<(&'a [u8], u8), DecodeError>)
        ensures
            match (r, header(ser@)) {
                (Ok((pre, d)), Ok(k)) => pre@ == ser@.take(k as int) && d == ser@[k as int],
                (Err(e), Err(f)) => e@ == f,
                _ => false,
            },
    {
        if ser.len() == 0 {
            return Err(DecodeError::Empty);
        }
        let mut i: usize = 0;
        while i < ser.len()
            invariant
                0 <= i <= ser@.len(),
                forall|j: int| 0 <= j < i ==> ser@[j] < 0x80,
            decreases ser.len() - i,
        {
            if ser[i] >= 0x80 {
                proof {
                    lemma_header_at(ser@, i as int);
                }
                return Ok((slice_subrange(ser, 0, i), ser[i]));
            }
            i = i + 1;
        }
        assert(!exists|k: int| is_delimiter_at(ser@, k));
        Err(DecodeError::NoType)
    }

    /// Decodes a non-negative magnitude, given as base-128 digits.
    fn dec_posint(bytes: &[u8]) -> (r: Result<i32, DecodeError>)
        requires
            all_digits(bytes@),
        ensures
            match (r, positive_magnitude(bytes@)) {
                (Ok(a), Ok(b)) => a == b,
                (Err(e), Err(f)) => e@ == f,
                _ => false,
            },
    {
        let mut res: i32 = 0;
        let mut j: usize = bytes.len();
        while j > 0
            invariant
                j <= bytes@.len(),
                all_digits(bytes@),
                0 <= res,
                res as int == digits_value(bytes@.skip(j as int)),
            decreases j,
        {
            let b = bytes[j - 1];
            proof {
                let s = bytes@.skip(j - 1);
                assert(s.skip(1) =~= bytes@.skip(j as int));
                assert(s[0] == b);
                assert(all_digits(s));
                lemma_digits_value_tail(s);
            }
            if res >= POS_LIMIT {
                proof {
                    lemma_digits_value_suffix(bytes@, j - 1);
                    assert(digits_value(bytes@) > i32::MAX);
                }
                return Err(DecodeError::OverFlow(slice_to_vec(bytes)));
            }
            res = res * 128 + b as i32;
            j = j - 1;
        }
        assert(bytes@.skip(0) =~= bytes@);
        Ok(res)
    }

    /// Decodes the negative of a magnitude, given as base-128 digits.
    fn dec_negint(bytes: &[u8]) -> (r: Result<i32, DecodeError>)
        requires
            all_digits(bytes@),
        ensures
            match (r, negative_magnitude(bytes@)) {
                (Ok(a), Ok(b)) => a == b,
                (Err(e), Err(f)) => e@ == f,
                _ => false,
            },
    {
        let mut res: i32 = 0;
        let mut j: usize = bytes.len();
        while j > 0
            invariant
                j <= bytes@.len(),
                all_digits(bytes@),
                res <= 0,
                -res as int == digits_value(bytes@.skip(j as int)),
            decreases j,
        {
            let b = bytes[j - 1];
            proof {
                let s = bytes@.skip(j - 1);
                assert(s.skip(1) =~= bytes@.skip(j as int));
                assert(s[0] == b);
                assert(all_digits(s));
                lemma_digits_value_tail(s);
            }
            if res < NEG_LIMIT || (res == NEG_LIMIT && b != 0) {
                proof {
                    lemma_digits_value_suffix(bytes@, j - 1);
                    assert(digits_value(bytes@) > 0x8000_0000);
                }
                return Err(DecodeError::OverFlow(slice_to_vec(bytes)));
            }
            res = res * 128 - b as i32;
            j = j - 1;
        }
        assert(bytes@.skip(0) =~= bytes@);
        Ok(res)
    }

    /// Decodes the bytes of a string element; `length_bytes` is its preamble.
    fn dec_string(length_bytes: &[u8], full_msg: &[u8]) -> (r: Result<Vec<u8>, DecodeError>)
        requires
            framed(STRING, length_bytes@, full_msg@),
        ensures
            match (r, decode_scalar::<P>(STRING, length_bytes@, full_msg@)) {
                (Ok(s), Ok((v, n))) => v == Value::<P>::String(s@) && n == length_bytes@.len() + 1
                    + s@.len(),
                (Err(e), Err(f)) => e@ == f,
                _ => false,
            },
    {
        let total = full_msg.len();
        let l = match Self::dec_posint(length_bytes) {
            Ok(l) => l as usize,
            Err(e) => return Err(e),
        };
        let start = length_bytes.len() + 1;
        if l > total - start {
            return Err(DecodeError::TooShort(l, total - start));
        }
        Ok(slice_to_vec(slice_subrange(full_msg, start, start + l)))
    }

    /// Decodes the bit pattern of a float element: exactly 8 bytes after the
    /// delimiter, most significant first, and no preamble.
    fn dec_float(length_bytes: &[u8], full_msg: &[u8]) -> (r: Result<u64, DecodeError>)
        requires
            framed(FLOAT, length_bytes@, full_msg@),
        ensures
            match (r, decode_scalar::<P>(FLOAT, length_bytes@, full_msg@)) {
                (Ok(bits), Ok((v, n))) => v == Value::<P>::Float(bits) && n == 9,
                (Err(e), Err(f)) => e@ == f,
                _ => false,
            },
    {
        if length_bytes.len() != 0 {
            return Err(
                DecodeError::Invalid("Float values must not have a length preamble".to_owned()),
            );
        }
        if full_msg.len() < 9 {
            return Err(DecodeError::TooShort(9, full_msg.len()));
        }
        let mut bits: u64 = 0;
        let mut i: usize = 1;
        proof {
            reveal_with_fuel(pow256, 8);
        }
        while i < 9
            invariant
                1 <= i <= 9,
                full_msg@.len() >= 9,
                bits == be_value(full_msg@.subrange(1, i as int)),
                bits < pow256((i - 1) as nat),
                pow256(7) == 0x100_0000_0000_0000,
            decreases 9 - i,
        {
            proof {
                let s = full_msg@.subrange(1, i + 1);
                assert(s.drop_last() =~= full_msg@.subrange(1, i as int));
                assert(pow256(i as nat) == 256 * pow256((i - 1) as nat));
                if i < 8 {
                    lemma_pow256_grows((i - 1) as nat, 6);
                }
            }
            bits = bits * 256 + full_msg[i] as u64;
            i = i + 1;
        }
        Ok(bits)
    }

    /// Decodes the element at the start of `bytes`, with the profile asked
    /// first, and returns it with the bytes that follow it.
    pub fn from_bytes_rem<'a>(bytes: &'a [u8]) -> (r: Result<(Self, &'a [u8]), DecodeError>)
        ensures
            decoded_as(r, bytes@),
    {
        Self::from_bytes_rem_bounded(bytes, bytes.len())
    }

    /// Decodes the element at the start of `bytes`, as
    /// [`Element::from_bytes_rem`] does, but fails where lists nest more than
    /// `max_depth` deep; the decoder's recursion goes no deeper than that.
    pub fn from_bytes_rem_bounded<'a>(bytes: &'a [u8], max_depth: usize) -> (r: Result<
        (Self, &'a [u8]),
        DecodeError,
    >)
        ensures
            decoded_within(r, bytes@, max_depth as nat),
        decreases bytes@.len(), 1nat,
    {
        let (length_bytes, delimiter) = match Self::length_type(bytes) {
            Ok(split) => split,
            Err(e) => return Err(e),
        };
        proof {
            lemma_header_framed(bytes@);
        }
        let total = bytes.len();
        let ghost b = bytes@;
        match P::decode(delimiter, length_bytes, bytes) {
            Ok((ext, rem)) => {
                proof {
                    let n = P::spec_decode(delimiter, length_bytes@, b)->Ok_0.1;
                    lemma_decode_after_last(Value::Extension(ext), n, b);
                }
                return Ok((Element::Extension(ext), rem));
            },
            Err(DecodeError::UnknownType(_)) => {},
            Err(err) => {
                return Err(err);
            },
        }
        let start = length_bytes.len() + 1;
        match delimiter {
            INT => match Self::dec_posint(length_bytes) {
                Ok(i) => {
                    proof {
                        lemma_decode_after_last(Value::<P>::Integer(i), start as nat, b);
                    }
                    Ok((Element::Integer(i), slice_subrange(bytes, start, total)))
                },
                Err(e) => Err(e),
            },
            NEG => match Self::dec_negint(length_bytes) {
                Ok(i) => {
                    proof {
                        lemma_decode_after_last(Value::<P>::Integer(i), start as nat, b);
                    }
                    Ok((Element::Integer(i), slice_subrange(bytes, start, total)))
                },
                Err(e) => Err(e),
            },
            STRING => match Self::dec_string(length_bytes, bytes) {
                Ok(st) => {
                    let end = start + st.len();
                    proof {
                        lemma_decode_after_last(Value::<P>::String(st@), end as nat, b);
                    }
                    Ok((Element::String(st), slice_subrange(bytes, end, total)))
                },
                Err(e) => Err(e),
            },
            LIST => Self::dec_list(length_bytes, bytes, max_depth),
            FLOAT => match Self::dec_float(length_bytes, bytes) {
                Ok(bits) => {
                    proof {
                        lemma_decode_after_last(Value::<P>::Float(bits), 9, b);
                    }
                    Ok((Element::Float(bits), slice_subrange(bytes, 9, total)))
                },
                Err(e) => Err(e),
            },
            other => Err(DecodeError::UnknownType(other)),
        }
    }

    /// Decodes a list element: the count in its preamble, then that many
    /// elements, one after the other, with lists in them nested at most
    /// `max_depth - 1` deep; the first error ends it.
    fn dec_list<'a>(length_bytes: &[u8], full_msg: &'a [u8], max_depth: usize) -> (r: Result<
        (Self, &'a [u8]),
        DecodeError,
    >)
        requires
            framed(LIST, length_bytes@, full_msg@),
            P::spec_decode(LIST, length_bytes@, full_msg@) matches Err(ErrorKind::UnknownType(_)),
        ensures
            decoded_within(r, full_msg@, max_depth as nat),
        decreases full_msg@.len(), 0nat,
    {
        proof {
            lemma_framed_header(LIST, length_bytes@, full_msg@);
        }
        let total = full_msg.len();
        if length_bytes.len() == 0 {
            return Err(DecodeError::Invalid("List without a length".to_owned()));
        }
        let list_len = match Self::dec_posint(length_bytes) {
            Ok(n) => n as usize,
            Err(e) => return Err(e),
        };
        let start = length_bytes.len() + 1;
        let after = slice_subrange(full_msg, start, total);
        proof {
            lemma_decode_values_shape::<P>(after@, list_len as nat);
            if let Ok((vs, m)) = decode_values::<P>(after@, list_len as nat) {
                assert(vs.take(list_len as int) =~= vs);
                assert(seq![Value::List(vs)] + vs.skip(list_len as int) =~= seq![
                    Value::List(vs),
                ]);
            }
        }
        if max_depth == 0 {
            return Err(DecodeError::Invalid("List nesting too deep".to_owned()));
        }
        let mut resv: Vec<Self> = Vec::new();
        let mut rem = after;
        let ghost mut consumed: nat = 0;
        let mut i: usize = 0;
        while i < list_len
            invariant
                i <= list_len,
                1 <= max_depth,
                after@ == full_msg@.skip(start as int),
                start == length_bytes@.len() + 1,
                2 <= start <= full_msg@.len(),
                consumed <= after@.len(),
                rem@ == after@.skip(consumed as int),
                decode_values::<P>(after@, i as nat) == Ok::<(Seq<Value<P>>, nat), ErrorKind>(
                    (values_of(resv@), consumed),
                ),
                max_nesting(values_of(resv@)) < max_depth,
                decode_value::<P>(full_msg@) == match decode_values::<P>(
                    after@,
                    list_len as nat,
                ) {
                    Ok((vs, m)) => Ok((Value::List(vs), (start + m) as nat)),
                    Err(e) => Err(e),
                },
            decreases list_len - i,
        {
            match Self::from_bytes_rem_bounded(rem, max_depth - 1) {
                Ok((e, rest)) => {
                    proof {
                        let n = decode_value::<P>(rem@)->Ok_0.1;
                        lemma_decode_values_split::<P>(after@, i as nat, 1);
                        lemma_decode_values_shape::<P>(rem@, 1);
                        let vs = decode_values::<P>(rem@, 1)->Ok_0.0;
                        assert(vs =~= seq![value_of(e)]);
                        lemma_values_of_push(resv@, e);
                        assert(values_of(resv@) + vs =~= values_of(resv@).push(value_of(e)));
                        assert(values_of(resv@).push(value_of(e)).drop_last() =~= values_of(resv@));
                        assert(rest@ =~= after@.skip((consumed + n) as int));
                        consumed = consumed + n;
                    }
                    resv.push(e);
                    rem = rest;
                },
                Err(e) => {
                    proof {
                        lemma_decode_values_split::<P>(after@, i as nat, (list_len - i) as nat);
                        lemma_decode_values_split::<P>(rem@, 1, (list_len - i - 1) as nat);
                        lemma_values_of_index(resv@);
                        if let Ok((vs, m)) = decode_values::<P>(after@, list_len as nat) {
                            lemma_decode_values_shape::<P>(rem@, 1);
                            assert(i as nat + (list_len - i) as nat == list_len as nat);
                            assert(1 + (list_len - i - 1) as nat == (list_len - i) as nat);
                            let ws = decode_values::<P>(rem@, (list_len - i) as nat)->Ok_0.0;
                            assert(vs == values_of(resv@) + ws);
                            let xs = decode_values::<P>(rem@, 1)->Ok_0.0;
                            let m1 = decode_values::<P>(rem@, 1)->Ok_0.1;
                            let ys = decode_values::<P>(
                                rem@.skip(m1 as int),
                                (list_len - i - 1) as nat,
                            )->Ok_0.0;
                            assert(ws == xs + ys);
                            lemma_decode_values_shape::<P>(after@, i as nat);
                            assert(vs[i as int] == xs[0]);
                            lemma_max_nesting(vs);
                        }
                    }
                    return Err(e);
                },
            }
            i = i + 1;
        }
        proof {
            assert(rem@ =~= full_msg@.skip(start + consumed));
        }
        Ok((Element::List(resv), rem))
    }

    /// Decodes the element that `bytes` holds, and fails with `Invalid` where
    /// bytes follow it: the strict counterpart of [`Element::from_bytes`].
    pub fn from_bytes_strict(bytes: &[u8]) -> (r: Result<Self, DecodeError>)
        ensures
            match (r, decode_value::<P>(bytes@)) {
                (Ok(e), Ok((v, n))) => e@ == v && n == bytes@.len(),
                (Err(e), Ok((v, n))) => n < bytes@.len() && e@ == ErrorKind::Invalid(
                    trailing_bytes(),
                ),
                (Err(e), Err(f)) => e@ == f,
                _ => false,
            },
    {
        match Self::from_bytes_rem(bytes) {
            Ok((e, rem)) => {
                if rem.len() == 0 {
                    Ok(e)
                } else {
                    Err(DecodeError::Invalid("Trailing bytes after the element".to_owned()))
                }
            },
            Err(e) => Err(e),
        }
    }

    /// Decodes the element at the start of `bytes`; what follows it is ignored.
    pub fn from_bytes(bytes: &[u8]) -> (r: Result<Self, DecodeError>)
        ensures
            match (r, decode_value::<P>(bytes@)) {
                (Ok(e), Ok((v, _))) => e@ == v,
                (Err(e), Err(f)) => e@ == f,
                _ => false,
            },
    {
        match Self::from_bytes_rem(bytes) {
            Ok((e, _)) => Ok(e),
            Err(e) => Err(e),
        }
    }

    /// Appends the base-128 digits of `i`, least significant first.
    fn enc_uint(v: &mut Vec<u8>, i: u64)
        ensures
            final(v)@ == old(v)@ + magnitude_digits(i as nat),
    {
        let mut j = i;
        while j > 127
            invariant
                v@ + magnitude_digits(j as nat) == old(v)@ + magnitude_digits(i as nat),
            decreases j,
        {
            proof {
                assert(v@.push((j % 128) as u8) + magnitude_digits((j / 128) as nat) =~= v@
                    + magnitude_digits(j as nat));
            }
            v.push((j % 128) as u8);
            j = j / 128;
        }
        proof {
            assert(v@.push(j as u8) =~= v@ + magnitude_digits(j as nat));
        }
        v.push(j as u8);
    }

    /// Appends an integer element: its magnitude, then the delimiter of its sign.
    fn enc_int(v: &mut Vec<u8>, i: i32)
        ensures
            final(v)@ == old(v)@ + int_encoding(i),
    {
        if i >= 0 {
            Self::enc_uint(v, i as u64);
            v.push(INT);
        } else {
            if i == i32::MIN {
                Self::enc_uint(v, ABSMIN32);
            } else {
                Self::enc_uint(v, -i as u64);
            }
            v.push(NEG);
        }
        assert(final(v)@ =~= old(v)@ + int_encoding(i));
    }

    /// Appends the `n` low bytes of `x`, most significant first.
    fn enc_be(v: &mut Vec<u8>, x: u64, n: usize)
        ensures
            final(v)@ == old(v)@ + be_bytes(x as nat, n as nat),
        decreases n,
    {
        if n > 0 {
            Self::enc_be(v, x / 256, n - 1);
            v.push((x % 256) as u8);
        }
        assert(final(v)@ =~= old(v)@ + be_bytes(x as nat, n as nat));
    }

    /// Appends a float element: the delimiter, then the 8 bytes of the bit
    /// pattern, most significant first.
    fn enc_float(v: &mut Vec<u8>, f: u64)
        ensures
            final(v)@ == old(v)@ + seq![FLOAT] + be_bytes(f as nat, 8),
    {
        v.push(FLOAT);
        Self::enc_be(v, f, 8);
    }

    /// Appends a list element: the count, the delimiter, then each child.
    fn enc_list(v: &mut Vec<u8>, l: &Vec<Self>)
        ensures
            final(v)@ == old(v)@ + encoding(Value::<P>::List(values_of(l@))),
        decreases l,
    {
        proof {
            lemma_values_of_index(l@);
        }
        Self::enc_uint(v, l.len() as u64);
        v.push(LIST);
        let ghost head = v@;
        let ghost vs = values_of(l@);
        let mut i: usize = 0;
        while i < l.len()
            invariant
                i <= l@.len(),
                vs == values_of(l@),
                vs.len() == l@.len(),
                forall|j: int| 0 <= j < l@.len() ==> #[trigger] vs[j] == value_of(l@[j]),
                v@ == head + encodings(vs.take(i as int)),
            decreases l.len() - i,
        {
            proof {
                lemma_encodings_push(vs.take(i as int), vs[i as int]);
                assert(vs.take(i + 1) =~= vs.take(i as int).push(vs[i as int]));
            }
            l[i].encode_in(v);
            i = i + 1;
        }
        proof {
            assert(vs.take(i as int) =~= vs);
        }
    }

    /// Returns the bytes of this element.
    pub fn encode(&self) -> (r: Vec<u8>)
        ensures
            r@ == encoding(self@),
    {
        let mut res: Vec<u8> = Vec::new();
        self.encode_in(&mut res);
        assert(res@ =~= encoding(self@));
        res
    }

    /// Appends the bytes of this element to `v`.
    pub fn encode_in(&self, v: &mut Vec<u8>)
        ensures
            final(v)@ == old(v)@ + encoding(self@),
        decreases self,
    {
        match self {
            Element::Integer(i) => {
                Self::enc_int(v, *i);
            },
            Element::List(l) => {
                Self::enc_list(v, l);
            },
            Element::String(s) => {
                Self::enc_uint(v, s.len() as u64);
                v.push(STRING);
                v.extend_from_slice(s.as_slice());
                assert(final(v)@ =~= old(v)@ + encoding(self@));
            },
            Element::Extension(p) => {
                p.encode(v);
            },
            Element::Float(f) => {
                Self::enc_float(v, *f);
                assert(final(v)@ =~= old(v)@ + encoding(self@));
            },
        }
    }
}

/// The bare Banana element, with no extension.
pub type Banana = Element<NoneProfile>;

/// The profile that adds nothing to plain Banana: it claims no delimiter.
/// It has no public constructor, so outside this crate no element of it is
/// an extension.
#[derive(Debug, PartialEq, Clone)]
pub struct NoneProfile {
    sealed: bool,
}

impl Profile for NoneProfile {
    fn decode<'a>(delimiter: u8, _p: &'a [u8], _f: &'a [u8]) -> (r: Result<
        (Self, &'a [u8]),
        DecodeError,
    >) {
        Err(DecodeError::UnknownType(delimiter))
    }

    fn encode(&self, _v: &mut Vec<u8>) {
    }
}

} // verus!
