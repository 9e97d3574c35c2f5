//! Byte-level model of the wire format: preambles, base-128 magnitudes and
//! big-endian float payloads.
use vstd::prelude::*;

use crate::error::ErrorKind;

verus! {

/// Delimiter of a list.
pub const LIST: u8 = 0x80;

/// Delimiter of a non-negative integer.
pub const INT: u8 = 0x81;

/// Delimiter of a byte string.
pub const STRING: u8 = 0x82;

/// Delimiter of a negative integer.
pub const NEG: u8 = 0x83;

/// Delimiter of a double-precision float.
pub const FLOAT: u8 = 0x84;

/// `k` is the position of the delimiter of `s`: the first byte with its high bit set.
pub open spec fn is_delimiter_at(s: Seq<u8>, k: int) -> bool {
    &&& 0 <= k < s.len()
    &&& s[k] >= 0x80
    &&& forall|j: int| 0 <= j < k ==> s[j] < 0x80
}

/// Length of the preamble of `s`, or why `s` has none.
pub open spec fn header(s: Seq<u8>) -> Result<nat, ErrorKind> {
    if s.len() == 0 {
        Err(ErrorKind::Empty)
    } else if exists|k: int| is_delimiter_at(s, k) {
        Ok((choose|k: int| is_delimiter_at(s, k)) as nat)
    } else {
        Err(ErrorKind::NoType)
    }
}

/// How a profile is called: `preamble` holds the bytes of `full` before its
/// delimiter, none of them with the high bit set, and `delimiter` follows them.
pub open spec fn framed(delimiter: u8, preamble: Seq<u8>, full: Seq<u8>) -> bool {
    &&& preamble.len() < full.len()
    &&& preamble == full.take(preamble.len() as int)
    &&& full[preamble.len() as int] == delimiter
    &&& delimiter >= 0x80
    &&& forall|j: int| 0 <= j < preamble.len() ==> preamble[j] < 0x80
}

/// All bytes of `s` are base-128 digits.
pub open spec fn all_digits(s: Seq<u8>) -> bool {
    forall|j: int| 0 <= j < s.len() ==> s[j] < 0x80
}

/// Value of base-128 digits, least significant first.
pub open spec fn digits_value(s: Seq<u8>) -> nat
    decreases s.len(),
{
    if s.len() == 0 {
        0
    } else {
        s[0] as nat + 128 * digits_value(s.skip(1))
    }
}

/// Base-128 digits of `n`, least significant first, as the encoder emits them.
pub open spec fn magnitude_digits(n: nat) -> Seq<u8>
    decreases n,
{
    if n < 128 {
        seq![n as u8]
    } else {
        seq![(n % 128) as u8] + magnitude_digits(n / 128)
    }
}

/// Bytes of an integer element holding `n`: its magnitude, then the delimiter of its sign.
pub open spec fn int_encoding(n: i32) -> Seq<u8> {
    if n >= 0 {
        magnitude_digits(n as nat).push(INT)
    } else {
        magnitude_digits((-n) as nat).push(NEG)
    }
}

/// Value of bytes read in big-endian order.
pub open spec fn be_value(s: Seq<u8>) -> nat
    decreases s.len(),
{
    if s.len() == 0 {
        0
    } else {
        be_value(s.drop_last()) * 256 + s.last() as nat
    }
}

/// The `n` low bytes of `x`, most significant first.
pub open spec fn be_bytes(x: nat, n: nat) -> Seq<u8>
    decreases n,
{
    if n == 0 {
        Seq::empty()
    } else {
        be_bytes(x / 256, (n - 1) as nat).push((x % 256) as u8)
    }
}

/// 256 to the power `n`.
pub open spec fn pow256(n: nat) -> nat
    decreases n,
{
    if n == 0 {
        1
    } else {
        256 * pow256((n - 1) as nat)
    }
}

/// The delimiter position is unique.
pub proof fn lemma_delimiter_unique(s: Seq<u8>, a: int, b: int)
    requires
        is_delimiter_at(s, a),
        is_delimiter_at(s, b),
    ensures
        a == b,
{
    if a < b {
        assert(s[a] < 0x80);
    } else if b < a {
        assert(s[b] < 0x80);
    }
}

/// Where the delimiter stands, `header` finds it.
pub proof fn lemma_header_at(s: Seq<u8>, k: int)
    requires
        is_delimiter_at(s, k),
    ensures
        header(s) == Ok::<nat, ErrorKind>(k as nat),
{
    let c = choose|k: int| is_delimiter_at(s, k);
    lemma_delimiter_unique(s, c, k);
}

/// What `header` finds is the delimiter, with the bytes before it as a
/// profile sees them.
pub proof fn lemma_header_framed(s: Seq<u8>)
    requires
        header(s) is Ok,
    ensures
        is_delimiter_at(s, header(s)->Ok_0 as int),
        framed(s[header(s)->Ok_0 as int], s.take(header(s)->Ok_0 as int), s),
{
    let k = header(s)->Ok_0 as int;
    assert(is_delimiter_at(s, k));
    assert(s.take(k) =~= s.take(s.take(k).len() as int));
}

/// Where a profile is called, the delimiter stands after the preamble.
pub proof fn lemma_framed_header(delimiter: u8, preamble: Seq<u8>, full: Seq<u8>)
    requires
        framed(delimiter, preamble, full),
    ensures
        is_delimiter_at(full, preamble.len() as int),
        header(full) == Ok::<nat, ErrorKind>(preamble.len()),
{
    assert forall|j: int| 0 <= j < preamble.len() implies full[j] < 0x80 by {
        assert(preamble[j] == full[j]);
    }
    lemma_header_at(full, preamble.len() as int);
}

/// Appending bytes after a delimiter leaves it where it is.
pub proof fn lemma_header_extend(s: Seq<u8>, rest: Seq<u8>, k: int)
    requires
        is_delimiter_at(s, k),
    ensures
        is_delimiter_at(s + rest, k),
        header(s + rest) == Ok::<nat, ErrorKind>(k as nat),
{
    assert forall|j: int| 0 <= j < k implies (s + rest)[j] < 0x80 by {
        assert((s + rest)[j] == s[j]);
    }
    lemma_header_at(s + rest, k);
}

/// The digits of `n` are base-128 digits, at least one, worth `n`.
pub proof fn lemma_magnitude_digits(n: nat)
    ensures
        magnitude_digits(n).len() >= 1,
        all_digits(magnitude_digits(n)),
        digits_value(magnitude_digits(n)) == n,
    decreases n,
{
    let d = magnitude_digits(n);
    if n >= 128 {
        lemma_magnitude_digits(n / 128);
        assert(d.skip(1) =~= magnitude_digits(n / 128));
        assert(d[0] == (n % 128) as u8);
        assert(digits_value(d) == d[0] as nat + 128 * digits_value(d.skip(1)));
    } else {
        assert(d.skip(1) =~= Seq::<u8>::empty());
        assert(digits_value(d) == d[0] as nat + 128 * digits_value(d.skip(1)));
    }
}

/// A digit string is worth at least 128 times its tail.
pub proof fn lemma_digits_value_tail(s: Seq<u8>)
    requires
        s.len() >= 1,
    ensures
        digits_value(s) >= 128 * digits_value(s.skip(1)),
        digits_value(s) < 128 * digits_value(s.skip(1)) + 128 <== all_digits(s),
{
}

/// A digit string is worth at least any of its suffixes.
pub proof fn lemma_digits_value_suffix(s: Seq<u8>, j: int)
    requires
        0 <= j <= s.len(),
    ensures
        digits_value(s) >= digits_value(s.skip(j)),
    decreases j,
{
    if j > 0 {
        lemma_digits_value_suffix(s.skip(1), j - 1);
        assert(s.skip(1).skip(j - 1) =~= s.skip(j));
        lemma_digits_value_tail(s);
    } else {
        assert(s.skip(0) =~= s);
    }
}

/// `pow256` grows with its exponent.
pub proof fn lemma_pow256_grows(a: nat, b: nat)
    requires
        a <= b,
    ensures
        pow256(a) <= pow256(b),
    decreases b,
{
    if a < b {
        lemma_pow256_grows(a, (b - 1) as nat);
    }
}

/// `be_bytes` gives `n` bytes that read back as `x`, when `x` fits in them.
pub proof fn lemma_be_bytes(x: nat, n: nat)
    requires
        x < pow256(n),
    ensures
        be_bytes(x, n).len() == n,
        be_value(be_bytes(x, n)) == x,
    decreases n,
{
    if n > 0 {
        lemma_be_bytes(x / 256, (n - 1) as nat);
        let s = be_bytes(x, n);
        assert(s.drop_last() =~= be_bytes(x / 256, (n - 1) as nat));
    }
}

} // verus!
