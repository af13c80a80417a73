use crate::serializer::ReaderError;
use vstd::prelude::*;
use vstd::utf8::{decode_utf8, valid_utf8};

verus! {

/// 256 to the power `n`.
pub open spec fn pow256(n: nat) -> nat
    decreases n,
{
    if n == 0 {
        1
    } else {
        256 * pow256((n - 1) as nat)
    }
}

/// The `width` low-order base-256 digits of `value`, most significant first.
pub open spec fn be_bytes(value: nat, width: nat) -> Seq<u8>
    decreases width,
{
    if width == 0 {
        Seq::empty()
    } else {
        be_bytes(value / 256, (width - 1) as nat).push((value % 256) as u8)
    }
}

/// The number whose base-256 digits, most significant first, are `bytes`.
pub open spec fn be_value(bytes: Seq<u8>) -> nat
    decreases bytes.len(),
{
    if bytes.len() == 0 {
        0
    } else {
        be_value(bytes.drop_last()) * 256 + bytes.last() as nat
    }
}

/// An unsigned integer of `width` bytes at the front of `bytes`.
pub open spec fn decode_uint(bytes: Seq<u8>, width: nat) -> Result<(nat, int), ReaderError> {
    if bytes.len() < width {
        Err(ReaderError::InvalidSize)
    } else {
        Ok((be_value(bytes.take(width as int)), width as int))
    }
}

/// A boolean in the first byte of `bytes`: 0 is false, 1 is true.
pub open spec fn decode_bool(bytes: Seq<u8>) -> Result<bool, ReaderError> {
    if bytes.len() == 0 {
        Err(ReaderError::InvalidSize)
    } else if bytes[0] == 0 {
        Ok(false)
    } else if bytes[0] == 1 {
        Ok(true)
    } else {
        Err(ReaderError::InvalidValue)
    }
}

/// The two-byte count that stands in front of `len` elements.
pub open spec fn encode_count(len: nat) -> Seq<u8> {
    be_bytes(len % 0x1_0000, 2)
}

/// The text of `len` bytes behind the two-byte length at the front of `bytes`.
pub open spec fn decode_text(bytes: Seq<u8>) -> Result<(Seq<char>, int), ReaderError> {
    match decode_uint(bytes, 2) {
        Err(e) => Err(e),
        Ok((len, _)) => if bytes.len() - 2 < len {
            Err(ReaderError::InvalidSize)
        } else if valid_utf8(bytes.subrange(2, 2 + len as int)) {
            Ok((decode_utf8(bytes.subrange(2, 2 + len as int)), 2 + len as int))
        } else {
            Err(ReaderError::InvalidValue)
        },
    }
}

/// The powers of 256 that bound the integers of one, two, four, eight and sixteen bytes.
pub proof fn lemma_pow256_values()
    ensures
        pow256(0) == 1,
        pow256(1) == 0x100,
        pow256(2) == 0x1_0000,
        pow256(4) == 0x1_0000_0000,
        pow256(8) == 0x1_0000_0000_0000_0000,
        pow256(16) == 0x1_0000_0000_0000_0000_0000_0000_0000_0000,
{
    reveal_with_fuel(pow256, 17);
}

/// The powers of 256 are positive and grow with the exponent.
pub proof fn lemma_pow256_monotonic(a: nat, b: nat)
    requires
        a <= b,
    ensures
        0 < pow256(a) <= pow256(b),
    decreases b,
{
    if b == 0 {
    } else if a == b {
        lemma_pow256_monotonic((a - 1) as nat, (b - 1) as nat);
    } else {
        lemma_pow256_monotonic(a, (b - 1) as nat);
    }
}

/// `width` digits are `width` bytes.
pub proof fn lemma_be_bytes_len(value: nat, width: nat)
    ensures
        be_bytes(value, width).len() == width,
    decreases width,
{
    if width > 0 {
        lemma_be_bytes_len(value / 256, (width - 1) as nat);
    }
}

/// The number that `n` bytes stand for is below 256 to the power `n`.
pub proof fn lemma_be_value_bound(bytes: Seq<u8>)
    ensures
        be_value(bytes) < pow256(bytes.len()),
    decreases bytes.len(),
{
    if bytes.len() > 0 {
        lemma_be_value_bound(bytes.drop_last());
    }
}

/// Reading back the digits of a number that fits gives the number.
pub proof fn lemma_be_value_of_bytes(value: nat, width: nat)
    requires
        value < pow256(width),
    ensures
        be_value(be_bytes(value, width)) == value,
    decreases width,
{
    if width > 0 {
        let rest = be_bytes(value / 256, (width - 1) as nat);
        lemma_be_value_of_bytes(value / 256, (width - 1) as nat);
        assert(be_bytes(value, width).drop_last() =~= rest);
    }
}

/// Writing the number that digits stand for gives the digits.
pub proof fn lemma_be_bytes_of_value(bytes: Seq<u8>)
    ensures
        be_bytes(be_value(bytes), bytes.len()) == bytes,
    decreases bytes.len(),
{
    if bytes.len() > 0 {
        lemma_be_bytes_of_value(bytes.drop_last());
        let v = be_value(bytes);
        assert(v / 256 == be_value(bytes.drop_last()));
        assert(v % 256 == bytes.last() as nat);
        assert(be_bytes(v, bytes.len()) =~= bytes);
    }
}

/// An encoded integer followed by anything decodes to itself.
pub proof fn lemma_decode_uint_round_trip(value: nat, width: nat, rest: Seq<u8>)
    requires
        value < pow256(width),
    ensures
        decode_uint(be_bytes(value, width) + rest, width) == Ok::<(nat, int), ReaderError>(
            (value, width as int),
        ),
{
    lemma_be_bytes_len(value, width);
    lemma_be_value_of_bytes(value, width);
    assert((be_bytes(value, width) + rest).take(width as int) =~= be_bytes(value, width));
}

} // verus!
