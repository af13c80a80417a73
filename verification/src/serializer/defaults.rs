use crate::crypto;
use crate::serializer::bytes::{
    be_bytes, decode_bool, decode_text, decode_uint, encode_count, lemma_be_bytes_len,
    lemma_decode_uint_round_trip, lemma_pow256_values,
};
use crate::serializer::reader::Reader;
use crate::serializer::writer::Writer;
use crate::serializer::{ReaderError, Serializer, MAX_ITEMS};
use vstd::prelude::*;
use vstd::utf8::{
    decode_utf8_encode_utf8, encode_utf8, encode_utf8_decode_utf8, encode_utf8_valid_utf8,
    valid_utf8,
};

verus! {

impl Serializer for u8 {
    open spec fn canonical(v: u8) -> bool {
        true
    }

    open spec fn encode(v: u8) -> Seq<u8> {
        seq![v]
    }

    open spec fn decode(bytes: Seq<u8>) -> Result<(u8, int), ReaderError> {
        if bytes.len() == 0 {
            Err(ReaderError::InvalidSize)
        } else {
            Ok((bytes[0], 1))
        }
    }

    proof fn lemma_decode_bounds(bytes: Seq<u8>) {
    }

    proof fn lemma_round_trip(v: u8, rest: Seq<u8>) {
    }

    fn write(&self, writer: &mut Writer) {
        writer.write_u8(*self);
        assert(writer@ =~= old(writer)@ + seq![*self]);
    }

    fn read(reader: &mut Reader) -> (r: Result<Self, ReaderError>) {
        reader.read_u8()
    }
}

impl Serializer for u16 {
    open spec fn canonical(v: u16) -> bool {
        true
    }

    open spec fn encode(v: u16) -> Seq<u8> {
        be_bytes(v as nat, 2)
    }

    open spec fn decode(bytes: Seq<u8>) -> Result<(u16, int), ReaderError> {
        match decode_uint(bytes, 2) {
            Ok((v, n)) => Ok((v as u16, n)),
            Err(e) => Err(e),
        }
    }

    proof fn lemma_decode_bounds(bytes: Seq<u8>) {
    }

    proof fn lemma_round_trip(v: u16, rest: Seq<u8>) {
        lemma_pow256_values();
        lemma_decode_uint_round_trip(v as nat, 2, rest);
        lemma_be_bytes_len(v as nat, 2);
    }

    fn write(&self, writer: &mut Writer) {
        writer.write_u16(*self);
    }

    fn read(reader: &mut Reader) -> (r: Result<Self, ReaderError>) {
        reader.read_u16()
    }
}

impl Serializer for u32 {
    open spec fn canonical(v: u32) -> bool {
        true
    }

    open spec fn encode(v: u32) -> Seq<u8> {
        be_bytes(v as nat, 4)
    }

    open spec fn decode(bytes: Seq<u8>) -> Result<(u32, int), ReaderError> {
        match decode_uint(bytes, 4) {
            Ok((v, n)) => Ok((v as u32, n)),
            Err(e) => Err(e),
        }
    }

    proof fn lemma_decode_bounds(bytes: Seq<u8>) {
    }

    proof fn lemma_round_trip(v: u32, rest: Seq<u8>) {
        lemma_pow256_values();
        lemma_decode_uint_round_trip(v as nat, 4, rest);
        lemma_be_bytes_len(v as nat, 4);
    }

    fn write(&self, writer: &mut Writer) {
        writer.write_u32(self);
    }

    fn read(reader: &mut Reader) -> (r: Result<Self, ReaderError>) {
        reader.read_u32()
    }
}

impl Serializer for u64 {
    open spec fn canonical(v: u64) -> bool {
        true
    }

    open spec fn encode(v: u64) -> Seq<u8> {
        be_bytes(v as nat, 8)
    }

    open spec fn decode(bytes: Seq<u8>) -> Result<(u64, int), ReaderError> {
        match decode_uint(bytes, 8) {
            Ok((v, n)) => Ok((v as u64, n)),
            Err(e) => Err(e),
        }
    }

    proof fn lemma_decode_bounds(bytes: Seq<u8>) {
    }

    proof fn lemma_round_trip(v: u64, rest: Seq<u8>) {
        lemma_pow256_values();
        lemma_decode_uint_round_trip(v as nat, 8, rest);
        lemma_be_bytes_len(v as nat, 8);
    }

    fn write(&self, writer: &mut Writer) {
        writer.write_u64(self);
    }

    fn read(reader: &mut Reader) -> (r: Result<Self, ReaderError>) {
        reader.read_u64()
    }
}

impl Serializer for u128 {
    open spec fn canonical(v: u128) -> bool {
        true
    }

    open spec fn encode(v: u128) -> Seq<u8> {
        be_bytes(v as nat, 16)
    }

    open spec fn decode(bytes: Seq<u8>) -> Result<(u128, int), ReaderError> {
        match decode_uint(bytes, 16) {
            Ok((v, n)) => Ok((v as u128, n)),
            Err(e) => Err(e),
        }
    }

    proof fn lemma_decode_bounds(bytes: Seq<u8>) {
    }

    proof fn lemma_round_trip(v: u128, rest: Seq<u8>) {
        lemma_pow256_values();
        lemma_decode_uint_round_trip(v as nat, 16, rest);
        lemma_be_bytes_len(v as nat, 16);
    }

    fn write(&self, writer: &mut Writer) {
        writer.write_u128(self);
    }

    fn read(reader: &mut Reader) -> (r: Result<Self, ReaderError>) {
        reader.read_u128()
    }
}

impl Serializer for bool {
    open spec fn canonical(v: bool) -> bool {
        true
    }

    open spec fn encode(v: bool) -> Seq<u8> {
        seq![
            if v {
                1u8
            } else {
                0u8
            },
        ]
    }

    open spec fn decode(bytes: Seq<u8>) -> Result<(bool, int), ReaderError> {
        match decode_bool(bytes) {
            Ok(v) => Ok((v, 1)),
            Err(e) => Err(e),
        }
    }

    proof fn lemma_decode_bounds(bytes: Seq<u8>) {
    }

    proof fn lemma_round_trip(v: bool, rest: Seq<u8>) {
    }

    fn write(&self, writer: &mut Writer) {
        writer.write_bool(*self);
        assert(writer@ =~= old(writer)@ + Self::encode(*self));
    }

    fn read(reader: &mut Reader) -> (r: Result<Self, ReaderError>) {
        reader.read_bool()
    }
}

/// A fixed-size byte array is its bytes, with no length in front.
impl<const N: usize> Serializer for [u8; N] {
    open spec fn canonical(v: Seq<u8>) -> bool {
        v.len() == N
    }

    open spec fn encode(v: Seq<u8>) -> Seq<u8> {
        v
    }

    open spec fn decode(bytes: Seq<u8>) -> Result<(Seq<u8>, int), ReaderError> {
        if bytes.len() < N {
            Err(ReaderError::InvalidSize)
        } else {
            Ok((bytes.take(N as int), N as int))
        }
    }

    proof fn lemma_decode_bounds(bytes: Seq<u8>) {
    }

    proof fn lemma_round_trip(v: Seq<u8>, rest: Seq<u8>) {
        assert((v + rest).take(N as int) =~= v);
    }

    fn write(&self, writer: &mut Writer) {
        writer.write_bytes(self.as_slice());
        assert(self.deep_view() =~= self@);
    }

    fn read(reader: &mut Reader) -> (r: Result<Self, ReaderError>) {
        let r = reader.read_bytes::<N>();
        proof {
            if let Ok(x) = r {
                assert(x.deep_view() =~= x@);
            }
        }
        r
    }
}

impl DeepView for crypto::Hash {
    type V = Seq<u8>;

    open spec fn deep_view(&self) -> Seq<u8> {
        self@
    }
}

/// A hash is its 32 bytes.
impl Serializer for crypto::Hash {
    open spec fn canonical(v: Seq<u8>) -> bool {
        v.len() == 32
    }

    open spec fn encode(v: Seq<u8>) -> Seq<u8> {
        v
    }

    open spec fn decode(bytes: Seq<u8>) -> Result<(Seq<u8>, int), ReaderError> {
        if bytes.len() < 32 {
            Err(ReaderError::InvalidSize)
        } else {
            Ok((bytes.take(32), 32))
        }
    }

    proof fn lemma_decode_bounds(bytes: Seq<u8>) {
    }

    proof fn lemma_round_trip(v: Seq<u8>, rest: Seq<u8>) {
        assert((v + rest).take(32) =~= v);
    }

    fn write(&self, writer: &mut Writer) {
        writer.write_hash(self);
    }

    fn read(reader: &mut Reader) -> (r: Result<Self, ReaderError>) {
        reader.read_hash()
    }
}

impl DeepView for crypto::PublicKey {
    type V = Seq<u8>;

    open spec fn deep_view(&self) -> Seq<u8> {
        self@
    }
}

/// A public key is its 32 bytes.
impl Serializer for crypto::PublicKey {
    open spec fn canonical(v: Seq<u8>) -> bool {
        v.len() == 32
    }

    open spec fn encode(v: Seq<u8>) -> Seq<u8> {
        v
    }

    open spec fn decode(bytes: Seq<u8>) -> Result<(Seq<u8>, int), ReaderError> {
        if bytes.len() < 32 {
            Err(ReaderError::InvalidSize)
        } else {
            Ok((bytes.take(32), 32))
        }
    }

    proof fn lemma_decode_bounds(bytes: Seq<u8>) {
    }

    proof fn lemma_round_trip(v: Seq<u8>, rest: Seq<u8>) {
        assert((v + rest).take(32) =~= v);
    }

    fn write(&self, writer: &mut Writer) {
        writer.write_bytes(self.as_bytes().as_slice());
    }

    fn read(reader: &mut Reader) -> (r: Result<Self, ReaderError>) {
        let bytes = reader.read_bytes::<32>()?;
        Ok(crypto::PublicKey::new(bytes))
    }
}

/// A pair is its first part followed by its second part.
impl<A: Serializer, B: Serializer> Serializer for (A, B) {
    open spec fn canonical(v: (A::V, B::V)) -> bool {
        A::canonical(v.0) && B::canonical(v.1)
    }

    open spec fn encode(v: (A::V, B::V)) -> Seq<u8> {
        A::encode(v.0) + B::encode(v.1)
    }

    open spec fn decode(bytes: Seq<u8>) -> Result<((A::V, B::V), int), ReaderError> {
        match A::decode(bytes) {
            Err(e) => Err(e),
            Ok((a, n)) => match B::decode(bytes.skip(n)) {
                Err(e) => Err(e),
                Ok((b, m)) => Ok(((a, b), n + m)),
            },
        }
    }

    proof fn lemma_decode_bounds(bytes: Seq<u8>) {
        A::lemma_decode_bounds(bytes);
        if let Ok((a, n)) = A::decode(bytes) {
            B::lemma_decode_bounds(bytes.skip(n));
        }
    }

    proof fn lemma_round_trip(v: (A::V, B::V), rest: Seq<u8>) {
        let first = A::encode(v.0);
        let second = B::encode(v.1);
        A::lemma_round_trip(v.0, second + rest);
        assert(Self::encode(v) + rest =~= first + (second + rest));
        assert((first + (second + rest)).skip(first.len() as int) =~= second + rest);
        B::lemma_round_trip(v.1, rest);
    }

    fn write(&self, writer: &mut Writer) {
        self.0.write(writer);
        self.1.write(writer);
        assert(writer@ =~= old(writer)@ + Self::encode(self.deep_view()));
    }

    fn read(reader: &mut Reader) -> (r: Result<Self, ReaderError>) {
        proof {
            use_type_invariant(&*reader);
            reader.lemma_in_bounds();
            A::lemma_decode_bounds(reader.remaining());
        }
        let ghost bytes = reader.remaining();
        let a = A::read(reader)?;
        assert(reader.remaining() =~= bytes.skip(A::decode(bytes)->Ok_0.1));
        let b = B::read(reader)?;
        Ok((a, b))
    }
}

/// An optional value is a boolean, followed by the value when it is true.
impl<T: Serializer> Serializer for Option<T> {
    open spec fn canonical(v: Option<T::V>) -> bool {
        v matches Some(x) ==> T::canonical(x)
    }

    open spec fn encode(v: Option<T::V>) -> Seq<u8> {
        match v {
            Some(x) => seq![1u8] + T::encode(x),
            None => seq![0u8],
        }
    }

    open spec fn decode(bytes: Seq<u8>) -> Result<(Option<T::V>, int), ReaderError> {
        match decode_bool(bytes) {
            Err(e) => Err(e),
            Ok(false) => Ok((None, 1)),
            Ok(true) => match T::decode(bytes.skip(1)) {
                Ok((x, n)) => Ok((Some(x), n + 1)),
                Err(e) => Err(e),
            },
        }
    }

    proof fn lemma_decode_bounds(bytes: Seq<u8>) {
        if decode_bool(bytes) == Ok::<bool, ReaderError>(true) {
            T::lemma_decode_bounds(bytes.skip(1));
        }
    }

    proof fn lemma_round_trip(v: Option<T::V>, rest: Seq<u8>) {
        match v {
            Some(x) => {
                T::lemma_round_trip(x, rest);
                assert((Self::encode(v) + rest).skip(1) =~= T::encode(x) + rest);
            },
            None => {},
        }
    }

    fn write(&self, writer: &mut Writer) {
        match self {
            Some(x) => {
                writer.write_bool(true);
                x.write(writer);
                assert(writer@ =~= old(writer)@ + Self::encode(self.deep_view()));
            },
            None => {
                writer.write_bool(false);
                assert(writer@ =~= old(writer)@ + Self::encode(self.deep_view()));
            },
        }
    }

    fn read(reader: &mut Reader) -> (r: Result<Self, ReaderError>) {
        proof {
            use_type_invariant(&*reader);
            reader.lemma_in_bounds();
        }
        if reader.read_bool()? {
            assert(reader.remaining() =~= old(reader).remaining().skip(1));
            Ok(Some(T::read(reader)?))
        } else {
            Ok(None)
        }
    }
}

/// A string is the length of its UTF-8 form in two bytes, followed by that form.
impl Serializer for String {
    open spec fn canonical(v: Seq<char>) -> bool {
        encode_utf8(v).len() < 0x1_0000
    }

    open spec fn encode(v: Seq<char>) -> Seq<u8> {
        encode_count(encode_utf8(v).len()) + encode_utf8(v)
    }

    open spec fn decode(bytes: Seq<u8>) -> Result<(Seq<char>, int), ReaderError> {
        decode_text(bytes)
    }

    proof fn lemma_decode_bounds(bytes: Seq<u8>) {
        if let Ok((len, _)) = decode_uint(bytes, 2) {
            if bytes.len() - 2 >= len {
                let body = bytes.subrange(2, 2 + len as int);
                if valid_utf8(body) {
                    decode_utf8_encode_utf8(body);
                    crate::serializer::bytes::lemma_be_value_bound(bytes.take(2));
                    lemma_pow256_values();
                }
            }
        }
    }

    proof fn lemma_round_trip(v: Seq<char>, rest: Seq<u8>) {
        let body = encode_utf8(v);
        let bytes = Self::encode(v) + rest;
        lemma_pow256_values();
        lemma_be_bytes_len(body.len(), 2);
        lemma_decode_uint_round_trip(body.len(), 2, body + rest);
        assert(bytes =~= encode_count(body.len()) + (body + rest));
        assert(bytes.subrange(2, 2 + body.len() as int) =~= body);
        encode_utf8_valid_utf8(v);
        encode_utf8_decode_utf8(v);
    }

    fn write(&self, writer: &mut Writer) {
        writer.write_string(self);
    }

    fn read(reader: &mut Reader) -> (r: Result<Self, ReaderError>) {
        reader.read_string()
    }
}

/// A value that is borrowed or owned is written as the value.
impl<'a, T: Serializer + Clone> Serializer for std::borrow::Cow<'a, T> {
    open spec fn canonical(v: T::V) -> bool {
        T::canonical(v)
    }

    open spec fn encode(v: T::V) -> Seq<u8> {
        T::encode(v)
    }

    open spec fn decode(bytes: Seq<u8>) -> Result<(T::V, int), ReaderError> {
        T::decode(bytes)
    }

    proof fn lemma_decode_bounds(bytes: Seq<u8>) {
        T::lemma_decode_bounds(bytes);
    }

    proof fn lemma_round_trip(v: T::V, rest: Seq<u8>) {
        T::lemma_round_trip(v, rest);
    }

    fn write(&self, writer: &mut Writer) {
        match self {
            std::borrow::Cow::Borrowed(value) => value.write(writer),
            std::borrow::Cow::Owned(value) => value.write(writer),
        }
    }

    fn read(reader: &mut Reader) -> (r: Result<Self, ReaderError>) {
        Ok(std::borrow::Cow::Owned(T::read(reader)?))
    }
}

/// The encodings of `items`, one after the other.
pub open spec fn encode_items<T: Serializer>(items: Seq<T::V>) -> Seq<u8>
    decreases items.len(),
{
    if items.len() == 0 {
        Seq::empty()
    } else {
        T::encode(items[0]) + encode_items::<T>(items.drop_first())
    }
}

/// `count` values at the front of `bytes`, and the number of bytes they occupy.
pub open spec fn decode_items<T: Serializer>(bytes: Seq<u8>, count: nat) -> Result<
    (Seq<T::V>, int),
    ReaderError,
>
    decreases count,
{
    if count == 0 {
        Ok((Seq::empty(), 0))
    } else {
        match T::decode(bytes) {
            Err(e) => Err(e),
            Ok((first, n)) => match decode_items::<T>(bytes.skip(n), (count - 1) as nat) {
                Err(e) => Err(e),
                Ok((others, m)) => Ok((seq![first] + others, n + m)),
            },
        }
    }
}

/// Every item is canonical.
pub open spec fn all_canonical<T: Serializer>(items: Seq<T::V>) -> bool {
    forall|i: int| 0 <= i < items.len() ==> T::canonical(#[trigger] items[i])
}

/// What `decode_items` gives once `items` were read from the first `used` bytes.
pub open spec fn after_items<T: Serializer>(
    items: Seq<T::V>,
    used: int,
    rest: Result<(Seq<T::V>, int), ReaderError>,
) -> Result<(Seq<T::V>, int), ReaderError> {
    match rest {
        Ok((others, m)) => Ok((items + others, used + m)),
        Err(e) => Err(e),
    }
}

/// The encoding of items with one more behind them is their encoding with that of the last
/// behind it.
pub proof fn lemma_encode_items_push<T: Serializer>(items: Seq<T::V>, last: T::V)
    ensures
        encode_items::<T>(items.push(last)) == encode_items::<T>(items) + T::encode(last),
    decreases items.len(),
{
    if items.len() == 0 {
        let single = items.push(last);
        assert(single.drop_first() =~= Seq::<T::V>::empty());
        assert(single[0] == last);
        assert(encode_items::<T>(single) == T::encode(last) + encode_items::<T>(
            single.drop_first(),
        ));
        assert(encode_items::<T>(single) =~= encode_items::<T>(items) + T::encode(last));
    } else {
        lemma_encode_items_push::<T>(items.drop_first(), last);
        let longer = items.push(last);
        assert(longer.drop_first() =~= items.drop_first().push(last));
        assert(longer[0] == items[0]);
        assert(encode_items::<T>(longer) == T::encode(items[0]) + encode_items::<T>(
            longer.drop_first(),
        ));
        assert(encode_items::<T>(longer) =~= encode_items::<T>(items) + T::encode(last));
    }
}

/// Items that were decoded are as many as asked for, they are canonical, and they took no
/// more bytes than there are.
pub proof fn lemma_decode_items_bounds<T: Serializer>(bytes: Seq<u8>, count: nat)
    ensures
        decode_items::<T>(bytes, count) matches Ok((items, n)) ==> 0 <= n <= bytes.len()
            && items.len() == count && all_canonical::<T>(items),
    decreases count,
{
    if count > 0 {
        T::lemma_decode_bounds(bytes);
        if let Ok((first, n)) = T::decode(bytes) {
            lemma_decode_items_bounds::<T>(bytes.skip(n), (count - 1) as nat);
        }
    }
}

/// The encodings of canonical items, followed by anything, decode to the items.
pub proof fn lemma_items_round_trip<T: Serializer>(items: Seq<T::V>, rest: Seq<u8>)
    requires
        all_canonical::<T>(items),
    ensures
        decode_items::<T>(encode_items::<T>(items) + rest, items.len()) == Ok::<
            (Seq<T::V>, int),
            ReaderError,
        >((items, encode_items::<T>(items).len() as int)),
    decreases items.len(),
{
    if items.len() > 0 {
        let tail = items.drop_first();
        let tail_bytes = encode_items::<T>(tail);
        let head_bytes = T::encode(items[0]);
        assert(all_canonical::<T>(tail)) by {
            assert forall|i: int| 0 <= i < tail.len() implies T::canonical(#[trigger] tail[i]) by {
                assert(tail[i] == items[i + 1]);
            }
        }
        let bytes = encode_items::<T>(items) + rest;
        T::lemma_round_trip(items[0], tail_bytes + rest);
        assert(bytes =~= head_bytes + (tail_bytes + rest));
        assert(T::decode(bytes) == Ok::<(T::V, int), ReaderError>(
            (items[0], head_bytes.len() as int),
        ));
        assert(bytes.skip(head_bytes.len() as int) =~= tail_bytes + rest);
        lemma_items_round_trip::<T>(tail, rest);
        assert(decode_items::<T>(bytes.skip(head_bytes.len() as int), tail.len()) == Ok::<
            (Seq<T::V>, int),
            ReaderError,
        >((tail, tail_bytes.len() as int)));
        assert(seq![items[0]] + tail =~= items);
        assert(encode_items::<T>(items).len() == head_bytes.len() + tail_bytes.len());
    } else {
        assert(items =~= Seq::<T::V>::empty());
    }
}

/// The count that is written in front of `len` elements: `len`, cut to two bytes.
pub fn count_of(len: usize) -> (count: u16)
    ensures
        count == len % 0x1_0000,
{
    (len % 0x1_0000) as u16
}

/// A vector is a two-byte count, at most `MAX_ITEMS`, followed by that many elements.
impl<T: Serializer> Serializer for Vec<T> {
    open spec fn canonical(v: Seq<T::V>) -> bool {
        v.len() <= MAX_ITEMS && all_canonical::<T>(v)
    }

    open spec fn encode(v: Seq<T::V>) -> Seq<u8> {
        encode_count(v.len()) + encode_items::<T>(v)
    }

    open spec fn decode(bytes: Seq<u8>) -> Result<(Seq<T::V>, int), ReaderError> {
        match decode_uint(bytes, 2) {
            Err(e) => Err(e),
            Ok((count, _)) => if count > MAX_ITEMS {
                Err(ReaderError::InvalidSize)
            } else {
                after_items::<T>(Seq::empty(), 2, decode_items::<T>(bytes.skip(2), count))
            },
        }
    }

    proof fn lemma_decode_bounds(bytes: Seq<u8>) {
        if let Ok((count, _)) = decode_uint(bytes, 2) {
            lemma_decode_items_bounds::<T>(bytes.skip(2), count);
            if let Ok((items, n)) = decode_items::<T>(bytes.skip(2), count) {
                assert(Seq::<T::V>::empty() + items =~= items);
            }
        }
    }

    proof fn lemma_round_trip(v: Seq<T::V>, rest: Seq<u8>) {
        let count = encode_count(v.len());
        let items = encode_items::<T>(v);
        lemma_pow256_values();
        lemma_be_bytes_len(v.len(), 2);
        lemma_decode_uint_round_trip(v.len(), 2, items + rest);
        assert(Self::encode(v) + rest =~= count + (items + rest));
        assert((count + (items + rest)).skip(2) =~= items + rest);
        lemma_items_round_trip::<T>(v, rest);
        assert(Seq::<T::V>::empty() + v =~= v);
    }

    fn write(&self, writer: &mut Writer) {
        let count: u16 = (self.len() % 0x1_0000) as u16;
        writer.write_u16(count);
        write_items(self, writer);
        assert(writer@ =~= old(writer)@ + Self::encode(self.deep_view()));
    }

    fn read(reader: &mut Reader) -> (r: Result<Self, ReaderError>) {
        proof {
            use_type_invariant(&*reader);
            reader.lemma_in_bounds();
        }
        let count = reader.read_u16()?;
        if count as usize > MAX_ITEMS {
            return Err(ReaderError::InvalidSize);
        }
        assert(reader.remaining() =~= old(reader).remaining().skip(2));
        let values = read_items::<T>(reader, count as usize)?;
        proof {
            assert(Seq::<T::V>::empty() + values.deep_view() =~= values.deep_view());
        }
        Ok(values)
    }
}

/// A vector whose count is above `MAX_ITEMS` is refused with `InvalidSize`,
/// whatever its elements are.
pub proof fn lemma_vec_rejects_count_above_max<T: Serializer>(v: Seq<T::V>, rest: Seq<u8>)
    requires
        MAX_ITEMS < v.len() < 0x1_0000,
    ensures
        Vec::<T>::decode(Vec::<T>::encode(v) + rest) == Err::<(Seq<T::V>, int), ReaderError>(
            ReaderError::InvalidSize,
        ),
{
    let items = encode_items::<T>(v);
    lemma_pow256_values();
    lemma_decode_uint_round_trip(v.len(), 2, items + rest);
    assert(Vec::<T>::encode(v) + rest =~= encode_count(v.len()) + (items + rest));
}

/// Appends the encoding of each item, in order.
pub fn write_items<T: Serializer>(items: &Vec<T>, writer: &mut Writer)
    ensures
        final(writer)@ == old(writer)@ + encode_items::<T>(items.deep_view()),
{
    let mut i: usize = 0;
    assert(writer@ =~= old(writer)@ + encode_items::<T>(items.deep_view().take(0)));
    while i < items.len()
        invariant
            0 <= i <= items.len(),
            writer@ == old(writer)@ + encode_items::<T>(items.deep_view().take(i as int)),
        decreases items.len() - i,
    {
        items[i].write(writer);
        proof {
            let done = items.deep_view().take(i as int);
            lemma_encode_items_push::<T>(done, items[i as int].deep_view());
            assert(items.deep_view().take(i + 1) =~= done.push(items[i as int].deep_view()));
        }
        i += 1;
    }
    proof {
        assert(items.deep_view().take(items.len() as int) =~= items.deep_view());
    }
}

/// Reads `count` values, one after the other. Room is set aside for at most
/// `MAX_ITEMS` of them before the first is read.
pub fn read_items<T: Serializer>(reader: &mut Reader, count: usize) -> (r: Result<
    Vec<T>,
    ReaderError,
>)
    ensures
        final(reader).buffer() == old(reader).buffer(),
        match decode_items::<T>(old(reader).remaining(), count as nat) {
            Ok((v, n)) => r matches Ok(x) && x.deep_view() == v && final(reader).position() == old(
                reader,
            ).position() + n,
            Err(e) => r matches Err(f) && f == e,
        },
{
    proof {
        use_type_invariant(&*reader);
        reader.lemma_in_bounds();
    }
    let ghost start = reader.remaining();
    let ghost whole = decode_items::<T>(start, count as nat);
    let capacity: usize = if count < MAX_ITEMS {
        count
    } else {
        MAX_ITEMS
    };
    let mut values: Vec<T> = Vec::with_capacity(capacity);
    let mut i: usize = 0;
    while i < count
        invariant
            0 <= i <= count,
            reader.buffer() == old(reader).buffer(),
            old(reader).position() <= reader.position() <= reader.buffer().len(),
            start == old(reader).remaining(),
            whole == decode_items::<T>(start, count as nat),
            values@.len() == i,
            after_items::<T>(
                values.deep_view(),
                reader.position() - old(reader).position(),
                decode_items::<T>(reader.remaining(), (count - i) as nat),
            ) == whole,
        decreases count - i,
    {
        let ghost before = reader.remaining();
        let ghost seen = values.deep_view();
        proof {
            T::lemma_decode_bounds(before);
        }
        let value = match T::read(reader) {
            Ok(value) => value,
            Err(e) => {
                return Err(e);
            },
        };
        values.push(value);
        proof {
            let n = T::decode(before)->Ok_0.1;
            assert(reader.remaining() =~= before.skip(n));
            assert(values.deep_view() =~= seen.push(value.deep_view()));
            let rest = decode_items::<T>(before.skip(n), (count - i - 1) as nat);
            if let Ok((others, m)) = rest {
                assert(seen.push(value.deep_view()) + others =~= seen + (seq![value.deep_view()]
                    + others));
            }
        }
        i += 1;
    }
    proof {
        assert(values.deep_view() + Seq::<T::V>::empty() =~= values.deep_view());
    }
    Ok(values)
}

} // verus!
