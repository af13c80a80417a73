pub mod bytes;
pub mod defaults;
pub mod maps;
pub mod sets;
pub mod sorted_set;
pub mod reader;
pub mod writer;

use crate::serializer::reader::Reader;
use crate::serializer::writer::Writer;
use vstd::prelude::*;

verus! {

/// Largest number of elements a length-prefixed container may declare.
pub const MAX_ITEMS: usize = 1024;

/// Why a value could not be read.
#[derive(Clone, Copy, Debug, PartialEq, Eq, Structural)]
pub enum ReaderError {
    /// The buffer is too short, or a declared length is out of bounds.
    InvalidSize,
    /// The bytes do not stand for a value of the expected type.
    InvalidValue,
    /// The text is not the hexadecimal form of a value of the expected size.
    InvalidHex,
}

impl ReaderError {
    /// Human-readable description of the error.
    pub fn message(&self) -> (s: &'static str)
        ensures
            s@ == match *self {
                ReaderError::InvalidSize => "Invalid size"@,
                ReaderError::InvalidValue => "Invalid value"@,
                ReaderError::InvalidHex => "Invalid hex"@,
            },
    {
        match self {
            ReaderError::InvalidSize => "Invalid size",
            ReaderError::InvalidValue => "Invalid value",
            ReaderError::InvalidHex => "Invalid hex",
        }
    }
}

/// A type with a deterministic binary form.
///
/// The form is stated over the type's deep view: `encode` gives the bytes of a
/// value, `decode` parses a value from the front of a byte sequence and says how
/// many bytes it took. `canonical` marks the values that `decode` can produce;
/// for those, decoding what was encoded gives the value back.
pub trait Serializer: Sized + DeepView {
    /// The values that a decoder accepts.
    spec fn canonical(v: Self::V) -> bool;

    /// The bytes that stand for `v`.
    spec fn encode(v: Self::V) -> Seq<u8>;

    /// The value at the front of `bytes` and the number of bytes it occupies.
    spec fn decode(bytes: Seq<u8>) -> Result<(Self::V, int), ReaderError>;

    /// A decoded value is canonical and takes no more bytes than there are.
    proof fn lemma_decode_bounds(bytes: Seq<u8>)
        ensures
            Self::decode(bytes) matches Ok((v, n)) ==> 0 <= n <= bytes.len() && Self::canonical(v),
    ;

    /// Decoding the encoding of a canonical value returns that value, whatever follows it.
    proof fn lemma_round_trip(v: Self::V, rest: Seq<u8>)
        requires
            Self::canonical(v),
        ensures
            Self::decode(Self::encode(v) + rest) == Ok::<(Self::V, int), ReaderError>(
                (v, Self::encode(v).len() as int),
            ),
    ;

    /// Appends the encoding of `self` to `writer`.
    fn write(&self, writer: &mut Writer)
        ensures
            final(writer)@ == old(writer)@ + Self::encode(self.deep_view()),
    ;

    /// Reads one value from the front of what `reader` has left.
    fn read(reader: &mut Reader) -> (r: Result<Self, ReaderError>)
        ensures
            final(reader).buffer() == old(reader).buffer(),
            match Self::decode(old(reader).remaining()) {
                Ok((v, n)) => r matches Ok(x) && x.deep_view() == v && final(reader).position()
                    == old(reader).position() + n,
                Err(e) => r matches Err(f) && f == e,
            },
    ;
}

/// The bytes that stand for `value`.
pub fn to_bytes<T: Serializer>(value: &T) -> (bytes: Vec<u8>)
    ensures
        bytes@ == T::encode(value.deep_view()),
{
    let mut writer = Writer::new();
    value.write(&mut writer);
    assert(writer@ =~= T::encode(value.deep_view()));
    writer.bytes()
}

/// The value at the front of `bytes`. Bytes behind it are left unread.
pub fn from_bytes<T: Serializer>(bytes: &[u8]) -> (r: Result<T, ReaderError>)
    ensures
        match T::decode(bytes@) {
            Ok((v, n)) => r matches Ok(x) && x.deep_view() == v,
            Err(e) => r matches Err(f) && f == e,
        },
{
    let mut reader = Reader::new(bytes);
    assert(reader.remaining() =~= bytes@);
    T::read(&mut reader)
}

} // verus!
