use crate::crypto;
use crate::serializer::bytes::{be_bytes, encode_count};
use vstd::prelude::*;
use vstd::utf8::encode_utf8;

verus! {

/// An append-only byte buffer. Integers are written big-endian.
pub struct Writer {
    bytes: Vec<u8>,
}

impl View for Writer {
    type V = Seq<u8>;

    closed spec fn view(&self) -> Seq<u8> {
        self.bytes@
    }
}

impl Writer {
    /// An empty buffer.
    pub fn new() -> (w: Writer)
        ensures
            w@ == Seq::<u8>::empty(),
    {
        Writer { bytes: Vec::new() }
    }

    /// Appends the `width` low-order bytes of `value`, most significant first.
    fn write_be(&mut self, value: u128, width: usize)
        ensures
            final(self)@ == old(self)@ + be_bytes(value as nat, width as nat),
        decreases width,
    {
        if width > 0 {
            self.write_be(value / 256, width - 1);
            self.bytes.push((value % 256) as u8);
            assert(self@ =~= old(self)@ + be_bytes(value as nat, width as nat));
        } else {
            assert(self@ =~= old(self)@ + be_bytes(value as nat, width as nat));
        }
    }

    /// Appends one byte.
    pub fn write_u8(&mut self, value: u8)
        ensures
            final(self)@ == old(self)@.push(value),
    {
        self.bytes.push(value);
    }

    /// Appends an unsigned integer as two bytes.
    pub fn write_u16(&mut self, value: u16)
        ensures
            final(self)@ == old(self)@ + be_bytes(value as nat, 2),
    {
        self.write_be(value as u128, 2);
    }

    /// Appends an unsigned integer as four bytes.
    pub fn write_u32(&mut self, value: &u32)
        ensures
            final(self)@ == old(self)@ + be_bytes(*value as nat, 4),
    {
        self.write_be(*value as u128, 4);
    }

    /// Appends an unsigned integer as eight bytes.
    pub fn write_u64(&mut self, value: &u64)
        ensures
            final(self)@ == old(self)@ + be_bytes(*value as nat, 8),
    {
        self.write_be(*value as u128, 8);
    }

    /// Appends an unsigned integer as sixteen bytes.
    pub fn write_u128(&mut self, value: &u128)
        ensures
            final(self)@ == old(self)@ + be_bytes(*value as nat, 16),
    {
        self.write_be(*value, 16);
    }

    /// Appends a boolean as one byte: 1 for true, 0 for false.
    pub fn write_bool(&mut self, value: bool)
        ensures
            final(self)@ == old(self)@.push(
                if value {
                    1u8
                } else {
                    0u8
                },
            ),
    {
        self.bytes.push(if value { 1 } else { 0 });
    }

    /// Appends the bytes as they are.
    pub fn write_bytes(&mut self, bytes: &[u8])
        ensures
            final(self)@ == old(self)@ + bytes@,
    {
        let mut i: usize = 0;
        while i < bytes.len()
            invariant
                0 <= i <= bytes.len(),
                self@ == old(self)@ + bytes@.take(i as int),
            decreases bytes.len() - i,
        {
            self.bytes.push(bytes[i]);
            assert(bytes@.take(i + 1) =~= bytes@.take(i as int).push(bytes@[i as int]));
            i += 1;
        }
        assert(bytes@.take(bytes.len() as int) =~= bytes@);
    }

    /// Appends a string: the length of its UTF-8 form, cut to two bytes, then
    /// that form.
    pub fn write_string(&mut self, value: &String)
        ensures
            final(self)@ == old(self)@ + encode_count(encode_utf8(value@).len()) + encode_utf8(
                value@,
            ),
    {
        let bytes = value.as_str().as_bytes();
        let len: u16 = (bytes.len() % 0x1_0000) as u16;
        self.write_u16(len);
        self.write_bytes(bytes);
    }

    /// Appends the 32 bytes of a hash.
    pub fn write_hash(&mut self, hash: &crypto::Hash)
        ensures
            final(self)@ == old(self)@ + hash@,
    {
        self.write_bytes(hash.as_bytes().as_slice());
    }

    /// Number of bytes written so far.
    pub fn total_write(&self) -> (n: usize)
        ensures
            n == self@.len(),
    {
        self.bytes.len()
    }

    /// The bytes written so far.
    pub fn as_bytes(&self) -> (b: &[u8])
        ensures
            b@ == self@,
    {
        self.bytes.as_slice()
    }

    /// Gives up the buffer.
    pub fn bytes(self) -> (b: Vec<u8>)
        ensures
            b@ == self@,
    {
        self.bytes
    }
}

} // verus!
