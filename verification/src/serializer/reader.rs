use crate::crypto;
use crate::serializer::bytes::{
    be_value, decode_bool, decode_text, decode_uint, lemma_pow256_monotonic, lemma_pow256_values,
    pow256,
};
use crate::serializer::ReaderError;
use vstd::prelude::*;
use vstd::slice::slice_subrange;
use vstd::utf8::{decode_utf8, valid_utf8};

verus! {

/// `String::from_utf8`: the string that the bytes are the UTF-8 form of, or
/// nothing where they are not valid UTF-8.
#[verifier::external_body]
fn string_from_utf8(bytes: Vec<u8>) -> (r: Option<String>)
    ensures
        r is Some == valid_utf8(bytes@),
        r matches Some(s) ==> s@ == decode_utf8(bytes@),
{
    String::from_utf8(bytes).ok()
}

/// A cursor over a byte buffer. Integers are read big-endian.
pub struct Reader<'a> {
    bytes: &'a [u8],
    total: usize,
}

/// The number that the `width` bytes of `bytes` before `end` stand for.
fn be_read(bytes: &[u8], end: usize, width: usize) -> (v: u128)
    requires
        width <= end <= bytes@.len(),
        width <= 16,
    ensures
        v == be_value(bytes@.subrange(end - width, end as int)),
        v < pow256(width as nat),
    decreases width,
{
    if width == 0 {
        0
    } else {
        let high = be_read(bytes, end - 1, width - 1);
        let low = bytes[end - 1];
        proof {
            let whole = bytes@.subrange(end - width, end as int);
            assert(whole.drop_last() =~= bytes@.subrange(end - width, end - 1));
            lemma_pow256_monotonic(width as nat, 16);
            lemma_pow256_values();
        }
        high * 256 + low as u128
    }
}

impl<'a> Reader<'a> {
    /// The cursor never passes the end of the buffer.
    #[verifier::type_invariant]
    pub closed spec fn in_bounds(self) -> bool {
        self.total <= self.bytes@.len()
    }

    /// A cursor in bounds stands at or before the end of its buffer.
    pub proof fn lemma_in_bounds(self)
        requires
            self.in_bounds(),
        ensures
            0 <= self.position() <= self.buffer().len(),
    {
    }

    /// The whole buffer under the cursor.
    pub closed spec fn buffer(&self) -> Seq<u8> {
        self.bytes@
    }

    /// Number of bytes already consumed.
    pub closed spec fn position(&self) -> nat {
        self.total as nat
    }

    /// The bytes not yet consumed.
    pub open spec fn remaining(&self) -> Seq<u8> {
        self.buffer().skip(self.position() as int)
    }

    /// A cursor at the start of `bytes`.
    pub fn new(bytes: &'a [u8]) -> (r: Reader<'a>)
        ensures
            r.buffer() == bytes@,
            r.position() == 0,
    {
        Reader { bytes, total: 0 }
    }

    /// Length of the whole buffer.
    pub fn total_size(&self) -> (n: usize)
        ensures
            n == self.buffer().len(),
    {
        self.bytes.len()
    }

    /// Number of bytes consumed so far.
    pub fn total_read(&self) -> (n: usize)
        ensures
            n == self.position(),
    {
        self.total
    }

    /// Number of bytes left.
    pub fn size(&self) -> (n: usize)
        ensures
            n == self.remaining().len(),
            n == self.buffer().len() - self.position(),
    {
        proof {
            use_type_invariant(self);
        }
        self.bytes.len() - self.total
    }

    /// Reads an unsigned big-endian integer of `width` bytes.
    fn read_be(&mut self, width: usize) -> (r: Result<u128, ReaderError>)
        requires
            width <= 16,
        ensures
            final(self).buffer() == old(self).buffer(),
            match decode_uint(old(self).remaining(), width as nat) {
                Ok((v, n)) => r == Ok::<u128, ReaderError>(v as u128) && v < pow256(width as nat)
                    && final(self).position() == old(self).position() + n,
                Err(e) => r == Err::<u128, ReaderError>(e) && final(self).position() == old(
                    self,
                ).position(),
            },
    {
        proof {
            use_type_invariant(&*self);
        }
        if self.bytes.len() - self.total < width {
            return Err(ReaderError::InvalidSize);
        }
        let v = be_read(self.bytes, self.total + width, width);
        proof {
            assert(self.remaining().take(width as int) =~= self.bytes@.subrange(
                self.total as int,
                self.total + width,
            ));
            lemma_pow256_monotonic(width as nat, 16);
            lemma_pow256_values();
        }
        self.total = self.total + width;
        Ok(v)
    }

    /// Reads one byte.
    pub fn read_u8(&mut self) -> (r: Result<u8, ReaderError>)
        ensures
            final(self).buffer() == old(self).buffer(),
            old(self).remaining().len() == 0 ==> r == Err::<u8, ReaderError>(
                ReaderError::InvalidSize,
            ) && final(self).position() == old(self).position(),
            old(self).remaining().len() > 0 ==> r == Ok::<u8, ReaderError>(old(self).remaining()[0])
                && final(self).position() == old(self).position() + 1,
    {
        proof {
            use_type_invariant(&*self);
        }
        if self.total >= self.bytes.len() {
            return Err(ReaderError::InvalidSize);
        }
        let byte = self.bytes[self.total];
        self.total = self.total + 1;
        Ok(byte)
    }

    /// Reads one byte as a boolean: 0 is false, 1 is true, anything else is `InvalidValue`.
    pub fn read_bool(&mut self) -> (r: Result<bool, ReaderError>)
        ensures
            final(self).buffer() == old(self).buffer(),
            r == decode_bool(old(self).remaining()),
            r is Ok ==> final(self).position() == old(self).position() + 1,
    {
        let byte = self.read_u8()?;
        if byte == 0 {
            Ok(false)
        } else if byte == 1 {
            Ok(true)
        } else {
            Err(ReaderError::InvalidValue)
        }
    }

    /// Reads the next `N` bytes.
    pub fn read_bytes<const N: usize>(&mut self) -> (r: Result<[u8; N], ReaderError>)
        ensures
            final(self).buffer() == old(self).buffer(),
            old(self).remaining().len() < N ==> r is Err && r->Err_0 == ReaderError::InvalidSize,
            old(self).remaining().len() >= N ==> r is Ok && r->Ok_0@ == old(self).remaining().take(
                N as int,
            ) && final(self).position() == old(self).position() + N,
    {
        proof {
            use_type_invariant(&*self);
        }
        if self.bytes.len() - self.total < N {
            return Err(ReaderError::InvalidSize);
        }
        let len: usize = self.bytes.len();
        let mut out: [u8; N] = [0u8; N];
        let mut i: usize = 0;
        while i < N
            invariant
                0 <= i <= N,
                self.total + N <= len,
                len == self.bytes@.len(),
                forall|j: int| 0 <= j < i ==> out@[j] == self.bytes@[self.total + j],
            decreases N - i,
        {
            out[i] = self.bytes[self.total + i];
            i += 1;
        }
        assert(out@ =~= self.remaining().take(N as int));
        self.total = self.total + N;
        Ok(out)
    }

    /// Reads the next `count` bytes.
    pub fn read_bytes_ref(&mut self, count: usize) -> (r: Result<&'a [u8], ReaderError>)
        ensures
            final(self).buffer() == old(self).buffer(),
            old(self).remaining().len() < count ==> r is Err && r->Err_0
                == ReaderError::InvalidSize,
            old(self).remaining().len() >= count ==> r is Ok && r->Ok_0@ == old(
                self,
            ).remaining().take(count as int) && final(self).position() == old(self).position()
                + count,
    {
        proof {
            use_type_invariant(&*self);
        }
        if self.bytes.len() - self.total < count {
            return Err(ReaderError::InvalidSize);
        }
        let bytes: &'a [u8] = self.bytes;
        let out = slice_subrange(bytes, self.total, self.total + count);
        assert(out@ =~= self.remaining().take(count as int));
        self.total = self.total + count;
        Ok(out)
    }

    /// Reads a string: the length of its UTF-8 form in two bytes, then that
    /// form. Bytes that are not valid UTF-8 are `InvalidValue`.
    pub fn read_string(&mut self) -> (r: Result<String, ReaderError>)
        ensures
            final(self).buffer() == old(self).buffer(),
            match decode_text(old(self).remaining()) {
                Ok((v, n)) => r matches Ok(x) && x@ == v && final(self).position() == old(
                    self,
                ).position() + n,
                Err(e) => r matches Err(f) && f == e,
            },
    {
        proof {
            use_type_invariant(&*self);
        }
        let ghost bytes = self.remaining();
        let len = self.read_u16()?;
        assert(self.remaining() =~= bytes.skip(2));
        let body = self.read_bytes_ref(len as usize)?;
        assert(body@ =~= bytes.subrange(2, 2 + len));
        let mut owned: Vec<u8> = Vec::with_capacity(body.len());
        let mut i: usize = 0;
        while i < body.len()
            invariant
                0 <= i <= body.len(),
                owned@ == body@.take(i as int),
            decreases body.len() - i,
        {
            owned.push(body[i]);
            assert(owned@ =~= body@.take(i + 1));
            i += 1;
        }
        assert(owned@ =~= body@);
        match string_from_utf8(owned) {
            Some(text) => Ok(text),
            None => Err(ReaderError::InvalidValue),
        }
    }

    /// Reads the 32 bytes of a hash.
    pub fn read_hash(&mut self) -> (r: Result<crypto::Hash, ReaderError>)
        ensures
            final(self).buffer() == old(self).buffer(),
            old(self).remaining().len() < 32 ==> r is Err && r->Err_0 == ReaderError::InvalidSize,
            old(self).remaining().len() >= 32 ==> r is Ok && r->Ok_0@ == old(self).remaining().take(
                32,
            ) && final(self).position() == old(self).position() + 32,
    {
        let bytes = self.read_bytes::<32>()?;
        Ok(crypto::Hash::new(bytes))
    }

    /// Reads an unsigned integer of two bytes.
    pub fn read_u16(&mut self) -> (r: Result<u16, ReaderError>)
        ensures
            final(self).buffer() == old(self).buffer(),
            match decode_uint(old(self).remaining(), 2) {
                Ok((v, n)) => r == Ok::<u16, ReaderError>(v as u16) && v <= u16::MAX
                    && final(self).position() == old(self).position() + n,
                Err(e) => r == Err::<u16, ReaderError>(e) && final(self).position() == old(
                    self,
                ).position(),
            },
    {
        proof {
            lemma_pow256_values();
        }
        match self.read_be(2) {
            Ok(v) => Ok(v as u16),
            Err(e) => Err(e),
        }
    }

    /// Reads an unsigned integer of four bytes.
    pub fn read_u32(&mut self) -> (r: Result<u32, ReaderError>)
        ensures
            final(self).buffer() == old(self).buffer(),
            match decode_uint(old(self).remaining(), 4) {
                Ok((v, n)) => r == Ok::<u32, ReaderError>(v as u32) && v <= u32::MAX
                    && final(self).position() == old(self).position() + n,
                Err(e) => r == Err::<u32, ReaderError>(e) && final(self).position() == old(
                    self,
                ).position(),
            },
    {
        proof {
            lemma_pow256_values();
        }
        match self.read_be(4) {
            Ok(v) => Ok(v as u32),
            Err(e) => Err(e),
        }
    }

    /// Reads an unsigned integer of eight bytes.
    pub fn read_u64(&mut self) -> (r: Result<u64, ReaderError>)
        ensures
            final(self).buffer() == old(self).buffer(),
            match decode_uint(old(self).remaining(), 8) {
                Ok((v, n)) => r == Ok::<u64, ReaderError>(v as u64) && v <= u64::MAX
                    && final(self).position() == old(self).position() + n,
                Err(e) => r == Err::<u64, ReaderError>(e) && final(self).position() == old(
                    self,
                ).position(),
            },
    {
        proof {
            lemma_pow256_values();
        }
        match self.read_be(8) {
            Ok(v) => Ok(v as u64),
            Err(e) => Err(e),
        }
    }

    /// Reads an unsigned integer of sixteen bytes.
    pub fn read_u128(&mut self) -> (r: Result<u128, ReaderError>)
        ensures
            final(self).buffer() == old(self).buffer(),
            match decode_uint(old(self).remaining(), 16) {
                Ok((v, n)) => r == Ok::<u128, ReaderError>(v as u128) && v <= u128::MAX
                    && final(self).position() == old(self).position() + n,
                Err(e) => r == Err::<u128, ReaderError>(e) && final(self).position() == old(
                    self,
                ).position(),
            },
    {
        proof {
            lemma_pow256_values();
        }
        self.read_be(16)
    }
}

} // verus!
