use crate::serializer::ReaderError;
use crate::vec_map::Key;
use vstd::prelude::*;
use vstd::string::StringSliceAdditionalSpecFns;

verus! {

/// Number of bytes in a [`Hash`].
pub const HASH_SIZE: usize = 32;

/// A 32-byte content identifier, ordered lexicographically by its bytes.
#[derive(Clone, Copy, Debug, PartialEq, Eq, PartialOrd, Ord, Hash)]
pub struct Hash {
    bytes: [u8; 32],
}

/// Strict lexicographic order on byte sequences of equal length.
pub open spec fn lex_less(a: Seq<u8>, b: Seq<u8>) -> bool {
    exists|k: int| 0 <= k < a.len() && k < b.len() && #[trigger] agree_before(a, b, k) && a[k] < b[k]
}

/// The two sequences hold the same bytes at every index below `k`.
pub open spec fn agree_before(a: Seq<u8>, b: Seq<u8>, k: int) -> bool {
    forall|i: int| 0 <= i < k ==> a[i] == b[i]
}

/// The value of a hexadecimal digit, in either case.
pub open spec fn hex_digit(c: u8) -> Option<u8> {
    if 0x30 <= c <= 0x39 {
        Some((c - 0x30) as u8)
    } else if 0x61 <= c <= 0x66 {
        Some((c - 0x61 + 10) as u8)
    } else if 0x41 <= c <= 0x46 {
        Some((c - 0x41 + 10) as u8)
    } else {
        None
    }
}

/// Whether `text` is 64 hexadecimal digits.
pub open spec fn is_hex_hash(text: Seq<u8>) -> bool {
    text.len() == 64 && forall|i: int| 0 <= i < 64 ==> hex_digit(#[trigger] text[i]) is Some
}

/// The 32 bytes that 64 hexadecimal digits stand for, two digits to a byte,
/// the high one first.
pub open spec fn hex_hash(text: Seq<u8>) -> Seq<u8> {
    Seq::new(
        32,
        |i: int| (hex_digit(text[2 * i])->Some_0 * 16 + hex_digit(text[2 * i + 1])->Some_0) as u8,
    )
}

/// The value of a hexadecimal digit, in either case.
fn hex_value(c: u8) -> (r: Option<u8>)
    ensures
        r == hex_digit(c),
        r matches Some(v) ==> v < 16,
{
    if 0x30 <= c && c <= 0x39 {
        Some(c - 0x30)
    } else if 0x61 <= c && c <= 0x66 {
        Some(c - 0x61 + 10)
    } else if 0x41 <= c && c <= 0x46 {
        Some(c - 0x41 + 10)
    } else {
        None
    }
}

impl View for Hash {
    type V = Seq<u8>;

    closed spec fn view(&self) -> Seq<u8> {
        self.bytes@
    }
}

impl Hash {
    /// The hash with the given bytes.
    pub fn new(bytes: [u8; 32]) -> (h: Hash)
        ensures
            h@ == bytes@,
    {
        Hash { bytes }
    }

    /// The hash whose bytes are all zero.
    pub fn zero() -> (h: Hash)
        ensures
            h@ == Seq::new(32, |i: int| 0u8),
    {
        let h = Hash { bytes: [0u8; 32] };
        assert(h@ =~= Seq::new(32, |i: int| 0u8));
        h
    }

    /// The bytes of the hash.
    pub fn as_bytes(&self) -> (b: &[u8; 32])
        ensures
            b@ == self@,
    {
        &self.bytes
    }

    /// The hash that `hex` is the hexadecimal form of: 64 digits, in either
    /// case. Anything else is `InvalidHex`.
    pub fn from_hex(hex: &str) -> (r: Result<Hash, ReaderError>)
        ensures
            is_hex_hash(hex.spec_bytes()) ==> r is Ok && r->Ok_0@ == hex_hash(hex.spec_bytes()),
            !is_hex_hash(hex.spec_bytes()) ==> r == Err::<Hash, ReaderError>(
                ReaderError::InvalidHex,
            ),
    {
        let text = hex.as_bytes();
        if text.len() != 64 {
            return Err(ReaderError::InvalidHex);
        }
        let mut bytes = [0u8; 32];
        let mut i: usize = 0;
        while i < 32
            invariant
                0 <= i <= 32,
                text@.len() == 64,
                text@ == hex.spec_bytes(),
                forall|j: int| 0 <= j < 2 * i ==> hex_digit(#[trigger] text@[j]) is Some,
                forall|j: int| 0 <= j < i ==> bytes@[j] == hex_hash(text@)[j],
            decreases 32 - i,
        {
            let high = match hex_value(text[2 * i]) {
                Some(high) => high,
                None => {
                    return Err(ReaderError::InvalidHex);
                },
            };
            let low = match hex_value(text[2 * i + 1]) {
                Some(low) => low,
                None => {
                    return Err(ReaderError::InvalidHex);
                },
            };
            bytes[i] = high * 16 + low;
            i += 1;
        }
        let hash = Hash { bytes };
        assert(hash@ =~= hex_hash(text@));
        Ok(hash)
    }

    /// A hash has 32 bytes.
    pub proof fn lemma_len(self)
        ensures
            self@.len() == 32,
    {
    }

    /// Two hashes with the same bytes are the same hash.
    pub proof fn lemma_view_injective(self, other: Hash)
        ensures
            self@ == other@ <==> self == other,
    {
        if self@ == other@ {
            assert(self.bytes =~= other.bytes);
        }
    }

    /// Whether the two hashes have the same bytes.
    pub fn equals(&self, other: &Hash) -> (r: bool)
        ensures
            r == (self@ == other@),
    {
        let mut i: usize = 0;
        while i < 32
            invariant
                0 <= i <= 32,
                agree_before(self@, other@, i as int),
            decreases 32 - i,
        {
            if self.bytes[i] != other.bytes[i] {
                return false;
            }
            i += 1;
        }
        assert(self@ =~= other@);
        true
    }

    /// Whether this hash comes before `other` in lexicographic order.
    pub fn less_than(&self, other: &Hash) -> (r: bool)
        ensures
            r == lex_less(self@, other@),
    {
        let mut i: usize = 0;
        while i < 32
            invariant
                0 <= i <= 32,
                agree_before(self@, other@, i as int),
            decreases 32 - i,
        {
            if self.bytes[i] < other.bytes[i] {
                return true;
            }
            if self.bytes[i] > other.bytes[i] {
                proof {
                    lemma_lex_first_difference(self@, other@, i as int);
                }
                return false;
            }
            i += 1;
        }
        proof {
            assert(self@ =~= other@);
            lemma_lex_irreflexive(self@);
        }
        false
    }
}

impl Key for Hash {
    fn same(&self, other: &Hash) -> (r: bool) {
        proof {
            self.lemma_view_injective(*other);
        }
        self.equals(other)
    }
}

/// The compressed public key of an account: 32 bytes.
#[derive(Clone, Copy, Debug, PartialEq, Eq, PartialOrd, Ord, Hash)]
pub struct PublicKey {
    bytes: [u8; 32],
}

impl View for PublicKey {
    type V = Seq<u8>;

    closed spec fn view(&self) -> Seq<u8> {
        self.bytes@
    }
}

impl PublicKey {
    /// The key with the given bytes.
    pub fn new(bytes: [u8; 32]) -> (k: PublicKey)
        ensures
            k@ == bytes@,
    {
        PublicKey { bytes }
    }

    /// The bytes of the key.
    pub fn as_bytes(&self) -> (b: &[u8; 32])
        ensures
            b@ == self@,
    {
        &self.bytes
    }

    /// Two keys with the same bytes are the same key.
    pub proof fn lemma_view_injective(self, other: PublicKey)
        ensures
            self@ == other@ <==> self == other,
    {
        if self@ == other@ {
            assert(self.bytes =~= other.bytes);
        }
    }

    /// Whether the two keys have the same bytes.
    pub fn equals(&self, other: &PublicKey) -> (r: bool)
        ensures
            r == (self@ == other@),
    {
        let mut i: usize = 0;
        while i < 32
            invariant
                0 <= i <= 32,
                agree_before(self@, other@, i as int),
            decreases 32 - i,
        {
            if self.bytes[i] != other.bytes[i] {
                return false;
            }
            i += 1;
        }
        assert(self@ =~= other@);
        true
    }
}

impl Key for PublicKey {
    fn same(&self, other: &PublicKey) -> (r: bool) {
        proof {
            self.lemma_view_injective(*other);
        }
        self.equals(other)
    }
}

/// A compressed ElGamal ciphertext: a commitment and a decrypt handle, 32 bytes each.
///
/// The all-zero value is the encryption of zero.
#[derive(Clone, Copy, Debug, PartialEq, Eq)]
pub struct Ciphertext {
    commitment: [u8; 32],
    handle: [u8; 32],
}

impl Ciphertext {
    /// The commitment followed by the handle.
    pub closed spec fn bytes(&self) -> Seq<u8> {
        self.commitment@ + self.handle@
    }

    /// The encryption of zero.
    pub open spec fn spec_zero() -> Ciphertext {
        Ciphertext::from_bytes(Seq::new(64, |i: int| 0u8))
    }

    /// The ciphertext whose 64 bytes are `bytes`.
    pub closed spec fn from_bytes(bytes: Seq<u8>) -> Ciphertext {
        choose|c: Ciphertext| c.bytes() == bytes
    }

    /// The ciphertext with the given commitment and handle.
    pub fn new(commitment: [u8; 32], handle: [u8; 32]) -> (c: Ciphertext)
        ensures
            c.bytes() == commitment@ + handle@,
    {
        Ciphertext { commitment, handle }
    }

    /// The encryption of zero.
    #[verifier::when_used_as_spec(spec_zero)]
    pub fn zero() -> (c: Ciphertext)
        ensures
            c == Ciphertext::spec_zero(),
            c.bytes() == Seq::new(64, |i: int| 0u8),
    {
        let c = Ciphertext { commitment: [0u8; 32], handle: [0u8; 32] };
        proof {
            let zeros = Seq::new(64, |i: int| 0u8);
            assert(c.bytes() =~= zeros);
            let d = Ciphertext::from_bytes(zeros);
            assert(d.bytes() == zeros);
            d.lemma_bytes_injective(c);
        }
        c
    }

    /// The first 32 bytes: the commitment.
    pub fn commitment(&self) -> (b: &[u8; 32])
        ensures
            b@ == self.bytes().take(32),
    {
        assert(self.bytes().take(32) =~= self.commitment@);
        &self.commitment
    }

    /// The last 32 bytes: the decrypt handle.
    pub fn handle(&self) -> (b: &[u8; 32])
        ensures
            b@ == self.bytes().skip(32),
    {
        assert(self.bytes().skip(32) =~= self.handle@);
        &self.handle
    }

    /// Two ciphertexts with the same bytes are the same ciphertext.
    pub proof fn lemma_bytes_injective(self, other: Ciphertext)
        ensures
            self.bytes().len() == 64,
            self.bytes() == other.bytes() <==> self == other,
    {
        if self.bytes() == other.bytes() {
            assert(self.commitment@ =~= self.bytes().take(32));
            assert(other.commitment@ =~= other.bytes().take(32));
            assert(self.handle@ =~= self.bytes().skip(32));
            assert(other.handle@ =~= other.bytes().skip(32));
            assert(self.commitment =~= other.commitment);
            assert(self.handle =~= other.handle);
        }
    }
}

impl Default for Ciphertext {
    fn default() -> (c: Ciphertext)
        ensures
            c == Ciphertext::spec_zero(),
    {
        Ciphertext::zero()
    }
}

/// Where two sequences first differ at `k` with `a[k] > b[k]`, `a` is not below `b`.
pub proof fn lemma_lex_first_difference(a: Seq<u8>, b: Seq<u8>, k: int)
    requires
        0 <= k < a.len(),
        k < b.len(),
        agree_before(a, b, k),
        a[k] > b[k],
    ensures
        !lex_less(a, b),
{
    assert forall|j: int|
        0 <= j < a.len() && j < b.len() && #[trigger] agree_before(a, b, j) implies !(a[j]
        < b[j]) by {
        if j > k {
            assert(a[k] == b[k]);
        }
    }
}

/// No sequence is below itself.
pub proof fn lemma_lex_irreflexive(a: Seq<u8>)
    ensures
        !lex_less(a, a),
{
}

/// Two sequences of one length are equal, or one is below the other.
pub proof fn lemma_lex_total(a: Seq<u8>, b: Seq<u8>)
    requires
        a.len() == b.len(),
    ensures
        a == b || lex_less(a, b) || lex_less(b, a),
    decreases a.len(),
{
    lemma_lex_total_from(a, b, 0);
}

proof fn lemma_lex_total_from(a: Seq<u8>, b: Seq<u8>, k: int)
    requires
        a.len() == b.len(),
        0 <= k <= a.len(),
        agree_before(a, b, k),
    ensures
        a == b || lex_less(a, b) || lex_less(b, a),
    decreases a.len() - k,
{
    if k == a.len() {
        assert(a =~= b);
    } else if a[k] == b[k] {
        lemma_lex_total_from(a, b, k + 1);
    } else {
        assert(agree_before(b, a, k));
    }
}

/// The order is asymmetric.
pub proof fn lemma_lex_asymmetric(a: Seq<u8>, b: Seq<u8>)
    ensures
        !(lex_less(a, b) && lex_less(b, a)),
{
    if lex_less(a, b) && lex_less(b, a) {
        let j = choose|j: int|
            0 <= j < a.len() && j < b.len() && #[trigger] agree_before(a, b, j) && a[j] < b[j];
        let k = choose|k: int|
            0 <= k < b.len() && k < a.len() && #[trigger] agree_before(b, a, k) && b[k] < a[k];
        if j < k {
            assert(b[j] == a[j]);
        } else if k < j {
            assert(a[k] == b[k]);
        }
    }
}

/// The order is transitive.
pub proof fn lemma_lex_transitive(a: Seq<u8>, b: Seq<u8>, c: Seq<u8>)
    requires
        lex_less(a, b),
        lex_less(b, c),
    ensures
        lex_less(a, c),
{
    let j = choose|j: int|
        0 <= j < a.len() && j < b.len() && #[trigger] agree_before(a, b, j) && a[j] < b[j];
    let k = choose|k: int|
        0 <= k < b.len() && k < c.len() && #[trigger] agree_before(b, c, k) && b[k] < c[k];
    let m = if j <= k { j } else { k };
    assert(agree_before(a, c, m)) by {
        assert forall|i: int| 0 <= i < m implies a[i] == c[i] by {
            assert(a[i] == b[i]);
            assert(b[i] == c[i]);
        }
    }
    if j < k {
        assert(b[j] == c[j]);
    } else if k < j {
        assert(a[k] == b[k]);
    }
    assert(a[m] < c[m]);
}

} // verus!
