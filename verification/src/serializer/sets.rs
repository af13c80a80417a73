use crate::crypto;
use crate::serializer::bytes::{
    decode_uint, encode_count, lemma_be_bytes_len, lemma_decode_uint_round_trip, lemma_pow256_values,
};
use crate::serializer::defaults::{
    after_items, decode_items, encode_items, lemma_decode_items_bounds, lemma_items_round_trip,
};
use crate::serializer::reader::Reader;
use crate::serializer::writer::Writer;
use crate::serializer::{ReaderError, Serializer, MAX_ITEMS};
use indexmap::IndexSet;
use std::hash::RandomState;
use vstd::prelude::*;

verus! {

#[verifier::external_type_specification]
#[verifier::external_body]
#[verifier::reject_recursive_types(T)]
#[verifier::reject_recursive_types(S)]
pub struct ExIndexSet<T, S>(indexmap::IndexSet<T, S>);

/// The items of the set, each as its bytes, in insertion order.
pub uninterp spec fn index_set_items(set: IndexSet<[u8; 32], RandomState>) -> Seq<Seq<u8>>;

/// `IndexSet::new`: a set that holds nothing.
#[verifier::external_body]
fn index_set_new() -> (set: IndexSet<[u8; 32], RandomState>)
    ensures
        index_set_items(set) == Seq::<Seq<u8>>::empty(),
{
    IndexSet::new()
}

/// `IndexSet::insert`: an item that the set does not hold is added behind the
/// others and the result is `true`; for an item that it holds, the set stays
/// as it is and the result is `false`.
#[verifier::external_body]
fn index_set_insert(set: &mut IndexSet<[u8; 32], RandomState>, item: [u8; 32]) -> (inserted: bool)
    ensures
        inserted == !index_set_items(*old(set)).contains(item@),
        index_set_items(*final(set)) == if inserted {
            index_set_items(*old(set)).push(item@)
        } else {
            index_set_items(*old(set))
        },
{
    set.insert(item)
}

/// `IndexSet::len`: the number of items.
#[verifier::external_body]
fn index_set_len(set: &IndexSet<[u8; 32], RandomState>) -> (n: usize)
    ensures
        n == index_set_items(*set).len(),
{
    set.len()
}

/// `IndexSet::get_index`: the item at `index` in insertion order, if there are that many.
#[verifier::external_body]
fn index_set_get_index(set: &IndexSet<[u8; 32], RandomState>, index: usize) -> (item: Option<
    [u8; 32],
>)
    ensures
        index < index_set_items(*set).len() ==> item is Some && item->Some_0@ == index_set_items(
            *set,
        )[index as int],
        index >= index_set_items(*set).len() ==> item is None,
{
    set.get_index(index).copied()
}

/// A set of hashes that keeps the order in which they were inserted.
#[derive(Debug, PartialEq, Eq)]
pub struct HashIndexSet {
    inner: IndexSet<[u8; 32], RandomState>,
}

impl View for HashIndexSet {
    type V = Seq<Seq<u8>>;

    /// The hashes, each as its bytes, in insertion order.
    closed spec fn view(&self) -> Seq<Seq<u8>> {
        index_set_items(self.inner)
    }
}

impl DeepView for HashIndexSet {
    type V = Seq<Seq<u8>>;

    open spec fn deep_view(&self) -> Seq<Seq<u8>> {
        self@
    }
}

impl HashIndexSet {
    /// A set that holds nothing.
    pub fn new() -> (set: Self)
        ensures
            set@ == Seq::<Seq<u8>>::empty(),
    {
        HashIndexSet { inner: index_set_new() }
    }

    /// Adds `hash` behind the others, unless the set holds it already. Says
    /// whether it was added.
    pub fn insert(&mut self, hash: crypto::Hash) -> (inserted: bool)
        ensures
            inserted == !old(self)@.contains(hash@),
            final(self)@ == if inserted {
                old(self)@.push(hash@)
            } else {
                old(self)@
            },
    {
        index_set_insert(&mut self.inner, *hash.as_bytes())
    }

    /// The number of hashes.
    pub fn len(&self) -> (n: usize)
        ensures
            n == self@.len(),
    {
        index_set_len(&self.inner)
    }

    /// Whether the set holds nothing.
    pub fn is_empty(&self) -> (b: bool)
        ensures
            b == (self@.len() == 0),
    {
        index_set_len(&self.inner) == 0
    }

    /// The hash at `index` in insertion order, if there are that many.
    pub fn get_index(&self, index: usize) -> (hash: Option<crypto::Hash>)
        ensures
            index < self@.len() ==> hash is Some && hash->Some_0@ == self@[index as int],
            index >= self@.len() ==> hash is None,
    {
        match index_set_get_index(&self.inner, index) {
            Some(bytes) => Some(crypto::Hash::new(bytes)),
            None => None,
        }
    }

    /// Whether the set holds `hash`.
    pub fn contains(&self, hash: &crypto::Hash) -> (b: bool)
        ensures
            b == self@.contains(hash@),
    {
        let count = self.len();
        let mut i: usize = 0;
        while i < count
            invariant
                0 <= i <= count,
                count == self@.len(),
                forall|j: int| 0 <= j < i ==> self@[j] != hash@,
            decreases count - i,
        {
            match self.get_index(i) {
                Some(item) => {
                    if item.equals(hash) {
                        return true;
                    }
                },
                None => {},
            }
            i += 1;
        }
        false
    }

    /// The hashes in insertion order.
    pub fn to_vec(&self) -> (hashes: Vec<crypto::Hash>)
        ensures
            hashes.deep_view() == self@,
    {
        let count = self.len();
        let mut hashes: Vec<crypto::Hash> = Vec::new();
        let mut i: usize = 0;
        while i < count
            invariant
                0 <= i <= count,
                count == self@.len(),
                hashes.deep_view() == self@.take(i as int),
            decreases count - i,
        {
            let ghost before = hashes.deep_view();
            match self.get_index(i) {
                Some(item) => {
                    hashes.push(item);
                    assert(hashes.deep_view() =~= before.push(item@));
                },
                None => {},
            }
            assert(hashes.deep_view() =~= self@.take(i + 1));
            i += 1;
        }
        assert(self@.take(count as int) =~= self@);
        hashes
    }

    /// Reads `count` hashes into a new set. A hash that occurs twice, like a
    /// hash that is cut short, is `InvalidSize`.
    fn read_hashes(reader: &mut Reader, count: usize) -> (r: Result<Self, ReaderError>)
        ensures
            final(reader).buffer() == old(reader).buffer(),
            match decode_distinct(old(reader).remaining(), count as nat) {
                Ok((v, n)) => r matches Ok(x) && x@ == v && final(reader).position() == old(
                    reader,
                ).position() + n,
                Err(e) => r matches Err(f) && f == e,
            },
    {
        proof {
            use_type_invariant(&*reader);
            reader.lemma_in_bounds();
        }
        let ghost start = reader.remaining();
        let ghost whole = decode_items::<crypto::Hash>(start, count as nat);
        let mut set = HashIndexSet::new();
        let mut i: usize = 0;
        while i < count
            invariant
                0 <= i <= count,
                reader.buffer() == old(reader).buffer(),
                old(reader).position() <= reader.position() <= reader.buffer().len(),
                start == old(reader).remaining(),
                whole == decode_items::<crypto::Hash>(start, count as nat),
                set@.len() == i,
                set@.no_duplicates(),
                after_items::<crypto::Hash>(
                    set@,
                    reader.position() - old(reader).position(),
                    decode_items::<crypto::Hash>(reader.remaining(), (count - i) as nat),
                ) == whole,
            decreases count - i,
        {
            let ghost before = reader.remaining();
            let ghost seen = set@;
            let hash = match reader.read_hash() {
                Ok(hash) => hash,
                Err(_) => {
                    return Err(ReaderError::InvalidSize);
                },
            };
            assert(reader.remaining() =~= before.skip(32));
            let inserted = set.insert(hash);
            proof {
                let rest = decode_items::<crypto::Hash>(before.skip(32), (count - i - 1) as nat);
                if let Ok((others, m)) = rest {
                    assert(seen.push(hash@) + others =~= seen + (seq![hash@] + others));
                    if !inserted {
                        let all = seen + (seq![hash@] + others);
                        let j = choose|j: int| 0 <= j < seen.len() && seen[j] == hash@;
                        assert(all[j] == all[seen.len() as int]);
                    }
                }
            }
            if !inserted {
                return Err(ReaderError::InvalidSize);
            }
            i += 1;
        }
        proof {
            assert(set@ + Seq::<Seq<u8>>::empty() =~= set@);
        }
        Ok(set)
    }

    /// Appends each hash, in insertion order.
    fn write_hashes(&self, writer: &mut Writer)
        ensures
            final(writer)@ == old(writer)@ + encode_items::<crypto::Hash>(self@),
    {
        let hashes = self.to_vec();
        crate::serializer::defaults::write_items(&hashes, writer);
    }
}

/// `count` hashes at the front of `bytes`, no two of them the same, and the
/// number of bytes they occupy. A hash that is cut short or occurs twice is
/// `InvalidSize`.
pub open spec fn decode_distinct(bytes: Seq<u8>, count: nat) -> Result<
    (Seq<Seq<u8>>, int),
    ReaderError,
> {
    match decode_items::<crypto::Hash>(bytes, count) {
        Err(_) => Err(ReaderError::InvalidSize),
        Ok((items, n)) => if items.no_duplicates() {
            Ok((items, n))
        } else {
            Err(ReaderError::InvalidSize)
        },
    }
}

/// Every item is 32 bytes long.
pub open spec fn all_hashes(items: Seq<Seq<u8>>) -> bool {
    forall|i: int| 0 <= i < items.len() ==> (#[trigger] items[i]).len() == 32
}

/// A set of hashes is a two-byte count, at most `MAX_ITEMS`, followed by that
/// many hashes, no two of them the same.
impl Serializer for HashIndexSet {
    open spec fn canonical(v: Seq<Seq<u8>>) -> bool {
        v.len() <= MAX_ITEMS && all_hashes(v) && v.no_duplicates()
    }

    open spec fn encode(v: Seq<Seq<u8>>) -> Seq<u8> {
        encode_count(v.len()) + encode_items::<crypto::Hash>(v)
    }

    open spec fn decode(bytes: Seq<u8>) -> Result<(Seq<Seq<u8>>, int), ReaderError> {
        match decode_uint(bytes, 2) {
            Err(e) => Err(e),
            Ok((count, _)) => if count > MAX_ITEMS {
                Err(ReaderError::InvalidSize)
            } else {
                match decode_distinct(bytes.skip(2), count) {
                    Ok((items, n)) => Ok((items, n + 2)),
                    Err(e) => Err(e),
                }
            },
        }
    }

    proof fn lemma_decode_bounds(bytes: Seq<u8>) {
        if let Ok((count, _)) = decode_uint(bytes, 2) {
            lemma_decode_items_bounds::<crypto::Hash>(bytes.skip(2), count);
        }
    }

    proof fn lemma_round_trip(v: Seq<Seq<u8>>, rest: Seq<u8>) {
        let count = encode_count(v.len());
        let items = encode_items::<crypto::Hash>(v);
        lemma_pow256_values();
        lemma_be_bytes_len(v.len(), 2);
        lemma_decode_uint_round_trip(v.len(), 2, items + rest);
        assert(Self::encode(v) + rest =~= count + (items + rest));
        assert((count + (items + rest)).skip(2) =~= items + rest);
        lemma_items_round_trip::<crypto::Hash>(v, rest);
    }

    fn write(&self, writer: &mut Writer) {
        let count: u16 = (self.len() % 0x1_0000) as u16;
        writer.write_u16(count);
        self.write_hashes(writer);
        assert(writer@ =~= old(writer)@ + Self::encode(self@));
    }

    fn read(reader: &mut Reader) -> (r: Result<Self, ReaderError>) {
        proof {
            use_type_invariant(&*reader);
            reader.lemma_in_bounds();
        }
        let count = reader.read_u16()?;
        if count as usize > MAX_ITEMS {
            return Err(ReaderError::InvalidSize);
        }
        assert(reader.remaining() =~= old(reader).remaining().skip(2));
        HashIndexSet::read_hashes(reader, count as usize)
    }
}

/// A set whose count is above `MAX_ITEMS` is refused with `InvalidSize`.
pub proof fn lemma_set_rejects_count_above_max(v: Seq<Seq<u8>>, rest: Seq<u8>)
    requires
        MAX_ITEMS < v.len() < 0x1_0000,
    ensures
        HashIndexSet::decode(HashIndexSet::encode(v) + rest) == Err::<
            (Seq<Seq<u8>>, int),
            ReaderError,
        >(ReaderError::InvalidSize),
{
    let items = encode_items::<crypto::Hash>(v);
    lemma_pow256_values();
    lemma_decode_uint_round_trip(v.len(), 2, items + rest);
    assert(HashIndexSet::encode(v) + rest =~= encode_count(v.len()) + (items + rest));
}

/// A set in which a hash occurs twice is refused with `InvalidSize`.
pub proof fn lemma_set_rejects_duplicates(v: Seq<Seq<u8>>, rest: Seq<u8>)
    requires
        v.len() <= MAX_ITEMS,
        all_hashes(v),
        !v.no_duplicates(),
    ensures
        HashIndexSet::decode(HashIndexSet::encode(v) + rest) == Err::<
            (Seq<Seq<u8>>, int),
            ReaderError,
        >(ReaderError::InvalidSize),
{
    let items = encode_items::<crypto::Hash>(v);
    lemma_pow256_values();
    lemma_decode_uint_round_trip(v.len(), 2, items + rest);
    assert(HashIndexSet::encode(v) + rest =~= encode_count(v.len()) + (items + rest));
    assert((encode_count(v.len()) + (items + rest)).skip(2) =~= items + rest) by {
        lemma_be_bytes_len(v.len(), 2);
    }
    lemma_items_round_trip::<crypto::Hash>(v, rest);
}

/// Stored tips in which a hash occurs twice are refused with `InvalidSize`.
pub proof fn lemma_tips_reject_duplicates(tips: Seq<Seq<u8>>)
    requires
        all_hashes(tips),
        !tips.no_duplicates(),
    ensures
        decode_tips(encode_items::<crypto::Hash>(tips)) == Err::<Seq<Seq<u8>>, ReaderError>(
            ReaderError::InvalidSize,
        ),
{
    let bytes = encode_items::<crypto::Hash>(tips);
    lemma_encode_hashes_len(tips);
    lemma_items_round_trip::<crypto::Hash>(tips, Seq::empty());
    assert(bytes + Seq::<u8>::empty() =~= bytes);
    assert(bytes.len() / 32 == tips.len()) by (nonlinear_arith)
        requires
            bytes.len() == 32 * tips.len(),
    ;
    assert(bytes.len() % 32 == 0) by (nonlinear_arith)
        requires
            bytes.len() == 32 * tips.len(),
    ;
}

/// The set of tips as it is stored: the hashes one after the other, with no
/// count in front. It fills the whole buffer that holds it.
#[derive(Debug, PartialEq, Eq)]
pub struct TipSet {
    hashes: HashIndexSet,
}

impl View for TipSet {
    type V = Seq<Seq<u8>>;

    /// The hashes, each as its bytes, in insertion order.
    closed spec fn view(&self) -> Seq<Seq<u8>> {
        self.hashes@
    }
}

/// The tips that `bytes` hold: `bytes` is cut into hashes of 32 bytes. A
/// length that is no multiple of 32, and a hash that occurs twice, are `InvalidSize`.
pub open spec fn decode_tips(bytes: Seq<u8>) -> Result<Seq<Seq<u8>>, ReaderError> {
    if bytes.len() % 32 != 0 {
        Err(ReaderError::InvalidSize)
    } else {
        match decode_distinct(bytes, bytes.len() / 32) {
            Ok((items, _)) => Ok(items),
            Err(e) => Err(e),
        }
    }
}

/// The bytes of `count` hashes are 32 bytes each.
pub proof fn lemma_encode_hashes_len(items: Seq<Seq<u8>>)
    requires
        all_hashes(items),
    ensures
        encode_items::<crypto::Hash>(items).len() == 32 * items.len(),
    decreases items.len(),
{
    if items.len() > 0 {
        let tail = items.drop_first();
        assert(all_hashes(tail)) by {
            assert forall|i: int| 0 <= i < tail.len() implies (#[trigger] tail[i]).len() == 32 by {
                assert(tail[i] == items[i + 1]);
            }
        }
        lemma_encode_hashes_len(tail);
    }
}

/// Reading back the stored form of distinct tips gives the tips.
pub proof fn lemma_tips_round_trip(tips: Seq<Seq<u8>>)
    requires
        all_hashes(tips),
        tips.no_duplicates(),
    ensures
        decode_tips(encode_items::<crypto::Hash>(tips)) == Ok::<Seq<Seq<u8>>, ReaderError>(tips),
{
    let bytes = encode_items::<crypto::Hash>(tips);
    lemma_encode_hashes_len(tips);
    lemma_items_round_trip::<crypto::Hash>(tips, Seq::empty());
    assert(bytes + Seq::<u8>::empty() =~= bytes);
    assert(bytes.len() / 32 == tips.len()) by (nonlinear_arith)
        requires
            bytes.len() == 32 * tips.len(),
    ;
    assert(bytes.len() % 32 == 0) by (nonlinear_arith)
        requires
            bytes.len() == 32 * tips.len(),
    ;
}

impl TipSet {
    /// A set that holds nothing.
    pub fn new() -> (set: Self)
        ensures
            set@ == Seq::<Seq<u8>>::empty(),
    {
        TipSet { hashes: HashIndexSet::new() }
    }

    /// Adds `hash` behind the others, unless the set holds it already. Says
    /// whether it was added.
    pub fn insert(&mut self, hash: crypto::Hash) -> (inserted: bool)
        ensures
            inserted == !old(self)@.contains(hash@),
            final(self)@ == if inserted {
                old(self)@.push(hash@)
            } else {
                old(self)@
            },
    {
        self.hashes.insert(hash)
    }

    /// The number of tips.
    pub fn len(&self) -> (n: usize)
        ensures
            n == self@.len(),
    {
        self.hashes.len()
    }

    /// Whether the set holds `hash`.
    pub fn contains(&self, hash: &crypto::Hash) -> (b: bool)
        ensures
            b == self@.contains(hash@),
    {
        self.hashes.contains(hash)
    }

    /// The tips in insertion order.
    pub fn to_vec(&self) -> (hashes: Vec<crypto::Hash>)
        ensures
            hashes.deep_view() == self@,
    {
        self.hashes.to_vec()
    }

    /// Appends each tip, in insertion order, with no count in front.
    pub fn write(&self, writer: &mut Writer)
        ensures
            final(writer)@ == old(writer)@ + encode_items::<crypto::Hash>(self@),
    {
        self.hashes.write_hashes(writer);
    }

    /// Reads the tips that fill what `reader` has left.
    pub fn read(reader: &mut Reader) -> (r: Result<Self, ReaderError>)
        ensures
            final(reader).buffer() == old(reader).buffer(),
            match decode_tips(old(reader).remaining()) {
                Ok(v) => r matches Ok(x) && x@ == v && final(reader).remaining().len() == 0,
                Err(e) => r matches Err(f) && f == e,
            },
    {
        proof {
            use_type_invariant(&*reader);
            reader.lemma_in_bounds();
        }
        let size = reader.size();
        if size % 32 != 0 {
            return Err(ReaderError::InvalidSize);
        }
        let count = size / 32;
        let ghost bytes = reader.remaining();
        let hashes = HashIndexSet::read_hashes(reader, count)?;
        proof {
            lemma_decode_items_bounds::<crypto::Hash>(bytes, count as nat);
            lemma_decoded_hashes_len(bytes, count as nat);
        }
        Ok(TipSet { hashes })
    }
}

/// `count` hashes that were decoded took 32 bytes each.
pub proof fn lemma_decoded_hashes_len(bytes: Seq<u8>, count: nat)
    ensures
        decode_items::<crypto::Hash>(bytes, count) matches Ok((items, n)) ==> n == 32 * count,
    decreases count,
{
    if count > 0 {
        if let Ok((first, n)) = crypto::Hash::decode(bytes) {
            lemma_decoded_hashes_len(bytes.skip(n), (count - 1) as nat);
        }
    }
}

} // verus!
