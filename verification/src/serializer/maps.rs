use crate::crypto;
use crate::serializer::bytes::{
    decode_uint, encode_count, lemma_be_bytes_len, lemma_decode_uint_round_trip, lemma_pow256_values,
};
use crate::serializer::defaults::{count_of, encode_items, lemma_encode_items_push};
use crate::serializer::reader::Reader;
use crate::serializer::sorted_set::after_bytes;
use crate::serializer::writer::Writer;
use crate::serializer::{ReaderError, Serializer, MAX_ITEMS};
use crate::vec_map::{Key, VecMap};
use vstd::prelude::*;

verus! {

/// A key that can be serialized, and is told apart by what it is serialized from.
pub trait MapKey: Key + Serializer {
    /// Two keys are the same where their views are.
    proof fn lemma_same_view(a: Self, b: Self)
        ensures
            a.deep_view() == b.deep_view() <==> a == b,
    ;
}

impl MapKey for u64 {
    proof fn lemma_same_view(a: u64, b: u64) {
    }
}

impl MapKey for crypto::Hash {
    proof fn lemma_same_view(a: crypto::Hash, b: crypto::Hash) {
        a.lemma_view_injective(b);
    }
}

impl MapKey for crypto::PublicKey {
    proof fn lemma_same_view(a: crypto::PublicKey, b: crypto::PublicKey) {
        a.lemma_view_injective(b);
    }
}

/// The key and the value of every pair are canonical.
pub open spec fn pairs_canonical<K: MapKey, V: Serializer>(entries: Seq<(K::V, V::V)>) -> bool {
    forall|i: int|
        0 <= i < entries.len() ==> K::canonical((#[trigger] entries[i]).0) && V::canonical(
            entries[i].1,
        )
}

/// The keys of `entries`, in order.
pub open spec fn entry_keys<K, V>(entries: Seq<(K, V)>) -> Seq<K> {
    Seq::new(entries.len(), |i: int| entries[i].0)
}

/// The entries with `value` as the value of `key`: in the place of the entry of
/// `key` if there is one, else behind the others.
pub open spec fn upsert<K, V>(entries: Seq<(K, V)>, key: K, value: V) -> Seq<(K, V)> {
    if entry_keys(entries).contains(key) {
        entries.update(entry_keys(entries).index_of(key), (key, value))
    } else {
        entries.push((key, value))
    }
}

impl<K: MapKey, V: Serializer> DeepView for VecMap<K, V> {
    type V = Seq<(K::V, V::V)>;

    /// The entries in insertion order.
    open spec fn deep_view(&self) -> Seq<(K::V, V::V)> {
        Seq::new(
            self.keys().len(),
            |i: int| (self.keys()[i].deep_view(), self.values()[i].deep_view()),
        )
    }
}

/// The keys of the entries of a map are as distinct as the keys of the map.
pub proof fn lemma_entry_keys<K: MapKey, V: Serializer>(map: &VecMap<K, V>)
    requires
        map.well_formed(),
    ensures
        entry_keys(map.deep_view()).no_duplicates(),
        forall|key: K| #[trigger]
            map.contains_key(key) <==> entry_keys(map.deep_view()).contains(key.deep_view()),
        forall|key: K| #[trigger]
            map.contains_key(key) ==> entry_keys(map.deep_view()).index_of(key.deep_view())
                == map.position(key),
{
    let keys = entry_keys(map.deep_view());
    assert forall|i: int, j: int| 0 <= i < keys.len() && 0 <= j < keys.len() && i != j implies keys[i]
        != keys[j] by {
        K::lemma_same_view(map.keys()[i], map.keys()[j]);
    }
    assert forall|key: K| #[trigger]
        map.contains_key(key) <==> keys.contains(key.deep_view()) by {
        if map.contains_key(key) {
            map.lemma_contained(key);
            assert(keys[map.position(key)] == key.deep_view());
        }
        if keys.contains(key.deep_view()) {
            let i = choose|i: int| 0 <= i < keys.len() && keys[i] == key.deep_view();
            K::lemma_same_view(map.keys()[i], key);
            assert(map.keys()[i] == key);
        }
    }
    assert forall|key: K| #[trigger] map.contains_key(key) implies keys.index_of(key.deep_view())
        == map.position(key) by {
        map.lemma_contained(key);
        let p = map.position(key);
        assert(keys[p] == key.deep_view());
        let q = keys.index_of(key.deep_view());
        assert(keys[q] == key.deep_view());
    }
}

/// The entries after `count` pairs at the front of `bytes` were put into
/// `entries` one after the other, and the number of bytes that they occupy.
pub open spec fn decode_into_map<K: MapKey, V: Serializer>(
    bytes: Seq<u8>,
    count: nat,
    entries: Seq<(K::V, V::V)>,
) -> Result<(Seq<(K::V, V::V)>, int), ReaderError>
    decreases count,
{
    if count == 0 {
        Ok((entries, 0))
    } else {
        match <(K, V)>::decode(bytes) {
            Err(e) => Err(e),
            Ok((pair, n)) => after_bytes(
                n,
                decode_into_map::<K, V>(
                    bytes.skip(n),
                    (count - 1) as nat,
                    upsert(entries, pair.0, pair.1),
                ),
            ),
        }
    }
}

/// Putting a canonical pair among canonical ones with distinct keys leaves them so.
pub proof fn lemma_upsert_keeps<K: MapKey, V: Serializer>(
    entries: Seq<(K::V, V::V)>,
    key: K::V,
    value: V::V,
)
    requires
        pairs_canonical::<K, V>(entries),
        entry_keys(entries).no_duplicates(),
        K::canonical(key),
        V::canonical(value),
    ensures
        pairs_canonical::<K, V>(upsert(entries, key, value)),
        entry_keys(upsert(entries, key, value)).no_duplicates(),
{
    let keys = entry_keys(entries);
    let after = upsert(entries, key, value);
    if keys.contains(key) {
        let p = keys.index_of(key);
        assert(keys[p] == key);
        assert(entry_keys(after) =~= keys);
        assert forall|i: int| 0 <= i < after.len() implies K::canonical((#[trigger] after[i]).0)
            && V::canonical(after[i].1) by {
            if i != p {
                assert(after[i] == entries[i]);
            } else {
                assert(after[i] == (key, value));
            }
        }
    } else {
        assert(entry_keys(after) =~= keys.push(key));
        assert forall|i: int| 0 <= i < after.len() implies K::canonical((#[trigger] after[i]).0)
            && V::canonical(after[i].1) by {
            if i < entries.len() {
                assert(after[i] == entries[i]);
            } else {
                assert(after[i] == (key, value));
            }
        }
    }
}

/// Entries that were decoded are canonical, their keys are distinct, and they
/// took no more bytes than there are.
pub proof fn lemma_decode_into_map_bounds<K: MapKey, V: Serializer>(
    bytes: Seq<u8>,
    count: nat,
    entries: Seq<(K::V, V::V)>,
)
    requires
        pairs_canonical::<K, V>(entries),
        entry_keys(entries).no_duplicates(),
    ensures
        decode_into_map::<K, V>(bytes, count, entries) matches Ok((done, n)) ==> 0 <= n
            <= bytes.len() && pairs_canonical::<K, V>(done) && entry_keys(done).no_duplicates()
            && done.len() <= entries.len() + count,
    decreases count,
{
    if count > 0 {
        <(K, V)>::lemma_decode_bounds(bytes);
        if let Ok((pair, n)) = <(K, V)>::decode(bytes) {
            lemma_upsert_keeps::<K, V>(entries, pair.0, pair.1);
            lemma_decode_into_map_bounds::<K, V>(
                bytes.skip(n),
                (count - 1) as nat,
                upsert(entries, pair.0, pair.1),
            );
        }
    }
}

/// The encoding of pairs whose keys are distinct from each other and from those
/// of `entries`, followed by anything, decodes into `entries` with these pairs
/// behind them.
pub proof fn lemma_map_items_round_trip<K: MapKey, V: Serializer>(
    entries: Seq<(K::V, V::V)>,
    items: Seq<(K::V, V::V)>,
    rest: Seq<u8>,
)
    requires
        pairs_canonical::<K, V>(items),
        entry_keys(entries + items).no_duplicates(),
    ensures
        decode_into_map::<K, V>(encode_items::<(K, V)>(items) + rest, items.len(), entries) == Ok::<
            (Seq<(K::V, V::V)>, int),
            ReaderError,
        >((entries + items, encode_items::<(K, V)>(items).len() as int)),
    decreases items.len(),
{
    if items.len() == 0 {
        assert(entries + items =~= entries);
    } else {
        let head = items[0];
        let tail = items.drop_first();
        let head_bytes = <(K, V)>::encode(head);
        let tail_bytes = encode_items::<(K, V)>(tail);
        let bytes = encode_items::<(K, V)>(items) + rest;
        <(K, V)>::lemma_round_trip(head, tail_bytes + rest);
        assert(bytes =~= head_bytes + (tail_bytes + rest));
        assert(bytes.skip(head_bytes.len() as int) =~= tail_bytes + rest);
        let whole = entries + items;
        let keys = entry_keys(whole);
        assert(!entry_keys(entries).contains(head.0)) by {
            if entry_keys(entries).contains(head.0) {
                let i = choose|i: int| 0 <= i < entries.len() && entry_keys(entries)[i] == head.0;
                assert(keys[i] == head.0);
                assert(keys[entries.len() as int] == head.0);
            }
        }
        assert(upsert(entries, head.0, head.1) =~= entries.push(head));
        assert(entries.push(head) + tail =~= whole);
        assert(pairs_canonical::<K, V>(tail)) by {
            assert forall|i: int| 0 <= i < tail.len() implies K::canonical((#[trigger] tail[i]).0)
                && V::canonical(tail[i].1) by {
                assert(tail[i] == items[i + 1]);
            }
        }
        lemma_map_items_round_trip::<K, V>(entries.push(head), tail, rest);
    }
}

/// A map is a two-byte count, at most `MAX_ITEMS`, followed by that many pairs
/// of a key and a value. On reading, a key that comes again replaces the value
/// that it had.
impl<K: MapKey, V: Serializer> Serializer for VecMap<K, V> {
    open spec fn canonical(v: Seq<(K::V, V::V)>) -> bool {
        v.len() <= MAX_ITEMS && pairs_canonical::<K, V>(v) && entry_keys(v).no_duplicates()
    }

    open spec fn encode(v: Seq<(K::V, V::V)>) -> Seq<u8> {
        encode_count(v.len()) + encode_items::<(K, V)>(v)
    }

    open spec fn decode(bytes: Seq<u8>) -> Result<(Seq<(K::V, V::V)>, int), ReaderError> {
        match decode_uint(bytes, 2) {
            Err(e) => Err(e),
            Ok((count, _)) => if count > MAX_ITEMS {
                Err(ReaderError::InvalidSize)
            } else {
                after_bytes(2, decode_into_map::<K, V>(bytes.skip(2), count, Seq::empty()))
            },
        }
    }

    proof fn lemma_decode_bounds(bytes: Seq<u8>) {
        if let Ok((count, _)) = decode_uint(bytes, 2) {
            lemma_decode_into_map_bounds::<K, V>(bytes.skip(2), count, Seq::empty());
        }
    }

    proof fn lemma_round_trip(v: Seq<(K::V, V::V)>, rest: Seq<u8>) {
        let count = encode_count(v.len());
        let items = encode_items::<(K, V)>(v);
        lemma_pow256_values();
        lemma_be_bytes_len(v.len(), 2);
        lemma_decode_uint_round_trip(v.len(), 2, items + rest);
        assert(Self::encode(v) + rest =~= count + (items + rest));
        assert((count + (items + rest)).skip(2) =~= items + rest);
        assert(Seq::<(K::V, V::V)>::empty() + v =~= v);
        lemma_map_items_round_trip::<K, V>(Seq::empty(), v, rest);
    }

    fn write(&self, writer: &mut Writer) {
        let len = self.len();
        writer.write_u16(count_of(len));
        let ghost entries = self.deep_view();
        let mut i: usize = 0;
        assert(writer@ =~= old(writer)@ + encode_count(entries.len()) + encode_items::<(K, V)>(
            entries.take(0),
        ));
        while i < len
            invariant
                0 <= i <= len,
                len == self.keys().len(),
                len == self.values().len(),
                entries == self.deep_view(),
                writer@ == old(writer)@ + encode_count(entries.len()) + encode_items::<(K, V)>(
                    entries.take(i as int),
                ),
            decreases len - i,
        {
            let ghost before = writer@;
            self.key_at(i).write(writer);
            self.value_at(i).write(writer);
            proof {
                let done = entries.take(i as int);
                lemma_encode_items_push::<(K, V)>(done, entries[i as int]);
                assert(entries.take(i + 1) =~= done.push(entries[i as int]));
                assert(writer@ =~= before + <(K, V)>::encode(entries[i as int]));
            }
            i += 1;
        }
        proof {
            assert(entries.take(len as int) =~= entries);
            assert(writer@ =~= old(writer)@ + Self::encode(self.deep_view()));
        }
    }

    fn read(reader: &mut Reader) -> (r: Result<Self, ReaderError>) {
        proof {
            use_type_invariant(&*reader);
            reader.lemma_in_bounds();
        }
        let count = reader.read_u16()?;
        if count as usize > MAX_ITEMS {
            return Err(ReaderError::InvalidSize);
        }
        let ghost start = old(reader).remaining().skip(2);
        let ghost whole = decode_into_map::<K, V>(start, count as nat, Seq::empty());
        assert(reader.remaining() =~= start);
        let mut map: VecMap<K, V> = VecMap::new();
        assert(map.deep_view() =~= Seq::<(K::V, V::V)>::empty());
        let mut i: u16 = 0;
        while i < count
            invariant
                0 <= i <= count,
                reader.buffer() == old(reader).buffer(),
                old(reader).position() + 2 <= reader.position() <= reader.buffer().len(),
                start == old(reader).remaining().skip(2),
                whole == decode_into_map::<K, V>(start, count as nat, Seq::empty()),
                decode_uint(old(reader).remaining(), 2) == Ok::<(nat, int), ReaderError>(
                    (count as nat, 2),
                ),
                count <= MAX_ITEMS,
                after_bytes(
                    reader.position() - old(reader).position() - 2,
                    decode_into_map::<K, V>(
                        reader.remaining(),
                        (count - i) as nat,
                        map.deep_view(),
                    ),
                ) == whole,
            decreases count - i,
        {
            let ghost before = reader.remaining();
            let ghost entries = map.deep_view();
            proof {
                K::lemma_decode_bounds(before);
            }
            let key = match K::read(reader) {
                Ok(key) => key,
                Err(e) => {
                    return Err(e);
                },
            };
            let ghost n = K::decode(before)->Ok_0.1;
            proof {
                assert(reader.remaining() =~= before.skip(n));
                V::lemma_decode_bounds(before.skip(n));
            }
            let value = match V::read(reader) {
                Ok(value) => value,
                Err(e) => {
                    return Err(e);
                },
            };
            let ghost m = V::decode(before.skip(n))->Ok_0.1;
            let ghost key_view = key.deep_view();
            let ghost value_view = value.deep_view();
            let ghost map_before = map;
            proof {
                assert(reader.remaining() =~= before.skip(n + m));
                use_type_invariant(&map);
                lemma_entry_keys::<K, V>(&map);
            }
            let _ = map.insert(key, value);
            proof {
                let now = map.deep_view();
                let wanted = upsert(entries, key_view, value_view);
                if map_before.contains_key(key) {
                    let p = map_before.position(key);
                    map_before.lemma_contained(key);
                    assert(entry_keys(entries).contains(key_view));
                    assert(entry_keys(entries).index_of(key_view) == p);
                    assert(now.len() == wanted.len());
                    assert forall|j: int| 0 <= j < now.len() implies now[j] == wanted[j] by {
                        if j == p {
                            assert(map.keys()[p] == key);
                        }
                    }
                    assert(now =~= wanted);
                } else {
                    assert(!entry_keys(entries).contains(key_view));
                    assert(now.len() == wanted.len());
                    assert forall|j: int| 0 <= j < now.len() implies now[j] == wanted[j] by {
                    }
                    assert(now =~= wanted);
                }
            }
            i += 1;
        }
        Ok(map)
    }
}

} // verus!
