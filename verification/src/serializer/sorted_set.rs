use crate::crypto;
use crate::crypto::{lemma_lex_asymmetric, lemma_lex_total, lemma_lex_transitive, lex_less};
use crate::serializer::bytes::{
    decode_uint, encode_count, lemma_be_bytes_len, lemma_decode_uint_round_trip, lemma_pow256_values,
};
use crate::serializer::defaults::{all_canonical, encode_items, write_items};
use crate::serializer::reader::Reader;
use crate::serializer::writer::Writer;
use crate::serializer::{ReaderError, Serializer, MAX_ITEMS};
use vstd::prelude::*;

verus! {

/// A serializable type whose values are in a strict total order.
pub trait SortKey: Serializer {
    /// Whether `a` comes strictly before `b`.
    spec fn precedes(a: Self::V, b: Self::V) -> bool;

    /// No value comes before itself, and the order is transitive.
    proof fn lemma_strict_order(a: Self::V, b: Self::V, c: Self::V)
        ensures
            !Self::precedes(a, a),
            Self::precedes(a, b) && Self::precedes(b, c) ==> Self::precedes(a, c),
    ;

    /// Of two different canonical values, one comes before the other.
    proof fn lemma_total_order(a: Self::V, b: Self::V)
        requires
            Self::canonical(a),
            Self::canonical(b),
        ensures
            a == b || Self::precedes(a, b) || Self::precedes(b, a),
    ;

    /// Every value of the type is canonical.
    proof fn lemma_always_canonical(&self)
        ensures
            Self::canonical(self.deep_view()),
    ;

    /// Whether `self` comes strictly before `other`.
    fn comes_before(&self, other: &Self) -> (r: bool)
        ensures
            r == Self::precedes(self.deep_view(), other.deep_view()),
    ;
}

impl SortKey for u64 {
    open spec fn precedes(a: u64, b: u64) -> bool {
        a < b
    }

    proof fn lemma_strict_order(a: u64, b: u64, c: u64) {
    }

    proof fn lemma_total_order(a: u64, b: u64) {
    }

    proof fn lemma_always_canonical(&self) {
    }

    fn comes_before(&self, other: &u64) -> (r: bool) {
        *self < *other
    }
}

impl SortKey for crypto::Hash {
    open spec fn precedes(a: Seq<u8>, b: Seq<u8>) -> bool {
        lex_less(a, b)
    }

    proof fn lemma_strict_order(a: Seq<u8>, b: Seq<u8>, c: Seq<u8>) {
        lemma_lex_asymmetric(a, a);
        if lex_less(a, b) && lex_less(b, c) {
            lemma_lex_transitive(a, b, c);
        }
    }

    proof fn lemma_total_order(a: Seq<u8>, b: Seq<u8>) {
        lemma_lex_total(a, b);
    }

    proof fn lemma_always_canonical(&self) {
        self.lemma_len();
    }

    fn comes_before(&self, other: &crypto::Hash) -> (r: bool) {
        self.less_than(other)
    }
}

/// Each item comes strictly before the next.
pub open spec fn ascending<T: SortKey>(items: Seq<T::V>) -> bool {
    forall|i: int, j: int| 0 <= i < j < items.len() ==> T::precedes(items[i], items[j])
}

/// The ascending items with `x` put in its place, or nothing where `x` is one of them.
pub open spec fn sorted_insert<T: SortKey>(items: Seq<T::V>, x: T::V) -> Option<Seq<T::V>>
    decreases items.len(),
{
    if items.len() == 0 {
        Some(seq![x])
    } else if T::precedes(items.last(), x) {
        Some(items.push(x))
    } else if items.last() == x {
        None
    } else {
        match sorted_insert::<T>(items.drop_last(), x) {
            Some(front) => Some(front.push(items.last())),
            None => None,
        }
    }
}

/// Putting `x` in at `at` is what `sorted_insert` gives, where what stands before
/// `at` comes before `x` and `x` comes before what stands from `at` on.
pub proof fn lemma_sorted_insert_at<T: SortKey>(items: Seq<T::V>, x: T::V, at: int)
    requires
        0 <= at <= items.len(),
        forall|j: int| at <= j < items.len() ==> T::precedes(x, #[trigger] items[j]),
        at > 0 ==> T::precedes(items[at - 1], x),
    ensures
        sorted_insert::<T>(items, x) == Some(items.insert(at, x)),
    decreases items.len() - at,
{
    if items.len() == 0 {
        assert(items.insert(0, x) =~= seq![x]);
    } else if at == items.len() {
        assert(items.insert(at, x) =~= items.push(x));
    } else {
        let last = items.last();
        assert(T::precedes(x, items[items.len() - 1]));
        T::lemma_strict_order(x, last, x);
        T::lemma_strict_order(x, x, x);
        T::lemma_strict_order(last, last, last);
        let front = items.drop_last();
        assert forall|j: int| at <= j < front.len() implies T::precedes(x, #[trigger] front[j]) by {
            assert(front[j] == items[j]);
        }
        if at > 0 {
            assert(front[at - 1] == items[at - 1]);
        }
        lemma_sorted_insert_at::<T>(front, x, at);
        assert(front.insert(at, x).push(last) =~= items.insert(at, x));
    }
}

/// Nothing is put in where `x` stands at `at` and comes before what follows.
pub proof fn lemma_sorted_insert_present<T: SortKey>(items: Seq<T::V>, x: T::V, at: int)
    requires
        0 <= at < items.len(),
        items[at] == x,
        forall|j: int| at < j < items.len() ==> T::precedes(x, #[trigger] items[j]),
    ensures
        sorted_insert::<T>(items, x) is None,
    decreases items.len() - at,
{
    let last = items.last();
    T::lemma_strict_order(x, x, x);
    if at == items.len() - 1 {
    } else {
        assert(T::precedes(x, items[items.len() - 1]));
        T::lemma_strict_order(x, last, x);
        T::lemma_strict_order(last, last, last);
        let front = items.drop_last();
        assert(front[at] == items[at]);
        assert forall|j: int| at < j < front.len() implies T::precedes(x, #[trigger] front[j]) by {
            assert(front[j] == items[j]);
        }
        lemma_sorted_insert_present::<T>(front, x, at);
    }
}

/// A set whose items are kept in ascending order.
#[derive(Debug, PartialEq, Eq)]
pub struct SortedSet<T: SortKey> {
    items: Vec<T>,
}

impl<T: SortKey> DeepView for SortedSet<T> {
    type V = Seq<T::V>;

    /// The items in ascending order.
    closed spec fn deep_view(&self) -> Seq<T::V> {
        self.items.deep_view()
    }
}

impl<T: SortKey> SortedSet<T> {
    /// The items are in ascending order, so that none occurs twice.
    #[verifier::type_invariant]
    pub closed spec fn well_formed(&self) -> bool {
        ascending::<T>(self.items.deep_view())
    }

    /// A set that holds nothing.
    pub fn new() -> (set: Self)
        ensures
            set.deep_view() == Seq::<T::V>::empty(),
    {
        let set = SortedSet { items: Vec::new() };
        assert(set.items.deep_view() =~= Seq::<T::V>::empty());
        set
    }

    /// The number of items.
    pub fn len(&self) -> (n: usize)
        ensures
            n == self.deep_view().len(),
    {
        self.items.len()
    }

    /// The item at `index` in ascending order, if there are that many.
    pub fn get(&self, index: usize) -> (item: Option<&T>)
        ensures
            index < self.deep_view().len() ==> item is Some && item->Some_0.deep_view()
                == self.deep_view()[index as int],
            index >= self.deep_view().len() ==> item is None,
    {
        if index < self.items.len() {
            Some(&self.items[index])
        } else {
            None
        }
    }

    /// The items in ascending order.
    pub fn as_vec(&self) -> (items: &Vec<T>)
        ensures
            items.deep_view() == self.deep_view(),
            ascending::<T>(items.deep_view()),
    {
        proof {
            use_type_invariant(self);
        }
        &self.items
    }

    /// Puts `item` in its place, unless the set holds it already. Says whether
    /// it was put in.
    pub fn insert(&mut self, item: T) -> (inserted: bool)
        ensures
            inserted == sorted_insert::<T>(old(self).deep_view(), item.deep_view()) is Some,
            inserted ==> final(self).deep_view() == sorted_insert::<T>(
                old(self).deep_view(),
                item.deep_view(),
            )->Some_0,
            !inserted ==> final(self).deep_view() == old(self).deep_view(),
    {
        proof {
            use_type_invariant(&*self);
        }
        let ghost before = self.items.deep_view();
        let ghost x = item.deep_view();
        let mut at: usize = self.items.len();
        while at > 0 && !self.items[at - 1].comes_before(&item)
            invariant
                0 <= at <= self.items@.len(),
                before == self.items.deep_view(),
                x == item.deep_view(),
                ascending::<T>(before),
                forall|j: int| at <= j < before.len() ==> T::precedes(x, #[trigger] before[j]),
            decreases at,
        {
            if !item.comes_before(&self.items[at - 1]) {
                proof {
                    item.lemma_always_canonical();
                    self.items@[at - 1].lemma_always_canonical();
                    T::lemma_total_order(x, before[at - 1]);
                    lemma_sorted_insert_present::<T>(before, x, at - 1);
                }
                return false;
            }
            at -= 1;
        }
        proof {
            lemma_sorted_insert_at::<T>(before, x, at as int);
            let after = before.insert(at as int, x);
            assert forall|i: int, j: int| 0 <= i < j < after.len() implies T::precedes(
                after[i],
                after[j],
            ) by {
                if j < at {
                    assert(after[i] == before[i] && after[j] == before[j]);
                } else if j == at {
                    assert(after[i] == before[i]);
                    if i < at - 1 {
                        T::lemma_strict_order(before[i], before[at - 1], x);
                    }
                } else if i < at {
                    assert(after[i] == before[i] && after[j] == before[j - 1]);
                    if j - 1 == i {
                    }
                    T::lemma_strict_order(before[i], x, before[j - 1]);
                    if i < at - 1 {
                        T::lemma_strict_order(before[i], before[at - 1], x);
                    }
                } else if i == at {
                    assert(after[j] == before[j - 1]);
                } else {
                    assert(after[i] == before[i - 1] && after[j] == before[j - 1]);
                }
            }
        }
        let mut taken: SortedSet<T> = SortedSet::new();
        core::mem::swap(self, &mut taken);
        let SortedSet { mut items } = taken;
        let ghost shallow = items@;
        items.insert(at, item);
        proof {
            let now = items.deep_view();
            let wanted = before.insert(at as int, x);
            assert(now.len() == wanted.len());
            assert forall|i: int| 0 <= i < now.len() implies now[i] == wanted[i] by {
                if i < at {
                    assert(items@[i] == shallow[i]);
                    assert(before[i] == shallow[i].deep_view());
                } else if i > at {
                    assert(items@[i] == shallow[i - 1]);
                    assert(before[i - 1] == shallow[i - 1].deep_view());
                }
            }
            assert(now =~= wanted);
        }
        *self = SortedSet { items };
        true
    }
}

/// The set after `count` values at the front of `bytes` were put into `set`
/// one after the other, and the number of bytes that they occupy. A value that
/// the set holds already is `InvalidSize`.
pub open spec fn decode_into_set<T: SortKey>(bytes: Seq<u8>, count: nat, set: Seq<T::V>) -> Result<
    (Seq<T::V>, int),
    ReaderError,
>
    decreases count,
{
    if count == 0 {
        Ok((set, 0))
    } else {
        match T::decode(bytes) {
            Err(e) => Err(e),
            Ok((x, n)) => match sorted_insert::<T>(set, x) {
                None => Err(ReaderError::InvalidSize),
                Some(larger) => match decode_into_set::<T>(
                    bytes.skip(n),
                    (count - 1) as nat,
                    larger,
                ) {
                    Err(e) => Err(e),
                    Ok((done, m)) => Ok((done, n + m)),
                },
            },
        }
    }
}

/// What `decode_into_set` gives once the first `used` bytes were read.
pub open spec fn after_bytes<V>(used: int, rest: Result<(Seq<V>, int), ReaderError>) -> Result<
    (Seq<V>, int),
    ReaderError,
> {
    match rest {
        Ok((done, m)) => Ok((done, used + m)),
        Err(e) => Err(e),
    }
}

/// A set that was decoded is ascending, its items are canonical, and it took
/// no more bytes than there are.
pub proof fn lemma_decode_into_set_bounds<T: SortKey>(bytes: Seq<u8>, count: nat, set: Seq<T::V>)
    requires
        all_canonical::<T>(set),
        ascending::<T>(set),
    ensures
        decode_into_set::<T>(bytes, count, set) matches Ok((done, n)) ==> 0 <= n <= bytes.len()
            && all_canonical::<T>(done) && ascending::<T>(done) && done.len() == set.len() + count,
    decreases count,
{
    if count > 0 {
        T::lemma_decode_bounds(bytes);
        if let Ok((x, n)) = T::decode(bytes) {
            if let Some(larger) = sorted_insert::<T>(set, x) {
                lemma_sorted_insert_keeps::<T>(set, x);
                lemma_sorted_insert_ascending::<T>(set, x);
                lemma_decode_into_set_bounds::<T>(bytes.skip(n), (count - 1) as nat, larger);
            }
        }
    }
}

/// Putting a canonical value among canonical ones leaves all canonical, and makes one more.
pub proof fn lemma_sorted_insert_keeps<T: SortKey>(items: Seq<T::V>, x: T::V)
    requires
        all_canonical::<T>(items),
        T::canonical(x),
    ensures
        sorted_insert::<T>(items, x) matches Some(larger) ==> all_canonical::<T>(larger)
            && larger.len() == items.len() + 1,
    decreases items.len(),
{
    if items.len() > 0 && !T::precedes(items.last(), x) && items.last() != x {
        let front = items.drop_last();
        assert(all_canonical::<T>(front)) by {
            assert forall|i: int| 0 <= i < front.len() implies T::canonical(#[trigger] front[i]) by {
                assert(front[i] == items[i]);
            }
        }
        lemma_sorted_insert_keeps::<T>(front, x);
        if let Some(larger) = sorted_insert::<T>(front, x) {
            let whole = larger.push(items.last());
            assert forall|i: int| 0 <= i < whole.len() implies T::canonical(#[trigger] whole[i]) by {
                if i < larger.len() {
                    assert(whole[i] == larger[i]);
                } else {
                    assert(whole[i] == items[items.len() - 1]);
                }
            }
        }
    } else if items.len() > 0 && T::precedes(items.last(), x) {
        let whole = items.push(x);
        assert forall|i: int| 0 <= i < whole.len() implies T::canonical(#[trigger] whole[i]) by {
            if i < items.len() {
                assert(whole[i] == items[i]);
            }
        }
    }
}

/// The encoding of ascending items that all come after those of `set`,
/// followed by anything, decodes into `set` with these items behind it.
pub proof fn lemma_set_items_round_trip<T: SortKey>(set: Seq<T::V>, items: Seq<T::V>, rest: Seq<u8>)
    requires
        all_canonical::<T>(items),
        ascending::<T>(set + items),
    ensures
        decode_into_set::<T>(encode_items::<T>(items) + rest, items.len(), set) == Ok::<
            (Seq<T::V>, int),
            ReaderError,
        >((set + items, encode_items::<T>(items).len() as int)),
    decreases items.len(),
{
    if items.len() == 0 {
        assert(set + items =~= set);
    } else {
        let head = items[0];
        let tail = items.drop_first();
        let head_bytes = T::encode(head);
        let tail_bytes = encode_items::<T>(tail);
        let bytes = encode_items::<T>(items) + rest;
        T::lemma_round_trip(head, tail_bytes + rest);
        assert(bytes =~= head_bytes + (tail_bytes + rest));
        assert(bytes.skip(head_bytes.len() as int) =~= tail_bytes + rest);
        let whole = set + items;
        assert(whole[set.len() as int] == head);
        if set.len() > 0 {
            assert(whole[set.len() - 1] == set[set.len() - 1]);
            assert(T::precedes(set.last(), head));
        }
        lemma_sorted_insert_at::<T>(set, head, set.len() as int);
        assert(set.insert(set.len() as int, head) =~= set.push(head));
        assert(set.push(head) + tail =~= whole);
        assert(all_canonical::<T>(tail)) by {
            assert forall|i: int| 0 <= i < tail.len() implies T::canonical(#[trigger] tail[i]) by {
                assert(tail[i] == items[i + 1]);
            }
        }
        lemma_set_items_round_trip::<T>(set.push(head), tail, rest);
    }
}

/// A sorted set is a two-byte count, at most `MAX_ITEMS`, followed by that
/// many items in ascending order. On reading, the items may come in any order,
/// but none twice.
impl<T: SortKey> Serializer for SortedSet<T> {
    open spec fn canonical(v: Seq<T::V>) -> bool {
        v.len() <= MAX_ITEMS && all_canonical::<T>(v) && ascending::<T>(v)
    }

    open spec fn encode(v: Seq<T::V>) -> Seq<u8> {
        encode_count(v.len()) + encode_items::<T>(v)
    }

    open spec fn decode(bytes: Seq<u8>) -> Result<(Seq<T::V>, int), ReaderError> {
        match decode_uint(bytes, 2) {
            Err(e) => Err(e),
            Ok((count, _)) => if count > MAX_ITEMS {
                Err(ReaderError::InvalidSize)
            } else {
                after_bytes(2, decode_into_set::<T>(bytes.skip(2), count, Seq::empty()))
            },
        }
    }

    proof fn lemma_decode_bounds(bytes: Seq<u8>) {
        if let Ok((count, _)) = decode_uint(bytes, 2) {
            lemma_decode_into_set_bounds::<T>(bytes.skip(2), count, Seq::empty());
        }
    }

    proof fn lemma_round_trip(v: Seq<T::V>, rest: Seq<u8>) {
        let count = encode_count(v.len());
        let items = encode_items::<T>(v);
        lemma_pow256_values();
        lemma_be_bytes_len(v.len(), 2);
        lemma_decode_uint_round_trip(v.len(), 2, items + rest);
        assert(Self::encode(v) + rest =~= count + (items + rest));
        assert((count + (items + rest)).skip(2) =~= items + rest);
        assert(Seq::<T::V>::empty() + v =~= v);
        lemma_set_items_round_trip::<T>(Seq::empty(), v, rest);
    }

    fn write(&self, writer: &mut Writer) {
        let count: u16 = crate::serializer::defaults::count_of(self.items.len());
        writer.write_u16(count);
        write_items(&self.items, writer);
        assert(writer@ =~= old(writer)@ + Self::encode(self.deep_view()));
    }

    fn read(reader: &mut Reader) -> (r: Result<Self, ReaderError>) {
        proof {
            use_type_invariant(&*reader);
            reader.lemma_in_bounds();
        }
        let count = reader.read_u16()?;
        if count as usize > MAX_ITEMS {
            return Err(ReaderError::InvalidSize);
        }
        let ghost start = old(reader).remaining().skip(2);
        let ghost whole = decode_into_set::<T>(start, count as nat, Seq::empty());
        assert(reader.remaining() =~= start);
        let mut set: SortedSet<T> = SortedSet::new();
        let mut i: u16 = 0;
        while i < count
            invariant
                0 <= i <= count,
                reader.buffer() == old(reader).buffer(),
                old(reader).position() + 2 <= reader.position() <= reader.buffer().len(),
                start == old(reader).remaining().skip(2),
                whole == decode_into_set::<T>(start, count as nat, Seq::empty()),
                decode_uint(old(reader).remaining(), 2) == Ok::<(nat, int), ReaderError>(
                    (count as nat, 2),
                ),
                count <= MAX_ITEMS,
                after_bytes(
                    reader.position() - old(reader).position() - 2,
                    decode_into_set::<T>(reader.remaining(), (count - i) as nat, set.deep_view()),
                ) == whole,
            decreases count - i,
        {
            let ghost before = reader.remaining();
            proof {
                T::lemma_decode_bounds(before);
            }
            let value = match T::read(reader) {
                Ok(value) => value,
                Err(e) => {
                    return Err(e);
                },
            };
            proof {
                let n = T::decode(before)->Ok_0.1;
                assert(reader.remaining() =~= before.skip(n));
            }
            if !set.insert(value) {
                return Err(ReaderError::InvalidSize);
            }
            i += 1;
        }
        Ok(set)
    }
}

/// Putting a value in its place among ascending ones leaves them ascending.
pub proof fn lemma_sorted_insert_ascending<T: SortKey>(items: Seq<T::V>, x: T::V)
    requires
        ascending::<T>(items),
        all_canonical::<T>(items),
        T::canonical(x),
    ensures
        sorted_insert::<T>(items, x) matches Some(larger) ==> ascending::<T>(larger) && (forall|
            i: int,
        |
            0 <= i < larger.len() ==> #[trigger] larger[i] == x || items.contains(larger[i])),
    decreases items.len(),
{
    if items.len() == 0 {
    } else if T::precedes(items.last(), x) {
        let larger = items.push(x);
        assert forall|i: int, j: int| 0 <= i < j < larger.len() implies T::precedes(
            larger[i],
            larger[j],
        ) by {
            if j < items.len() {
                assert(larger[i] == items[i] && larger[j] == items[j]);
            } else {
                assert(larger[i] == items[i]);
                if i < items.len() - 1 {
                    T::lemma_strict_order(items[i], items.last(), x);
                }
            }
        }
        assert forall|i: int| 0 <= i < larger.len() implies #[trigger] larger[i] == x
            || items.contains(larger[i]) by {
            if i < items.len() {
                assert(larger[i] == items[i]);
            }
        }
    } else if items.last() != x {
        let front = items.drop_last();
        assert(ascending::<T>(front)) by {
            assert forall|i: int, j: int| 0 <= i < j < front.len() implies T::precedes(
                front[i],
                front[j],
            ) by {
                assert(front[i] == items[i] && front[j] == items[j]);
            }
        }
        assert(all_canonical::<T>(front)) by {
            assert forall|i: int| 0 <= i < front.len() implies T::canonical(#[trigger] front[i]) by {
                assert(front[i] == items[i]);
            }
        }
        assert(T::canonical(items[items.len() - 1]));
        T::lemma_total_order(x, items.last());
        lemma_sorted_insert_ascending::<T>(front, x);
        if let Some(inner) = sorted_insert::<T>(front, x) {
            let larger = inner.push(items.last());
            assert forall|i: int| 0 <= i < larger.len() implies #[trigger] larger[i] == x
                || items.contains(larger[i]) by {
                if i < inner.len() {
                    assert(larger[i] == inner[i]);
                    if inner[i] != x {
                        assert(front.contains(inner[i]));
                        let k = choose|k: int| 0 <= k < front.len() && front[k] == inner[i];
                        assert(items[k] == inner[i]);
                    }
                } else {
                    assert(larger[i] == items[items.len() - 1]);
                }
            }
            assert forall|i: int, j: int| 0 <= i < j < larger.len() implies T::precedes(
                larger[i],
                larger[j],
            ) by {
                if j < inner.len() {
                    assert(larger[i] == inner[i] && larger[j] == inner[j]);
                } else {
                    assert(larger[i] == inner[i]);
                    assert(larger[j] == items.last());
                    if inner[i] == x {
                    } else {
                        assert(front.contains(inner[i]));
                        let k = choose|k: int| 0 <= k < front.len() && front[k] == inner[i];
                        assert(items[k] == inner[i]);
                    }
                }
            }
        }
    }
}

} // verus!
