use crate::crypto;
use crate::crypto::{lemma_lex_asymmetric, lemma_lex_total, lemma_lex_transitive, lex_less};
use crate::error::BlockchainError;
use crate::storage::{DifficultyProvider, Storage};
use vstd::prelude::*;
use vstd::seq_lib::group_to_multiset_ensures;

verus! {

/// Cumulative proof-of-work difficulty.
pub type Difficulty = u64;

/// A block hash with the cumulative difficulty of the block.
pub type Score = (crypto::Hash, Difficulty);

/// Whether `a` comes strictly before `b`: by higher cumulative difficulty, and
/// between equal difficulties by higher hash.
pub open spec fn ranks_before(a: Score, b: Score) -> bool {
    a.1 > b.1 || (a.1 == b.1 && lex_less(b.0@, a.0@))
}

/// No element comes strictly before an earlier one.
pub open spec fn sorted_descending(scores: Seq<Score>) -> bool {
    forall|i: int, j: int| 0 <= i < j < scores.len() ==> !ranks_before(scores[j], scores[i])
}

/// Of two different scores, one comes before the other.
pub proof fn lemma_ranks_total(a: Score, b: Score)
    ensures
        a == b || ranks_before(a, b) || ranks_before(b, a),
{
    a.0.lemma_len();
    b.0.lemma_len();
    lemma_lex_total(a.0@, b.0@);
    a.0.lemma_view_injective(b.0);
}

/// No score comes before itself, and no two scores come before each other.
pub proof fn lemma_ranks_asymmetric(a: Score, b: Score)
    ensures
        !(ranks_before(a, b) && ranks_before(b, a)),
{
    lemma_lex_asymmetric(a.0@, b.0@);
}

/// The order is transitive.
pub proof fn lemma_ranks_transitive(a: Score, b: Score, c: Score)
    requires
        ranks_before(a, b),
        ranks_before(b, c),
    ensures
        ranks_before(a, c),
{
    if a.1 == b.1 && b.1 == c.1 {
        lemma_lex_transitive(c.0@, b.0@, a.0@);
    }
}

/// Where `b` does not come before `a` and `c` does not come before `b`, `c`
/// does not come before `a`.
pub proof fn lemma_not_before_transitive(a: Score, b: Score, c: Score)
    requires
        !ranks_before(b, a),
        !ranks_before(c, b),
    ensures
        !ranks_before(c, a),
{
    lemma_ranks_total(a, b);
    lemma_ranks_total(b, c);
    if ranks_before(c, a) {
        if a == b {
        } else if b == c {
        } else {
            lemma_ranks_transitive(c, a, b);
        }
    }
}

/// Whether `a` comes strictly before `b`.
pub fn score_before(a: &Score, b: &Score) -> (r: bool)
    ensures
        r == ranks_before(*a, *b),
{
    if a.1 != b.1 {
        a.1 > b.1
    } else {
        b.0.less_than(&a.0)
    }
}

/// Sorts the scores in place, highest cumulative difficulty first and, between
/// equal difficulties, highest hash first.
pub fn sort_descending_by_cumulative_difficulty(scores: &mut Vec<Score>)
    ensures
        sorted_descending(final(scores)@),
        final(scores)@.to_multiset() == old(scores)@.to_multiset(),
        final(scores)@.len() == old(scores)@.len(),
        final(scores)@.len() >= 2 ==> final(scores)@[0].1 >= final(scores)@[1].1,
{
    broadcast use group_to_multiset_ensures;

    let n = scores.len();
    let mut i: usize = 1;
    while i < n
        invariant
            scores@.len() == n,
            1 <= i,
            n == 0 || (i <= n && sorted_descending(scores@.take(i as int))),
            scores@.to_multiset() == old(scores)@.to_multiset(),
        decreases n - i,
    {
        let current = scores[i];
        let mut p: usize = 0;
        while p < i && !score_before(&current, &scores[p])
            invariant
                0 <= p <= i < n,
                scores@.len() == n,
                current == scores@[i as int],
                forall|k: int| 0 <= k < p ==> !ranks_before(current, scores@[k]),
            decreases i - p,
        {
            p += 1;
        }
        if p < i {
            let ghost before = scores@;
            let moved = scores.remove(i);
            let ghost without = scores@;
            scores.insert(p, moved);
            proof {
                vstd::seq_lib::to_multiset_remove(before, i as int);
                vstd::seq_lib::to_multiset_insert(without, p as int, moved);
                assert(before[i as int] == current);
                assert(before.contains(current));
                vstd::seq_lib::to_multiset_contains(before, current);
                assert(scores@.to_multiset() =~= before.to_multiset());
                let prefix = scores@.take(i + 1);
                assert forall|a: int, b: int| 0 <= a < b < prefix.len() implies !ranks_before(
                    prefix[b],
                    prefix[a],
                ) by {
                    let old_prefix = before.take(i as int);
                    if b < p {
                        assert(prefix[a] == old_prefix[a] && prefix[b] == old_prefix[b]);
                    } else if b == p {
                        assert(prefix[a] == before[a]);
                    } else if a < p {
                        assert(prefix[a] == old_prefix[a] && prefix[b] == old_prefix[b - 1]);
                    } else if a == p {
                        assert(prefix[b] == old_prefix[b - 1]);
                        assert(old_prefix[p as int] == before[p as int]);
                        if b - 1 > p {
                            assert(!ranks_before(old_prefix[b - 1], old_prefix[p as int]));
                        }
                        lemma_ranks_asymmetric(current, before[p as int]);
                        lemma_not_before_transitive(current, before[p as int], prefix[b]);
                    } else {
                        assert(prefix[a] == old_prefix[a - 1] && prefix[b] == old_prefix[b - 1]);
                    }
                }
            }
        } else {
            proof {
                let prefix = scores@.take(i + 1);
                assert forall|a: int, b: int| 0 <= a < b < prefix.len() implies !ranks_before(
                    prefix[b],
                    prefix[a],
                ) by {
                    let old_prefix = scores@.take(i as int);
                    if b < i {
                        assert(prefix[a] == old_prefix[a] && prefix[b] == old_prefix[b]);
                    }
                }
            }
        }
        i += 1;
    }
    proof {
        if n > 0 {
            assert(scores@.take(n as int) =~= scores@);
        }
        if n >= 2 {
            assert(!ranks_before(scores@[1], scores@[0]));
        }
    }
}

/// Whether `sorted` holds the scores of `scores`, each as often, in descending order.
pub open spec fn is_sorted_arrangement(sorted: Seq<Score>, scores: Seq<Score>) -> bool {
    sorted_descending(sorted) && sorted.to_multiset() == scores.to_multiset()
}

/// The first of a descending arrangement is not below any score of it.
proof fn lemma_first_is_greatest(a: Seq<Score>, x: Score)
    requires
        sorted_descending(a),
        a.contains(x),
    ensures
        !ranks_before(x, a[0]),
{
    let k = choose|k: int| 0 <= k < a.len() && a[k] == x;
    if k == 0 {
        lemma_ranks_asymmetric(x, x);
    }
}

/// What follows the first of a descending arrangement is a descending arrangement.
proof fn lemma_rest_sorted(a: Seq<Score>)
    requires
        sorted_descending(a),
        a.len() > 0,
    ensures
        sorted_descending(a.drop_first()),
{
    let rest = a.drop_first();
    assert forall|i: int, j: int| 0 <= i < j < rest.len() implies !ranks_before(rest[j], rest[i]) by {
        assert(rest[i] == a[i + 1] && rest[j] == a[j + 1]);
    }
}

/// Two descending arrangements of the same scores are the same sequence. So the
/// order that sorting gives depends on the scores alone, and sorting a sorted
/// sequence gives it back.
pub proof fn lemma_sorted_unique(a: Seq<Score>, b: Seq<Score>)
    requires
        sorted_descending(a),
        sorted_descending(b),
        a.to_multiset() == b.to_multiset(),
    ensures
        a == b,
    decreases a.len(),
{
    vstd::seq_lib::to_multiset_len(a);
    vstd::seq_lib::to_multiset_len(b);
    if a.len() == 0 {
        assert(a =~= b);
    } else {
        assert(a.contains(a[0]));
        vstd::seq_lib::to_multiset_contains(a, a[0]);
        vstd::seq_lib::to_multiset_contains(b, a[0]);
        assert(b.contains(b[0]));
        vstd::seq_lib::to_multiset_contains(a, b[0]);
        vstd::seq_lib::to_multiset_contains(b, b[0]);
        lemma_first_is_greatest(b, a[0]);
        lemma_first_is_greatest(a, b[0]);
        lemma_ranks_total(a[0], b[0]);
        assert(a[0] == b[0]);
        let a_rest = a.drop_first();
        let b_rest = b.drop_first();
        assert(a_rest =~= a.remove(0));
        assert(b_rest =~= b.remove(0));
        vstd::seq_lib::to_multiset_remove(a, 0);
        vstd::seq_lib::to_multiset_remove(b, 0);
        lemma_rest_sorted(a);
        lemma_rest_sorted(b);
        lemma_sorted_unique(a_rest, b_rest);
        assert(a =~= seq![a[0]] + a_rest);
        assert(b =~= seq![b[0]] + b_rest);
    }
}

/// The hashes of `scores`, in order.
pub open spec fn hashes_of(scores: Seq<Score>) -> Seq<crypto::Hash> {
    Seq::new(scores.len(), |i: int| scores[i].0)
}

/// Each tip with its cumulative difficulty.
pub open spec fn scores_of(tips: Seq<crypto::Hash>, difficulties: Seq<Difficulty>) -> Seq<Score> {
    Seq::new(tips.len(), |i: int| (tips[i], difficulties[i]))
}

/// Whether `answer` is what `provider` may give as the cumulative difficulty of `hash`.
pub open spec fn answers_difficulty<D: DifficultyProvider>(
    provider: &D,
    hash: crypto::Hash,
    answer: Result<Difficulty, BlockchainError>,
) -> bool {
    call_ensures(D::get_cumulative_difficulty_for_block_hash, (provider, &hash), answer)
}

/// Whether `answer` is what `provider` may give as the height of `hash`.
pub open spec fn answers_height<D: DifficultyProvider>(
    provider: &D,
    hash: crypto::Hash,
    answer: Result<u64, BlockchainError>,
) -> bool {
    call_ensures(D::get_height_for_block_hash, (provider, &hash), answer)
}

/// Whether `difficulties` are cumulative difficulties that `provider` gave
/// for `tips`, one for each.
pub open spec fn gave_difficulties<D: DifficultyProvider>(
    provider: &D,
    tips: Seq<crypto::Hash>,
    difficulties: Seq<Difficulty>,
) -> bool {
    difficulties.len() == tips.len() && forall|i: int|
        0 <= i < tips.len() ==> answers_difficulty(
            provider,
            #[trigger] tips[i],
            Ok(difficulties[i]),
        )
}

/// Whether `heights` are heights that `provider` gave for `tips`, one for each.
pub open spec fn gave_heights<D: DifficultyProvider>(
    provider: &D,
    tips: Seq<crypto::Hash>,
    heights: Seq<u64>,
) -> bool {
    heights.len() == tips.len() && forall|i: int|
        0 <= i < tips.len() ==> answers_height(provider, #[trigger] tips[i], Ok(heights[i]))
}

/// Whether `order` holds `tips` by descending cumulative difficulty, and by
/// descending hash between equal difficulties.
pub open spec fn is_tip_order(
    tips: Seq<crypto::Hash>,
    difficulties: Seq<Difficulty>,
    order: Seq<crypto::Hash>,
) -> bool {
    exists|sorted: Seq<Score>| #[trigger]
        is_sorted_arrangement(sorted, scores_of(tips, difficulties)) && order == hashes_of(sorted)
}

/// The hashes of `scores` by descending cumulative difficulty, and by descending
/// hash between equal difficulties.
pub fn sorted_hashes(scores: Vec<Score>) -> (order: Vec<crypto::Hash>)
    ensures
        exists|sorted: Seq<Score>| #[trigger]
            is_sorted_arrangement(sorted, scores@) && order@ == hashes_of(sorted),
{
    let mut scores = scores;
    let ghost given = scores@;
    sort_descending_by_cumulative_difficulty(&mut scores);
    let mut order: Vec<crypto::Hash> = Vec::with_capacity(scores.len());
    let mut i: usize = 0;
    while i < scores.len()
        invariant
            0 <= i <= scores.len(),
            order@ == hashes_of(scores@).take(i as int),
        decreases scores.len() - i,
    {
        order.push(scores[i].0);
        assert(order@ =~= hashes_of(scores@).take(i + 1));
        i += 1;
    }
    assert(order@ =~= hashes_of(scores@));
    assert(is_sorted_arrangement(scores@, given));
    order
}

/// The tips by descending cumulative difficulty, as `storage` gives it, and by
/// descending hash between equal difficulties. No tips are an error; a single
/// tip is returned as it is, without asking `storage`; an error of `storage`
/// for one of several tips is returned as it is.
pub fn sort_tips<S: Storage>(storage: &S, tips: &Vec<crypto::Hash>) -> (r: Result<
    Vec<crypto::Hash>,
    BlockchainError,
>)
    ensures
        tips@.len() == 0 ==> r == Err::<Vec<crypto::Hash>, BlockchainError>(
            BlockchainError::ExpectedTips,
        ),
        tips@.len() == 1 ==> r is Ok && r->Ok_0@ == tips@,
        tips@.len() >= 2 ==> match r {
            Ok(order) => exists|difficulties: Seq<Difficulty>|
                gave_difficulties(storage, tips@, difficulties) && #[trigger] is_tip_order(
                    tips@,
                    difficulties,
                    order@,
                ),
            Err(e) => exists|i: int|
                0 <= i < tips@.len() && answers_difficulty(
                    storage,
                    #[trigger] tips@[i],
                    Err(e),
                ),
        },
{
    if tips.len() == 0 {
        return Err(BlockchainError::ExpectedTips);
    }
    if tips.len() == 1 {
        let mut single: Vec<crypto::Hash> = Vec::with_capacity(1);
        single.push(tips[0]);
        assert(single@ =~= tips@);
        return Ok(single);
    }
    let mut scores: Vec<Score> = Vec::with_capacity(tips.len());
    let ghost mut difficulties: Seq<Difficulty> = Seq::empty();
    let mut i: usize = 0;
    while i < tips.len()
        invariant
            0 <= i <= tips.len(),
            tips@.len() >= 2,
            gave_difficulties(storage, tips@.take(i as int), difficulties),
            scores@ == scores_of(tips@.take(i as int), difficulties),
        decreases tips.len() - i,
    {
        let cumulative_difficulty = match storage.get_cumulative_difficulty_for_block_hash(
            &tips[i],
        ) {
            Ok(d) => d,
            Err(e) => {
                assert(answers_difficulty(storage, tips@[i as int], Err(e)));
                return Err(e);
            },
        };
        scores.push((tips[i], cumulative_difficulty));
        proof {
            let before = difficulties;
            difficulties = difficulties.push(cumulative_difficulty);
            assert(scores@ =~= scores_of(tips@.take(i + 1), difficulties));
            assert forall|j: int| 0 <= j < i + 1 implies answers_difficulty(
                storage,
                #[trigger] tips@.take(i + 1)[j],
                Ok(difficulties[j]),
            ) by {
                if j < i {
                    assert(tips@.take(i as int)[j] == tips@[j]);
                    assert(before[j] == difficulties[j]);
                }
            }
        }
        i += 1;
    }
    assert(tips@.take(tips@.len() as int) =~= tips@);
    let order = sorted_hashes(scores);
    let r = Ok(order);
    assert(is_tip_order(tips@, difficulties, r->Ok_0@));
    r
}

/// The greatest of `heights`, zero for none.
pub open spec fn max_height(heights: Seq<u64>) -> int
    decreases heights.len(),
{
    if heights.len() == 0 {
        0
    } else if heights.last() >= max_height(heights.drop_last()) {
        heights.last() as int
    } else {
        max_height(heights.drop_last())
    }
}

/// The height of a block whose parents have `heights`: zero without parents,
/// else one more than the greatest.
pub open spec fn height_above(heights: Seq<u64>) -> int {
    if heights.len() == 0 {
        0
    } else {
        max_height(heights) + 1
    }
}

/// The greatest height is one of the heights and no height is above it.
pub proof fn lemma_max_height(heights: Seq<u64>)
    ensures
        forall|i: int| 0 <= i < heights.len() ==> heights[i] <= max_height(heights),
        heights.len() > 0 ==> exists|i: int|
            0 <= i < heights.len() && #[trigger] heights[i] == max_height(heights),
        heights.len() == 0 ==> max_height(heights) == 0,
        0 <= max_height(heights) <= u64::MAX,
    decreases heights.len(),
{
    if heights.len() > 0 {
        let front = heights.drop_last();
        lemma_max_height(front);
        assert forall|i: int| 0 <= i < heights.len() implies heights[i] <= max_height(heights) by {
            if i < front.len() {
                assert(front[i] == heights[i]);
            }
        }
        if heights.last() >= max_height(front) {
            assert(heights[heights.len() - 1] == max_height(heights));
        } else {
            let i = choose|i: int| 0 <= i < front.len() && #[trigger] front[i] == max_height(front);
            assert(heights[i] == max_height(heights));
        }
    }
}

/// The height of a block whose parents have `heights`, or `HeightOverflow`
/// where that height does not fit in 64 bits.
pub fn height_at(heights: &Vec<u64>) -> (r: Result<u64, BlockchainError>)
    ensures
        height_above(heights@) <= u64::MAX ==> r == Ok::<u64, BlockchainError>(
            height_above(heights@) as u64,
        ),
        height_above(heights@) > u64::MAX ==> r == Err::<u64, BlockchainError>(
            BlockchainError::HeightOverflow,
        ),
{
    let mut height: u64 = 0;
    let mut i: usize = 0;
    while i < heights.len()
        invariant
            0 <= i <= heights.len(),
            height == max_height(heights@.take(i as int)),
        decreases heights.len() - i,
    {
        assert(heights@.take(i + 1).drop_last() =~= heights@.take(i as int));
        if height <= heights[i] {
            height = heights[i];
        }
        i += 1;
    }
    assert(heights@.take(heights@.len() as int) =~= heights@);
    if heights.len() != 0 {
        if height == u64::MAX {
            return Err(BlockchainError::HeightOverflow);
        }
        height += 1;
    }
    Ok(height)
}

/// The height of a block on top of `tips`: zero without tips, else one more
/// than the greatest height that `provider` gives for a tip. An error of
/// `provider` is returned as it is; a height that does not fit in 64 bits is
/// `HeightOverflow`.
pub fn calculate_height_at_tips<D: DifficultyProvider>(provider: &D, tips: &Vec<crypto::Hash>) -> (r:
    Result<u64, BlockchainError>)
    ensures
        tips@.len() == 0 ==> r == Ok::<u64, BlockchainError>(0),
        match r {
            Ok(height) => exists|heights: Seq<u64>| #[trigger]
                gave_heights(provider, tips@, heights) && height == height_above(heights),
            Err(e) => (exists|i: int|
                0 <= i < tips@.len() && answers_height(provider, #[trigger] tips@[i], Err(e))) || (e
                == BlockchainError::HeightOverflow && exists|heights: Seq<u64>| #[trigger]
                gave_heights(provider, tips@, heights) && height_above(heights) > u64::MAX),
        },
{
    let mut heights: Vec<u64> = Vec::with_capacity(tips.len());
    let mut i: usize = 0;
    while i < tips.len()
        invariant
            0 <= i <= tips.len(),
            gave_heights(provider, tips@.take(i as int), heights@),
        decreases tips.len() - i,
    {
        let past_height = match provider.get_height_for_block_hash(&tips[i]) {
            Ok(h) => h,
            Err(e) => {
                assert(answers_height(provider, tips@[i as int], Err(e)));
                return Err(e);
            },
        };
        let ghost before = heights@;
        heights.push(past_height);
        proof {
            assert forall|j: int| 0 <= j < i + 1 implies answers_height(
                provider,
                #[trigger] tips@.take(i + 1)[j],
                Ok(heights@[j]),
            ) by {
                if j < i {
                    assert(tips@.take(i as int)[j] == tips@[j]);
                    assert(before[j] == heights@[j]);
                }
            }
        }
        i += 1;
    }
    assert(tips@.take(tips@.len() as int) =~= tips@);
    let r = height_at(&heights);
    assert(gave_heights(provider, tips@, heights@));
    r
}

/// The first hash of `scores` in descending order, if there is any score.
pub fn best_score(scores: Vec<Score>) -> (best: Option<crypto::Hash>)
    ensures
        scores@.len() == 0 ==> best is None,
        scores@.len() > 0 ==> best is Some && exists|sorted: Seq<Score>| #[trigger]
            is_sorted_arrangement(sorted, scores@) && best->Some_0 == sorted[0].0,
{
    broadcast use group_to_multiset_ensures;

    if scores.len() == 0 {
        return None;
    }
    let mut scores = scores;
    let ghost given = scores@;
    sort_descending_by_cumulative_difficulty(&mut scores);
    assert(is_sorted_arrangement(scores@, given));
    Some(scores[0].0)
}

/// The tip that comes first by descending cumulative difficulty, as `provider`
/// gives it, and by descending hash between equal difficulties. No tips are
/// an error; a single tip is returned without asking `provider`; an error of
/// `provider` for one of several tips is returned as it is.
pub fn find_best_tip_by_cumulative_difficulty<'a, D: DifficultyProvider>(
    provider: &D,
    tips: &'a Vec<crypto::Hash>,
) -> (r: Result<&'a crypto::Hash, BlockchainError>)
    ensures
        tips@.len() == 0 ==> r == Err::<&crypto::Hash, BlockchainError>(
            BlockchainError::ExpectedTips,
        ),
        tips@.len() == 1 ==> r is Ok && *r->Ok_0 == tips@[0],
        tips@.len() >= 2 ==> match r {
            Ok(best) => exists|difficulties: Seq<Difficulty>, sorted: Seq<Score>|
                gave_difficulties(provider, tips@, difficulties) && #[trigger] is_sorted_arrangement(
                    sorted,
                    scores_of(tips@, difficulties),
                ) && *best == sorted[0].0,
            Err(e) => exists|i: int|
                0 <= i < tips@.len() && answers_difficulty(
                    provider,
                    #[trigger] tips@[i],
                    Err(e),
                ),
        },
{
    if tips.len() == 0 {
        return Err(BlockchainError::ExpectedTips);
    }
    if tips.len() == 1 {
        return Ok(&tips[0]);
    }
    let mut scores: Vec<Score> = Vec::with_capacity(tips.len());
    let ghost mut difficulties: Seq<Difficulty> = Seq::empty();
    let mut i: usize = 0;
    while i < tips.len()
        invariant
            0 <= i <= tips.len(),
            tips@.len() >= 2,
            gave_difficulties(provider, tips@.take(i as int), difficulties),
            scores@ == scores_of(tips@.take(i as int), difficulties),
        decreases tips.len() - i,
    {
        let cumulative_difficulty = match provider.get_cumulative_difficulty_for_block_hash(
            &tips[i],
        ) {
            Ok(d) => d,
            Err(e) => {
                assert(answers_difficulty(provider, tips@[i as int], Err(e)));
                return Err(e);
            },
        };
        scores.push((tips[i], cumulative_difficulty));
        proof {
            let before = difficulties;
            difficulties = difficulties.push(cumulative_difficulty);
            assert(scores@ =~= scores_of(tips@.take(i + 1), difficulties));
            assert forall|j: int| 0 <= j < i + 1 implies answers_difficulty(
                provider,
                #[trigger] tips@.take(i + 1)[j],
                Ok(difficulties[j]),
            ) by {
                if j < i {
                    assert(tips@.take(i as int)[j] == tips@[j]);
                    assert(before[j] == difficulties[j]);
                }
            }
        }
        i += 1;
    }
    assert(tips@.take(tips@.len() as int) =~= tips@);
    let ghost given = scores@;
    sort_descending_by_cumulative_difficulty(&mut scores);
    let best = scores[0].0;
    proof {
        assert(scores@.contains(scores@[0]));
        vstd::seq_lib::to_multiset_contains(scores@, scores@[0]);
        vstd::seq_lib::to_multiset_contains(given, scores@[0]);
        assert(given.contains(scores@[0]));
    }
    let ghost at = choose|k: int| 0 <= k < given.len() && given[k] == scores@[0];
    let mut k: usize = 0;
    while k < tips.len() && !tips[k].equals(&best)
        invariant
            0 <= k <= tips.len(),
            0 <= at < tips@.len(),
            tips@[at]@ == best@,
            forall|j: int| 0 <= j < k ==> tips@[j]@ != best@,
        decreases tips.len() - k,
    {
        k += 1;
    }
    proof {
        tips@[k as int].lemma_view_injective(best);
        assert(is_sorted_arrangement(scores@, scores_of(tips@, difficulties)));
    }
    Ok(&tips[k])
}

} // verus!
