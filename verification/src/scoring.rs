//! Score normalisation and weighted fusion.
//!
//! Scores are fixed-point: the integer `ONE` stands for 1.0. A cosine distance
//! `d` becomes the similarity `1 - d / 2`; lexical scores are divided by the
//! largest score of their batch; the two signals are blended as
//! `alpha * semantic + (1 - alpha) * keyword`.

use crate::ranking::{
    is_ranking, lemma_index_of_unique, lemma_is_the_ranking, lemma_rank_kept_when_raised,
    lemma_ranking_skip, place, ranked_view, ranking_of, stands_before,
};
use crate::score_map::ScoreMap;
use vstd::prelude::*;

verus! {

/// The fixed-point representation of 1.0.
pub const ONE: i64 = 1_000_000;

/// The smallest divisor that lexical scores are scaled by (0.001), so that a
/// batch of zeros does not divide by zero.
pub const MIN_SCALE: u64 = 1_000;

/// The floor that a fused score must be above where none is named: 0.001.
pub const DEFAULT_MIN_SCORE: i64 = 1_000;

/// How two signals are blended.
#[derive(Debug, Clone)]
pub struct FusionConfig {
    /// The weight of the semantic signal, from 0 (lexical only) to `ONE`
    /// (semantic only).
    pub alpha: i64,
    /// A fused score must be above this to be kept.
    pub min_score: i64,
}

impl FusionConfig {
    /// The weight lies between 0 and `ONE`.
    pub open spec fn wf(&self) -> bool {
        0 <= self.alpha <= ONE
    }

    /// The configuration with the given weight and the default floor.
    pub fn new(alpha: i64) -> (config: FusionConfig)
        ensures
            config.alpha == alpha,
            config.min_score == DEFAULT_MIN_SCORE,
    {
        FusionConfig { alpha, min_score: DEFAULT_MIN_SCORE }
    }
}

impl Default for FusionConfig {
    /// A weight of 0.7 and the default floor.
    fn default() -> (config: FusionConfig)
        ensures
            config.alpha == 700_000,
            config.min_score == DEFAULT_MIN_SCORE,
    {
        FusionConfig { alpha: 700_000, min_score: DEFAULT_MIN_SCORE }
    }
}

/// The similarity that a cosine distance stands for: `1 - distance / 2`, the
/// half rounded down to a whole millionth.
pub open spec fn similarity_of(distance: int) -> int {
    ONE - distance / 2
}

/// Turns a cosine distance (0 for the same direction, `2 * ONE` for the
/// opposite one) into a similarity between `ONE` and 0.
pub fn cosine_distance_to_similarity(distance: u64) -> (similarity: i64)
    ensures
        similarity == similarity_of(distance as int),
        distance <= 2 * ONE ==> 0 <= similarity <= ONE,
{
    let half: u64 = distance / 2;
    ONE - (half as i64)
}

/// A batch of raw lexical scores as plain values.
pub open spec fn batch_of(scores: Seq<(String, u64)>) -> Seq<(Seq<char>, u64)> {
    Seq::new(scores.len(), |i: int| (scores[i].0@, scores[i].1))
}

/// The largest raw score of a batch, 0 for an empty one.
pub open spec fn largest_raw(batch: Seq<(Seq<char>, u64)>) -> u64
    decreases batch.len(),
{
    if batch.len() == 0 {
        0
    } else {
        let rest = largest_raw(batch.drop_last());
        if batch.last().1 > rest {
            batch.last().1
        } else {
            rest
        }
    }
}

/// What a batch is divided by: its largest raw score, but at least
/// `MIN_SCALE`.
pub open spec fn batch_scale(batch: Seq<(Seq<char>, u64)>) -> u64 {
    if largest_raw(batch) > MIN_SCALE {
        largest_raw(batch)
    } else {
        MIN_SCALE
    }
}

/// A raw score over the scale, rounded down and capped at `ONE`.
pub open spec fn max_scaled(raw: u64, scale: u64) -> i64 {
    if raw * ONE / (scale as int) < ONE {
        (raw * ONE / (scale as int)) as i64
    } else {
        ONE
    }
}

/// The raw score that a batch gives an id: that of the last entry with the
/// id, if there is one.
pub open spec fn raw_of(batch: Seq<(Seq<char>, u64)>, id: Seq<char>) -> Option<u64>
    decreases batch.len(),
{
    if batch.len() == 0 {
        None
    } else if batch.last().0 == id {
        Some(batch.last().1)
    } else {
        raw_of(batch.drop_last(), id)
    }
}

/// The normalised scores of a batch: every id of the batch, with its raw
/// score over the batch's scale.
pub open spec fn normalized(batch: Seq<(Seq<char>, u64)>) -> Map<Seq<char>, i64> {
    Map::new(
        |id: Seq<char>| raw_of(batch, id) is Some,
        |id: Seq<char>| max_scaled(raw_of(batch, id).unwrap(), batch_scale(batch)),
    )
}

/// The ids of a batch without repetitions, each where it first occurs.
pub open spec fn first_seen(batch: Seq<(Seq<char>, u64)>) -> Seq<Seq<char>>
    decreases batch.len(),
{
    if batch.len() == 0 {
        Seq::empty()
    } else if raw_of(batch.drop_last(), batch.last().0) is Some {
        first_seen(batch.drop_last())
    } else {
        first_seen(batch.drop_last()).push(batch.last().0)
    }
}

/// The largest raw score is at least every score of the batch, and is one of
/// them unless the batch is empty.
pub proof fn lemma_largest_raw(batch: Seq<(Seq<char>, u64)>)
    ensures
        forall|i: int| 0 <= i < batch.len() ==> (#[trigger] batch[i]).1 <= largest_raw(batch),
        batch.len() > 0 ==> exists|i: int| 0 <= i < batch.len() && (#[trigger] batch[i]).1
            == largest_raw(batch),
        batch.len() == 0 ==> largest_raw(batch) == 0,
    decreases batch.len(),
{
    if batch.len() > 0 {
        let rest = batch.drop_last();
        lemma_largest_raw(rest);
        assert forall|i: int| 0 <= i < batch.len() implies (#[trigger] batch[i]).1 <= largest_raw(
            batch,
        ) by {
            if i < rest.len() {
                assert(rest[i] == batch[i]);
            }
        }
        if batch.last().1 > largest_raw(rest) || rest.len() == 0 {
            assert(batch[batch.len() - 1].1 == largest_raw(batch));
        } else {
            let i = choose|i: int| 0 <= i < rest.len() && (#[trigger] rest[i]).1 == largest_raw(
                rest,
            );
            assert(batch[i] == rest[i]);
        }
    }
}

/// The scaled score of a raw score is the fraction `raw / scale` in
/// millionths, rounded down, and never above `ONE`.
pub proof fn lemma_max_scaled_bounds(raw: u64, scale: u64)
    requires
        scale > 0,
    ensures
        0 <= max_scaled(raw, scale) <= ONE,
        raw >= scale ==> max_scaled(raw, scale) == ONE,
        raw < scale ==> max_scaled(raw, scale) == raw * ONE / (scale as int),
{
    let n: int = raw * ONE;
    let d: int = scale as int;
    assert(0 <= n / d) by (nonlinear_arith)
        requires
            0 <= n,
            0 < d,
    ;
    if raw >= scale {
        assert(n / d >= ONE) by (nonlinear_arith)
            requires
                n >= ONE * d,
                0 < d,
        ;
    } else {
        assert(n / d < ONE) by (nonlinear_arith)
            requires
                n < ONE * d,
                0 < d,
        ;
    }
}

/// Scaling keeps the order of raw scores.
pub proof fn lemma_max_scaled_monotonic(low: u64, high: u64, scale: u64)
    requires
        scale > 0,
        low <= high,
    ensures
        max_scaled(low, scale) <= max_scaled(high, scale),
{
    lemma_max_scaled_bounds(low, scale);
    lemma_max_scaled_bounds(high, scale);
    let a: int = low * ONE;
    let b: int = high * ONE;
    let d: int = scale as int;
    assert(a / d <= b / d) by (nonlinear_arith)
        requires
            a <= b,
            0 < d,
    ;
}

/// `raw * ONE / scale`, capped at `ONE`.
fn scale_raw(raw: u64, scale: u64) -> (scaled: i64)
    requires
        scale > 0,
    ensures
        scaled == max_scaled(raw, scale),
{
    proof {
        lemma_max_scaled_bounds(raw, scale);
    }
    if raw >= scale {
        ONE
    } else {
        let n: u128 = (raw as u128) * (ONE as u128);
        let q: u128 = n / (scale as u128);
        q as i64
    }
}

/// The normalised lexical scores of one batch of results.
///
/// Every raw score is divided by the largest raw score of the batch (or by
/// `MIN_SCALE`, if that is larger) and capped at `ONE`. Where an id occurs more
/// than once, its last score counts; the ids keep the order in which they
/// first occur.
pub fn normalize_bm25_scores(scores: &[(String, u64)]) -> (normal: ScoreMap)
    ensures
        normal.wf(),
        normal@ == normalized(batch_of(scores@)),
        normal.order() == first_seen(batch_of(scores@)),
{
    let ghost batch = batch_of(scores@);
    let mut largest: u64 = 0;
    let mut i: usize = 0;
    while i < scores.len()
        invariant
            i <= scores@.len(),
            batch == batch_of(scores@),
            largest == largest_raw(batch.take(i as int)),
        decreases scores.len() - i,
    {
        assert(batch.take(i + 1).drop_last() == batch.take(i as int));
        if scores[i].1 > largest {
            largest = scores[i].1;
        }
        i += 1;
    }
    assert(batch.take(i as int) == batch);
    let scale: u64 = if largest > MIN_SCALE {
        largest
    } else {
        MIN_SCALE
    };
    let mut normal = ScoreMap::new();
    let mut k: usize = 0;
    while k < scores.len()
        invariant
            k <= scores@.len(),
            batch == batch_of(scores@),
            scale == batch_scale(batch),
            scale > 0,
            normal.wf(),
            normal.order() == first_seen(batch.take(k as int)),
            forall|id: Seq<char>| normal@.contains_key(id) <==> raw_of(batch.take(k as int), id) is Some,
            forall|id: Seq<char>| #[trigger]
                normal@.contains_key(id) ==> normal@[id] == max_scaled(
                    raw_of(batch.take(k as int), id).unwrap(),
                    scale,
                ),
        decreases scores.len() - k,
    {
        assert(batch.take(k + 1).drop_last() == batch.take(k as int));
        let scaled = scale_raw(scores[k].1, scale);
        normal.insert(scores[k].0.clone(), scaled);
        k += 1;
    }
    assert(batch.take(k as int) == batch);
    assert(normal@ =~= normalized(batch));
    normal
}

/// The score of an id in one signal, 0 where the signal does not hold it.
pub open spec fn score_or_zero(scores: Map<Seq<char>, i64>, id: Seq<char>) -> int {
    if scores.contains_key(id) {
        scores[id] as int
    } else {
        0
    }
}

/// The weighted blend `alpha * semantic + (1 - alpha) * keyword` in
/// fixed-point, rounded down to a whole millionth.
pub open spec fn fused_score(alpha: int, semantic: int, keyword: int) -> int {
    (alpha * semantic + (ONE - alpha) * keyword) / (ONE as int)
}

/// The fused score of an id under a weight, from the two signals.
pub open spec fn fused_score_of(
    alpha: int,
    semantic: Map<Seq<char>, i64>,
    keyword: Map<Seq<char>, i64>,
    id: Seq<char>,
) -> int {
    fused_score(alpha, score_or_zero(semantic, id), score_or_zero(keyword, id))
}

/// The function from an id to its fused score.
pub open spec fn fusion_score(
    alpha: int,
    semantic: Map<Seq<char>, i64>,
    keyword: Map<Seq<char>, i64>,
) -> spec_fn(Seq<char>) -> int {
    |id: Seq<char>| fused_score_of(alpha, semantic, keyword, id)
}

/// The ids that fusion considers, in the order in which they are
/// discovered: those of the semantic signal first, then those that only the
/// lexical signal holds.
pub open spec fn candidates(semantic: Seq<Seq<char>>, keyword: Seq<Seq<char>>) -> Seq<Seq<char>>
    decreases keyword.len(),
{
    if keyword.len() == 0 {
        semantic
    } else {
        let before = candidates(semantic, keyword.drop_last());
        if semantic.contains(keyword.last()) {
            before
        } else {
            before.push(keyword.last())
        }
    }
}

/// The candidates hold no id twice, and hold exactly the ids of the two
/// signals.
pub proof fn lemma_candidates(semantic: Seq<Seq<char>>, keyword: Seq<Seq<char>>)
    requires
        semantic.no_duplicates(),
        keyword.no_duplicates(),
    ensures
        candidates(semantic, keyword).no_duplicates(),
        forall|id: Seq<char>|
            candidates(semantic, keyword).contains(id) <==> semantic.contains(id)
                || keyword.contains(id),
        semantic.len() <= candidates(semantic, keyword).len(),
        candidates(semantic, keyword).take(semantic.len() as int) == semantic,
    decreases keyword.len(),
{
    let all = candidates(semantic, keyword);
    if keyword.len() == 0 {
        assert(all.take(semantic.len() as int) =~= semantic);
    } else {
        let rest = keyword.drop_last();
        let last = keyword.last();
        let before = candidates(semantic, rest);
        lemma_candidates(semantic, rest);
        assert(keyword =~= rest.push(last));
        assert forall|id: Seq<char>| keyword.contains(id) <==> rest.contains(id) || id == last by {
            if rest.contains(id) {
                let i = choose|i: int| 0 <= i < rest.len() && rest[i] == id;
                assert(keyword[i] == id);
            }
            if id == last {
                assert(keyword[keyword.len() - 1] == id);
            }
        }
        if !rest.contains(last) {
        } else {
            let i = choose|i: int| 0 <= i < rest.len() && rest[i] == last;
            assert(keyword[i] == keyword[keyword.len() - 1]);
        }
        assert(all.take(semantic.len() as int) =~= before.take(semantic.len() as int));
        if !semantic.contains(last) {
            assert(!before.contains(last));
            assert forall|id: Seq<char>| all.contains(id) <==> before.contains(id) || id == last by {
                if before.contains(id) {
                    let i = choose|i: int| 0 <= i < before.len() && before[i] == id;
                    assert(all[i] == id);
                }
                if id == last {
                    assert(all[all.len() - 1] == id);
                }
            }
        }
    }
}

/// The blend of two scores under a weight between 0 and `ONE`.
fn blend(alpha: i64, semantic: i64, keyword: i64) -> (fused: i64)
    requires
        0 <= alpha <= ONE,
    ensures
        fused == fused_score(alpha as int, semantic as int, keyword as int),
{
    let one: i128 = 1_000_000;
    let rest: i64 = ONE - alpha;
    proof {
        lemma_fused_between(alpha as int, semantic as int, keyword as int);
        let bound: int = 0x8000_0000_0000_0000;
        assert(-bound * 1_000_000 <= alpha * semantic <= bound * 1_000_000) by (nonlinear_arith)
            requires
                0 <= alpha <= 1_000_000,
                -bound <= semantic <= bound,
        ;
        assert(-bound * 1_000_000 <= rest * keyword <= bound * 1_000_000) by (nonlinear_arith)
            requires
                0 <= rest <= 1_000_000,
                -bound <= keyword <= bound,
        ;
    }
    let sum: i128 = (alpha as i128) * (semantic as i128) + (rest as i128) * (keyword as i128);
    let fused: i128 = if sum >= 0 {
        sum / one
    } else {
        let up: i128 = (-sum + (one - 1)) / one;
        proof {
            let s: int = sum as int;
            let u: int = up as int;
            assert(-u == s / 1_000_000) by (nonlinear_arith)
                requires
                    s < 0,
                    u == (-s + 999_999) / 1_000_000,
            ;
        }
        -up
    };
    fused as i64
}

/// A fused score lies between the two scores that it blends.
pub proof fn lemma_fused_between(alpha: int, semantic: int, keyword: int)
    requires
        0 <= alpha <= ONE,
    ensures
        semantic <= keyword ==> semantic <= fused_score(alpha, semantic, keyword) <= keyword,
        keyword <= semantic ==> keyword <= fused_score(alpha, semantic, keyword) <= semantic,
{
    let one: int = ONE as int;
    let sum = alpha * semantic + (one - alpha) * keyword;
    if semantic <= keyword {
        assert(one * semantic <= sum <= one * keyword) by (nonlinear_arith)
            requires
                0 <= alpha <= one,
                semantic <= keyword,
                sum == alpha * semantic + (one - alpha) * keyword,
        ;
        assert(semantic <= sum / one <= keyword) by (nonlinear_arith)
            requires
                one * semantic <= sum <= one * keyword,
                one == 1_000_000,
        ;
    }
    if keyword <= semantic {
        assert(one * keyword <= sum <= one * semantic) by (nonlinear_arith)
            requires
                0 <= alpha <= one,
                keyword <= semantic,
                sum == alpha * semantic + (one - alpha) * keyword,
        ;
        assert(keyword <= sum / one <= semantic) by (nonlinear_arith)
            requires
                one * keyword <= sum <= one * semantic,
                one == 1_000_000,
        ;
    }
}

/// Fuses the two signals into one ranked list.
///
/// Every id of either signal gets the score
/// `alpha * semantic + (1 - alpha) * keyword`, where a signal that does not
/// hold the id counts as 0. Ids whose fused score is not above
/// `config.min_score` are dropped. The rest is returned with the highest score
/// first; ids with equal scores stand in the order of their discovery, the
/// semantic signal's ids before those that only the lexical signal holds.
pub fn fuse_scores(
    semantic_scores: &ScoreMap,
    keyword_scores: &ScoreMap,
    config: &FusionConfig,
) -> (fused: Vec<(String, i64)>)
    requires
        semantic_scores.wf(),
        keyword_scores.wf(),
        config.wf(),
    ensures
        is_ranking(
            ranked_view(fused@),
            candidates(semantic_scores.order(), keyword_scores.order()),
            fusion_score(config.alpha as int, semantic_scores@, keyword_scores@),
            config.min_score as int,
        ),
        ranked_view(fused@) == ranking_of(
            candidates(semantic_scores.order(), keyword_scores.order()),
            fusion_score(config.alpha as int, semantic_scores@, keyword_scores@),
            config.min_score as int,
        ),
{
    let ghost sem = semantic_scores.order();
    let ghost key = keyword_scores.order();
    let ghost score = fusion_score(config.alpha as int, semantic_scores@, keyword_scores@);
    let ghost floor = config.min_score as int;
    proof {
        semantic_scores.lemma_keys_are_order();
        keyword_scores.lemma_keys_are_order();
    }
    let mut fused: Vec<(String, i64)> = Vec::new();
    let mut k: usize = 0;
    while k < semantic_scores.len()
        invariant
            k <= sem.len(),
            sem == semantic_scores.order(),
            key == keyword_scores.order(),
            score == fusion_score(config.alpha as int, semantic_scores@, keyword_scores@),
            floor == config.min_score as int,
            semantic_scores.wf(),
            keyword_scores.wf(),
            config.wf(),
            sem.no_duplicates(),
            is_ranking(ranked_view(fused@), sem.take(k as int), score, floor),
        decreases sem.len() - k,
    {
        let id = semantic_scores.id_at(k);
        let semantic = semantic_scores.score_at(k);
        let keyword = match keyword_scores.get(id.as_str()) {
            Some(found) => found,
            None => 0,
        };
        let blended = blend(config.alpha, semantic, keyword);
        proof {
            assert(sem.take(k + 1) =~= sem.take(k as int).push(sem[k as int]));
            assert(sem.take(k as int).no_duplicates());
            assert(!sem.take(k as int).contains(sem[k as int]));
            assert(blended == score(id@));
        }
        if blended > config.min_score {
            place(&mut fused, id.clone(), blended, Ghost(sem.take(k as int)), Ghost(score), Ghost(floor));
        } else {
            proof {
                lemma_ranking_skip(ranked_view(fused@), sem.take(k as int), score, floor, id@);
            }
        }
        k += 1;
    }
    assert(sem.take(k as int) =~= sem);
    assert(key.take(0) =~= Seq::<Seq<char>>::empty());
    let mut n: usize = 0;
    while n < keyword_scores.len()
        invariant
            n <= key.len(),
            sem == semantic_scores.order(),
            key == keyword_scores.order(),
            score == fusion_score(config.alpha as int, semantic_scores@, keyword_scores@),
            floor == config.min_score as int,
            semantic_scores.wf(),
            keyword_scores.wf(),
            config.wf(),
            sem.no_duplicates(),
            key.no_duplicates(),
            forall|id: Seq<char>| semantic_scores@.contains_key(id) <==> sem.contains(id),
            is_ranking(ranked_view(fused@), candidates(sem, key.take(n as int)), score, floor),
        decreases key.len() - n,
    {
        let id = keyword_scores.id_at(n);
        proof {
            assert(key.take(n + 1).drop_last() =~= key.take(n as int));
            assert(key.take(n + 1).last() == key[n as int]);
            assert(key.take(n as int).no_duplicates());
            assert(!key.take(n as int).contains(key[n as int]));
            lemma_candidates(sem, key.take(n as int));
        }
        if !semantic_scores.contains(id.as_str()) {
            let keyword = keyword_scores.score_at(n);
            let blended = blend(config.alpha, 0, keyword);
            assert(blended == score(id@));
            if blended > config.min_score {
                place(
                    &mut fused,
                    id.clone(),
                    blended,
                    Ghost(candidates(sem, key.take(n as int))),
                    Ghost(score),
                    Ghost(floor),
                );
            } else {
                proof {
                    lemma_ranking_skip(
                        ranked_view(fused@),
                        candidates(sem, key.take(n as int)),
                        score,
                        floor,
                        id@,
                    );
                }
            }
        }
        n += 1;
    }
    assert(key.take(n as int) =~= key);
    proof {
        lemma_is_the_ranking(ranked_view(fused@), candidates(sem, key), score, floor);
    }
    fused
}

/// A batch gives an id a raw score exactly if it holds an entry for the id,
/// and the score is that of such an entry.
pub proof fn lemma_raw_of(batch: Seq<(Seq<char>, u64)>, id: Seq<char>)
    ensures
        raw_of(batch, id) is Some <==> exists|i: int|
            0 <= i < batch.len() && (#[trigger] batch[i]).0 == id,
        raw_of(batch, id) is Some ==> exists|i: int|
            0 <= i < batch.len() && #[trigger] batch[i] == (id, raw_of(batch, id).unwrap()),
    decreases batch.len(),
{
    if batch.len() > 0 {
        let rest = batch.drop_last();
        lemma_raw_of(rest, id);
        if batch.last().0 == id {
            assert(batch[batch.len() - 1] == (id, raw_of(batch, id).unwrap()));
        } else if raw_of(rest, id) is Some {
            let i = choose|i: int|
                0 <= i < rest.len() && #[trigger] rest[i] == (id, raw_of(rest, id).unwrap());
            assert(batch[i] == rest[i]);
        } else {
            assert forall|i: int| 0 <= i < batch.len() implies (#[trigger] batch[i]).0 != id by {
                if i < rest.len() {
                    assert(rest[i] == batch[i]);
                }
            }
        }
    }
}

/// The ids of a batch in the order of their first occurrence: none occurs
/// twice, and they are the ids to which the batch gives a raw score.
pub proof fn lemma_first_seen(batch: Seq<(Seq<char>, u64)>)
    ensures
        first_seen(batch).no_duplicates(),
        forall|id: Seq<char>| first_seen(batch).contains(id) <==> raw_of(batch, id) is Some,
    decreases batch.len(),
{
    if batch.len() > 0 {
        let rest = batch.drop_last();
        let last = batch.last().0;
        lemma_first_seen(rest);
        let before = first_seen(rest);
        let all = first_seen(batch);
        if !(raw_of(rest, last) is Some) {
            assert(!before.contains(last));
            assert forall|i: int, j: int| 0 <= i < j < all.len() implies all[i] != all[j] by {
                if j < before.len() {
                    assert(all[i] == before[i] && all[j] == before[j]);
                } else {
                    assert(all[i] == before[i]);
                    assert(before.contains(before[i]));
                }
            }
            assert forall|id: Seq<char>| all.contains(id) <==> before.contains(id) || id == last by {
                if before.contains(id) {
                    let i = choose|i: int| 0 <= i < before.len() && before[i] == id;
                    assert(all[i] == id);
                }
                if id == last {
                    assert(all[all.len() - 1] == id);
                }
            }
        }
    }
}

/// An id has a normalised score exactly if the batch holds an entry for it.
pub proof fn lemma_normalized_keys(batch: Seq<(Seq<char>, u64)>, id: Seq<char>)
    ensures
        normalized(batch).contains_key(id) <==> exists|i: int|
            0 <= i < batch.len() && (#[trigger] batch[i]).0 == id,
{
    lemma_raw_of(batch, id);
}

/// No normalised score is below 0 or above `ONE`, and an empty batch has no
/// normalised scores at all.
pub proof fn lemma_normalized_bounded(batch: Seq<(Seq<char>, u64)>)
    ensures
        forall|id: Seq<char>| #[trigger]
            normalized(batch).contains_key(id) ==> 0 <= normalized(batch)[id] <= ONE,
        batch.len() == 0 ==> normalized(batch) == Map::<Seq<char>, i64>::empty(),
        batch.len() == 0 ==> first_seen(batch) == Seq::<Seq<char>>::empty(),
{
    assert forall|id: Seq<char>| #[trigger] normalized(batch).contains_key(id) implies 0
        <= normalized(batch)[id] <= ONE by {
        lemma_max_scaled_bounds(raw_of(batch, id).unwrap(), batch_scale(batch));
    }
    if batch.len() == 0 {
        assert(normalized(batch) =~= Map::<Seq<char>, i64>::empty());
    }
}

/// The id with the largest raw score of a batch is normalised to exactly
/// `ONE`, provided that score reaches `MIN_SCALE`.
pub proof fn lemma_normalized_top(batch: Seq<(Seq<char>, u64)>, id: Seq<char>)
    requires
        raw_of(batch, id) == Some(largest_raw(batch)),
        largest_raw(batch) >= MIN_SCALE,
    ensures
        normalized(batch).contains_key(id),
        normalized(batch)[id] == ONE,
{
    lemma_max_scaled_bounds(largest_raw(batch), batch_scale(batch));
}

/// Normalising keeps the order of the raw scores of a batch.
pub proof fn lemma_normalized_keeps_order(
    batch: Seq<(Seq<char>, u64)>,
    lower: Seq<char>,
    higher: Seq<char>,
)
    requires
        raw_of(batch, lower) is Some,
        raw_of(batch, higher) is Some,
        raw_of(batch, lower).unwrap() <= raw_of(batch, higher).unwrap(),
    ensures
        normalized(batch)[lower] <= normalized(batch)[higher],
{
    lemma_max_scaled_monotonic(
        raw_of(batch, lower).unwrap(),
        raw_of(batch, higher).unwrap(),
        batch_scale(batch),
    );
}

/// With a weight of `ONE` the fused score is the semantic score, and with a
/// weight of 0 it is the lexical score.
pub proof fn lemma_pure_weights(semantic: int, keyword: int)
    ensures
        fused_score(ONE as int, semantic, keyword) == semantic,
        fused_score(0, semantic, keyword) == keyword,
{
    assert((1_000_000 * semantic + (1_000_000 - 1_000_000) * keyword) / 1_000_000 == semantic)
        by (nonlinear_arith);
    assert((0 * semantic + (1_000_000 - 0) * keyword) / 1_000_000 == keyword) by (nonlinear_arith);
}

/// The function from an id to its score in one signal alone.
pub open spec fn signal_score(scores: Map<Seq<char>, i64>) -> spec_fn(Seq<char>) -> int {
    |id: Seq<char>| score_or_zero(scores, id)
}

/// With a weight of `ONE` a fused ranking is the ranking by semantic score
/// alone; with a weight of 0 it is the ranking by lexical score alone.
pub proof fn lemma_pure_rankings(
    ranked: Seq<(Seq<char>, i64)>,
    discovered: Seq<Seq<char>>,
    semantic: Map<Seq<char>, i64>,
    keyword: Map<Seq<char>, i64>,
    min_score: int,
)
    ensures
        is_ranking(ranked, discovered, fusion_score(ONE as int, semantic, keyword), min_score)
            <==> is_ranking(ranked, discovered, signal_score(semantic), min_score),
        is_ranking(ranked, discovered, fusion_score(0, semantic, keyword), min_score)
            <==> is_ranking(ranked, discovered, signal_score(keyword), min_score),
{
    assert forall|id: Seq<char>| #[trigger]
        fusion_score(ONE as int, semantic, keyword)(id) == signal_score(semantic)(id)
        && #[trigger] fusion_score(0, semantic, keyword)(id) == signal_score(keyword)(id) by {
        lemma_pure_weights(score_or_zero(semantic, id), score_or_zero(keyword, id));
    }
    assert(fusion_score(ONE as int, semantic, keyword) =~= signal_score(semantic));
    assert(fusion_score(0, semantic, keyword) =~= signal_score(keyword));
}

/// The fused score never falls when one of the two scores rises.
pub proof fn lemma_fused_monotonic(
    alpha: int,
    semantic: int,
    keyword: int,
    higher_semantic: int,
    higher_keyword: int,
)
    requires
        0 <= alpha <= ONE,
        semantic <= higher_semantic,
        keyword <= higher_keyword,
    ensures
        fused_score(alpha, semantic, keyword) <= fused_score(alpha, higher_semantic, higher_keyword),
{
    let one: int = ONE as int;
    let low = alpha * semantic + (one - alpha) * keyword;
    let high = alpha * higher_semantic + (one - alpha) * higher_keyword;
    assert(low <= high) by (nonlinear_arith)
        requires
            0 <= alpha <= one,
            semantic <= higher_semantic,
            keyword <= higher_keyword,
            low == alpha * semantic + (one - alpha) * keyword,
            high == alpha * higher_semantic + (one - alpha) * higher_keyword,
    ;
    assert(low / one <= high / one) by (nonlinear_arith)
        requires
            low <= high,
            one == 1_000_000,
    ;
}

/// The order of a signal's ids after a score for `id` is inserted: a new id
/// goes to the end.
pub open spec fn order_with(order: Seq<Seq<char>>, id: Seq<char>) -> Seq<Seq<char>> {
    if order.contains(id) {
        order
    } else {
        order.push(id)
    }
}

/// Whether an order of ids and a map of scores describe the same signal.
pub open spec fn describes_signal(order: Seq<Seq<char>>, scores: Map<Seq<char>, i64>) -> bool {
    &&& order.no_duplicates()
    &&& forall|id: Seq<char>| scores.contains_key(id) <==> order.contains(id)
}

/// Among the candidates the semantic signal's ids come first.
pub proof fn lemma_candidate_positions(
    semantic: Seq<Seq<char>>,
    keyword: Seq<Seq<char>>,
    id: Seq<char>,
)
    requires
        semantic.no_duplicates(),
        keyword.no_duplicates(),
        candidates(semantic, keyword).contains(id),
    ensures
        semantic.contains(id) ==> candidates(semantic, keyword).index_of(id) < semantic.len(),
        !semantic.contains(id) ==> candidates(semantic, keyword).index_of(id) >= semantic.len(),
{
    let all = candidates(semantic, keyword);
    lemma_candidates(semantic, keyword);
    let at = all.index_of(id);
    if semantic.contains(id) {
        let i = semantic.index_of(id);
        assert(all.take(semantic.len() as int)[i] == all[i]);
        lemma_index_of_unique(all, i);
    } else if at < semantic.len() {
        assert(all.take(semantic.len() as int)[at] == all[at]);
        assert(semantic[at] == id);
    }
}

/// Fusion is monotonic in the semantic signal: when the semantic score of
/// one id is raised and nothing else changes, that id stays before every
/// other id that it stood before.
pub proof fn lemma_fusion_keeps_rank_semantic(
    semantic_order: Seq<Seq<char>>,
    semantic: Map<Seq<char>, i64>,
    keyword_order: Seq<Seq<char>>,
    keyword: Map<Seq<char>, i64>,
    alpha: int,
    min_score: int,
    raised: Seq<char>,
    raised_to: i64,
    other: Seq<char>,
    old_ranked: Seq<(Seq<char>, i64)>,
    new_ranked: Seq<(Seq<char>, i64)>,
)
    requires
        0 <= alpha <= ONE,
        describes_signal(semantic_order, semantic),
        describes_signal(keyword_order, keyword),
        raised_to >= score_or_zero(semantic, raised),
        raised != other,
        is_ranking(
            old_ranked,
            candidates(semantic_order, keyword_order),
            fusion_score(alpha, semantic, keyword),
            min_score,
        ),
        is_ranking(
            new_ranked,
            candidates(order_with(semantic_order, raised), keyword_order),
            fusion_score(alpha, semantic.insert(raised, raised_to), keyword),
            min_score,
        ),
        stands_before(old_ranked, raised, other),
    ensures
        stands_before(new_ranked, raised, other),
{
    let old_found = candidates(semantic_order, keyword_order);
    let new_order = order_with(semantic_order, raised);
    let new_found = candidates(new_order, keyword_order);
    let raised_map = semantic.insert(raised, raised_to);
    lemma_candidates(semantic_order, keyword_order);
    lemma_candidates(new_order, keyword_order);
    let (i, j) = choose|i: int, j: int|
        0 <= i < j < old_ranked.len() && (#[trigger] old_ranked[i]).0 == raised
            && (#[trigger] old_ranked[j]).0 == other;
    assert(old_found.contains(old_ranked[i].0));
    assert(old_found.contains(old_ranked[j].0));
    assert(new_order.contains(raised)) by {
        if !semantic_order.contains(raised) {
            assert(new_order[semantic_order.len() as int] == raised);
        }
    }
    assert(semantic_order.contains(other) ==> new_order.contains(other)) by {
        if semantic_order.contains(other) {
            let k = semantic_order.index_of(other);
            assert(new_order[k] == other);
        }
    }
    lemma_fused_monotonic(
        alpha,
        score_or_zero(semantic, raised),
        score_or_zero(keyword, raised),
        raised_to as int,
        score_or_zero(keyword, raised),
    );
    if !semantic_order.contains(raised) {
        lemma_candidate_positions(semantic_order, keyword_order, raised);
        lemma_candidate_positions(semantic_order, keyword_order, other);
        lemma_candidate_positions(new_order, keyword_order, raised);
        lemma_candidate_positions(new_order, keyword_order, other);
        if !semantic_order.contains(other) {
            assert(!new_order.contains(other));
            assert(new_found.take(new_order.len() as int)[semantic_order.len() as int]
                == new_found[semantic_order.len() as int]);
            lemma_index_of_unique(new_found, semantic_order.len() as int);
        }
    }
    lemma_rank_kept_when_raised(
        old_ranked,
        new_ranked,
        old_found,
        new_found,
        fusion_score(alpha, semantic, keyword),
        fusion_score(alpha, raised_map, keyword),
        min_score,
        raised,
        other,
    );
}

/// Fusion is monotonic in the lexical signal: when the lexical score of one
/// id is raised and nothing else changes, that id stays before every other
/// id that it stood before.
pub proof fn lemma_fusion_keeps_rank_keyword(
    semantic_order: Seq<Seq<char>>,
    semantic: Map<Seq<char>, i64>,
    keyword_order: Seq<Seq<char>>,
    keyword: Map<Seq<char>, i64>,
    alpha: int,
    min_score: int,
    raised: Seq<char>,
    raised_to: i64,
    other: Seq<char>,
    old_ranked: Seq<(Seq<char>, i64)>,
    new_ranked: Seq<(Seq<char>, i64)>,
)
    requires
        0 <= alpha <= ONE,
        describes_signal(semantic_order, semantic),
        describes_signal(keyword_order, keyword),
        raised_to >= score_or_zero(keyword, raised),
        raised != other,
        is_ranking(
            old_ranked,
            candidates(semantic_order, keyword_order),
            fusion_score(alpha, semantic, keyword),
            min_score,
        ),
        is_ranking(
            new_ranked,
            candidates(semantic_order, order_with(keyword_order, raised)),
            fusion_score(alpha, semantic, keyword.insert(raised, raised_to)),
            min_score,
        ),
        stands_before(old_ranked, raised, other),
    ensures
        stands_before(new_ranked, raised, other),
{
    let old_found = candidates(semantic_order, keyword_order);
    let new_order = order_with(keyword_order, raised);
    let new_found = candidates(semantic_order, new_order);
    lemma_candidates(semantic_order, keyword_order);
    let (i, j) = choose|i: int, j: int|
        0 <= i < j < old_ranked.len() && (#[trigger] old_ranked[i]).0 == raised
            && (#[trigger] old_ranked[j]).0 == other;
    assert(old_found.contains(old_ranked[i].0));
    assert(old_found.contains(old_ranked[j].0));
    if !keyword_order.contains(raised) {
        assert(new_order.drop_last() =~= keyword_order);
        assert(new_order.last() == raised);
        assert(semantic_order.contains(raised));
    }
    assert(new_found == old_found);
    lemma_fused_monotonic(
        alpha,
        score_or_zero(semantic, raised),
        score_or_zero(keyword, raised),
        score_or_zero(semantic, raised),
        raised_to as int,
    );
    lemma_rank_kept_when_raised(
        old_ranked,
        new_ranked,
        old_found,
        new_found,
        fusion_score(alpha, semantic, keyword),
        fusion_score(alpha, semantic, keyword.insert(raised, raised_to)),
        min_score,
        raised,
        other,
    );
}

} // verus!
