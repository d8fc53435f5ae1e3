//! Ranked lists: what it means for a list of scored ids to be the ranking of
//! a set of discovered ids, and how one is built.

use vstd::prelude::*;

verus! {

/// A ranked list as plain values.
pub open spec fn ranked_view(ranked: Seq<(String, i64)>) -> Seq<(Seq<char>, i64)> {
    Seq::new(ranked.len(), |i: int| (ranked[i].0@, ranked[i].1))
}

/// Whether the entry `first` ranks strictly before the entry `second`: it has
/// the higher score, or the same score and was discovered earlier.
pub open spec fn ranks_before(
    discovered: Seq<Seq<char>>,
    first: (Seq<char>, i64),
    second: (Seq<char>, i64),
) -> bool {
    first.1 > second.1 || (first.1 == second.1 && discovered.index_of(first.0)
        < discovered.index_of(second.0))
}

/// Whether `ranked` is the ranking of the ids in `discovered` under `score`
/// above the floor `min_score`: it holds exactly the discovered ids whose
/// score is above the floor, each once and with its score, the higher score
/// first and, among equal scores, the id discovered earlier first.
pub open spec fn is_ranking(
    ranked: Seq<(Seq<char>, i64)>,
    discovered: Seq<Seq<char>>,
    score: spec_fn(Seq<char>) -> int,
    min_score: int,
) -> bool {
    &&& forall|i: int|
        0 <= i < ranked.len() ==> discovered.contains((#[trigger] ranked[i]).0) && ranked[i].1
            == score(ranked[i].0) && ranked[i].1 > min_score
    &&& forall|k: int|
        0 <= k < discovered.len() && score(#[trigger] discovered[k]) > min_score ==> exists|i: int|
            0 <= i < ranked.len() && (#[trigger] ranked[i]).0 == discovered[k]
    &&& forall|i: int, j: int|
        0 <= i < j < ranked.len() ==> ranks_before(discovered, #[trigger] ranked[i], #[trigger] ranked[j])
}

/// In a list without repetitions every element is found at its own index.
pub proof fn lemma_index_of_unique<A>(s: Seq<A>, i: int)
    requires
        s.no_duplicates(),
        0 <= i < s.len(),
    ensures
        s.index_of(s[i]) == i,
{
}

/// A ranking stays one when an id joins the discovered ids whose score is not
/// above the floor.
pub proof fn lemma_ranking_skip(
    ranked: Seq<(Seq<char>, i64)>,
    discovered: Seq<Seq<char>>,
    score: spec_fn(Seq<char>) -> int,
    min_score: int,
    id: Seq<char>,
)
    requires
        is_ranking(ranked, discovered, score, min_score),
        discovered.no_duplicates(),
        !discovered.contains(id),
        score(id) <= min_score,
    ensures
        is_ranking(ranked, discovered.push(id), score, min_score),
{
    let wider = discovered.push(id);
    assert forall|x: Seq<char>| discovered.contains(x) implies wider.contains(x) && wider.index_of(
        x,
    ) == discovered.index_of(x) by {
        let i = discovered.index_of(x);
        assert(wider[i] == x);
        assert(wider.no_duplicates());
        lemma_index_of_unique(wider, i);
    }
    assert forall|k: int|
        0 <= k < wider.len() && score(#[trigger] wider[k]) > min_score implies exists|i: int|
        0 <= i < ranked.len() && (#[trigger] ranked[i]).0 == wider[k] by {
        assert(k < discovered.len());
        assert(discovered[k] == wider[k]);
    }
}

/// The ranking of the ids in `discovered` under `score` above the floor
/// `min_score`. `is_ranking` holds of one list at most, and this is it.
pub open spec fn ranking_of(
    discovered: Seq<Seq<char>>,
    score: spec_fn(Seq<char>) -> int,
    min_score: int,
) -> Seq<(Seq<char>, i64)> {
    choose|ranked: Seq<(Seq<char>, i64)>| is_ranking(ranked, discovered, score, min_score)
}

/// Whether `at` is the place of a new entry with the given score in a
/// ranking: behind every entry whose score is at least as high, and before
/// every entry whose score is lower.
pub open spec fn is_place(ranked: Seq<(Seq<char>, i64)>, score_of_new: i64, at: int) -> bool {
    &&& 0 <= at <= ranked.len()
    &&& forall|i: int| 0 <= i < at ==> (#[trigger] ranked[i]).1 >= score_of_new
    &&& at < ranked.len() ==> ranked[at].1 < score_of_new
}

/// A ranking stays one when a newly discovered id whose score is above the
/// floor is put at its place.
pub proof fn lemma_ranking_insert(
    before: Seq<(Seq<char>, i64)>,
    discovered: Seq<Seq<char>>,
    score: spec_fn(Seq<char>) -> int,
    min_score: int,
    id: Seq<char>,
    score_of_id: i64,
    at: int,
)
    requires
        is_ranking(before, discovered, score, min_score),
        discovered.no_duplicates(),
        !discovered.contains(id),
        score_of_id == score(id),
        score_of_id > min_score,
        is_place(before, score_of_id, at),
    ensures
        is_ranking(before.insert(at, (id, score_of_id)), discovered.push(id), score, min_score),
{
    let wider = discovered.push(id);
    let after = before.insert(at, (id, score_of_id));
    assert(wider.no_duplicates());
    assert(wider[discovered.len() as int] == id);
    lemma_index_of_unique(wider, discovered.len() as int);
    assert forall|x: Seq<char>| discovered.contains(x) implies wider.contains(x) && wider.index_of(
        x,
    ) == discovered.index_of(x) && wider.index_of(x) < discovered.len() by {
        let i = discovered.index_of(x);
        assert(wider[i] == x);
        lemma_index_of_unique(wider, i);
    }
    assert forall|i: int| 0 <= i < after.len() implies wider.contains((#[trigger] after[i]).0)
        && after[i].1 == score(after[i].0) && after[i].1 > min_score by {
        if i < at {
            assert(after[i] == before[i]);
        } else if i > at {
            assert(after[i] == before[i - 1]);
        }
    }
    assert forall|k: int|
        0 <= k < wider.len() && score(#[trigger] wider[k]) > min_score implies exists|i: int|
        0 <= i < after.len() && (#[trigger] after[i]).0 == wider[k] by {
        if k < discovered.len() {
            assert(discovered[k] == wider[k]);
            let i = choose|i: int| 0 <= i < before.len() && (#[trigger] before[i]).0 == discovered[k];
            if i < at {
                assert(after[i] == before[i]);
            } else {
                assert(after[i + 1] == before[i]);
            }
        } else {
            assert(after[at].0 == id);
        }
    }
    assert forall|i: int, j: int| 0 <= i < j < after.len() implies ranks_before(
        wider,
        #[trigger] after[i],
        #[trigger] after[j],
    ) by {
        if j < at {
            assert(after[i] == before[i] && after[j] == before[j]);
            assert(ranks_before(discovered, before[i], before[j]));
        } else if j == at {
            assert(after[i] == before[i]);
            assert(before[i].1 >= score_of_id);
        } else if i < at {
            assert(after[i] == before[i] && after[j] == before[j - 1]);
            assert(ranks_before(discovered, before[i], before[j - 1]));
        } else if i == at {
            assert(after[j] == before[j - 1]);
            if at < j - 1 {
                assert(ranks_before(discovered, before[at], before[j - 1]));
            }
            assert(before[at].1 < score_of_id);
        } else {
            assert(after[i] == before[i - 1] && after[j] == before[j - 1]);
            assert(ranks_before(discovered, before[i - 1], before[j - 1]));
        }
    }
}

/// The place of a new entry with the given score in a ranking.
pub open spec fn place_of(ranked: Seq<(Seq<char>, i64)>, score_of_new: i64) -> int
    decreases ranked.len(),
{
    if ranked.len() == 0 || ranked.first().1 < score_of_new {
        0
    } else {
        1 + place_of(ranked.drop_first(), score_of_new)
    }
}

/// In a list whose scores never rise, `place_of` is the place of a new
/// entry.
pub proof fn lemma_place_of(ranked: Seq<(Seq<char>, i64)>, score_of_new: i64)
    requires
        forall|i: int, j: int|
            0 <= i < j < ranked.len() ==> (#[trigger] ranked[i]).1 >= (#[trigger] ranked[j]).1,
    ensures
        is_place(ranked, score_of_new, place_of(ranked, score_of_new)),
    decreases ranked.len(),
{
    if ranked.len() > 0 && ranked.first().1 >= score_of_new {
        let rest = ranked.drop_first();
        assert forall|i: int, j: int| 0 <= i < j < rest.len() implies (#[trigger] rest[i]).1 >= (
        #[trigger] rest[j]).1 by {
            assert(rest[i] == ranked[i + 1] && rest[j] == ranked[j + 1]);
        }
        lemma_place_of(rest, score_of_new);
        let at = place_of(rest, score_of_new);
        assert forall|i: int| 0 <= i < at + 1 implies (#[trigger] ranked[i]).1 >= score_of_new by {
            if i > 0 {
                assert(ranked[i] == rest[i - 1]);
            }
        }
        if at + 1 < ranked.len() {
            assert(ranked[at + 1] == rest[at]);
        }
    }
}

/// Every list of discovered ids without repetitions has a ranking, provided
/// the scores above the floor fit the type of a score.
pub proof fn lemma_ranking_exists(
    discovered: Seq<Seq<char>>,
    score: spec_fn(Seq<char>) -> int,
    min_score: int,
)
    requires
        discovered.no_duplicates(),
        forall|k: int|
            0 <= k < discovered.len() ==> score(#[trigger] discovered[k]) <= i64::MAX,
        i64::MIN <= min_score,
    ensures
        is_ranking(ranking_of(discovered, score, min_score), discovered, score, min_score),
    decreases discovered.len(),
{
    if discovered.len() == 0 {
        assert(is_ranking(Seq::<(Seq<char>, i64)>::empty(), discovered, score, min_score));
    } else {
        let earlier = discovered.drop_last();
        let id = discovered.last();
        assert(discovered =~= earlier.push(id));
        assert forall|k: int| 0 <= k < earlier.len() implies score(#[trigger] earlier[k])
            <= i64::MAX by {
            assert(earlier[k] == discovered[k]);
        }
        assert(!earlier.contains(id)) by {
            if earlier.contains(id) {
                let k = choose|k: int| 0 <= k < earlier.len() && earlier[k] == id;
                assert(discovered[k] == discovered[discovered.len() - 1]);
            }
        }
        lemma_ranking_exists(earlier, score, min_score);
        let before = ranking_of(earlier, score, min_score);
        assert(score(discovered[discovered.len() - 1]) <= i64::MAX);
        if score(id) > min_score {
            let score_of_id = score(id) as i64;
            assert forall|i: int, j: int| 0 <= i < j < before.len() implies (#[trigger] before[i]).1
                >= (#[trigger] before[j]).1 by {
                assert(ranks_before(earlier, before[i], before[j]));
            }
            lemma_place_of(before, score_of_id);
            lemma_ranking_insert(
                before,
                earlier,
                score,
                min_score,
                id,
                score_of_id,
                place_of(before, score_of_id),
            );
        } else {
            lemma_ranking_skip(before, earlier, score, min_score, id);
        }
    }
}

/// Puts a newly discovered id with its score into a ranking, behind every
/// entry whose score is at least as high.
pub(crate) fn place(
    ranked: &mut Vec<(String, i64)>,
    id: String,
    score_of_id: i64,
    Ghost(discovered): Ghost<Seq<Seq<char>>>,
    Ghost(score): Ghost<spec_fn(Seq<char>) -> int>,
    Ghost(min_score): Ghost<int>,
)
    requires
        is_ranking(ranked_view(old(ranked)@), discovered, score, min_score),
        discovered.no_duplicates(),
        !discovered.contains(id@),
        score_of_id == score(id@),
        score_of_id > min_score,
    ensures
        is_ranking(ranked_view(final(ranked)@), discovered.push(id@), score, min_score),
{
    let ghost before = ranked_view(ranked@);
    let ghost key = id@;
    let mut at: usize = 0;
    while at < ranked.len() && ranked[at].1 >= score_of_id
        invariant
            at <= ranked@.len(),
            before == ranked_view(ranked@),
            forall|i: int| 0 <= i < at ==> (#[trigger] before[i]).1 >= score_of_id,
        decreases ranked.len() - at,
    {
        at += 1;
    }
    ranked.insert(at, (id, score_of_id));
    proof {
        assert(ranked_view(ranked@) =~= before.insert(at as int, (key, score_of_id)));
        lemma_ranking_insert(before, discovered, score, min_score, key, score_of_id, at as int);
    }
}

/// Whether every entry stands strictly before all entries behind it.
pub open spec fn strictly_ranked(ranked: Seq<(Seq<char>, i64)>, discovered: Seq<Seq<char>>) -> bool {
    forall|i: int, j: int|
        0 <= i < j < ranked.len() ==> ranks_before(discovered, #[trigger] ranked[i], #[trigger] ranked[j])
}

/// Two strictly ranked lists with the same entries are the same list.
pub proof fn lemma_same_entries_same_list(
    a: Seq<(Seq<char>, i64)>,
    b: Seq<(Seq<char>, i64)>,
    discovered: Seq<Seq<char>>,
)
    requires
        strictly_ranked(a, discovered),
        strictly_ranked(b, discovered),
        forall|i: int| 0 <= i < a.len() ==> b.contains(#[trigger] a[i]),
        forall|j: int| 0 <= j < b.len() ==> a.contains(#[trigger] b[j]),
    ensures
        a == b,
    decreases a.len(),
{
    if a.len() == 0 {
        if b.len() > 0 {
            assert(a.contains(b[0]));
        }
        assert(a =~= b);
    } else {
        assert(b.contains(a[0]));
        let j = choose|j: int| 0 <= j < b.len() && b[j] == a[0];
        assert(a.contains(b[0]));
        let i = choose|i: int| 0 <= i < a.len() && a[i] == b[0];
        if j > 0 {
            assert(ranks_before(discovered, b[0], b[j]));
            if i > 0 {
                assert(ranks_before(discovered, a[0], a[i]));
            }
        }
        assert(a[0] == b[0]);
        let a_rest = a.drop_first();
        let b_rest = b.drop_first();
        assert forall|m: int| 0 <= m < a_rest.len() implies b_rest.contains(#[trigger] a_rest[m]) by {
            assert(a_rest[m] == a[m + 1]);
            assert(b.contains(a[m + 1]));
            let n = choose|n: int| 0 <= n < b.len() && b[n] == a[m + 1];
            assert(ranks_before(discovered, a[0], a[m + 1]));
            assert(n > 0);
            assert(b_rest[n - 1] == a_rest[m]);
        }
        assert forall|n: int| 0 <= n < b_rest.len() implies a_rest.contains(#[trigger] b_rest[n]) by {
            assert(b_rest[n] == b[n + 1]);
            assert(a.contains(b[n + 1]));
            let m = choose|m: int| 0 <= m < a.len() && a[m] == b[n + 1];
            assert(ranks_before(discovered, b[0], b[n + 1]));
            assert(m > 0);
            assert(a_rest[m - 1] == b_rest[n]);
        }
        assert forall|m: int, n: int| 0 <= m < n < a_rest.len() implies ranks_before(
            discovered,
            #[trigger] a_rest[m],
            #[trigger] a_rest[n],
        ) by {
            assert(ranks_before(discovered, a[m + 1], a[n + 1]));
        }
        assert forall|m: int, n: int| 0 <= m < n < b_rest.len() implies ranks_before(
            discovered,
            #[trigger] b_rest[m],
            #[trigger] b_rest[n],
        ) by {
            assert(ranks_before(discovered, b[m + 1], b[n + 1]));
        }
        lemma_same_entries_same_list(a_rest, b_rest, discovered);
        assert(a =~= seq![a[0]] + a_rest);
        assert(b =~= seq![b[0]] + b_rest);
    }
}

/// The ranking of given ids under given scores is unique: `is_ranking` holds
/// of one list only.
pub proof fn lemma_ranking_unique(
    a: Seq<(Seq<char>, i64)>,
    b: Seq<(Seq<char>, i64)>,
    discovered: Seq<Seq<char>>,
    score: spec_fn(Seq<char>) -> int,
    min_score: int,
)
    requires
        is_ranking(a, discovered, score, min_score),
        is_ranking(b, discovered, score, min_score),
    ensures
        a == b,
{
    assert forall|i: int| 0 <= i < a.len() implies b.contains(#[trigger] a[i]) by {
        let k = choose|k: int| 0 <= k < discovered.len() && discovered[k] == a[i].0;
        assert(score(discovered[k]) > min_score);
        let j = choose|j: int| 0 <= j < b.len() && (#[trigger] b[j]).0 == discovered[k];
        assert(b[j] == a[i]);
    }
    assert forall|j: int| 0 <= j < b.len() implies a.contains(#[trigger] b[j]) by {
        let k = choose|k: int| 0 <= k < discovered.len() && discovered[k] == b[j].0;
        assert(score(discovered[k]) > min_score);
        let i = choose|i: int| 0 <= i < a.len() && (#[trigger] a[i]).0 == discovered[k];
        assert(a[i] == b[j]);
    }
    lemma_same_entries_same_list(a, b, discovered);
}

/// A list of which `is_ranking` holds is the ranking.
pub proof fn lemma_is_the_ranking(
    ranked: Seq<(Seq<char>, i64)>,
    discovered: Seq<Seq<char>>,
    score: spec_fn(Seq<char>) -> int,
    min_score: int,
)
    requires
        is_ranking(ranked, discovered, score, min_score),
    ensures
        ranked == ranking_of(discovered, score, min_score),
{
    lemma_ranking_unique(ranked, ranking_of(discovered, score, min_score), discovered, score, min_score);
}

/// Whether `first` stands somewhere before `second` in a ranked list.
pub open spec fn stands_before(
    ranked: Seq<(Seq<char>, i64)>,
    first: Seq<char>,
    second: Seq<char>,
) -> bool {
    exists|i: int, j: int|
        0 <= i < j < ranked.len() && (#[trigger] ranked[i]).0 == first && (#[trigger] ranked[j]).0
            == second
}

/// Raising the score of one id never moves it behind an id whose score
/// stays: where `raised` stood before `other` in the ranking under the old
/// scores, it does so in the ranking under the new scores, as long as the
/// two keep their order of discovery.
pub proof fn lemma_rank_kept_when_raised(
    old_ranked: Seq<(Seq<char>, i64)>,
    new_ranked: Seq<(Seq<char>, i64)>,
    old_discovered: Seq<Seq<char>>,
    new_discovered: Seq<Seq<char>>,
    old_score: spec_fn(Seq<char>) -> int,
    new_score: spec_fn(Seq<char>) -> int,
    min_score: int,
    raised: Seq<char>,
    other: Seq<char>,
)
    requires
        is_ranking(old_ranked, old_discovered, old_score, min_score),
        is_ranking(new_ranked, new_discovered, new_score, min_score),
        stands_before(old_ranked, raised, other),
        new_score(raised) >= old_score(raised),
        new_score(other) == old_score(other),
        new_discovered.contains(raised),
        new_discovered.contains(other),
        old_discovered.index_of(raised) < old_discovered.index_of(other)
            ==> new_discovered.index_of(raised) < new_discovered.index_of(other),
    ensures
        stands_before(new_ranked, raised, other),
{
    let (i, j) = choose|i: int, j: int|
        0 <= i < j < old_ranked.len() && (#[trigger] old_ranked[i]).0 == raised
            && (#[trigger] old_ranked[j]).0 == other;
    assert(ranks_before(old_discovered, old_ranked[i], old_ranked[j]));
    let a = new_discovered.index_of(raised);
    let b = new_discovered.index_of(other);
    assert(new_score(new_discovered[a]) > min_score);
    assert(new_score(new_discovered[b]) > min_score);
    let m = choose|m: int| 0 <= m < new_ranked.len() && (#[trigger] new_ranked[m]).0 == new_discovered[a];
    let n = choose|n: int| 0 <= n < new_ranked.len() && (#[trigger] new_ranked[n]).0 == new_discovered[b];
    if n < m {
        assert(ranks_before(new_discovered, new_ranked[n], new_ranked[m]));
    }
    if n == m {
        assert(raised == other);
    }
}

} // verus!
