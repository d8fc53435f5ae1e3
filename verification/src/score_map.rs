//! A map from document ids to scores that remembers in which order the ids
//! were first seen.

use crate::text::str_eq;
use vstd::prelude::*;

verus! {

/// Scores by document id. Its view is the mapping itself; [`ScoreMap::order`]
/// lists the ids in the order of their first insertion, which is the order
/// that breaks ties between equal scores.
///
/// The entries are kept in a vector, so a lookup takes time linear in the
/// number of ids. A signal holds a few dozen ids.
pub struct ScoreMap {
    entries: Vec<(String, i64)>,
}

impl View for ScoreMap {
    type V = Map<Seq<char>, i64>;

    closed spec fn view(&self) -> Map<Seq<char>, i64> {
        Map::new(
            |id: Seq<char>| self.order().contains(id),
            |id: Seq<char>| self.entries@[self.order().index_of(id)].1,
        )
    }
}

impl ScoreMap {
    /// The ids in the order in which they were first inserted.
    pub closed spec fn order(&self) -> Seq<Seq<char>> {
        Seq::new(self.entries@.len(), |i: int| self.entries@[i].0@)
    }

    /// No id is held twice. Every function of this type that makes or changes
    /// a map establishes this.
    pub closed spec fn wf(&self) -> bool {
        self.order().no_duplicates()
    }

    /// In a well-formed map the ids of `order` are exactly the keys.
    pub proof fn lemma_keys_are_order(&self)
        requires
            self.wf(),
        ensures
            self.order().no_duplicates(),
            forall|id: Seq<char>| self@.contains_key(id) <==> self.order().contains(id),
            self@.dom().finite(),
            self@.len() == self.order().len(),
    {
        assert(self@.dom() =~= self.order().to_set());
        self.order().unique_seq_to_set();
    }

    /// An empty map.
    pub fn new() -> (m: ScoreMap)
        ensures
            m@ == Map::<Seq<char>, i64>::empty(),
            m.order() == Seq::<Seq<char>>::empty(),
            m.wf(),
    {
        let m = ScoreMap { entries: Vec::new() };
        assert(m.order() =~= Seq::<Seq<char>>::empty());
        assert(m@ =~= Map::<Seq<char>, i64>::empty());
        m
    }

    /// The number of ids held.
    pub fn len(&self) -> (n: usize)
        ensures
            n == self.order().len(),
    {
        self.entries.len()
    }

    /// The position of `id` in `order`, if the map holds it.
    fn position(&self, id: &str) -> (at: Option<usize>)
        ensures
            match at {
                Some(i) => i < self.order().len() && self.order()[i as int] == id@,
                None => !self.order().contains(id@),
            },
    {
        let mut i: usize = 0;
        while i < self.entries.len()
            invariant
                i <= self.entries@.len(),
                forall|j: int| 0 <= j < i ==> self.order()[j] != id@,
            decreases self.entries.len() - i,
        {
            if str_eq(self.entries[i].0.as_str(), id) {
                return Some(i);
            }
            i += 1;
        }
        None
    }

    /// Whether the map holds a score for `id`.
    pub fn contains(&self, id: &str) -> (held: bool)
        ensures
            held == self@.contains_key(id@),
    {
        self.position(id).is_some()
    }

    /// The score of `id`, if the map holds one.
    pub fn get(&self, id: &str) -> (score: Option<i64>)
        requires
            self.wf(),
        ensures
            score == if self@.contains_key(id@) {
                Some(self@[id@])
            } else {
                None
            },
    {
        match self.position(id) {
            Some(i) => {
                assert(self.order().index_of(id@) == i);
                Some(self.entries[i].1)
            },
            None => None,
        }
    }

    /// The id at position `i` of `order`.
    pub fn id_at(&self, i: usize) -> (id: &String)
        requires
            i < self.order().len(),
        ensures
            id@ == self.order()[i as int],
    {
        &self.entries[i].0
    }

    /// The score of the id at position `i` of `order`.
    pub fn score_at(&self, i: usize) -> (score: i64)
        requires
            self.wf(),
            i < self.order().len(),
        ensures
            self@.contains_key(self.order()[i as int]),
            score == self@[self.order()[i as int]],
    {
        assert(self.order().contains(self.order()[i as int]));
        self.entries[i].1
    }

    /// Sets the score of `id`. An id that is new to the map goes to the end of
    /// `order`; one that the map already holds keeps its place.
    pub fn insert(&mut self, id: String, score: i64)
        requires
            old(self).wf(),
        ensures
            final(self)@ == old(self)@.insert(id@, score),
            final(self).order() == if old(self)@.contains_key(id@) {
                old(self).order()
            } else {
                old(self).order().push(id@)
            },
            final(self).wf(),
    {
        let ghost before = *self;
        match self.position(id.as_str()) {
            Some(i) => {
                self.entries[i].1 = score;
                assert(self.order() =~= before.order());
                assert(self@ =~= before@.insert(id@, score));
            },
            None => {
                let ghost key = id@;
                self.entries.push((id, score));
                assert(self.order() =~= before.order().push(key));
                assert(self@ =~= before@.insert(key, score)) by {
                    assert forall|k: Seq<char>| self@.contains_key(k) <==> before@.insert(
                        key,
                        score,
                    ).contains_key(k) by {
                        if before.order().contains(k) {
                            let j = before.order().index_of(k);
                            assert(self.order()[j] == k);
                        }
                        if k == key {
                            assert(self.order()[before.order().len() as int] == k);
                        }
                    }
                }
            },
        }
    }
}

} // verus!
