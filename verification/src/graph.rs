//! The word graph: the dictionary of words together with the per-word
//! parent link that a search mutates. Stored as an association vector in
//! insertion order, with pairwise-distinct keys; its model is the finite
//! map `parent_map()` together with the key order `keys()`.

use vstd::prelude::*;

use crate::links::{distinct_keys, lemma_map_of_contains, lemma_map_of_index, lemma_map_of_remove,
    lemma_map_of_update, map_of};
use crate::words::{adjacent, adjacent_keys, is_adjacent, lemma_views_push, views_of};

verus! {

/// The dictionary order that results from adding the given words one by
/// one: first occurrences in order, duplicates dropped.
pub open spec fn first_occurrences(ws: Seq<Seq<char>>) -> Seq<Seq<char>>
    decreases ws.len(),
{
    if ws.len() == 0 {
        Seq::empty()
    } else {
        let rest = first_occurrences(ws.drop_last());
        if rest.contains(ws.last()) {
            rest
        } else {
            rest.push(ws.last())
        }
    }
}

pub struct WordGraph {
    entries: Vec<(String, String)>,
}

impl WordGraph {
    /// The association sequence of (word, parent) views.
    pub closed spec fn pairs(self) -> Seq<(Seq<char>, Seq<char>)> {
        self.entries@.map_values(|e: (String, String)| (e.0@, e.1@))
    }

    /// The words of the dictionary, in insertion order.
    pub open spec fn keys(self) -> Seq<Seq<char>> {
        self.pairs().map_values(|e: (Seq<char>, Seq<char>)| e.0)
    }

    /// The word-to-parent map the store denotes.
    pub open spec fn parent_map(self) -> Map<Seq<char>, Seq<char>> {
        map_of(self.pairs())
    }

    /// Well-formed: no word occurs twice.
    pub open spec fn wf(self) -> bool {
        distinct_keys(self.pairs())
    }

    /// A word is a key of the map exactly when it occurs in the key order.
    pub proof fn lemma_dom_is_keys(self, k: Seq<char>)
        ensures
            self.parent_map().dom().contains(k) <==> self.keys().contains(k),
    {
        lemma_map_of_contains(self.pairs(), k);
        if exists|i: int| 0 <= i < self.pairs().len() && (#[trigger] self.pairs()[i]).0 == k {
            let i = choose|i: int| 0 <= i < self.pairs().len() && (#[trigger] self.pairs()[i]).0 == k;
            assert(self.keys()[i] == k);
        }
        if self.keys().contains(k) {
            let i = choose|i: int| 0 <= i < self.keys().len() && self.keys()[i] == k;
            assert(self.pairs()[i].0 == k);
        }
    }

    /// An empty graph.
    pub fn new() -> (g: WordGraph)
        ensures
            g.wf(),
            g.parent_map() == Map::<Seq<char>, Seq<char>>::empty(),
            g.keys() == Seq::<Seq<char>>::empty(),
    {
        let g = WordGraph { entries: Vec::new() };
        proof {
            assert(g.pairs() =~= Seq::<(Seq<char>, Seq<char>)>::empty());
            assert(g.keys() =~= Seq::<Seq<char>>::empty());
        }
        g
    }

    /// Builds a graph from a sequence of dictionary words, every word its
    /// own parent.
    pub fn from_words(words: Vec<String>) -> (g: WordGraph)
        ensures
            g.wf(),
            forall|k: Seq<char>| g.parent_map().dom().contains(k) <==> views_of(words@).contains(k),
            forall|k: Seq<char>|
                g.parent_map().dom().contains(k) ==> g.parent_map()[k] == k,
            g.keys() == first_occurrences(views_of(words@)),
    {
        let ghost wvs = views_of(words@);
        let mut g = WordGraph::new();
        let n = words.len();
        let mut i: usize = 0;
        while i < n
            invariant
                g.wf(),
                n == words@.len(),
                i <= n,
                wvs == views_of(words@),
                forall|k: Seq<char>| g.parent_map().dom().contains(k) <==> wvs.take(i as int).contains(k),
                forall|k: Seq<char>| g.parent_map().dom().contains(k) ==> g.parent_map()[k] == k,
                g.keys() == first_occurrences(wvs.take(i as int)),
            decreases n - i,
        {
            let ghost g0 = g;
            let w = words[i].clone();
            proof {
                g0.lemma_dom_is_keys(w@);
                assert(wvs.take(i + 1).drop_last() =~= wvs.take(i as int));
                assert(wvs.take(i + 1).last() == wvs[i as int]);
            }
            g.add(w);
            proof {
                assert forall|k: Seq<char>|
                    g.parent_map().dom().contains(k) <==> wvs.take(i + 1).contains(k) by {
                    if g.parent_map().dom().contains(k) {
                        if k == wvs[i as int] {
                            assert(wvs.take(i + 1).last() == k);
                        } else {
                            let j = choose|j: int| 0 <= j < i && #[trigger] wvs.take(i as int)[j] == k;
                            assert(wvs.take(i + 1)[j] == k);
                        }
                    }
                    if wvs.take(i + 1).contains(k) {
                        let j = choose|j: int| 0 <= j < i + 1 && #[trigger] wvs.take(i + 1)[j] == k;
                        if j < i {
                            assert(wvs.take(i as int)[j] == k);
                        }
                    }
                }
                if g0.parent_map().dom().contains(wvs[i as int]) {
                    assert(first_occurrences(wvs.take(i as int)).contains(wvs[i as int]));
                } else {
                    assert(!first_occurrences(wvs.take(i as int)).contains(wvs[i as int])) by {
                        if first_occurrences(wvs.take(i as int)).contains(wvs[i as int]) {
                            assert(g0.keys().contains(wvs[i as int]));
                        }
                    }
                }
            }
            i = i + 1;
        }
        proof {
            assert(wvs.take(n as int) =~= wvs);
        }
        g
    }

    /// Looks a word up and returns its current parent, if the word is
    /// present.
    pub fn get(&self, s: String) -> (r: Option<&String>)
        requires
            self.wf(),
        ensures
            match r {
                Some(p) => self.parent_map().dom().contains(s@) && p@ == self.parent_map()[s@],
                None => !self.parent_map().dom().contains(s@),
            },
    {
        let n = self.entries.len();
        let mut i: usize = 0;
        while i < n
            invariant
                self.wf(),
                n == self.entries@.len(),
                i <= n,
                forall|j: int| 0 <= j < i ==> (#[trigger] self.pairs()[j]).0 != s@,
            decreases n - i,
        {
            if self.entries[i].0 == s {
                proof {
                    lemma_map_of_index(self.pairs(), i as int);
                }
                return Some(&self.entries[i].1);
            }
            i = i + 1;
        }
        proof {
            lemma_map_of_contains(self.pairs(), s@);
        }
        None
    }

    /// Finds the index of a word, if present. Helper for the mutators.
    fn index_of(&self, s: &String) -> (r: Option<usize>)
        requires
            self.wf(),
        ensures
            match r {
                Some(i) => i < self.pairs().len() && self.pairs()[i as int].0 == s@,
                None => !self.parent_map().dom().contains(s@),
            },
    {
        let n = self.entries.len();
        let mut i: usize = 0;
        while i < n
            invariant
                self.wf(),
                n == self.entries@.len(),
                i <= n,
                forall|j: int| 0 <= j < i ==> (#[trigger] self.pairs()[j]).0 != s@,
            decreases n - i,
        {
            if self.entries[i].0 == *s {
                return Some(i);
            }
            i = i + 1;
        }
        proof {
            lemma_map_of_contains(self.pairs(), s@);
        }
        None
    }

    /// Replaces the entry at a given index, keeping the key order.
    /// Helper for the mutators.
    fn replace_at(&mut self, i: usize, s: String, t: String)
        requires
            old(self).wf(),
            i < old(self).pairs().len(),
            old(self).pairs()[i as int].0 == s@,
        ensures
            final(self).wf(),
            final(self).keys() == old(self).keys(),
            final(self).parent_map() == old(self).parent_map().insert(s@, t@),
    {
        let ghost p0 = self.pairs();
        let ghost tv = t@;
        self.entries.remove(i);
        self.entries.insert(i, (s, t));
        proof {
            assert(self.pairs() =~= p0.update(i as int, (s@, tv)));
            lemma_map_of_update(p0, i as int, tv);
            assert(final(self).keys() =~= old(self).keys());
            assert forall|x: int, y: int| 0 <= x < y < self.pairs().len() implies (
            #[trigger] self.pairs()[x]).0 != (#[trigger] self.pairs()[y]).0 by {
                assert(self.pairs()[x].0 == p0[x].0);
                assert(self.pairs()[y].0 == p0[y].0);
            }
        }
    }

    /// Inserts a word with itself as parent. Present words have their
    /// parent reset to themselves; the key order is otherwise kept.
    pub fn add(&mut self, s: String)
        requires
            old(self).wf(),
        ensures
            final(self).wf(),
            final(self).parent_map() == old(self).parent_map().insert(s@, s@),
            old(self).parent_map().dom().contains(s@) ==> final(self).keys() == old(self).keys(),
            !old(self).parent_map().dom().contains(s@) ==> final(self).keys() == old(self).keys().push(
                s@,
            ),
    {
        let t = s.clone();
        let found = self.index_of(&s);
        match found {
            Some(i) => {
                proof {
                    lemma_map_of_index(self.pairs(), i as int);
                }
                self.replace_at(i, s, t);
            },
            None => {
                let ghost p0 = self.pairs();
                self.entries.push((s, t));
                proof {
                    assert(self.pairs() =~= p0.push((s@, s@)));
                    assert(self.pairs().drop_last() =~= p0);
                    assert(final(self).keys() =~= old(self).keys().push(s@));
                    lemma_map_of_contains(p0, s@);
                    assert forall|x: int, y: int| 0 <= x < y < self.pairs().len() implies (
                    #[trigger] self.pairs()[x]).0 != (#[trigger] self.pairs()[y]).0 by {
                        if y < self.pairs().len() - 1 {
                            assert(p0[x].0 != p0[y].0);
                        } else {
                            assert(self.pairs()[x].0 == p0[x].0);
                        }
                    }
                }
            },
        }
    }

    /// Overwrites the parent of a present word; a word that is absent is
    /// left alone, observably so through `get`.
    pub fn update(&mut self, s: String, t: String)
        requires
            old(self).wf(),
        ensures
            final(self).wf(),
            old(self).parent_map().dom().contains(s@) ==> {
                &&& final(self).parent_map() == old(self).parent_map().insert(s@, t@)
                &&& final(self).keys() == old(self).keys()
            },
            !old(self).parent_map().dom().contains(s@) ==> *final(self) == *old(self),
    {
        let found = self.index_of(&s);
        match found {
            Some(i) => {
                proof {
                    lemma_map_of_index(self.pairs(), i as int);
                }
                self.replace_at(i, s, t);
            },
            None => {},
        }
    }

    /// Removes a word, if present.
    pub fn remove(&mut self, s: String)
        requires
            old(self).wf(),
        ensures
            final(self).wf(),
            final(self).parent_map() == old(self).parent_map().remove(s@),
            old(self).parent_map().dom().contains(s@) ==> exists|i: int|
                0 <= i < old(self).keys().len() && old(self).keys()[i] == s@ && final(self).keys()
                    == old(self).keys().remove(i),
            !old(self).parent_map().dom().contains(s@) ==> *final(self) == *old(self),
    {
        let found = self.index_of(&s);
        match found {
            Some(i) => {
                let ghost p0 = self.pairs();
                self.entries.remove(i);
                proof {
                    assert(self.pairs() =~= p0.remove(i as int));
                    lemma_map_of_remove(p0, i as int);
                    assert(final(self).keys() =~= old(self).keys().remove(i as int));
                    assert(old(self).keys()[i as int] == s@);
                    lemma_map_of_index(p0, i as int);
                    assert forall|x: int, y: int| 0 <= x < y < self.pairs().len() implies (
                    #[trigger] self.pairs()[x]).0 != (#[trigger] self.pairs()[y]).0 by {
                        let px: int = if x < i { x } else { x + 1 };
                        let py: int = if y < i { y } else { y + 1 };
                        assert(self.pairs()[x] == p0[px]);
                        assert(self.pairs()[y] == p0[py]);
                        assert(p0[px].0 != p0[py].0);
                    }
                }
            },
            None => {
                proof {
                    assert(self.parent_map() =~= self.parent_map().remove(s@));
                }
            },
        }
    }

    /// The words of the dictionary adjacent to `s`, in dictionary order,
    /// excluding `s` itself: a word is never adjacent to itself.
    pub fn adjacents(&mut self, s: &String) -> (r: Option<Vec<String>>)
        requires
            old(self).wf(),
        ensures
            *final(self) == *old(self),
            match r {
                Some(v) => {
                    &&& views_of(v@) == adjacent_keys(old(self).keys(), s@)
                    &&& forall|j: int|
                        0 <= j < v@.len() ==> old(self).parent_map().dom().contains(
                            #[trigger] views_of(v@)[j],
                        ) && adjacent(views_of(v@)[j], s@)
                    &&& forall|k: Seq<char>|
                        old(self).parent_map().dom().contains(k) && adjacent(k, s@) ==> views_of(
                            v@,
                        ).contains(k)
                },
                None => false,
            },
    {
        let n = self.entries.len();
        let mut result: Vec<String> = Vec::new();
        let mut i: usize = 0;
        while i < n
            invariant
                self.wf(),
                *self == *old(self),
                n == self.entries@.len(),
                i <= n,
                views_of(result@) == adjacent_keys(self.keys().take(i as int), s@),
                forall|j: int|
                    0 <= j < result@.len() ==> self.parent_map().dom().contains(
                        #[trigger] views_of(result@)[j],
                    ) && adjacent(views_of(result@)[j], s@),
                forall|k: Seq<char>|
                    self.keys().take(i as int).contains(k) && adjacent(k, s@) ==> views_of(
                        result@,
                    ).contains(k),
            decreases n - i,
        {
            let ghost ks = self.keys();
            let ghost r0 = result@;
            proof {
                assert(ks.take(i + 1).drop_last() =~= ks.take(i as int));
                assert(ks.take(i + 1).last() == ks[i as int]);
            }
            let cand = self.entries[i].0.clone();
            proof {
                assert(cand@ == ks[i as int]);
            }
            if is_adjacent(cand.as_str(), s.as_str()) {
                proof {
                    lemma_map_of_index(self.pairs(), i as int);
                    lemma_views_push(r0, cand);
                    assert(adjacent_keys(ks.take(i + 1), s@) == adjacent_keys(
                        ks.take(i as int),
                        s@,
                    ).push(ks[i as int]));
                }
                result.push(cand);
                proof {
                    assert forall|k: Seq<char>|
                        ks.take(i + 1).contains(k) && adjacent(k, s@) implies views_of(
                        result@,
                    ).contains(k) by {
                        if k == ks[i as int] {
                            assert(views_of(result@).last() == k);
                        } else {
                            let j = choose|j: int| 0 <= j < i + 1 && #[trigger] ks.take(i + 1)[j] == k;
                            assert(ks.take(i as int)[j] == k);
                            let jj = choose|jj: int|
                                0 <= jj < views_of(r0).len() && views_of(r0)[jj] == k;
                            assert(views_of(result@)[jj] == k);
                        }
                    }
                }
            } else {
                proof {
                    assert(adjacent_keys(ks.take(i + 1), s@) == adjacent_keys(ks.take(i as int), s@));
                    assert forall|k: Seq<char>|
                        ks.take(i + 1).contains(k) && adjacent(k, s@) implies views_of(
                        result@,
                    ).contains(k) by {
                        let j = choose|j: int| 0 <= j < i + 1 && #[trigger] ks.take(i + 1)[j] == k;
                        assert(k != ks[i as int]);
                        assert(ks.take(i as int)[j] == k);
                    }
                }
            }
            i = i + 1;
        }
        proof {
            assert(self.keys().take(n as int) =~= self.keys());
            assert forall|k: Seq<char>|
                self.parent_map().dom().contains(k) && adjacent(k, s@) implies views_of(
                result@,
            ).contains(k) by {
                self.lemma_dom_is_keys(k);
            }
        }
        Some(result)
    }
}

} // verus!
