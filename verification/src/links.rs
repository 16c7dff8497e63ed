//! The mathematical model of the parent-link store: an association
//! sequence of (word, parent) pairs with pairwise-distinct keys, read as a
//! finite map, together with the parent-chain predicates that the path
//! reconstruction relies on.

use vstd::prelude::*;

verus! {

/// The map that an association sequence denotes.
pub open spec fn map_of(s: Seq<(Seq<char>, Seq<char>)>) -> Map<Seq<char>, Seq<char>>
    decreases s.len(),
{
    if s.len() == 0 {
        Map::empty()
    } else {
        map_of(s.drop_last()).insert(s.last().0, s.last().1)
    }
}

/// No two entries share a key.
pub open spec fn distinct_keys(s: Seq<(Seq<char>, Seq<char>)>) -> bool {
    forall|i: int, j: int| 0 <= i < j < s.len() ==> (#[trigger] s[i]).0 != (#[trigger] s[j]).0
}

pub proof fn lemma_map_of_contains(s: Seq<(Seq<char>, Seq<char>)>, k: Seq<char>)
    ensures
        map_of(s).dom().contains(k) <==> exists|i: int| 0 <= i < s.len() && (#[trigger] s[i]).0 == k,
    decreases s.len(),
{
    if s.len() > 0 {
        lemma_map_of_contains(s.drop_last(), k);
        if map_of(s).dom().contains(k) {
            if s.last().0 == k {
                assert(s[s.len() - 1].0 == k);
            } else {
                let i = choose|i: int| 0 <= i < s.drop_last().len() && (#[trigger] s.drop_last()[i]).0 == k;
                assert(s[i].0 == k);
            }
        }
        if exists|i: int| 0 <= i < s.len() && (#[trigger] s[i]).0 == k {
            let i = choose|i: int| 0 <= i < s.len() && (#[trigger] s[i]).0 == k;
            if i < s.len() - 1 {
                assert(s.drop_last()[i].0 == k);
            }
        }
    }
}

pub proof fn lemma_map_of_index(s: Seq<(Seq<char>, Seq<char>)>, i: int)
    requires
        distinct_keys(s),
        0 <= i < s.len(),
    ensures
        map_of(s).dom().contains(s[i].0),
        map_of(s)[s[i].0] == s[i].1,
    decreases s.len(),
{
    if i < s.len() - 1 {
        assert(distinct_keys(s.drop_last())) by {
            assert forall|x: int, y: int| 0 <= x < y < s.drop_last().len() implies (
            #[trigger] s.drop_last()[x]).0 != (#[trigger] s.drop_last()[y]).0 by {
                assert(s[x].0 != s[y].0);
            }
        }
        assert(s.drop_last()[i] == s[i]);
        lemma_map_of_index(s.drop_last(), i);
        assert(s[i].0 != s.last().0);
    }
}

pub proof fn lemma_distinct_drop_last(s: Seq<(Seq<char>, Seq<char>)>)
    requires
        distinct_keys(s),
        s.len() > 0,
    ensures
        distinct_keys(s.drop_last()),
{
    assert forall|x: int, y: int| 0 <= x < y < s.drop_last().len() implies (
    #[trigger] s.drop_last()[x]).0 != (#[trigger] s.drop_last()[y]).0 by {
        assert(s[x].0 != s[y].0);
    }
}

pub proof fn lemma_map_of_update(s: Seq<(Seq<char>, Seq<char>)>, i: int, v: Seq<char>)
    requires
        distinct_keys(s),
        0 <= i < s.len(),
    ensures
        map_of(s.update(i, (s[i].0, v))) == map_of(s).insert(s[i].0, v),
    decreases s.len(),
{
    let s2 = s.update(i, (s[i].0, v));
    if i == s.len() - 1 {
        assert(s2.drop_last() =~= s.drop_last());
        assert(map_of(s2) =~= map_of(s).insert(s[i].0, v));
    } else {
        lemma_distinct_drop_last(s);
        assert(s.drop_last()[i] == s[i]);
        lemma_map_of_update(s.drop_last(), i, v);
        assert(s2.drop_last() =~= s.drop_last().update(i, (s[i].0, v)));
        assert(s2.last() == s.last());
        assert(s[i].0 != s.last().0);
        assert(map_of(s2) =~= map_of(s).insert(s[i].0, v));
    }
}

pub proof fn lemma_map_of_remove(s: Seq<(Seq<char>, Seq<char>)>, i: int)
    requires
        distinct_keys(s),
        0 <= i < s.len(),
    ensures
        map_of(s.remove(i)) == map_of(s).remove(s[i].0),
    decreases s.len(),
{
    let s2 = s.remove(i);
    if i == s.len() - 1 {
        assert(s2 =~= s.drop_last());
        lemma_map_of_contains(s2, s[i].0);
        assert forall|j: int| 0 <= j < s2.len() implies (#[trigger] s2[j]).0 != s[i].0 by {
            assert(s[j].0 != s[i].0);
        }
        assert(!map_of(s2).dom().contains(s[i].0));
        assert(map_of(s2) =~= map_of(s).remove(s[i].0));
    } else {
        lemma_distinct_drop_last(s);
        assert(s.drop_last()[i] == s[i]);
        lemma_map_of_remove(s.drop_last(), i);
        assert(s2.drop_last() =~= s.drop_last().remove(i));
        assert(s2.last() == s.last());
        assert(s[i].0 != s.last().0);
        assert(map_of(s2) =~= map_of(s).remove(s[i].0));
    }
}

/// Whether a word's entry marks it as not yet reached by the search: it is
/// its own parent and is not the origin.
pub open spec fn counts_unvisited(m: Map<Seq<char>, Seq<char>>, o: Seq<char>, k: Seq<char>) -> bool {
    m.dom().contains(k) && m[k] == k && k != o
}

/// How many of the listed words are not yet reached by a search out of
/// `o`: the breadth-first search's termination measure.
pub open spec fn unvisited_count(ks: Seq<Seq<char>>, m: Map<Seq<char>, Seq<char>>, o: Seq<char>) -> nat
    decreases ks.len(),
{
    if ks.len() == 0 {
        0
    } else {
        unvisited_count(ks.drop_last(), m, o) + if counts_unvisited(m, o, ks.last()) {
            1nat
        } else {
            0nat
        }
    }
}

/// Pairwise-distinct words.
pub open spec fn distinct_words(ks: Seq<Seq<char>>) -> bool {
    forall|i: int, j: int| 0 <= i < j < ks.len() ==> ks[i] != ks[j]
}

proof fn lemma_unvisited_count_insert_other(
    ks: Seq<Seq<char>>,
    m: Map<Seq<char>, Seq<char>>,
    o: Seq<char>,
    k: Seq<char>,
    v: Seq<char>,
)
    requires
        !ks.contains(k),
    ensures
        unvisited_count(ks, m.insert(k, v), o) == unvisited_count(ks, m, o),
    decreases ks.len(),
{
    if ks.len() > 0 {
        assert(!ks.drop_last().contains(k)) by {
            if ks.drop_last().contains(k) {
                let i = choose|i: int| 0 <= i < ks.drop_last().len() && ks.drop_last()[i] == k;
                assert(ks[i] == k);
            }
        }
        lemma_unvisited_count_insert_other(ks.drop_last(), m, o, k, v);
        assert(ks[ks.len() - 1] != k);
    }
}

/// Re-parenting an unvisited listed word to a word other than itself
/// lowers the count of unvisited words by one.
pub proof fn lemma_unvisited_count_visit(
    ks: Seq<Seq<char>>,
    m: Map<Seq<char>, Seq<char>>,
    o: Seq<char>,
    k: Seq<char>,
    v: Seq<char>,
)
    requires
        distinct_words(ks),
        ks.contains(k),
        counts_unvisited(m, o, k),
        v != k,
    ensures
        unvisited_count(ks, m.insert(k, v), o) + 1 == unvisited_count(ks, m, o),
    decreases ks.len(),
{
    if ks.last() == k {
        assert(!ks.drop_last().contains(k)) by {
            if ks.drop_last().contains(k) {
                let i = choose|i: int| 0 <= i < ks.drop_last().len() && ks.drop_last()[i] == k;
                assert(ks[i] == ks[ks.len() - 1]);
            }
        }
        lemma_unvisited_count_insert_other(ks.drop_last(), m, o, k, v);
    } else {
        let i = choose|i: int| 0 <= i < ks.len() && ks[i] == k;
        assert(ks.drop_last()[i] == k);
        assert(distinct_words(ks.drop_last())) by {
            assert forall|x: int, y: int| 0 <= x < y < ks.drop_last().len() implies ks.drop_last()[x]
                != ks.drop_last()[y] by {
                assert(ks[x] != ks[y]);
            }
        }
        lemma_unvisited_count_visit(ks.drop_last(), m, o, k, v);
    }
}

/// The parent walk out of `w` comes to an end within `fuel` steps: it
/// reaches a word that is its own parent, or a word with no entry. This is
/// what path reconstruction needs in order to terminate.
pub open spec fn parent_steps_end(m: Map<Seq<char>, Seq<char>>, w: Seq<char>, fuel: nat) -> bool
    decreases fuel,
{
    if !m.dom().contains(w) {
        true
    } else if m[w] == w {
        true
    } else if fuel == 0 {
        false
    } else {
        parent_steps_end(m, m[w], (fuel - 1) as nat)
    }
}

/// The parent walk out of `w` stays inside the map and reaches a word that
/// is its own parent within `fuel` steps.
pub open spec fn parent_chain_roots(m: Map<Seq<char>, Seq<char>>, w: Seq<char>, fuel: nat) -> bool
    decreases fuel,
{
    m.dom().contains(w) && (m[w] == w || (fuel > 0 && parent_chain_roots(m, m[w], (fuel - 1) as nat)))
}

/// A walk that reaches a root also comes to an end.
pub proof fn lemma_roots_implies_ends(m: Map<Seq<char>, Seq<char>>, w: Seq<char>, fuel: nat)
    requires
        parent_chain_roots(m, w, fuel),
    ensures
        parent_steps_end(m, w, fuel),
    decreases fuel,
{
    if m.dom().contains(w) && m[w] != w && fuel > 0 {
        lemma_roots_implies_ends(m, m[w], (fuel - 1) as nat);
    }
}

} // verus!
