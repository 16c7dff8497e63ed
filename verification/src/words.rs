//! Words and adjacency: two words are adjacent when they have equal length
//! and differ in exactly one character position (Hamming distance one).
//! Also defines what a ladder between two words is, over a dictionary.

use vstd::prelude::*;
use vstd::string::StrSliceExecFns;

verus! {

/// Number of positions where the two words disagree, over the prefix the
/// two words share.
pub open spec fn diff_count(a: Seq<char>, b: Seq<char>) -> nat
    decreases a.len(),
{
    if a.len() == 0 || b.len() == 0 {
        0
    } else if a.last() == b.last() {
        diff_count(a.drop_last(), b.drop_last())
    } else {
        diff_count(a.drop_last(), b.drop_last()) + 1
    }
}

/// Two words are adjacent when they have equal length and Hamming distance
/// exactly one.
pub open spec fn adjacent(a: Seq<char>, b: Seq<char>) -> bool {
    a.len() == b.len() && diff_count(a, b) == 1
}

proof fn lemma_diff_count_symmetric(a: Seq<char>, b: Seq<char>)
    ensures
        diff_count(a, b) == diff_count(b, a),
    decreases a.len(),
{
    if a.len() != 0 && b.len() != 0 {
        lemma_diff_count_symmetric(a.drop_last(), b.drop_last());
    }
}

proof fn lemma_diff_count_self(a: Seq<char>)
    ensures
        diff_count(a, a) == 0,
    decreases a.len(),
{
    if a.len() != 0 {
        lemma_diff_count_self(a.drop_last());
    }
}

/// Adjacency is symmetric: the positions where `a` and `b` disagree are the
/// positions where `b` and `a` disagree.
pub proof fn lemma_adjacent_symmetric(a: Seq<char>, b: Seq<char>)
    ensures
        adjacent(a, b) == adjacent(b, a),
{
    lemma_diff_count_symmetric(a, b);
}

/// No word is adjacent to itself: the Hamming distance of a word to itself
/// is zero, not one.
pub proof fn lemma_adjacent_irreflexive(a: Seq<char>)
    ensures
        !adjacent(a, a),
{
    lemma_diff_count_self(a);
}

/// The views of a sequence of words.
pub open spec fn views_of(ws: Seq<String>) -> Seq<Seq<char>> {
    ws.map_values(|w: String| w@)
}

/// A ladder from `o` to `t` over the dictionary `dict`: a non-empty
/// sequence of dictionary words that starts at `o`, ends at `t`, and whose
/// consecutive words are adjacent.
pub open spec fn is_ladder(dict: Set<Seq<char>>, p: Seq<Seq<char>>, o: Seq<char>, t: Seq<char>) -> bool {
    &&& p.len() >= 1
    &&& p[0] == o
    &&& p.last() == t
    &&& forall|i: int| 0 <= i < p.len() ==> dict.contains(#[trigger] p[i])
    &&& forall|i: int| 0 <= i < p.len() - 1 ==> adjacent(#[trigger] p[i], p[i + 1])
}

/// `t` can be reached from `o` by some ladder over `dict`.
pub open spec fn reachable(dict: Set<Seq<char>>, o: Seq<char>, t: Seq<char>) -> bool {
    exists|p: Seq<Seq<char>>| is_ladder(dict, p, o, t)
}

/// Removing the last word of a ladder of two or more words leaves a ladder
/// to the next-to-last word.
pub proof fn lemma_ladder_prefix(dict: Set<Seq<char>>, p: Seq<Seq<char>>, o: Seq<char>, t: Seq<char>)
    requires
        is_ladder(dict, p, o, t),
        p.len() >= 2,
    ensures
        is_ladder(dict, p.drop_last(), o, p[p.len() - 2]),
{
    assert forall|i: int| 0 <= i < p.drop_last().len() implies dict.contains(#[trigger] p.drop_last()[i]) by {
        assert(p.drop_last()[i] == p[i]);
    }
    assert forall|i: int| 0 <= i < p.drop_last().len() - 1 implies adjacent(
        #[trigger] p.drop_last()[i],
        p.drop_last()[i + 1],
    ) by {
        assert(p.drop_last()[i] == p[i]);
        assert(p.drop_last()[i + 1] == p[i + 1]);
    }
}

/// A set of words that contains the origin and is closed under adjacency
/// within the dictionary contains the end of every ladder out of the
/// origin.
pub proof fn lemma_closed_set_catches_ladder(
    dict: Set<Seq<char>>,
    vs: Set<Seq<char>>,
    p: Seq<Seq<char>>,
    o: Seq<char>,
    t: Seq<char>,
)
    requires
        is_ladder(dict, p, o, t),
        vs.contains(o),
        forall|u: Seq<char>, v: Seq<char>|
            #![trigger vs.contains(u), adjacent(u, v)]
            vs.contains(u) && dict.contains(v) && adjacent(u, v) ==> vs.contains(v),
    ensures
        vs.contains(t),
    decreases p.len(),
{
    if p.len() == 1 {
        assert(t == o);
    } else {
        lemma_ladder_prefix(dict, p, o, t);
        lemma_closed_set_catches_ladder(dict, vs, p.drop_last(), o, p[p.len() - 2]);
        assert(adjacent(p[p.len() - 2], p[p.len() - 1]));
        assert(dict.contains(p[p.len() - 1]));
    }
}

/// The words of `ks` adjacent to `s`, in the order of `ks`.
pub open spec fn adjacent_keys(ks: Seq<Seq<char>>, s: Seq<char>) -> Seq<Seq<char>>
    decreases ks.len(),
{
    if ks.len() == 0 {
        Seq::empty()
    } else if adjacent(ks.last(), s) {
        adjacent_keys(ks.drop_last(), s).push(ks.last())
    } else {
        adjacent_keys(ks.drop_last(), s)
    }
}

/// The view of a pushed word sequence is the pushed view sequence.
pub proof fn lemma_views_push(ws: Seq<String>, w: String)
    ensures
        views_of(ws.push(w)) == views_of(ws).push(w@),
{
    assert(views_of(ws.push(w)) =~= views_of(ws).push(w@));
}

/// Decides adjacency of two words, character by character.
pub fn is_adjacent(a: &str, b: &str) -> (r: bool)
    ensures
        r == adjacent(a@, b@),
{
    let la = a.unicode_len();
    let lb = b.unicode_len();
    if la != lb {
        return false;
    }
    let mut d: usize = 0;
    let mut i: usize = 0;
    while i < la
        invariant
            la == a@.len(),
            lb == b@.len(),
            la == lb,
            i <= la,
            d <= i,
            d == diff_count(a@.take(i as int), b@.take(i as int)),
        decreases la - i,
    {
        let ca = a.get_char(i);
        let cb = b.get_char(i);
        proof {
            assert(a@.take(i + 1).drop_last() =~= a@.take(i as int));
            assert(b@.take(i + 1).drop_last() =~= b@.take(i as int));
        }
        if ca != cb {
            d = d + 1;
        }
        i = i + 1;
    }
    proof {
        assert(a@.take(la as int) =~= a@);
        assert(b@.take(lb as int) =~= b@);
    }
    d == 1
}

} // verus!
