//! Path reconstruction and the breadth-first ladder search.

use std::collections::VecDeque;

use vstd::prelude::*;

use crate::graph::WordGraph;
use crate::links::{counts_unvisited, distinct_words, lemma_roots_implies_ends,
    lemma_unvisited_count_visit, parent_chain_roots, parent_steps_end, unvisited_count};
use crate::words::{adjacent, is_ladder, lemma_adjacent_irreflexive, lemma_adjacent_symmetric,
    lemma_closed_set_catches_ladder, lemma_ladder_prefix, reachable, views_of};

verus! {

/// A word has been reached by a search out of `o`: it has an entry, and it
/// is the origin or its parent differs from itself.
pub open spec fn visited(m: Map<Seq<char>, Seq<char>>, o: Seq<char>, w: Seq<char>) -> bool {
    m.dom().contains(w) && (w == o || m[w] != w)
}

/// The parent links of the visited words form adjacency chains that lose
/// one depth per step and bottom out at the origin at depth zero.
#[verifier::opaque]
spec fn bfs_chain(m: Map<Seq<char>, Seq<char>>, o: Seq<char>, dep: Map<Seq<char>, nat>) -> bool {
    &&& m.dom().contains(o)
    &&& m[o] == o
    &&& dep.dom().contains(o)
    &&& dep[o] == 0
    &&& forall|w: Seq<char>| #[trigger] visited(m, o, w) ==> dep.dom().contains(w)
    &&& forall|w: Seq<char>| #[trigger] dep.dom().contains(w) ==> visited(m, o, w)
    &&& forall|w: Seq<char>|
        #[trigger] visited(m, o, w) && w != o ==> visited(m, o, m[w]) && adjacent(m[w], w)
            && dep[m[w]] + 1 == dep[w]
}

/// The queue and the set of expanded words cover the visited words.
#[verifier::opaque]
spec fn bfs_queue(
    m: Map<Seq<char>, Seq<char>>,
    dict: Set<Seq<char>>,
    o: Seq<char>,
    qs: Seq<Seq<char>>,
    cover: Set<Seq<char>>,
) -> bool {
    &&& m.dom() == dict
    &&& forall|i: int| 0 <= i < qs.len() ==> visited(m, o, #[trigger] qs[i])
    &&& forall|w: Seq<char>| #[trigger] visited(m, o, w) ==> cover.contains(w) || qs.contains(w)
    &&& forall|w: Seq<char>| #[trigger] cover.contains(w) ==> visited(m, o, w)
}

/// Every dictionary word adjacent to an expanded word has been visited.
#[verifier::opaque]
spec fn bfs_closed(
    m: Map<Seq<char>, Seq<char>>,
    dict: Set<Seq<char>>,
    o: Seq<char>,
    ex: Set<Seq<char>>,
) -> bool {
    forall|u: Seq<char>, v: Seq<char>|
        #![trigger ex.contains(u), adjacent(u, v)]
        ex.contains(u) && dict.contains(v) && adjacent(u, v) ==> visited(m, o, v)
}

/// Queue depths never decrease along the queue, and the back is at most
/// one deeper than the front.
#[verifier::opaque]
spec fn bfs_sorted(dep: Map<Seq<char>, nat>, qs: Seq<Seq<char>>) -> bool {
    &&& forall|i: int, j: int|
        0 <= i <= j < qs.len() ==> dep[#[trigger] qs[i]] <= dep[#[trigger] qs[j]]
    &&& qs.len() > 0 ==> dep[qs.last()] <= dep[qs[0]] + 1
}

/// Recorded depths are lower bounds: no ladder beats the depth at which a
/// word was discovered.
#[verifier::opaque]
spec fn bfs_lower(
    m: Map<Seq<char>, Seq<char>>,
    dict: Set<Seq<char>>,
    o: Seq<char>,
    dep: Map<Seq<char>, nat>,
) -> bool {
    forall|w: Seq<char>, q: Seq<Seq<char>>|
        visited(m, o, w) && #[trigger] is_ladder(dict, q, o, w) ==> q.len() >= dep[w] + 1
}

/// Every ladder to a word that is still unvisited is longer than the
/// current search frontier: its length exceeds `b + 1`.
#[verifier::opaque]
spec fn bfs_frontier(
    m: Map<Seq<char>, Seq<char>>,
    dict: Set<Seq<char>>,
    o: Seq<char>,
    b: nat,
) -> bool {
    forall|w: Seq<char>, q: Seq<Seq<char>>|
        !visited(m, o, w) && #[trigger] is_ladder(dict, q, o, w) ==> q.len() >= b + 2
}

/// The parent walk out of a visited word reaches a self-parented word
/// within its recorded depth.
proof fn lemma_visited_roots(
    m: Map<Seq<char>, Seq<char>>,
    o: Seq<char>,
    dep: Map<Seq<char>, nat>,
    w: Seq<char>,
)
    requires
        bfs_chain(m, o, dep),
        visited(m, o, w),
    ensures
        parent_chain_roots(m, w, dep[w]),
    decreases dep[w],
{
    reveal(bfs_chain);
    if w != o {
        assert(visited(m, o, m[w]) && dep[m[w]] + 1 == dep[w]);
        lemma_visited_roots(m, o, dep, m[w]);
    }
}

/// A parent-link walk that ends at a self-parented word, read in root-to-
/// word order, is a ladder from the origin whose length is one more than
/// the recorded depth of its last word.
proof fn lemma_walk_is_ladder(
    m: Map<Seq<char>, Seq<char>>,
    o: Seq<char>,
    dep: Map<Seq<char>, nat>,
    dict: Set<Seq<char>>,
    ws: Seq<Seq<char>>,
)
    requires
        bfs_chain(m, o, dep),
        m.dom() == dict,
        ws.len() >= 1,
        m[ws[0]] == ws[0],
        forall|i: int| 0 <= i < ws.len() ==> m.dom().contains(#[trigger] ws[i]),
        forall|i: int|
            1 <= i < ws.len() ==> m[#[trigger] ws[i]] == ws[i - 1] && ws[i] != ws[i - 1],
        visited(m, o, ws.last()),
    ensures
        is_ladder(dict, ws, o, ws.last()),
        ws.len() == dep[ws.last()] + 1,
    decreases ws.len(),
{
    reveal(bfs_chain);
    let l = ws.len() as int;
    if l == 1 {
        assert(ws[0] == ws.last());
        assert(ws[0] == o);
    } else {
        let t2 = ws.last();
        assert(m[ws[l - 1]] == ws[l - 2] && ws[l - 1] != ws[l - 2]);
        assert(t2 != o);
        assert(visited(m, o, m[t2]) && adjacent(m[t2], t2) && dep[m[t2]] + 1 == dep[t2]);
        let wsd = ws.drop_last();
        assert(wsd.last() == ws[l - 2]);
        assert(m[wsd[0]] == wsd[0]) by {
            assert(wsd[0] == ws[0]);
        }
        assert forall|i: int| 0 <= i < wsd.len() implies m.dom().contains(#[trigger] wsd[i]) by {
            assert(wsd[i] == ws[i]);
        }
        assert forall|i: int| 1 <= i < wsd.len() implies m[#[trigger] wsd[i]] == wsd[i - 1]
            && wsd[i] != wsd[i - 1] by {
            assert(wsd[i] == ws[i]);
            assert(wsd[i - 1] == ws[i - 1]);
        }
        assert(visited(m, o, wsd.last()));
        lemma_walk_is_ladder(m, o, dep, dict, wsd);
        assert(ws[0] == o) by {
            assert(wsd[0] == ws[0]);
        }
        assert forall|i: int| 0 <= i < l implies dict.contains(#[trigger] ws[i]) by {
            if i < l - 1 {
                assert(wsd[i] == ws[i]);
                assert(dict.contains(wsd[i]));
            }
        }
        assert forall|i: int| 0 <= i < l - 1 implies adjacent(#[trigger] ws[i], ws[i + 1]) by {
            if i < l - 2 {
                assert(wsd[i] == ws[i]);
                assert(wsd[i + 1] == ws[i + 1]);
                assert(adjacent(wsd[i], wsd[i + 1]));
            } else {
                assert(adjacent(m[t2], t2));
                assert(m[t2] == ws[l - 2]);
            }
        }
    }
}

/// A parent walk that runs into a word without an entry never reaches a
/// root, whatever fuel it is given: the walk out of `s` is forced along
/// `chain` and ends at the entryless word `c`.
proof fn lemma_chain_no_roots(
    m: Map<Seq<char>, Seq<char>>,
    chain: Seq<Seq<char>>,
    c: Seq<char>,
    s: Seq<char>,
    f: nat,
)
    requires
        chain.len() == 0 ==> c == s,
        chain.len() > 0 ==> chain.last() == s && m.dom().contains(chain[0]) && m[chain[0]] == c
            && chain[0] != c,
        forall|i: int| 0 <= i < chain.len() ==> m.dom().contains(#[trigger] chain[i]),
        forall|i: int|
            0 <= i < chain.len() - 1 ==> m[#[trigger] chain[i + 1]] == chain[i] && chain[i]
                != chain[i + 1],
        !m.dom().contains(c),
    ensures
        !parent_chain_roots(m, s, f),
    decreases f,
{
    if chain.len() == 0 {
        assert(!m.dom().contains(s));
    } else {
        let l = chain.len() as int;
        assert(m.dom().contains(s)) by {
            assert(chain[l - 1] == s);
        }
        if l >= 2 {
            assert(m[s] == chain[l - 2] && m[s] != s) by {
                assert(m[chain[l - 2 + 1]] == chain[l - 2]);
            }
            if f > 0 {
                lemma_chain_no_roots(m, chain.drop_last(), c, chain[l - 2], (f - 1) as nat);
            }
        } else {
            assert(chain[0] == s);
            assert(m[s] == c && m[s] != s);
            if f > 0 {
                lemma_chain_no_roots(m, Seq::empty(), c, c, (f - 1) as nat);
            }
        }
    }
}

/// When the queue front moves one level deeper, every ladder to a word
/// that is still unvisited is longer than the new frontier too: its
/// next-to-last word would otherwise already have been expanded, and then
/// its last word visited.
proof fn lemma_frontier_advances(
    m: Map<Seq<char>, Seq<char>>,
    dict: Set<Seq<char>>,
    o: Seq<char>,
    dep: Map<Seq<char>, nat>,
    qs1: Seq<Seq<char>>,
    ex2: Set<Seq<char>>,
    d: nat,
)
    requires
        bfs_queue(m, dict, o, qs1, ex2),
        bfs_closed(m, dict, o, ex2),
        bfs_sorted(dep, qs1),
        bfs_lower(m, dict, o, dep),
        bfs_frontier(m, dict, o, d),
        visited(m, o, o),
        qs1.len() > 0,
        d <= dep[qs1[0]] <= d + 1,
    ensures
        bfs_frontier(m, dict, o, dep[qs1[0]]),
{
    reveal(bfs_queue);
    reveal(bfs_closed);
    reveal(bfs_sorted);
    reveal(bfs_lower);
    reveal(bfs_frontier);
    assert forall|w2: Seq<char>, q: Seq<Seq<char>>|
        !visited(m, o, w2) && #[trigger] is_ladder(dict, q, o, w2) implies q.len() >= dep[qs1[0]]
        + 2 by {
        if dep[qs1[0]] != d {
            assert(dep[qs1[0]] == d + 1);
            assert(q.len() >= d + 2);
            if q.len() < d + 3 {
                assert(q.len() == d + 2);
                assert(w2 != o);
                assert(q.len() >= 2) by {
                    if q.len() == 1 {
                        assert(q[0] == q.last());
                    }
                }
                lemma_ladder_prefix(dict, q, o, w2);
                let pr = q[q.len() - 2];
                let qp = q.drop_last();
                assert(is_ladder(dict, qp, o, pr));
                assert(qp.len() == d + 1);
                if visited(m, o, pr) {
                    assert(qp.len() >= dep[pr] + 1);
                    assert(dep[pr] <= d);
                    assert(ex2.contains(pr)) by {
                        if !ex2.contains(pr) {
                            let i = choose|i: int| 0 <= i < qs1.len() && #[trigger] qs1[i] == pr;
                            assert(dep[qs1[0]] <= dep[qs1[i]]);
                        }
                    }
                    assert(dict.contains(w2));
                    assert(adjacent(pr, w2));
                    assert(visited(m, o, w2));
                } else {
                    assert(qp.len() >= d + 2);
                }
            }
        }
    }
}

/// When the queue has drained without the target being expanded, no
/// ladder from the origin to the target exists: the expanded set is
/// closed under adjacency and misses the target.
proof fn lemma_no_ladder_when_drained(
    m: Map<Seq<char>, Seq<char>>,
    dict: Set<Seq<char>>,
    o: Seq<char>,
    dep: Map<Seq<char>, nat>,
    ex: Set<Seq<char>>,
    t: Seq<char>,
)
    requires
        bfs_chain(m, o, dep),
        bfs_queue(m, dict, o, Seq::empty(), ex),
        bfs_closed(m, dict, o, ex),
        !ex.contains(t),
    ensures
        !reachable(dict, o, t),
        o != t,
{
    reveal(bfs_chain);
    reveal(bfs_queue);
    reveal(bfs_closed);
    assert(visited(m, o, o));
    assert(!reachable(dict, o, t)) by {
        if reachable(dict, o, t) {
            let q = choose|q: Seq<Seq<char>>| is_ladder(dict, q, o, t);
            assert forall|u: Seq<char>, v: Seq<char>|
                #![trigger ex.contains(u), adjacent(u, v)]
                ex.contains(u) && dict.contains(v) && adjacent(u, v) implies ex.contains(v) by {
                assert(visited(m, o, v));
                assert(!Seq::<Seq<char>>::empty().contains(v));
            }
            assert(ex.contains(o));
            lemma_closed_set_catches_ladder(dict, ex, q, o, t);
        }
    }
    if o == t {
        assert(is_ladder(dict, seq![o], o, t)) by {
            assert(seq![o][0] == o);
            assert(seq![o].last() == o);
        }
        assert(false);
    }
}

/// Popping the queue front hands the cover of the visited words over to
/// the expanded set extended with the popped word, and keeps the queue
/// sorted within one level of the popped word's depth.
proof fn lemma_after_pop(
    m: Map<Seq<char>, Seq<char>>,
    dict: Set<Seq<char>>,
    o: Seq<char>,
    dep: Map<Seq<char>, nat>,
    q0v: Seq<Seq<char>>,
    q1v: Seq<Seq<char>>,
    ex: Set<Seq<char>>,
    w: Seq<char>,
)
    requires
        bfs_chain(m, o, dep),
        bfs_queue(m, dict, o, q0v, ex),
        bfs_sorted(dep, q0v),
        q0v.len() > 0,
        q0v[0] == w,
        q1v == q0v.subrange(1, q0v.len() as int),
    ensures
        bfs_queue(m, dict, o, q1v, ex.insert(w)),
        bfs_sorted(dep, q1v),
        forall|i: int| 0 <= i < q1v.len() ==> dep[w] <= dep[#[trigger] q1v[i]] <= dep[w] + 1,
        visited(m, o, w),
        dep.dom().contains(w),
{
    reveal(bfs_chain);
    reveal(bfs_queue);
    reveal(bfs_sorted);
    assert forall|i: int| 0 <= i < q1v.len() implies visited(m, o, #[trigger] q1v[i]) by {
        assert(q1v[i] == q0v[i + 1]);
    }
    assert forall|x: Seq<char>| #[trigger] visited(m, o, x) implies ex.insert(w).contains(x)
        || q1v.contains(x) by {
        if !ex.contains(x) && x != w {
            let i = choose|i: int| 0 <= i < q0v.len() && #[trigger] q0v[i] == x;
            assert(i > 0);
            assert(q1v[i - 1] == x);
        }
    }
    assert forall|i: int, j2: int| 0 <= i <= j2 < q1v.len() implies dep[#[trigger] q1v[i]]
        <= dep[#[trigger] q1v[j2]] by {
        assert(q1v[i] == q0v[i + 1]);
        assert(q1v[j2] == q0v[j2 + 1]);
    }
    assert forall|i: int| 0 <= i < q1v.len() implies dep[w] <= dep[#[trigger] q1v[i]] <= dep[w]
        + 1 by {
        assert(q1v[i] == q0v[i + 1]);
        assert(dep[q0v[0]] <= dep[q0v[i + 1]]);
        assert(dep[q0v[i + 1]] <= dep[q0v[q0v.len() - 1]]);
    }
    if q1v.len() > 0 {
        assert(q1v.last() == q0v[q0v.len() - 1]);
        assert(q1v[0] == q0v[1]);
    }
}

/// Once every dictionary neighbor of `w` is visited, `w` may join the
/// expanded set: the closure of the expanded set is kept.
proof fn lemma_expansion_closes(
    m: Map<Seq<char>, Seq<char>>,
    dict: Set<Seq<char>>,
    o: Seq<char>,
    ex: Set<Seq<char>>,
    w: Seq<char>,
    nvs: Seq<Seq<char>>,
)
    requires
        bfs_closed(m, dict, o, ex),
        forall|jj: int| 0 <= jj < nvs.len() ==> visited(m, o, #[trigger] nvs[jj]),
        forall|k: Seq<char>| dict.contains(k) && adjacent(k, w) ==> nvs.contains(k),
    ensures
        bfs_closed(m, dict, o, ex.insert(w)),
{
    reveal(bfs_closed);
    assert forall|u: Seq<char>, v: Seq<char>|
        #![trigger ex.insert(w).contains(u), adjacent(u, v)]
        ex.insert(w).contains(u) && dict.contains(v) && adjacent(u, v) implies visited(
        m,
        o,
        v,
    ) by {
        if u == w {
            lemma_adjacent_symmetric(w, v);
            assert(nvs.contains(v));
            let jj = choose|jj: int| 0 <= jj < nvs.len() && #[trigger] nvs[jj] == v;
            assert(visited(m, o, nvs[jj]));
        }
    }
}

/// The walk handed back by path reconstruction at the target is a
/// shortest ladder; when origin and target coincide it is the one-word
/// ladder.
proof fn lemma_found_target(
    m: Map<Seq<char>, Seq<char>>,
    dict: Set<Seq<char>>,
    o: Seq<char>,
    dep: Map<Seq<char>, nat>,
    ws: Seq<Seq<char>>,
    t: Seq<char>,
)
    requires
        bfs_chain(m, o, dep),
        m.dom() == dict,
        bfs_lower(m, dict, o, dep),
        visited(m, o, t),
        ws.len() >= 1,
        ws.last() == t,
        m[ws[0]] == ws[0],
        forall|i: int| 0 <= i < ws.len() ==> m.dom().contains(#[trigger] ws[i]),
        forall|i: int|
            1 <= i < ws.len() ==> m[#[trigger] ws[i]] == ws[i - 1] && ws[i] != ws[i - 1],
    ensures
        is_ladder(dict, ws, o, t),
        forall|q: Seq<Seq<char>>| is_ladder(dict, q, o, t) ==> q.len() >= ws.len(),
        o == t ==> ws == seq![o],
{
    reveal(bfs_lower);
    lemma_walk_is_ladder(m, o, dep, dict, ws);
    assert forall|q: Seq<Seq<char>>| is_ladder(dict, q, o, t) implies q.len() >= ws.len() by {
        assert(q.len() >= dep[t] + 1);
    }
    if o == t {
        assert(dep[t] == 0);
        assert(ws.len() == 1);
        assert(ws =~= seq![o]);
    }
}

/// Starting a search: with the origin freshly self-parented in an
/// otherwise untouched graph, only the origin is visited, at depth zero,
/// and it alone sits in the queue.
proof fn lemma_search_start(
    m0: Map<Seq<char>, Seq<char>>,
    m: Map<Seq<char>, Seq<char>>,
    dict: Set<Seq<char>>,
    o: Seq<char>,
    dep: Map<Seq<char>, nat>,
    qs: Seq<Seq<char>>,
)
    requires
        forall|k: Seq<char>| m0.dom().contains(k) ==> m0[k] == k,
        m == m0.insert(o, o),
        dict == m0.dom().insert(o),
        dep == Map::<Seq<char>, nat>::empty().insert(o, 0nat),
        qs == seq![o],
    ensures
        bfs_chain(m, o, dep),
        bfs_queue(m, dict, o, qs, Set::<Seq<char>>::empty()),
        bfs_closed(m, dict, o, Set::<Seq<char>>::empty()),
        bfs_sorted(dep, qs),
        bfs_lower(m, dict, o, dep),
        bfs_frontier(m, dict, o, 0nat),
        dep[o] == 0,
{
    reveal(bfs_chain);
    reveal(bfs_queue);
    reveal(bfs_closed);
    reveal(bfs_sorted);
    reveal(bfs_lower);
    reveal(bfs_frontier);
    assert forall|w: Seq<char>| #[trigger] visited(m, o, w) implies w == o by {
        if w != o {
            assert(m[w] == m0[w]);
            assert(m0.dom().contains(w));
        }
    }
    assert(visited(m, o, o));
    assert(m.dom() =~= dict);
    assert(qs[0] == o);
    assert(qs.contains(o));
    assert forall|w2: Seq<char>, q: Seq<Seq<char>>|
        !visited(m, o, w2) && #[trigger] is_ladder(dict, q, o, w2) implies q.len() >= 0nat + 2 by {
        assert(w2 != o);
        if q.len() < 2 {
            assert(q[0] == q.last());
        }
    }
    assert forall|w2: Seq<char>, q: Seq<Seq<char>>|
        visited(m, o, w2) && #[trigger] is_ladder(dict, q, o, w2) implies q.len() >= dep[w2]
        + 1 by {
        assert(w2 == o);
    }
}

/// Discovering an unvisited neighbor `n` of the word `w` under expansion:
/// re-parenting `n` to `w`, recording depth `d + 1`, and enqueuing `n`
/// keeps every search invariant.
proof fn lemma_discovery(
    m: Map<Seq<char>, Seq<char>>,
    m2: Map<Seq<char>, Seq<char>>,
    dict: Set<Seq<char>>,
    o: Seq<char>,
    dep: Map<Seq<char>, nat>,
    dep2: Map<Seq<char>, nat>,
    qs: Seq<Seq<char>>,
    qs2: Seq<Seq<char>>,
    ex: Set<Seq<char>>,
    cover: Set<Seq<char>>,
    w: Seq<char>,
    n: Seq<char>,
    d: nat,
)
    requires
        bfs_chain(m, o, dep),
        bfs_queue(m, dict, o, qs, cover),
        bfs_closed(m, dict, o, ex),
        bfs_sorted(dep, qs),
        forall|i: int| 0 <= i < qs.len() ==> d <= dep[#[trigger] qs[i]] <= d + 1,
        bfs_lower(m, dict, o, dep),
        bfs_frontier(m, dict, o, d),
        visited(m, o, w),
        dep.dom().contains(w),
        dep[w] == d,
        dict.contains(n),
        adjacent(n, w),
        m.dom().contains(n),
        m[n] == n,
        n != o,
        m2 == m.insert(n, w),
        dep2 == dep.insert(n, d + 1),
        qs2 == qs.push(n),
    ensures
        bfs_chain(m2, o, dep2),
        bfs_queue(m2, dict, o, qs2, cover),
        bfs_closed(m2, dict, o, ex),
        bfs_sorted(dep2, qs2),
        forall|i: int| 0 <= i < qs2.len() ==> d <= dep2[#[trigger] qs2[i]] <= d + 1,
        bfs_lower(m2, dict, o, dep2),
        bfs_frontier(m2, dict, o, d),
        visited(m2, o, w),
        dep2.dom().contains(w),
        dep2[w] == d,
        visited(m2, o, n),
        forall|x: Seq<char>| #[trigger] visited(m, o, x) ==> visited(m2, o, x),
        m2.dom() == dict,
{
    reveal(bfs_chain);
    reveal(bfs_queue);
    reveal(bfs_closed);
    reveal(bfs_sorted);
    reveal(bfs_lower);
    reveal(bfs_frontier);
    assert(!visited(m, o, n));
    assert(w != n) by {
        lemma_adjacent_irreflexive(n);
    }
    lemma_adjacent_symmetric(n, w);
    assert(m2.dom() =~= dict);
    assert(!dep.dom().contains(n));
    assert forall|x: Seq<char>| #[trigger] visited(m, o, x) implies visited(m2, o, x) by {
        if x != n {
            assert(m2[x] == m[x]);
        }
    }
    assert(visited(m2, o, n));
    assert forall|x: Seq<char>| #[trigger] visited(m2, o, x) && x != o implies visited(
        m2,
        o,
        m2[x],
    ) && adjacent(m2[x], x) && dep2[m2[x]] + 1 == dep2[x] by {
        if x == n {
            assert(m2[n] == w);
            assert(visited(m2, o, w));
            assert(dep2[w] == d);
        } else {
            assert(m2[x] == m[x]);
            assert(visited(m, o, x));
            assert(visited(m, o, m[x]) && adjacent(m[x], x) && dep[m[x]] + 1 == dep[x]);
            assert(m[x] != n);
            assert(dep2[x] == dep[x] && dep2[m[x]] == dep[m[x]]);
            assert(visited(m2, o, m[x]));
        }
    }
    assert forall|x: Seq<char>| #[trigger] visited(m2, o, x) implies dep2.dom().contains(x) by {
        if x != n {
            assert(m2[x] == m[x]);
            assert(visited(m, o, x));
        }
    }
    assert forall|x: Seq<char>| #[trigger] dep2.dom().contains(x) implies visited(m2, o, x) by {
        if x != n {
            assert(visited(m, o, x));
        }
    }
    assert forall|i: int| 0 <= i < qs2.len() implies visited(m2, o, #[trigger] qs2[i]) by {
        if i < qs2.len() - 1 {
            assert(qs2[i] == qs[i]);
            assert(visited(m, o, qs[i]));
        } else {
            assert(qs2[i] == n);
        }
    }
    assert forall|x: Seq<char>| #[trigger] visited(m2, o, x) implies cover.contains(x)
        || qs2.contains(x) by {
        if x == n {
            assert(qs2[qs2.len() - 1] == n);
        } else {
            assert(m2[x] == m[x]);
            assert(visited(m, o, x));
            if !cover.contains(x) {
                let i = choose|i: int| 0 <= i < qs.len() && #[trigger] qs[i] == x;
                assert(qs2[i] == x);
            }
        }
    }
    assert forall|x: Seq<char>| #[trigger] cover.contains(x) implies visited(m2, o, x) by {
        assert(visited(m, o, x));
    }
    assert forall|u: Seq<char>, v: Seq<char>|
        #![trigger ex.contains(u), adjacent(u, v)]
        ex.contains(u) && dict.contains(v) && adjacent(u, v) implies visited(m2, o, v) by {
        assert(visited(m, o, v));
    }
    assert forall|x: Seq<char>| qs.contains(x) implies x != n by {
        let i = choose|i: int| 0 <= i < qs.len() && #[trigger] qs[i] == x;
        assert(visited(m, o, qs[i]));
    }
    assert forall|i: int, j2: int| 0 <= i <= j2 < qs2.len() implies dep2[#[trigger] qs2[i]]
        <= dep2[#[trigger] qs2[j2]] by {
        if j2 < qs2.len() - 1 {
            assert(qs2[i] == qs[i] && qs2[j2] == qs[j2]);
            assert(qs.contains(qs[i]) && qs.contains(qs[j2]));
            assert(dep[qs[i]] <= dep[qs[j2]]);
        } else {
            assert(qs2[j2] == n);
            assert(dep2[n] == d + 1);
            if i < qs2.len() - 1 {
                assert(qs2[i] == qs[i]);
                assert(qs.contains(qs[i]));
                assert(dep[qs[i]] <= d + 1);
            }
        }
    }
    if qs2.len() > 0 {
        assert(qs2.last() == n);
        if qs.len() > 0 {
            assert(qs2[0] == qs[0]);
            assert(qs.contains(qs[0]));
            assert(d <= dep[qs[0]]);
        } else {
            assert(qs2[0] == n);
        }
    }
    assert forall|i: int| 0 <= i < qs2.len() implies d <= dep2[#[trigger] qs2[i]] && dep2[qs2[i]]
        <= d + 1 by {
        if i < qs2.len() - 1 {
            assert(qs2[i] == qs[i]);
            assert(qs.contains(qs[i]));
        } else {
            assert(qs2[i] == n);
        }
    }
    assert forall|w2: Seq<char>, q: Seq<Seq<char>>|
        !visited(m2, o, w2) && #[trigger] is_ladder(dict, q, o, w2) implies q.len() >= d + 2 by {
        assert(!visited(m, o, w2));
    }
    assert forall|w2: Seq<char>, q: Seq<Seq<char>>|
        visited(m2, o, w2) && #[trigger] is_ladder(dict, q, o, w2) implies q.len() >= dep2[w2]
        + 1 by {
        if w2 == n {
            assert(!visited(m, o, n));
            assert(q.len() >= d + 2);
        } else {
            assert(m2[w2] == m[w2]);
            assert(visited(m, o, w2));
            assert(q.len() >= dep[w2] + 1);
            assert(dep2[w2] == dep[w2]);
        }
    }
}

impl WordGraph {
    /// Breadth-first search for a shortest ladder from `s` to `t` over the
    /// dictionary extended with `s`. Requires a fresh graph: every word
    /// still its own parent. Returns a shortest ladder, or nothing exactly
    /// when no ladder exists.
    #[verifier::rlimit(100)]
    #[verifier::spinoff_prover]
    pub fn ladder(&mut self, s: String, t: String) -> (r: Option<Vec<String>>)
        requires
            old(self).wf(),
            forall|k: Seq<char>|
                old(self).parent_map().dom().contains(k) ==> old(self).parent_map()[k] == k,
        ensures
            final(self).wf(),
            final(self).parent_map().dom() == old(self).parent_map().dom().insert(s@),
            r is Some <==> reachable(old(self).parent_map().dom().insert(s@), s@, t@),
            s@ == t@ ==> r is Some,
            match r {
                Some(p) => {
                    &&& is_ladder(old(self).parent_map().dom().insert(s@), views_of(p@), s@, t@)
                    &&& forall|q: Seq<Seq<char>>|
                        is_ladder(old(self).parent_map().dom().insert(s@), q, s@, t@)
                            ==> q.len() >= p@.len()
                    &&& s@ == t@ ==> views_of(p@) == seq![s@]
                },
                None => !reachable(old(self).parent_map().dom().insert(s@), s@, t@),
            },
    {
        let ghost dict = old(self).parent_map().dom().insert(s@);
        let ghost m0 = old(self).parent_map();
        self.add(s.clone());
        proof {
            assert(self.parent_map().dom() =~= dict);
        }
        let ghost keys1 = self.keys();
        let mut queue: VecDeque<String> = VecDeque::new();
        queue.push_back(s.clone());
        let ghost mut dep: Map<Seq<char>, nat> = Map::<Seq<char>, nat>::empty().insert(s@, 0nat);
        let ghost mut ex: Set<Seq<char>> = Set::<Seq<char>>::empty();
        proof {
            assert(views_of(queue@) =~= seq![s@]);
            lemma_search_start(m0, self.parent_map(), dict, s@, dep, views_of(queue@));
            assert(views_of(queue@)[0] == s@);
            assert(dep[views_of(queue@)[0]] == 0nat);
        }
        loop
            invariant
                self.wf(),
                self.keys() == keys1,
                self.parent_map().dom() == dict,
                dict == old(self).parent_map().dom().insert(s@),
                dict.contains(s@),
                bfs_chain(self.parent_map(), s@, dep),
                bfs_queue(self.parent_map(), dict, s@, views_of(queue@), ex),
                bfs_closed(self.parent_map(), dict, s@, ex),
                !ex.contains(t@),
                bfs_sorted(dep, views_of(queue@)),
                bfs_lower(self.parent_map(), dict, s@, dep),
                queue@.len() > 0 ==> bfs_frontier(
                    self.parent_map(),
                    dict,
                    s@,
                    dep[views_of(queue@)[0]],
                ),
            decreases unvisited_count(keys1, self.parent_map(), s@), queue@.len(),
        {
            let ghost uv0 = unvisited_count(keys1, self.parent_map(), s@);
            let ghost ql0 = queue@.len();
            let ghost q0 = queue@;
            let popped = queue.pop_front();
            match popped {
                None => {
                    proof {
                        assert(views_of(queue@) =~= Seq::<Seq<char>>::empty());
                        lemma_no_ladder_when_drained(self.parent_map(), dict, s@, dep, ex, t@);
                    }
                    return None;
                },
                Some(w) => {
                    proof {
                        assert(q0[0]@ == w@);
                        assert(views_of(q0)[0] == w@);
                        assert(views_of(queue@) =~= views_of(q0).subrange(
                            1,
                            q0.len() as int,
                        ));
                        lemma_after_pop(
                            self.parent_map(),
                            dict,
                            s@,
                            dep,
                            views_of(q0),
                            views_of(queue@),
                            ex,
                            w@,
                        );
                    }
                    let ghost d: nat = dep[w@];
                    if w == t {
                        proof {
                            lemma_visited_roots(self.parent_map(), s@, dep, t@);
                            lemma_roots_implies_ends(self.parent_map(), t@, dep[t@]);
                        }
                        let res = self.path(&t);
                        match res {
                            Some(p) => {
                                proof {
                                    let ws = views_of(p@);
                                    lemma_found_target(
                                        self.parent_map(),
                                        dict,
                                        s@,
                                        dep,
                                        ws,
                                        t@,
                                    );
                                    assert(reachable(dict, s@, t@));
                                }
                                return Some(p);
                            },
                            None => {
                                proof {
                                    assert(false);
                                }
                                return None;
                            },
                        }
                    } else {
                        let neighbors = match self.adjacents(&w) {
                            Some(v) => v,
                            None => {
                                proof {
                                    assert(false);
                                }
                                Vec::new()
                            },
                        };
                        let ghost nvs = views_of(neighbors@);
                        let ghost mut pushes: nat = 0;
                        let mut j: usize = 0;
                        while j < neighbors.len()
                            invariant
                                self.wf(),
                                self.keys() == keys1,
                                self.parent_map().dom() == dict,
                                dict.contains(s@),
                                j <= neighbors@.len(),
                                nvs == views_of(neighbors@),
                                forall|jj: int|
                                    0 <= jj < nvs.len() ==> dict.contains(#[trigger] nvs[jj])
                                        && adjacent(nvs[jj], w@),
                                forall|k: Seq<char>|
                                    dict.contains(k) && adjacent(k, w@) ==> nvs.contains(k),
                                forall|jj: int|
                                    0 <= jj < j ==> visited(
                                        self.parent_map(),
                                        s@,
                                        #[trigger] nvs[jj],
                                    ),
                                bfs_chain(self.parent_map(), s@, dep),
                                bfs_queue(
                                    self.parent_map(),
                                    dict,
                                    s@,
                                    views_of(queue@),
                                    ex.insert(w@),
                                ),
                                bfs_closed(self.parent_map(), dict, s@, ex),
                                visited(self.parent_map(), s@, w@),
                                dep.dom().contains(w@),
                                dep[w@] == d,
                                w@ != t@,
                                !ex.contains(t@),
                                bfs_sorted(dep, views_of(queue@)),
                                forall|i: int|
                                    0 <= i < queue@.len() ==> d <= dep[#[trigger] views_of(
                                        queue@,
                                    )[i]] && dep[views_of(queue@)[i]] <= d + 1,
                                bfs_lower(self.parent_map(), dict, s@, dep),
                                bfs_frontier(self.parent_map(), dict, s@, d),
                                unvisited_count(keys1, self.parent_map(), s@) + pushes == uv0,
                                queue@.len() + 1 == ql0 + pushes,
                            decreases neighbors@.len() - j,
                        {
                            let n = neighbors[j].clone();
                            proof {
                                assert(n@ == nvs[j as int]);
                                assert(dict.contains(n@) && adjacent(n@, w@));
                            }
                            let unvis = match self.get(n.clone()) {
                                None => false,
                                Some(pp) => *pp == n && !(n == s),
                            };
                            if unvis {
                                let ghost mpre = self.parent_map();
                                let ghost qpre = views_of(queue@);
                                proof {
                                    assert(mpre[n@] == n@ && n@ != s@);
                                    assert(!visited(mpre, s@, n@));
                                    assert(w@ != n@) by {
                                        lemma_adjacent_irreflexive(n@);
                                    }
                                    lemma_adjacent_symmetric(n@, w@);
                                    assert(distinct_words(keys1)) by {
                                        assert forall|x: int, y: int|
                                            0 <= x < y < keys1.len() implies keys1[x] != keys1[y] by {
                                            assert((#[trigger] self.pairs()[x]).0 != (
                                            #[trigger] self.pairs()[y]).0);
                                        }
                                    }
                                    assert(keys1.contains(n@)) by {
                                        self.lemma_dom_is_keys(n@);
                                    }
                                    assert(counts_unvisited(mpre, s@, n@));
                                    lemma_unvisited_count_visit(keys1, mpre, s@, n@, w@);
                                }
                                self.update(n.clone(), w.clone());
                                let ghost dpre = dep;
                                proof {
                                    assert(self.parent_map() == mpre.insert(n@, w@));
                                    dep = dep.insert(n@, d + 1);
                                    pushes = pushes + 1;
                                }
                                queue.push_back(n);
                                proof {
                                    assert(views_of(queue@) =~= qpre.push(n@));
                                    lemma_discovery(
                                        mpre,
                                        self.parent_map(),
                                        dict,
                                        s@,
                                        dpre,
                                        dep,
                                        qpre,
                                        views_of(queue@),
                                        ex,
                                        ex.insert(w@),
                                        w@,
                                        n@,
                                        d,
                                    );
                                    assert forall|jj: int|
                                        0 <= jj < j + 1 implies visited(
                                        self.parent_map(),
                                        s@,
                                        #[trigger] nvs[jj],
                                    ) by {
                                        if jj < j {
                                            assert(visited(mpre, s@, nvs[jj]));
                                        } else {
                                            assert(nvs[jj] == n@);
                                        }
                                    }
                                }
                            } else {
                                proof {
                                    assert(visited(self.parent_map(), s@, n@)) by {
                                        assert(self.parent_map().dom().contains(n@));
                                    }
                                }
                            }
                            j = j + 1;
                        }
                        proof {
                            // every dictionary neighbor of `w` is now visited,
                            // so `w` joins the expanded set
                            lemma_expansion_closes(self.parent_map(), dict, s@, ex, w@, nvs);
                            ex = ex.insert(w@);
                            // the frontier bound moves ahead with the queue front
                            if queue@.len() > 0 {
                                assert(visited(self.parent_map(), s@, s@));
                                lemma_frontier_advances(
                                    self.parent_map(),
                                    dict,
                                    s@,
                                    dep,
                                    views_of(queue@),
                                    ex,
                                    d,
                                );
                            }
                            // the loop measure shrinks: a pop with no pushes
                            // shortens the queue, and each push visits a word
                            assert(unvisited_count(keys1, self.parent_map(), s@) + pushes == uv0);
                            assert(queue@.len() + 1 == ql0 + pushes);
                        }
                    }
                },
            }
        }
    }

    /// Walks parent links back from `s`, prepending each word, until a
    /// word that is its own parent is found; that word opens the result.
    /// Returns nothing when the walk runs into a word without an entry.
    pub fn path(&mut self, s: &String) -> (r: Option<Vec<String>>)
        requires
            old(self).wf(),
            exists|fuel: nat| parent_steps_end(old(self).parent_map(), s@, fuel),
        ensures
            *final(self) == *old(self),
            match r {
                Some(p) => {
                    &&& p@.len() >= 1
                    &&& views_of(p@).last() == s@
                    &&& old(self).parent_map()[views_of(p@)[0]] == views_of(p@)[0]
                    &&& forall|i: int|
                        0 <= i < p@.len() ==> old(self).parent_map().dom().contains(
                            #[trigger] views_of(p@)[i],
                        )
                    &&& forall|i: int|
                        1 <= i < p@.len() ==> old(self).parent_map()[#[trigger] views_of(p@)[i]]
                            == views_of(p@)[i - 1] && views_of(p@)[i] != views_of(p@)[i - 1]
                },
                None => !(exists|fuel: nat|
                    parent_chain_roots(old(self).parent_map(), s@, fuel)),
            },
            (exists|fuel: nat| parent_chain_roots(old(self).parent_map(), s@, fuel)) ==> r is Some,
    {
        let ghost m = self.parent_map();
        let ghost mut fuel: nat = choose|f: nat| parent_steps_end(m, s@, f);
        let mut result: Vec<String> = Vec::new();
        let mut cur: String = s.clone();
        loop
            invariant
                self.wf(),
                *self == *old(self),
                m == self.parent_map(),
                parent_steps_end(m, cur@, fuel),
                views_of(result@).len() == 0 ==> cur@ == s@,
                views_of(result@).len() > 0 ==> views_of(result@).last() == s@ && m.dom().contains(
                    views_of(result@)[0],
                ) && m[views_of(result@)[0]] == cur@ && views_of(result@)[0] != cur@,
                forall|i: int|
                    0 <= i < result@.len() ==> m.dom().contains(#[trigger] views_of(result@)[i]),
                forall|i: int|
                    0 <= i < result@.len() - 1 ==> m[#[trigger] views_of(result@)[i + 1]]
                        == views_of(result@)[i] && views_of(result@)[i] != views_of(result@)[i + 1],
            decreases fuel,
        {
            let ghost r0 = result@;
            result.insert(0, cur.clone());
            proof {
                assert(views_of(result@) =~= seq![cur@] + views_of(r0));
            }
            let looked = self.get(cur.clone());
            match looked {
                None => {
                    proof {
                        assert forall|f: nat| !parent_chain_roots(m, s@, f) by {
                            lemma_chain_no_roots(m, views_of(r0), cur@, s@, f);
                        }
                    }
                    return None;
                },
                Some(p) => {
                    proof {
                        let ws = views_of(result@);
                        let w0 = views_of(r0);
                        assert(ws == seq![cur@] + w0);
                        assert(m.dom().contains(cur@));
                        assert forall|i: int| 0 <= i < ws.len() implies m.dom().contains(
                            #[trigger] ws[i],
                        ) by {
                            if i > 0 {
                                assert(ws[i] == w0[i - 1]);
                            }
                        }
                        assert forall|i: int| 1 <= i < ws.len() implies m[#[trigger] ws[i]] == ws[i
                            - 1] && ws[i] != ws[i - 1] by {
                            if i == 1 {
                                assert(ws[1] == w0[0]);
                                assert(m[w0[0]] == cur@);
                            } else {
                                assert(ws[i] == w0[i - 1]);
                                assert(ws[i - 1] == w0[i - 2]);
                                assert(m[w0[i - 2 + 1]] == w0[i - 2]);
                            }
                        }
                        if w0.len() == 0 {
                            assert(ws.last() == cur@);
                        } else {
                            assert(ws.last() == w0.last());
                        }
                    }
                    if *p == cur {
                        return Some(result);
                    } else {
                        let next = p.clone();
                        proof {
                            fuel = (fuel - 1) as nat;
                            assert(views_of(result@)[0] == cur@);
                        }
                        cur = next;
                    }
                },
            }
        }
    }
}

} // verus!
