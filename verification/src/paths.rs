//! Walks through an adjacency matrix and what it means for a vector to hold
//! shortest distances.
//!
//! A matrix `m` is a sequence of rows; the entry `m[u][v]` is the weight of
//! the edge from `u` to `v`, and zero where there is none.

use crate::matrix::is_adjacency;
use crate::matrix::is_unweighted;
use vstd::prelude::*;
use vstd::set_lib::lemma_int_range;
use vstd::set_lib::lemma_len_subset;
use vstd::set_lib::set_int_range;

verus! {

/// Distance recorded for a node that no walk of representable weight reaches.
pub const UNREACHABLE: usize = usize::MAX;

/// `m` has an edge from `u` to `v`.
pub open spec fn has_edge(m: Seq<Seq<usize>>, u: int, v: int) -> bool {
    &&& 0 <= u < m.len()
    &&& 0 <= v < m.len()
    &&& v < m[u].len()
    &&& m[u][v] != 0
}

/// The `i`-th step of `p` follows an edge of `m`.
pub open spec fn follows_edge(m: Seq<Seq<usize>>, p: Seq<int>, i: int) -> bool {
    has_edge(m, p[i], p[i + 1])
}

/// `p` is a non-empty sequence of nodes of `m` in which every node is joined
/// to the next by an edge.
pub open spec fn is_walk(m: Seq<Seq<usize>>, p: Seq<int>) -> bool {
    &&& p.len() > 0
    &&& 0 <= p[0] < m.len()
    &&& forall|i: int| 0 <= i < p.len() - 1 ==> #[trigger] follows_edge(m, p, i)
}

/// The sum of the weights of the edges that `p` follows.
pub open spec fn walk_weight(m: Seq<Seq<usize>>, p: Seq<int>) -> nat
    decreases p.len(),
{
    if p.len() <= 1 {
        0
    } else {
        walk_weight(m, p.drop_last()) + m[p[p.len() - 2]][p[p.len() - 1]] as nat
    }
}

/// `p` is a walk of `m` that starts at `s` and ends at `t`.
pub open spec fn connects(m: Seq<Seq<usize>>, p: Seq<int>, s: int, t: int) -> bool {
    is_walk(m, p) && p.first() == s && p.last() == t
}

/// Some walk of `m` leads from `s` to `t`.
pub open spec fn reachable(m: Seq<Seq<usize>>, s: int, t: int) -> bool {
    exists|p: Seq<int>| connects(m, p, s, t)
}

/// `d` holds, for every node `t` of `m`, the least weight of a walk from `s`
/// to `t`, and `UNREACHABLE` where no walk weighs less than that.
pub open spec fn is_distance_vector(m: Seq<Seq<usize>>, s: int, d: Seq<usize>) -> bool {
    &&& d.len() == m.len()
    &&& forall|t: int|
        0 <= t < d.len() && #[trigger] d[t] != UNREACHABLE ==> exists|p: Seq<int>|
            connects(m, p, s, t) && walk_weight(m, p) == d[t]
    &&& forall|t: int, p: Seq<int>| #[trigger] connects(m, p, s, t) ==> walk_weight(m, p) >= d[t]
}

/// The distance vector of `m` from `s`. It is the only vector that
/// `is_distance_vector` accepts.
pub open spec fn distances_from(m: Seq<Seq<usize>>, s: int) -> Seq<usize> {
    choose|d: Seq<usize>| is_distance_vector(m, s, d)
}

/// The single node `s` is a walk of weight zero.
pub proof fn lemma_walk_single(m: Seq<Seq<usize>>, s: int)
    requires
        0 <= s < m.len(),
    ensures
        connects(m, seq![s], s, s),
        walk_weight(m, seq![s]) == 0,
{
}

/// A walk stays a walk when an edge out of its last node is appended, and
/// gains that edge's weight.
pub proof fn lemma_walk_push(m: Seq<Seq<usize>>, p: Seq<int>, v: int)
    requires
        is_walk(m, p),
        has_edge(m, p.last(), v),
    ensures
        connects(m, p.push(v), p.first(), v),
        walk_weight(m, p.push(v)) == walk_weight(m, p) + m[p.last()][v],
{
    let q = p.push(v);
    assert(q.drop_last() =~= p);
    assert forall|i: int| 0 <= i < q.len() - 1 implies #[trigger] follows_edge(m, q, i) by {
        if i < p.len() - 1 {
            assert(follows_edge(m, p, i));
        }
    }
}

/// A walk of two or more nodes is a shorter walk followed by one edge.
pub proof fn lemma_walk_drop_last(m: Seq<Seq<usize>>, p: Seq<int>)
    requires
        is_walk(m, p),
        p.len() >= 2,
    ensures
        connects(m, p.drop_last(), p.first(), p[p.len() - 2]),
        has_edge(m, p[p.len() - 2], p.last()),
        walk_weight(m, p) == walk_weight(m, p.drop_last()) + m[p[p.len() - 2]][p.last()],
{
    let q = p.drop_last();
    assert(follows_edge(m, p, p.len() - 2));
    assert forall|i: int| 0 <= i < q.len() - 1 implies #[trigger] follows_edge(m, q, i) by {
        assert(follows_edge(m, p, i));
    }
}

/// Every node of a walk is a node of the matrix.
pub proof fn lemma_walk_in_range(m: Seq<Seq<usize>>, p: Seq<int>, i: int)
    requires
        is_walk(m, p),
        0 <= i < p.len(),
    ensures
        0 <= p[i] < m.len(),
{
    if i > 0 {
        assert(follows_edge(m, p, i - 1));
    }
}

/// Two distance vectors of one matrix from one node are equal.
pub proof fn lemma_distance_vector_unique(
    m: Seq<Seq<usize>>,
    s: int,
    d1: Seq<usize>,
    d2: Seq<usize>,
)
    requires
        is_distance_vector(m, s, d1),
        is_distance_vector(m, s, d2),
    ensures
        d1 == d2,
{
    assert forall|t: int| 0 <= t < d1.len() implies d1[t] == d2[t] by {
        if d1[t] < d2[t] {
            let p = choose|p: Seq<int>| connects(m, p, s, t) && walk_weight(m, p) == d1[t];
            assert(connects(m, p, s, t));
        } else if d2[t] < d1[t] {
            let p = choose|p: Seq<int>| connects(m, p, s, t) && walk_weight(m, p) == d2[t];
            assert(connects(m, p, s, t));
        }
    }
    assert(d1 =~= d2);
}

/// A distance vector is the distance vector: what `distances_from` names.
pub proof fn lemma_distance_vector_is_distances_from(m: Seq<Seq<usize>>, s: int, d: Seq<usize>)
    requires
        is_distance_vector(m, s, d),
    ensures
        d == distances_from(m, s),
{
    lemma_distance_vector_unique(m, s, d, distances_from(m, s));
}

/// The origin is at distance zero from itself.
pub proof fn lemma_origin_at_zero(m: Seq<Seq<usize>>, s: int, d: Seq<usize>)
    requires
        is_distance_vector(m, s, d),
        0 <= s < m.len(),
    ensures
        d[s] == 0,
{
    lemma_walk_single(m, s);
}

/// No edge is a shortcut: the distance of its head is at most the distance
/// of its tail plus its weight.
pub proof fn lemma_edge_relaxed(m: Seq<Seq<usize>>, s: int, d: Seq<usize>, u: int, v: int)
    requires
        is_distance_vector(m, s, d),
        has_edge(m, u, v),
    ensures
        d[v] <= d[u] + m[u][v],
{
    if d[u] != UNREACHABLE {
        let p = choose|p: Seq<int>| connects(m, p, s, u) && walk_weight(m, p) == d[u];
        lemma_walk_push(m, p, v);
        assert(connects(m, p.push(v), s, v));
    }
}

/// In an undirected graph the distances of the two ends of an edge differ by
/// the weight of the edge at most.
pub proof fn lemma_edge_relaxed_both_ways(
    m: Seq<Seq<usize>>,
    s: int,
    d: Seq<usize>,
    u: int,
    v: int,
)
    requires
        is_adjacency(m),
        is_distance_vector(m, s, d),
        has_edge(m, u, v),
    ensures
        d[v] <= d[u] + m[u][v],
        d[u] <= d[v] + m[u][v],
{
    assert(m[u].len() == m.len());
    assert(m[u][v] == m[v][u]);
    lemma_edge_relaxed(m, s, d, u, v);
    lemma_edge_relaxed(m, s, d, v, u);
}

/// `x` assigns no node more than a neighbour's value plus the weight of the
/// edge between them, and zero to `s`.
pub open spec fn is_feasible(m: Seq<Seq<usize>>, s: int, x: Seq<usize>) -> bool {
    &&& x.len() == m.len()
    &&& 0 <= s < m.len()
    &&& x[s] == 0
    &&& forall|u: int, v: int| #[trigger] has_edge(m, u, v) ==> x[v] <= x[u] + m[u][v]
}

/// A feasible assignment gives the end of a walk from `s` no more than the
/// walk weighs.
pub proof fn lemma_feasible_below_walk(
    m: Seq<Seq<usize>>,
    s: int,
    x: Seq<usize>,
    p: Seq<int>,
    t: int,
)
    requires
        is_feasible(m, s, x),
        connects(m, p, s, t),
    ensures
        x[t] <= walk_weight(m, p),
    decreases p.len(),
{
    if p.len() >= 2 {
        lemma_walk_drop_last(m, p);
        lemma_feasible_below_walk(m, s, x, p.drop_last(), p[p.len() - 2]);
    }
}

/// The distance vector is the greatest feasible assignment: it is feasible,
/// and no feasible assignment gives a node more than its distance.
pub proof fn lemma_distances_greatest_feasible(
    m: Seq<Seq<usize>>,
    s: int,
    d: Seq<usize>,
    x: Seq<usize>,
)
    requires
        is_distance_vector(m, s, d),
        is_feasible(m, s, x),
    ensures
        is_feasible(m, s, d),
        forall|t: int| 0 <= t < m.len() ==> #[trigger] x[t] <= d[t],
{
    lemma_origin_at_zero(m, s, d);
    assert forall|u: int, v: int| #[trigger] has_edge(m, u, v) implies d[v] <= d[u] + m[u][v] by {
        lemma_edge_relaxed(m, s, d, u, v);
    }
    assert forall|t: int| 0 <= t < m.len() implies #[trigger] x[t] <= d[t] by {
        if d[t] != UNREACHABLE {
            let p = choose|p: Seq<int>| connects(m, p, s, t) && walk_weight(m, p) == d[t];
            lemma_feasible_below_walk(m, s, x, p, t);
        }
    }
}

/// A node that no walk reaches is recorded as unreachable.
pub proof fn lemma_unreached_is_unreachable(m: Seq<Seq<usize>>, s: int, d: Seq<usize>, t: int)
    requires
        is_distance_vector(m, s, d),
        0 <= t < m.len(),
        !reachable(m, s, t),
    ensures
        d[t] == UNREACHABLE,
{
}

/// A node without incoming edges is reached from no other node.
pub proof fn lemma_isolated_is_unreached(m: Seq<Seq<usize>>, s: int, t: int)
    requires
        s != t,
        forall|u: int| !has_edge(m, u, t),
    ensures
        !reachable(m, s, t),
{
    if reachable(m, s, t) {
        let p = choose|p: Seq<int>| connects(m, p, s, t);
        assert(follows_edge(m, p, p.len() - 2));
    }
}

/// A node that no edge leads to is recorded as unreachable from every other
/// node.
pub proof fn lemma_isolated_is_unreachable(m: Seq<Seq<usize>>, s: int, d: Seq<usize>, t: int)
    requires
        is_distance_vector(m, s, d),
        0 <= t < m.len(),
        s != t,
        forall|u: int| !has_edge(m, u, t),
    ensures
        d[t] == UNREACHABLE,
{
    lemma_isolated_is_unreached(m, s, t);
}

/// Where every edge weighs 1, a walk weighs as much as it has steps.
pub proof fn lemma_unweighted_walk_weight(m: Seq<Seq<usize>>, p: Seq<int>)
    requires
        is_unweighted(m),
        is_walk(m, p),
    ensures
        walk_weight(m, p) == p.len() - 1,
    decreases p.len(),
{
    if p.len() >= 2 {
        lemma_walk_drop_last(m, p);
        lemma_unweighted_walk_weight(m, p.drop_last());
    }
}

/// A walk that passes no node twice has at most as many nodes as the
/// matrix.
pub proof fn lemma_simple_walk_is_short(m: Seq<Seq<usize>>, p: Seq<int>)
    requires
        is_walk(m, p),
        p.no_duplicates(),
    ensures
        p.len() <= m.len(),
{
    let nodes = set_int_range(0, m.len() as int);
    lemma_int_range(0, m.len() as int);
    assert forall|v: int| p.to_set().contains(v) implies nodes.contains(v) by {
        let i = choose|i: int| 0 <= i < p.len() && p[i] == v;
        lemma_walk_in_range(m, p, i);
    }
    lemma_len_subset(p.to_set(), nodes);
    p.unique_seq_to_set();
}

/// Where a walk leads from `s` to `t`, so does one that passes no node
/// twice.
pub proof fn lemma_simple_walk_exists(m: Seq<Seq<usize>>, p: Seq<int>, s: int, t: int) -> (q: Seq<
    int,
>)
    requires
        connects(m, p, s, t),
    ensures
        connects(m, q, s, t),
        q.no_duplicates(),
    decreases p.len(),
{
    if p.no_duplicates() {
        p
    } else {
        let (i, j) = choose|i: int, j: int|
            0 <= i < p.len() && 0 <= j < p.len() && i != j && p[i] == p[j];
        let (lo, hi) = if i < j {
            (i, j)
        } else {
            (j, i)
        };
        let cut = p.take(lo + 1) + p.skip(hi + 1);
        assert forall|k: int| 0 <= k < cut.len() - 1 implies #[trigger] follows_edge(m, cut, k) by {
            if k < lo {
                assert(follows_edge(m, p, k));
            } else {
                assert(follows_edge(m, p, k + hi - lo));
            }
        }
        lemma_simple_walk_exists(m, cut, s, t)
    }
}

/// Where every edge weighs 1, a node that some walk reaches is recorded at a
/// distance below the number of nodes: it is recorded as unreachable only if
/// no walk reaches it.
pub proof fn lemma_unweighted_reaches(m: Seq<Seq<usize>>, s: int, d: Seq<usize>, t: int)
    requires
        is_distance_vector(m, s, d),
        is_unweighted(m),
        m.len() <= usize::MAX,
        reachable(m, s, t),
    ensures
        d[t] < m.len(),
        d[t] != UNREACHABLE,
{
    let p = choose|p: Seq<int>| connects(m, p, s, t);
    let q = lemma_simple_walk_exists(m, p, s, t);
    lemma_simple_walk_is_short(m, q);
    lemma_unweighted_walk_weight(m, q);
    assert(connects(m, q, s, t));
}

} // verus!
