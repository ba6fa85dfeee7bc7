//! The traversal: single-source shortest distances by repeated extraction of
//! the nearest tentative node, and the eccentricity derived from them.

use crate::error::GraphError;
use crate::frontier::Frontier;
use crate::frontier::Node;
use crate::graph::Graph;
use crate::matrix::is_adjacency;
use crate::matrix::is_unweighted;
use crate::paths::connects;
use crate::paths::distances_from;
use crate::paths::has_edge;
use crate::paths::is_distance_vector;
use crate::paths::is_feasible;
use crate::paths::lemma_distance_vector_is_distances_from;
use crate::paths::lemma_distances_greatest_feasible;
use crate::paths::lemma_edge_relaxed_both_ways;
use crate::paths::lemma_origin_at_zero;
use crate::paths::lemma_unweighted_reaches;
use crate::paths::lemma_walk_drop_last;
use crate::paths::lemma_walk_in_range;
use crate::paths::lemma_walk_push;
use crate::paths::lemma_walk_single;
use crate::paths::reachable;
use crate::paths::walk_weight;
use crate::paths::UNREACHABLE;
use vstd::multiset::Multiset;
use vstd::prelude::*;

verus! {

/// The entry under which node `v` waits in the frontier at distance `d`.
spec fn entry_for(d: usize, v: int) -> Node {
    Node { distance: d, index: v as usize }
}

/// A settled node's distance is the best one recorded for it.
spec fn settled_agree(best: Seq<usize>, dist: Seq<usize>) -> bool {
    forall|v: int| 0 <= v < dist.len() && #[trigger] dist[v] != UNREACHABLE ==> dist[v] == best[v]
}

/// Every recorded distance is the weight of some walk from `s`.
spec fn attained(m: Seq<Seq<usize>>, s: int, best: Seq<usize>) -> bool {
    forall|v: int|
        0 <= v < best.len() && #[trigger] best[v] != UNREACHABLE ==> exists|p: Seq<int>|
            connects(m, p, s, v) && walk_weight(m, p) == best[v]
}

/// No walk from `s` to a settled node weighs less than its distance.
spec fn settled_least(m: Seq<Seq<usize>>, s: int, dist: Seq<usize>) -> bool {
    forall|v: int, p: Seq<int>|
        0 <= v < dist.len() && dist[v] != UNREACHABLE && #[trigger] connects(m, p, s, v)
            ==> walk_weight(m, p) >= dist[v]
}

/// Every edge out of a settled node has been relaxed, but for the edges out
/// of `cur` into the nodes from `from` on.
spec fn relaxed(
    m: Seq<Seq<usize>>,
    best: Seq<usize>,
    dist: Seq<usize>,
    cur: int,
    from: int,
) -> bool {
    forall|u: int, v: int|
        #[trigger] has_edge(m, u, v) && dist[u] != UNREACHABLE && (u != cur || v < from)
            ==> best[v] <= dist[u] + m[u][v]
}

/// Every node that is recorded but not settled waits in the frontier under
/// its recorded distance.
spec fn queued(best: Seq<usize>, dist: Seq<usize>, f: Multiset<Node>) -> bool {
    forall|v: int|
        0 <= v < best.len() && dist[v] == UNREACHABLE && #[trigger] best[v] != UNREACHABLE
            ==> f.contains(entry_for(best[v], v))
}

/// Every entry of the frontier names a node, at a distance that is finite
/// and not below the one recorded for that node.
spec fn entries_sound(best: Seq<usize>, f: Multiset<Node>) -> bool {
    forall|e: Node| #[trigger]
        f.contains(e) ==> e.index < best.len() && best[e.index as int] <= e.distance && e.distance
            != UNREACHABLE
}

/// What holds of the traversal's state whenever it is about to relax the
/// edge from `cur` to `from`; with `from` the number of nodes, what holds
/// between two extractions.
spec fn traversal_inv(
    m: Seq<Seq<usize>>,
    s: int,
    best: Seq<usize>,
    dist: Seq<usize>,
    f: Multiset<Node>,
    cur: int,
    from: int,
) -> bool {
    &&& is_adjacency(m)
    &&& m.len() <= usize::MAX
    &&& 0 <= s < m.len()
    &&& best.len() == m.len()
    &&& dist.len() == m.len()
    &&& best[s] == 0
    &&& settled_agree(best, dist)
    &&& attained(m, s, best)
    &&& settled_least(m, s, dist)
    &&& relaxed(m, best, dist, cur, from)
    &&& queued(best, dist, f)
    &&& entries_sound(best, f)
}

/// The number of nodes that are not settled.
spec fn unsettled(dist: Seq<usize>) -> nat
    decreases dist.len(),
{
    if dist.len() == 0 {
        0
    } else {
        unsettled(dist.drop_last()) + if dist.last() == UNREACHABLE {
            1nat
        } else {
            0nat
        }
    }
}

proof fn lemma_settling_decreases(dist: Seq<usize>, u: int, d: usize)
    requires
        0 <= u < dist.len(),
        dist[u] == UNREACHABLE,
        d != UNREACHABLE,
    ensures
        unsettled(dist.update(u, d)) + 1 == unsettled(dist),
    decreases dist.len(),
{
    let after = dist.update(u, d);
    if u == dist.len() - 1 {
        assert(after.drop_last() =~= dist.drop_last());
    } else {
        assert(after.drop_last() =~= dist.drop_last().update(u, d));
        lemma_settling_decreases(dist.drop_last(), u, d);
    }
}

/// A walk from the origin to an unsettled node passes an unsettled node
/// whose recorded distance is at most the walk's weight.
proof fn lemma_walk_meets_unsettled(
    m: Seq<Seq<usize>>,
    s: int,
    best: Seq<usize>,
    dist: Seq<usize>,
    f: Multiset<Node>,
    p: Seq<int>,
    t: int,
) -> (x: int)
    requires
        traversal_inv(m, s, best, dist, f, 0, m.len() as int),
        connects(m, p, s, t),
        dist[t] == UNREACHABLE,
    ensures
        0 <= x < m.len(),
        dist[x] == UNREACHABLE,
        best[x] <= walk_weight(m, p),
    decreases p.len(),
{
    if p.len() == 1 {
        s
    } else {
        lemma_walk_drop_last(m, p);
        lemma_walk_in_range(m, p, p.len() - 2);
        let q = p.drop_last();
        let y = p[p.len() - 2];
        if dist[y] != UNREACHABLE {
            assert(connects(m, q, s, y));
            assert(has_edge(m, y, t));
            t
        } else {
            lemma_walk_meets_unsettled(m, s, best, dist, f, q, y)
        }
    }
}

/// Discarding a stale entry keeps the invariant.
proof fn lemma_discard(
    m: Seq<Seq<usize>>,
    s: int,
    best: Seq<usize>,
    dist: Seq<usize>,
    f: Multiset<Node>,
    node: Node,
)
    requires
        traversal_inv(m, s, best, dist, f, 0, m.len() as int),
        f.contains(node),
        dist[node.index as int] != UNREACHABLE,
    ensures
        traversal_inv(m, s, best, dist, f.remove(node), 0, m.len() as int),
{
    let g = f.remove(node);
    assert forall|v: int|
        0 <= v < best.len() && dist[v] == UNREACHABLE && #[trigger] best[v]
            != UNREACHABLE implies g.contains(entry_for(best[v], v)) by {
        assert(f.contains(entry_for(best[v], v)));
        assert(entry_for(best[v], v) != node);
    }
    assert forall|e: Node| #[trigger] g.contains(e) implies f.contains(e) by {}
}

/// The entry that precedes all others, if its node is not settled, holds
/// that node's shortest distance: settling the node keeps the invariant,
/// with the node's edges still to relax.
proof fn lemma_settle(
    m: Seq<Seq<usize>>,
    s: int,
    best: Seq<usize>,
    dist: Seq<usize>,
    f: Multiset<Node>,
    node: Node,
)
    requires
        traversal_inv(m, s, best, dist, f, 0, m.len() as int),
        f.contains(node),
        forall|other: Node| f.contains(other) ==> node.precedes(other),
        dist[node.index as int] == UNREACHABLE,
    ensures
        node.index < m.len(),
        node.distance != UNREACHABLE,
        node.distance == best[node.index as int],
        traversal_inv(
            m,
            s,
            best,
            dist.update(node.index as int, node.distance),
            f.remove(node),
            node.index as int,
            0,
        ),
        unsettled(dist.update(node.index as int, node.distance)) < unsettled(dist),
{
    let u = node.index as int;
    let d = node.distance;
    let after = dist.update(u, d);
    let g = f.remove(node);
    assert(best[u] <= d);
    assert(f.contains(entry_for(best[u], u)));
    assert(node.precedes(entry_for(best[u], u)));
    assert(d == best[u]);
    lemma_settling_decreases(dist, u, d);
    assert forall|v: int, p: Seq<int>|
        0 <= v < after.len() && after[v] != UNREACHABLE && #[trigger] connects(
            m,
            p,
            s,
            v,
        ) implies walk_weight(m, p) >= after[v] by {
        if v == u {
            let x = lemma_walk_meets_unsettled(m, s, best, dist, f, p, u);
            if best[x] != UNREACHABLE {
                assert(f.contains(entry_for(best[x], x)));
                assert(node.precedes(entry_for(best[x], x)));
            }
        }
    }
    assert forall|v: int|
        0 <= v < best.len() && after[v] == UNREACHABLE && #[trigger] best[v]
            != UNREACHABLE implies g.contains(entry_for(best[v], v)) by {
        assert(f.contains(entry_for(best[v], v)));
        assert(entry_for(best[v], v) != node);
    }
    assert forall|e: Node| #[trigger] g.contains(e) implies f.contains(e) by {}
    assert forall|a: int, b: int|
        #[trigger] has_edge(m, a, b) && after[a] != UNREACHABLE && (a != u || b < 0)
            implies best[b] <= after[a] + m[a][b] by {
        assert(dist[a] != UNREACHABLE);
    }
}

/// An edge that is absent, or that offers no improvement, is relaxed as the
/// state stands.
proof fn lemma_skip(
    m: Seq<Seq<usize>>,
    s: int,
    best: Seq<usize>,
    dist: Seq<usize>,
    f: Multiset<Node>,
    u: int,
    i: int,
)
    requires
        traversal_inv(m, s, best, dist, f, u, i),
        0 <= u < m.len(),
        0 <= i < m.len(),
        dist[u] != UNREACHABLE,
        m[u][i] == 0 || best[i] <= dist[u] + m[u][i],
    ensures
        traversal_inv(m, s, best, dist, f, u, i + 1),
{
}

/// Recording a shorter distance for the head of an edge out of the settled
/// node `u`, and queueing it, relaxes that edge and keeps the invariant.
proof fn lemma_improve(
    m: Seq<Seq<usize>>,
    s: int,
    best: Seq<usize>,
    dist: Seq<usize>,
    f: Multiset<Node>,
    u: int,
    i: int,
    c: usize,
)
    requires
        traversal_inv(m, s, best, dist, f, u, i),
        0 <= u < m.len(),
        0 <= i < m.len(),
        dist[u] != UNREACHABLE,
        m[u][i] != 0,
        c == dist[u] + m[u][i],
        c < best[i],
    ensures
        dist[i] == UNREACHABLE,
        traversal_inv(m, s, best.update(i, c), dist, f.insert(entry_for(c, i)), u, i + 1),
{
    let better = best.update(i, c);
    let g = f.insert(entry_for(c, i));
    assert(m[u].len() == m.len());
    assert(has_edge(m, u, i));
    let p = choose|p: Seq<int>| connects(m, p, s, u) && walk_weight(m, p) == best[u];
    lemma_walk_push(m, p, i);
    let q = p.push(i);
    assert(connects(m, q, s, i));
    assert(walk_weight(m, q) == c);
    assert forall|v: int|
        0 <= v < better.len() && #[trigger] better[v] != UNREACHABLE implies exists|p: Seq<int>|
        connects(m, p, s, v) && walk_weight(m, p) == better[v] by {
        if v != i {
            assert(best[v] != UNREACHABLE);
        }
    }
    assert forall|v: int|
        0 <= v < better.len() && dist[v] == UNREACHABLE && #[trigger] better[v]
            != UNREACHABLE implies g.contains(entry_for(better[v], v)) by {
        if v != i {
            assert(best[v] != UNREACHABLE);
            assert(f.contains(entry_for(best[v], v)));
        }
    }
    assert forall|e: Node| #[trigger] g.contains(e) implies e.index < better.len()
        && better[e.index as int] <= e.distance && e.distance != UNREACHABLE by {
        if e != entry_for(c, i) {
            assert(f.contains(e));
        }
    }
}

/// Once the frontier is empty the settled distances are the shortest
/// distances.
proof fn lemma_frontier_exhausted(
    m: Seq<Seq<usize>>,
    s: int,
    best: Seq<usize>,
    dist: Seq<usize>,
    f: Multiset<Node>,
)
    requires
        traversal_inv(m, s, best, dist, f, 0, m.len() as int),
        f.len() == 0,
    ensures
        is_distance_vector(m, s, dist),
{
    assert forall|v: int| 0 <= v < best.len() && dist[v] == UNREACHABLE implies best[v]
        == UNREACHABLE by {
        if best[v] != UNREACHABLE {
            assert(f.contains(entry_for(best[v], v)));
            assert(f.count(entry_for(best[v], v)) <= f.len());
        }
    }
    assert forall|t: int|
        0 <= t < dist.len() && #[trigger] dist[t] != UNREACHABLE implies exists|p: Seq<int>|
        connects(m, p, s, t) && walk_weight(m, p) == dist[t] by {
        assert(best[t] != UNREACHABLE);
    }
    assert forall|t: int, p: Seq<int>| #[trigger] connects(m, p, s, t) implies walk_weight(m, p)
        >= dist[t] by {
        lemma_walk_in_range(m, p, p.len() - 1);
        if dist[t] == UNREACHABLE {
            let x = lemma_walk_meets_unsettled(m, s, best, dist, f, p, t);
        }
    }
}

/// `e` is the greatest entry of `d` among those that are not `UNREACHABLE`.
pub open spec fn is_greatest_reached(d: Seq<usize>, e: usize) -> bool {
    &&& exists|t: int| 0 <= t < d.len() && #[trigger] d[t] == e && e != UNREACHABLE
    &&& forall|t: int| 0 <= t < d.len() && #[trigger] d[t] != UNREACHABLE ==> d[t] <= e
}

/// The greatest entry of `distances` among those that are not
/// `UNREACHABLE`, if there is any.
pub fn greatest_reached(distances: &Vec<usize>) -> (r: Option<usize>)
    ensures
        r is None <==> forall|t: int| 0 <= t < distances@.len() ==> distances@[t] == UNREACHABLE,
        r matches Some(e) ==> is_greatest_reached(distances@, e),
{
    let mut greatest: Option<usize> = None;
    let mut i: usize = 0;
    while i < distances.len()
        invariant
            i <= distances@.len(),
            greatest is None <==> forall|t: int| 0 <= t < i ==> distances@[t] == UNREACHABLE,
            greatest matches Some(e) ==> is_greatest_reached(distances@.take(i as int), e),
        decreases distances@.len() - i,
    {
        let d = distances[i];
        let ghost seen = distances@.take(i as int);
        let ghost more = distances@.take(i + 1);
        assert(more[i as int] == d);
        if d != UNREACHABLE {
            match greatest {
                Some(e) if d <= e => {
                    let ghost t = choose|t: int| 0 <= t < seen.len() && #[trigger] seen[t] == e;
                    assert(more[t] == e);
                    assert forall|t: int| 0 <= t < more.len() && #[trigger] more[t]
                        != UNREACHABLE implies more[t] <= e by {
                        if t < i {
                            assert(seen[t] == more[t]);
                        }
                    }
                },
                _ => {
                    assert forall|t: int| 0 <= t < more.len() && #[trigger] more[t]
                        != UNREACHABLE implies more[t] <= d by {
                        if t < i {
                            assert(seen[t] == more[t]);
                        }
                    }
                    greatest = Some(d);
                },
            }
        } else {
            if let Some(e) = greatest {
                let ghost t = choose|t: int| 0 <= t < seen.len() && #[trigger] seen[t] == e;
                assert(more[t] == e);
                assert forall|t: int| 0 <= t < more.len() && #[trigger] more[t]
                    != UNREACHABLE implies more[t] <= e by {
                    if t < i {
                        assert(seen[t] == more[t]);
                    }
                }
            }
        }
        i += 1;
    }
    assert(distances@.take(i as int) =~= distances@);
    greatest
}

/// A vector of `n` entries, each `UNREACHABLE`.
fn all_unreachable(n: usize) -> (v: Vec<usize>)
    ensures
        v@.len() == n,
        forall|i: int| 0 <= i < n ==> v@[i] == UNREACHABLE,
{
    let mut v: Vec<usize> = Vec::new();
    let mut i: usize = 0;
    while i < n
        invariant
            i <= n,
            v@.len() == i,
            forall|k: int| 0 <= k < i ==> v@[k] == UNREACHABLE,
        decreases n - i,
    {
        v.push(UNREACHABLE);
        i += 1;
    }
    v
}

impl Graph {
    /// The shortest distance from `origin` to every node.
    ///
    /// The entry of a node is the least weight of a walk from `origin` to
    /// it; where there is no walk, or none that weighs less than
    /// `UNREACHABLE`, it is `UNREACHABLE`. Fails if `origin` is not a node.
    ///
    /// A node is settled when an entry for it leaves the frontier for the
    /// first time; entries that leave later are stale and are discarded. Of
    /// two entries at one distance the one with the lower node index leaves
    /// first; the distances do not depend on it.
    pub fn shortest_distances(&self, origin: usize) -> (r: Result<Vec<usize>, GraphError>)
        ensures
            r is Ok <==> origin < self@.len(),
            r matches Ok(d) ==> {
                &&& is_distance_vector(self@, origin as int, d@)
                &&& d@ == distances_from(self@, origin as int)
                &&& d@[origin as int] == 0
                &&& forall|u: int, v: int| #[trigger]
                    has_edge(self@, u, v) ==> d@[v] <= d@[u] + self@[u][v] && d@[u] <= d@[v]
                        + self@[u][v]
                &&& forall|t: int|
                    0 <= t < d@.len() && !reachable(self@, origin as int, t) ==> #[trigger] d@[t]
                        == UNREACHABLE
                &&& forall|x: Seq<usize>, t: int|
                    is_feasible(self@, origin as int, x) && 0 <= t < d@.len() ==> #[trigger] x[t]
                        <= d@[t]
                &&& is_unweighted(self@) ==> forall|t: int|
                    0 <= t < d@.len() && reachable(self@, origin as int, t) ==> #[trigger] d@[t]
                        < d@.len()
            },
            r matches Err(e) ==> e == (GraphError::IndexOutOfRange {
                index: origin,
                nodes: self@.len() as usize,
            }),
    {
        let n = self.num_nodes();
        if origin >= n {
            return Err(GraphError::IndexOutOfRange { index: origin, nodes: n });
        }
        // The distance of a node, once it is settled.
        let mut distances = all_unreachable(n);
        // The least distance under which a node has entered the frontier.
        let mut best = all_unreachable(n);
        best[origin] = 0;
        let mut frontier = Frontier::new();
        frontier.push(Node { distance: 0, index: origin });
        proof {
            lemma_walk_single(self@, origin as int);
            assert(frontier@.contains(entry_for(0, origin as int)));
            assert forall|e: Node| #[trigger] frontier@.contains(e) implies e == entry_for(
                0,
                origin as int,
            ) by {}
        }
        loop
            invariant
                n == self@.len(),
                traversal_inv(self@, origin as int, best@, distances@, frontier@, 0, n as int),
            ensures
                traversal_inv(self@, origin as int, best@, distances@, frontier@, 0, n as int),
                frontier@.len() == 0,
            decreases unsettled(distances@), frontier@.len(),
        {
            let ghost waiting = frontier@;
            let next = frontier.pop();
            if next.is_none() {
                break ;
            }
            let node = next.unwrap();
            let u = node.index;
            let d = node.distance;
            if distances[u] != UNREACHABLE {
                // Settled before: this entry is stale.
                proof {
                    lemma_discard(self@, origin as int, best@, distances@, waiting, node);
                }
                continue ;
            }
            proof {
                lemma_settle(self@, origin as int, best@, distances@, waiting, node);
            }
            let ghost unsettled_before = unsettled(distances@);
            distances[u] = d;
            let mut i: usize = 0;
            while i < n
                invariant
                    n == self@.len(),
                    u < n,
                    i <= n,
                    distances@[u as int] == d,
                    d != UNREACHABLE,
                    unsettled(distances@) < unsettled_before,
                    traversal_inv(
                        self@,
                        origin as int,
                        best@,
                        distances@,
                        frontier@,
                        u as int,
                        i as int,
                    ),
                decreases n - i,
            {
                // A candidate that does not fit a `usize` improves nothing.
                let weight = self.entry(u, i);
                let candidate = if weight != 0 {
                    d.checked_add(weight)
                } else {
                    None
                };
                match candidate {
                    Some(new_distance) if new_distance < best[i] => {
                        proof {
                            lemma_improve(
                                self@,
                                origin as int,
                                best@,
                                distances@,
                                frontier@,
                                u as int,
                                i as int,
                                new_distance,
                            );
                        }
                        best[i] = new_distance;
                        frontier.push(Node { distance: new_distance, index: i });
                    },
                    _ => {
                        proof {
                            lemma_skip(
                                self@,
                                origin as int,
                                best@,
                                distances@,
                                frontier@,
                                u as int,
                                i as int,
                            );
                        }
                    },
                }
                i += 1;
            }
        }
        proof {
            lemma_frontier_exhausted(self@, origin as int, best@, distances@, frontier@);
            lemma_distance_vector_is_distances_from(self@, origin as int, distances@);
            lemma_origin_at_zero(self@, origin as int, distances@);
            assert forall|u: int, v: int| #[trigger] has_edge(self@, u, v) implies distances@[v]
                <= distances@[u] + self@[u][v] && distances@[u] <= distances@[v] + self@[u][v] by {
                lemma_edge_relaxed_both_ways(self@, origin as int, distances@, u, v);
            }
            assert forall|x: Seq<usize>, t: int|
                is_feasible(self@, origin as int, x) && 0 <= t < distances@.len()
                    implies #[trigger] x[t] <= distances@[t] by {
                lemma_distances_greatest_feasible(self@, origin as int, distances@, x);
            }
            if is_unweighted(self@) {
                assert forall|t: int|
                    0 <= t < distances@.len() && reachable(
                        self@,
                        origin as int,
                        t,
                    ) implies #[trigger] distances@[t] < distances@.len() by {
                    lemma_unweighted_reaches(self@, origin as int, distances@, t);
                }
            }
        }
        Ok(distances)
    }

    /// The eccentricity of `origin`: the greatest shortest distance from
    /// `origin` to a node that it reaches.
    ///
    /// Nodes recorded as `UNREACHABLE` do not count. Fails if `origin` is not
    /// a node.
    pub fn eccentricity(&self, origin: usize) -> (r: Result<usize, GraphError>)
        ensures
            r is Ok <==> origin < self@.len(),
            r matches Ok(e) ==> {
                &&& is_distance_vector(self@, origin as int, distances_from(self@, origin as int))
                &&& is_greatest_reached(distances_from(self@, origin as int), e)
            },
            r matches Err(e) ==> e == (GraphError::IndexOutOfRange {
                index: origin,
                nodes: self@.len() as usize,
            }),
    {
        match self.shortest_distances(origin) {
            Ok(distances) => {
                let greatest = greatest_reached(&distances);
                assert(greatest is Some) by {
                    assert(distances@[origin as int] != UNREACHABLE);
                }
                Ok(greatest.unwrap())
            },
            Err(e) => Err(e),
        }
    }

    /// The longest of the shortest paths that start at node 0: the
    /// eccentricity of node 0.
    ///
    /// Fails if the graph has no node.
    pub fn longest_path(&self) -> (r: Result<usize, GraphError>)
        ensures
            r is Ok <==> self@.len() > 0,
            r matches Ok(e) ==> {
                &&& is_distance_vector(self@, 0, distances_from(self@, 0))
                &&& is_greatest_reached(distances_from(self@, 0), e)
            },
            r matches Err(e) ==> e == (GraphError::IndexOutOfRange { index: 0, nodes: 0 }),
    {
        self.eccentricity(0)
    }
}

} // verus!
