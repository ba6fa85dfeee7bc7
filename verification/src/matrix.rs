//! Adjacency matrices: a square of edge weights in which zero stands for "no
//! edge", symmetric where the graph is undirected.

use crate::error::GraphError;
use vstd::prelude::*;

verus! {

/// Every row of `m` is as long as `m` has rows.
pub open spec fn is_square(m: Seq<Seq<usize>>) -> bool {
    forall|i: int| 0 <= i < m.len() ==> (#[trigger] m[i]).len() == m.len()
}

/// The entry of `m` for `(i, j)` equals its entry for `(j, i)`.
pub open spec fn is_symmetric(m: Seq<Seq<usize>>) -> bool {
    forall|i: int, j: int| 0 <= i < m.len() && 0 <= j < m.len() ==> #[trigger] m[i][j] == m[j][i]
}

/// `m` is the adjacency matrix of an undirected graph.
pub open spec fn is_adjacency(m: Seq<Seq<usize>>) -> bool {
    is_square(m) && is_symmetric(m)
}

/// No entry of `m` is above 1: every edge weighs 1.
pub open spec fn is_unweighted(m: Seq<Seq<usize>>) -> bool {
    forall|i: int, j: int| 0 <= i < m.len() && 0 <= j < m[i].len() ==> #[trigger] m[i][j] <= 1
}

/// The rows of `matrix`, each as a sequence.
pub open spec fn rows_of(matrix: Seq<Vec<usize>>) -> Seq<Seq<usize>> {
    Seq::new(matrix.len(), |i: int| matrix[i]@)
}

/// The matrix of `n` nodes without any edge.
pub open spec fn empty_matrix(n: nat) -> Seq<Seq<usize>> {
    Seq::new(n, |i: int| Seq::new(n, |j: int| 0usize))
}

/// The position `(i, j)` is one of the two entries of the edge between `a`
/// and `b`.
pub open spec fn joins(a: int, b: int, i: int, j: int) -> bool {
    (i == a && j == b) || (i == b && j == a)
}

/// `m` with the entries of the edge between `a` and `b` set to `weight`, in
/// both directions.
pub open spec fn with_weight(m: Seq<Seq<usize>>, a: int, b: int, weight: usize) -> Seq<Seq<usize>> {
    Seq::new(
        m.len(),
        |i: int| Seq::new(m[i].len(), |j: int| if joins(a, b, i, j) { weight } else { m[i][j] }),
    )
}

/// `m` with the entries of the edge between `a` and `b` set to weight 1, in
/// both directions.
pub open spec fn with_edge(m: Seq<Seq<usize>>, a: int, b: int) -> Seq<Seq<usize>> {
    with_weight(m, a, b, 1)
}

/// The position `(i, j)` is one of the two entries of the edge that `pair`
/// names.
pub open spec fn joins_pair(pair: (usize, usize), i: int, j: int) -> bool {
    joins(pair.0 as int, pair.1 as int, i, j)
}

/// Some pair of `edges` joins `i` and `j`.
pub open spec fn listed(edges: Seq<(usize, usize)>, i: int, j: int) -> bool {
    exists|k: int| 0 <= k < edges.len() && #[trigger] joins_pair(edges[k], i, j)
}

/// The matrix of `n` nodes whose edges are those of `edges`, each of
/// weight 1.
pub open spec fn adjacency_of(n: nat, edges: Seq<(usize, usize)>) -> Seq<Seq<usize>> {
    Seq::new(n, |i: int| Seq::new(n, |j: int| if listed(edges, i, j) { 1usize } else { 0usize }))
}

/// Both ends of every pair of `edges` are below `n`.
pub open spec fn endpoints_below(edges: Seq<(usize, usize)>, n: nat) -> bool {
    forall|k: int| 0 <= k < edges.len() ==> (#[trigger] edges[k]).0 < n && edges[k].1 < n
}

/// The first end of a pair of `edges` that is not below `n`, reading each
/// pair from left to right.
pub open spec fn first_end_not_below(edges: Seq<(usize, usize)>, n: nat) -> usize
    decreases edges.len(),
{
    if edges.len() == 0 {
        0
    } else if edges[0].0 >= n {
        edges[0].0
    } else if edges[0].1 >= n {
        edges[0].1
    } else {
        first_end_not_below(edges.drop_first(), n)
    }
}

/// The matrix without edges is the matrix of the empty edge list.
pub proof fn lemma_adjacency_of_nothing(n: nat)
    ensures
        adjacency_of(n, Seq::empty()) == empty_matrix(n),
{
    assert forall|i: int, j: int| !listed(Seq::<(usize, usize)>::empty(), i, j) by {}
    assert(adjacency_of(n, Seq::empty()) =~~= empty_matrix(n));
}

/// Listing one more pair adds that pair's edge to the matrix.
pub proof fn lemma_adjacency_of_push(n: nat, edges: Seq<(usize, usize)>, e: (usize, usize))
    ensures
        adjacency_of(n, edges.push(e)) == with_edge(adjacency_of(n, edges), e.0 as int, e.1 as int),
{
    let more = edges.push(e);
    assert forall|i: int, j: int|
        listed(more, i, j) == (listed(edges, i, j) || joins(e.0 as int, e.1 as int, i, j)) by {
        if listed(edges, i, j) {
            let k = choose|k: int| 0 <= k < edges.len() && #[trigger] joins_pair(edges[k], i, j);
            assert(joins_pair(more[k], i, j));
        }
        if joins(e.0 as int, e.1 as int, i, j) {
            assert(joins_pair(more[edges.len() as int], i, j));
        }
        if listed(more, i, j) {
            let k = choose|k: int| 0 <= k < more.len() && #[trigger] joins_pair(more[k], i, j);
            if k < edges.len() {
                assert(joins_pair(edges[k], i, j));
            }
        }
    }
    assert(adjacency_of(n, more) =~~= with_edge(adjacency_of(n, edges), e.0 as int, e.1 as int));
}

/// The matrix of an edge list is the adjacency matrix of an undirected graph
/// whose edges all weigh 1.
pub proof fn lemma_adjacency_of_is_adjacency(n: nat, edges: Seq<(usize, usize)>)
    ensures
        is_adjacency(adjacency_of(n, edges)),
        is_unweighted(adjacency_of(n, edges)),
        adjacency_of(n, edges).len() == n,
{
    let m = adjacency_of(n, edges);
    assert forall|i: int, j: int| 0 <= i < m.len() && 0 <= j < m.len() implies #[trigger] m[i][j]
        == m[j][i] by {
        if listed(edges, i, j) {
            let k = choose|k: int| 0 <= k < edges.len() && #[trigger] joins_pair(edges[k], i, j);
            assert(joins_pair(edges[k], j, i));
        }
        if listed(edges, j, i) {
            let k = choose|k: int| 0 <= k < edges.len() && #[trigger] joins_pair(edges[k], j, i);
            assert(joins_pair(edges[k], i, j));
        }
    }
}

/// Setting the weight of an edge keeps an adjacency matrix an adjacency
/// matrix.
pub proof fn lemma_with_weight_is_adjacency(m: Seq<Seq<usize>>, a: int, b: int, weight: usize)
    requires
        is_adjacency(m),
    ensures
        is_adjacency(with_weight(m, a, b, weight)),
{
}

/// Inserting the same edge a second time, from either end, changes nothing.
pub proof fn lemma_with_edge_idempotent(m: Seq<Seq<usize>>, a: int, b: int)
    ensures
        with_edge(with_edge(m, a, b), a, b) == with_edge(m, a, b),
        with_edge(with_edge(m, a, b), b, a) == with_edge(m, a, b),
{
    assert(with_edge(with_edge(m, a, b), a, b) =~~= with_edge(m, a, b));
    assert(with_edge(with_edge(m, a, b), b, a) =~~= with_edge(m, a, b));
}

/// A row of `n` zeros.
fn zero_row(n: usize) -> (row: Vec<usize>)
    ensures
        row@ == Seq::new(n as nat, |j: int| 0usize),
{
    let mut row: Vec<usize> = Vec::new();
    let mut j: usize = 0;
    while j < n
        invariant
            j <= n,
            row@ == Seq::new(j as nat, |k: int| 0usize),
        decreases n - j,
    {
        row.push(0);
        j += 1;
        assert(row@ =~= Seq::new(j as nat, |k: int| 0usize));
    }
    row
}

/// The matrix of `n` nodes without any edge.
pub(crate) fn zero_matrix(n: usize) -> (matrix: Vec<Vec<usize>>)
    ensures
        matrix@.len() == n,
        rows_of(matrix@) == empty_matrix(n as nat),
{
    let mut matrix: Vec<Vec<usize>> = Vec::new();
    let mut i: usize = 0;
    while i < n
        invariant
            i <= n,
            matrix@.len() == i,
            forall|k: int|
                0 <= k < i ==> (#[trigger] matrix@[k])@ == Seq::new(n as nat, |j: int| 0usize),
        decreases n - i,
    {
        matrix.push(zero_row(n));
        i += 1;
    }
    assert(rows_of(matrix@) =~~= empty_matrix(n as nat));
    matrix
}

/// Sets the two entries of the edge between `a` and `b` to `weight`.
pub(crate) fn set_edge(matrix: &mut Vec<Vec<usize>>, a: usize, b: usize, weight: usize)
    requires
        is_square(rows_of(old(matrix)@)),
        a < old(matrix)@.len(),
        b < old(matrix)@.len(),
    ensures
        final(matrix)@.len() == old(matrix)@.len(),
        rows_of(final(matrix)@) == with_weight(rows_of(old(matrix)@), a as int, b as int, weight),
{
    assert(rows_of(matrix@)[a as int].len() == matrix@.len());
    assert(rows_of(matrix@)[b as int].len() == matrix@.len());
    matrix[a][b] = weight;
    matrix[b][a] = weight;
    assert(rows_of(matrix@) =~~= with_weight(rows_of(old(matrix)@), a as int, b as int, weight));
}

/// Builds the adjacency matrix of `num_nodes` nodes joined by `edges`.
///
/// Fails on the first pair with an end that is not below `num_nodes`.
pub fn read_graph(num_nodes: usize, edges: Vec<(usize, usize)>) -> (r: Result<
    Vec<Vec<usize>>,
    GraphError,
>)
    ensures
        r is Ok <==> endpoints_below(edges@, num_nodes as nat),
        r matches Ok(matrix) ==> {
            &&& rows_of(matrix@) == adjacency_of(num_nodes as nat, edges@)
            &&& is_adjacency(rows_of(matrix@))
            &&& is_unweighted(rows_of(matrix@))
        },
        r matches Err(e) ==> e == (GraphError::IndexOutOfRange {
            index: first_end_not_below(edges@, num_nodes as nat),
            nodes: num_nodes,
        }),
{
    let mut matrix = zero_matrix(num_nodes);
    proof {
        lemma_adjacency_of_nothing(num_nodes as nat);
        assert(edges@.take(0) =~= Seq::empty());
        assert(edges@.skip(0) =~= edges@);
    }
    let mut k: usize = 0;
    while k < edges.len()
        invariant
            k <= edges@.len(),
            matrix@.len() == num_nodes,
            rows_of(matrix@) == adjacency_of(num_nodes as nat, edges@.take(k as int)),
            endpoints_below(edges@.take(k as int), num_nodes as nat),
            first_end_not_below(edges@, num_nodes as nat) == first_end_not_below(
                edges@.skip(k as int),
                num_nodes as nat,
            ),
        decreases edges@.len() - k,
    {
        let (a, b) = edges[k];
        let ghost rest = edges@.skip(k as int);
        assert(rest[0] == edges@[k as int]);
        if a >= num_nodes {
            return Err(GraphError::IndexOutOfRange { index: a, nodes: num_nodes });
        }
        if b >= num_nodes {
            return Err(GraphError::IndexOutOfRange { index: b, nodes: num_nodes });
        }
        set_edge(&mut matrix, a, b, 1);
        proof {
            lemma_adjacency_of_push(num_nodes as nat, edges@.take(k as int), (a, b));
            assert(edges@.take(k as int).push((a, b)) =~= edges@.take(k + 1));
            assert(rest.drop_first() =~= edges@.skip(k + 1));
        }
        k += 1;
    }
    proof {
        assert(edges@.take(k as int) =~= edges@);
        lemma_adjacency_of_is_adjacency(num_nodes as nat, edges@);
    }
    Ok(matrix)
}

} // verus!
