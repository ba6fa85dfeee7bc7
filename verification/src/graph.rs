//! The graph: an undirected adjacency matrix with the dataset's annotations
//! attached.

use crate::circles::Circles;
use crate::error::GraphError;
use crate::matrix::adjacency_of;
use crate::matrix::empty_matrix;
use crate::matrix::endpoints_below;
use crate::matrix::first_end_not_below;
use crate::matrix::is_adjacency;
use crate::matrix::lemma_adjacency_of_nothing;
use crate::matrix::lemma_adjacency_of_push;
use crate::matrix::lemma_with_weight_is_adjacency;
use crate::matrix::rows_of;
use crate::matrix::set_edge;
use crate::matrix::with_edge;
use crate::matrix::with_weight;
use crate::matrix::zero_matrix;
use std::collections::HashMap;
use vstd::prelude::*;

verus! {

/// An undirected graph over the nodes `0..n`, held as an `n` by `n` matrix of
/// edge weights in which zero stands for "no edge".
///
/// The communities and features of the dataset travel with the graph; the
/// traversal never reads them.
#[derive(Debug)]
pub struct Graph {
    adj_matrix: Vec<Vec<usize>>,
    circles: Circles,
    features: HashMap<usize, Vec<bool>>,
    ego_features: Vec<bool>,
    feature_names: Vec<String>,
}

impl View for Graph {
    type V = Seq<Seq<usize>>;

    closed spec fn view(&self) -> Seq<Seq<usize>> {
        rows_of(self.adj_matrix@)
    }
}

impl Graph {
    #[verifier::type_invariant]
    spec fn well_formed(self) -> bool {
        is_adjacency(self@)
    }

    /// The communities attached to the graph.
    pub closed spec fn spec_circles(&self) -> Circles {
        self.circles
    }

    /// The feature bits attached to the nodes.
    pub closed spec fn spec_features(&self) -> HashMap<usize, Vec<bool>> {
        self.features
    }

    /// The feature bits of the ego node.
    pub closed spec fn spec_ego_features(&self) -> Vec<bool> {
        self.ego_features
    }

    /// The names of the features, by position.
    pub closed spec fn spec_feature_names(&self) -> Vec<String> {
        self.feature_names
    }

    /// A graph of `num_nodes` nodes without edges or annotations.
    pub fn new(num_nodes: usize) -> (graph: Graph)
        ensures
            graph@ == empty_matrix(num_nodes as nat),
            graph.spec_circles()@ == Map::<Seq<char>, Set<usize>>::empty(),
            graph.spec_features()@ == Map::<usize, Vec<bool>>::empty(),
            graph.spec_ego_features()@ == Seq::<bool>::empty(),
            graph.spec_feature_names()@ == Seq::<String>::empty(),
    {
        Graph {
            adj_matrix: zero_matrix(num_nodes),
            circles: Circles::new(),
            features: HashMap::new(),
            ego_features: Vec::new(),
            feature_names: Vec::new(),
        }
    }

    /// The number of nodes.
    pub fn num_nodes(&self) -> (n: usize)
        ensures
            n == self@.len(),
            is_adjacency(self@),
    {
        proof {
            use_type_invariant(self);
        }
        self.adj_matrix.len()
    }

    /// The entry of the matrix for `(a, b)`.
    pub(crate) fn entry(&self, a: usize, b: usize) -> (w: usize)
        requires
            a < self@.len(),
            b < self@.len(),
        ensures
            w == self@[a as int][b as int],
    {
        proof {
            use_type_invariant(self);
        }
        assert(self@[a as int].len() == self@.len());
        self.adj_matrix[a][b]
    }

    /// The weight of the edge between `a` and `b`, zero where there is none.
    pub fn weight(&self, a: usize, b: usize) -> (r: Result<usize, GraphError>)
        ensures
            is_adjacency(self@),
            r is Ok <==> a < self@.len() && b < self@.len(),
            r matches Ok(w) ==> w == self@[a as int][b as int],
            r matches Err(e) ==> e == (GraphError::IndexOutOfRange {
                index: if a >= self@.len() { a } else { b },
                nodes: self@.len() as usize,
            }),
    {
        proof {
            use_type_invariant(self);
        }
        let n = self.adj_matrix.len();
        if a >= n {
            return Err(GraphError::IndexOutOfRange { index: a, nodes: n });
        }
        if b >= n {
            return Err(GraphError::IndexOutOfRange { index: b, nodes: n });
        }
        assert(self@[a as int].len() == n);
        Ok(self.adj_matrix[a][b])
    }

    /// Joins `a` and `b` by an edge of weight 1, in both directions.
    ///
    /// Fails, and leaves the graph as it was, if `a` or `b` is not a node.
    pub fn add_edge(&mut self, a: usize, b: usize) -> (r: Result<(), GraphError>)
        ensures
            r is Ok <==> a < old(self)@.len() && b < old(self)@.len(),
            r is Ok ==> final(self)@ == with_edge(old(self)@, a as int, b as int),
            r matches Err(e) ==> final(self)@ == old(self)@ && e == (GraphError::IndexOutOfRange {
                index: if a >= old(self)@.len() { a } else { b },
                nodes: old(self)@.len() as usize,
            }),
            final(self).spec_circles() == old(self).spec_circles(),
            final(self).spec_features() == old(self).spec_features(),
            final(self).spec_ego_features() == old(self).spec_ego_features(),
            final(self).spec_feature_names() == old(self).spec_feature_names(),
    {
        self.add_weighted_edge(a, b, 1)
    }

    /// Sets the weight of the edge between `a` and `b`, in both directions.
    /// The weight zero takes the edge away.
    ///
    /// Fails, and leaves the graph as it was, if `a` or `b` is not a node.
    pub fn add_weighted_edge(&mut self, a: usize, b: usize, weight: usize) -> (r: Result<
        (),
        GraphError,
    >)
        ensures
            r is Ok <==> a < old(self)@.len() && b < old(self)@.len(),
            r is Ok ==> final(self)@ == with_weight(old(self)@, a as int, b as int, weight),
            r matches Err(e) ==> final(self)@ == old(self)@ && e == (GraphError::IndexOutOfRange {
                index: if a >= old(self)@.len() { a } else { b },
                nodes: old(self)@.len() as usize,
            }),
            final(self).spec_circles() == old(self).spec_circles(),
            final(self).spec_features() == old(self).spec_features(),
            final(self).spec_ego_features() == old(self).spec_ego_features(),
            final(self).spec_feature_names() == old(self).spec_feature_names(),
    {
        proof {
            use_type_invariant(&*self);
        }
        let n = self.adj_matrix.len();
        if a >= n {
            return Err(GraphError::IndexOutOfRange { index: a, nodes: n });
        }
        if b >= n {
            return Err(GraphError::IndexOutOfRange { index: b, nodes: n });
        }
        let mut matrix: Vec<Vec<usize>> = Vec::new();
        std::mem::swap(&mut matrix, &mut self.adj_matrix);
        set_edge(&mut matrix, a, b, weight);
        proof {
            lemma_with_weight_is_adjacency(old(self)@, a as int, b as int, weight);
        }
        self.adj_matrix = matrix;
        Ok(())
    }

    /// The communities attached to the graph, by name.
    pub fn circles(&self) -> (circles: &Circles)
        ensures
            *circles == self.spec_circles(),
    {
        &self.circles
    }

    /// The feature bits attached to the nodes, by node.
    pub fn features(&self) -> (features: &HashMap<usize, Vec<bool>>)
        ensures
            *features == self.spec_features(),
    {
        &self.features
    }

    /// The feature bits of the ego node.
    pub fn ego_features(&self) -> (ego_features: &Vec<bool>)
        ensures
            *ego_features == self.spec_ego_features(),
    {
        &self.ego_features
    }

    /// The names of the features, by position.
    pub fn feature_names(&self) -> (feature_names: &Vec<String>)
        ensures
            *feature_names == self.spec_feature_names(),
    {
        &self.feature_names
    }
}

/// Builds the graph of `node_count` nodes joined by `edges`, each edge of
/// weight 1 in both directions, and attaches the annotations to it.
///
/// Fails on the first pair with an end that is not below `node_count`.
pub fn build_graph(
    node_count: usize,
    edges: Vec<(usize, usize)>,
    circles: Circles,
    features: HashMap<usize, Vec<bool>>,
    ego_features: Vec<bool>,
    feature_names: Vec<String>,
) -> (r: Result<Graph, GraphError>)
    ensures
        r is Ok <==> endpoints_below(edges@, node_count as nat),
        r matches Ok(graph) ==> {
            &&& graph@ == adjacency_of(node_count as nat, edges@)
            &&& graph.spec_circles() == circles
            &&& graph.spec_features() == features
            &&& graph.spec_ego_features() == ego_features
            &&& graph.spec_feature_names() == feature_names
        },
        r matches Err(e) ==> e == (GraphError::IndexOutOfRange {
            index: first_end_not_below(edges@, node_count as nat),
            nodes: node_count,
        }),
{
    let mut graph = Graph::new(node_count);
    proof {
        lemma_adjacency_of_nothing(node_count as nat);
        assert(edges@.take(0) =~= Seq::empty());
        assert(edges@.skip(0) =~= edges@);
    }
    let mut k: usize = 0;
    while k < edges.len()
        invariant
            k <= edges@.len(),
            graph@ == adjacency_of(node_count as nat, edges@.take(k as int)),
            endpoints_below(edges@.take(k as int), node_count as nat),
            first_end_not_below(edges@, node_count as nat) == first_end_not_below(
                edges@.skip(k as int),
                node_count as nat,
            ),
        decreases edges@.len() - k,
    {
        let (a, b) = edges[k];
        let ghost rest = edges@.skip(k as int);
        assert(rest[0] == edges@[k as int]);
        match graph.add_edge(a, b) {
            Ok(()) => {},
            Err(e) => {
                return Err(e);
            },
        }
        proof {
            lemma_adjacency_of_push(node_count as nat, edges@.take(k as int), (a, b));
            assert(edges@.take(k as int).push((a, b)) =~= edges@.take(k + 1));
            assert(rest.drop_first() =~= edges@.skip(k + 1));
        }
        k += 1;
    }
    proof {
        assert(edges@.take(k as int) =~= edges@);
        use_type_invariant(&graph);
    }
    graph.circles = circles;
    graph.features = features;
    graph.ego_features = ego_features;
    graph.feature_names = feature_names;
    Ok(graph)
}

} // verus!
