//! A bit-packed graph with a weight for every pair of node slots.  The
//! weights are exact integers; a weight of zero stands for no edge.

use crate::binary_graph_matching::binary_representation::BinaryGraph;
use crate::traits::graph::Graph;
use crate::words::{
    edgeless_spec, present_count, relevant_edge_spec, remove_node_spec, within_capacity,
    without_edge, without_endpoints, GraphData, MAX_NODES,
};
use vstd::prelude::*;

verus! {

/// Number of weights: one for every ordered pair of node slots.
pub const WEIGHT_COUNT: usize = 4096;

#[derive(Debug, Clone, Copy)]
pub struct WeightedGraph {
    pub graph: BinaryGraph,
    pub weights: [i64; WEIGHT_COUNT],
}

/// The weight of the relevant edge of `w`, read at row `start` and column
/// `end` of a matrix with `initial` columns.
pub open spec fn edge_weight(w: Seq<u64>, weights: Seq<i64>, initial: nat) -> int {
    let (s, e, size) = relevant_edge_spec(w);
    weights[s * initial + e] as int
}

impl WeightedGraph {
    /// The graph without nodes, all weights zero.
    pub fn new() -> (g: WeightedGraph)
        ensures
            g.graph.words() == Seq::new(MAX_NODES as nat, |i: int| 0u64),
            g.graph.initial_size() == 0,
            forall|i: int| 0 <= i < WEIGHT_COUNT ==> g.weights@[i] == 0,
    {
        let blank_weights: [i64; WEIGHT_COUNT] = [0;WEIGHT_COUNT];
        WeightedGraph { graph: BinaryGraph::new(), weights: blank_weights }
    }

    pub fn from(data: GraphData, weights: [i64; WEIGHT_COUNT]) -> (g: WeightedGraph)
        ensures
            g.graph.words() == data@,
            g.graph.initial_size() == present_count(data@),
            g.weights == weights,
    {
        WeightedGraph { graph: BinaryGraph::from(data), weights }
    }

    pub fn graph_size(&self) -> (r: usize)
        ensures
            r == present_count(self.graph.words()),
    {
        self.graph.graph_size()
    }

    /// `(G - e, G - {u, v}, w(e))` for the relevant edge `e = (u, v)`; both
    /// graphs keep all weights.
    pub fn get_graph_primes(self) -> (r: (WeightedGraph, WeightedGraph, i64))
        requires
            !edgeless_spec(self.graph.words()),
            within_capacity(self.graph.words()),
            self.graph.initial_size() <= MAX_NODES,
        ensures
            r.0.graph.words() == without_edge(self.graph.words()),
            r.1.graph.words() == without_endpoints(self.graph.words()),
            r.0.graph.initial_size() == self.graph.initial_size(),
            r.1.graph.initial_size() == self.graph.initial_size(),
            r.0.weights == self.weights,
            r.1.weights == self.weights,
            r.2 == edge_weight(self.graph.words(), self.weights@, self.graph.initial_size()),
    {
        let mut new_graph: BinaryGraph = self.graph;
        let mut new_graph2: BinaryGraph = self.graph;

        let (start_node, end_node, graph_size) = self.graph.get_relevant_edge();

        // G' = G - e
        new_graph.remove_edge(start_node, end_node, graph_size);

        // G'' = G - {v, w} where {w, v} are the nodes at the ends of e
        new_graph2.remove_node(start_node, graph_size);
        new_graph2.remove_node(end_node, graph_size);
        let initial: usize = self.graph.initial_graph_size();
        assert(start_node * initial + end_node < WEIGHT_COUNT) by (nonlinear_arith)
            requires
                start_node <= 62,
                end_node <= 63,
                initial <= 64,
        ;
        let weight: i64 = self.weights[start_node * initial + end_node];
        (
            WeightedGraph { graph: new_graph, weights: self.weights },
            WeightedGraph { graph: new_graph2, weights: self.weights },
            weight,
        )
    }
}

/// The weighted graphs that `weighted_graph` gives with one node removed,
/// for each of the first `graph_size()` node slots in turn.
pub fn get_weighted_deck(weighted_graph: &WeightedGraph) -> (deck: Vec<WeightedGraph>)
    ensures
        deck@.len() == present_count(weighted_graph.graph.words()),
        forall|i: int|
            0 <= i < deck@.len() ==> (#[trigger] deck@[i]).graph.words() == remove_node_spec(
                weighted_graph.graph.words(),
                i,
                present_count(weighted_graph.graph.words()) as int,
            ) && deck@[i].weights == weighted_graph.weights && deck@[i].graph.initial_size()
                == weighted_graph.graph.initial_size(),
{
    let mut deck: Vec<WeightedGraph> = Vec::new();
    let graph_size: usize = weighted_graph.graph.graph_size();
    let mut i: usize = 0;
    while i < graph_size
        invariant
            i <= graph_size <= MAX_NODES,
            graph_size == present_count(weighted_graph.graph.words()),
            deck@.len() == i,
            forall|j: int|
                0 <= j < i ==> (#[trigger] deck@[j]).graph.words() == remove_node_spec(
                    weighted_graph.graph.words(),
                    j,
                    graph_size as int,
                ) && deck@[j].weights == weighted_graph.weights && deck@[j].graph.initial_size()
                    == weighted_graph.graph.initial_size(),
        decreases graph_size - i,
    {
        let mut current_graph: BinaryGraph = weighted_graph.graph;
        current_graph.remove_node(i, graph_size);
        let current_weighted_graph = WeightedGraph {
            graph: current_graph,
            weights: weighted_graph.weights,
        };
        deck.push(current_weighted_graph);
        i += 1;
    }
    deck
}

} // verus!
