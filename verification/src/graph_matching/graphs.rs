//! A bit-packed graph with its operations as methods of its own.

use crate::bits::popcount;
use crate::words::{
    edgeless, edgeless_node_count, edgeless_spec, graph_size, present_count, relevant_edge,
    relevant_edge_spec, remove_edge, remove_edge_spec, remove_node, remove_node_spec, union_bits,
    within_capacity, without_edge, without_endpoints, GraphData, MAX_NODES,
};
use vstd::prelude::*;
use vstd::std_specs::cmp::PartialEqSpecImpl;

verus! {

/// A graph as a sequence of words in which each bit is an edge; the highest
/// bit of a word says that its node is in the graph.
#[derive(Debug, Clone, Copy)]
pub struct Graph {
    data: GraphData,
    initial_graph_size: usize,
}

impl Graph {
    /// The adjacency words that the graph stands for.
    pub closed spec fn words(&self) -> Seq<u64> {
        self.data@
    }

    /// The number of nodes that the graph was made with.
    pub closed spec fn initial_size(&self) -> nat {
        self.initial_graph_size as nat
    }

    /// The graph without nodes.
    pub fn new() -> (g: Graph)
        ensures
            g.words() == Seq::new(MAX_NODES as nat, |i: int| 0u64),
            g.initial_size() == 0,
    {
        let blank_data: GraphData = [0;MAX_NODES];
        assert(blank_data@ =~= Seq::new(MAX_NODES as nat, |i: int| 0u64));
        Graph { data: blank_data, initial_graph_size: 0 }
    }

    /// The graph with the given words, its initial size being the number of
    /// words that are not zero.
    pub fn from(data: GraphData) -> (g: Graph)
        ensures
            g.words() == data@,
            g.initial_size() == present_count(data@),
    {
        Graph { data, initial_graph_size: graph_size(&data) }
    }

    pub fn data(self) -> (d: GraphData)
        ensures
            d@ == self.words(),
    {
        self.data
    }

    /// Zeroes the word of `node` and clears its column in every word of an
    /// encoding of width `graph_size`.
    pub fn remove_node(&mut self, node: usize, graph_size: usize)
        requires
            node < MAX_NODES,
            graph_size <= MAX_NODES,
        ensures
            final(self).words() == remove_node_spec(
                old(self).words(),
                node as int,
                graph_size as int,
            ),
            final(self).initial_size() == old(self).initial_size(),
    {
        self.data = remove_node(self.data, node, graph_size);
    }

    /// Clears, in the word of `node1`, the bit that stands for `node2` in an
    /// encoding of width `graph_size`.
    pub fn remove_edge(&mut self, node1: usize, node2: usize, graph_size: usize)
        requires
            node1 < MAX_NODES,
            node2 < graph_size <= MAX_NODES,
        ensures
            final(self).words() == remove_edge_spec(
                old(self).words(),
                node1 as int,
                node2 as int,
                graph_size as int,
            ),
            final(self).initial_size() == old(self).initial_size(),
    {
        self.data = remove_edge(self.data, node1, node2, graph_size);
    }

    /// Number of set bits of the OR of all words: the number of nodes where
    /// the graph is edgeless.
    pub fn edgeless_node_count(&self) -> (r: usize)
        ensures
            r == popcount(union_bits(self.words())),
            r <= MAX_NODES,
    {
        edgeless_node_count(&self.data)
    }

    /// Number of nodes that are present.
    pub fn graph_size(&self) -> (r: usize)
        ensures
            r == present_count(self.words()),
            r <= MAX_NODES,
    {
        graph_size(&self.data)
    }

    pub fn initial_graph_size(&self) -> (r: usize)
        ensures
            r == self.initial_size(),
    {
        self.initial_graph_size
    }

    /// Whether every word is zero or a power of two.
    pub fn edgeless(&self) -> (r: bool)
        ensures
            r == edgeless_spec(self.words()),
    {
        edgeless(&self.data)
    }

    /// `(G - e, G - {u, v})` for the relevant edge `e = (u, v)`.
    pub fn get_graph_primes(self) -> (r: (Graph, Graph))
        requires
            !edgeless_spec(self.words()),
            within_capacity(self.words()),
        ensures
            r.0.words() == without_edge(self.words()),
            r.1.words() == without_endpoints(self.words()),
            r.0.initial_size() == self.initial_size(),
            r.1.initial_size() == self.initial_size(),
    {
        let mut new_graph: Graph = self;
        let mut new_graph2: Graph = self;

        let (start_node, end_node, graph_size) = self.get_relevant_edge();

        // G' = G - e
        new_graph.remove_edge(start_node, end_node, graph_size);

        // G'' = G - {v, w} where {w, v} are the nodes at the ends of e
        new_graph2.remove_node(start_node, graph_size);
        new_graph2.remove_node(end_node, graph_size);
        (new_graph, new_graph2)
    }

    /// The edge `(start, end, size)` that the deletion step works on: the
    /// last edge of the first node that has one.
    pub fn get_relevant_edge(&self) -> (r: (usize, usize, usize))
        requires
            !edgeless_spec(self.words()),
            within_capacity(self.words()),
        ensures
            (r.0 as int, r.1 as int, r.2 as int) == relevant_edge_spec(self.words()),
            r.0 < r.1 < r.2 <= MAX_NODES,
    {
        relevant_edge(&self.data)
    }
}

/// Two graphs are equal when their words are; the initial size is not
/// compared.
impl PartialEq for Graph {
    fn eq(&self, other: &Graph) -> (r: bool) {
        let mut i: usize = 0;
        while i < MAX_NODES
            invariant
                i <= MAX_NODES,
                forall|j: int| 0 <= j < i ==> self.data@[j] == other.data@[j],
            decreases MAX_NODES - i,
        {
            if self.data[i] != other.data[i] {
                return false;
            }
            i += 1;
        }
        assert(self.data@ =~= other.data@);
        true
    }
}

impl PartialEqSpecImpl for Graph {
    open spec fn obeys_eq_spec() -> bool {
        true
    }

    open spec fn eq_spec(&self, other: &Graph) -> bool {
        self.words() == other.words()
    }
}

/// The graphs that `graph` gives with one node removed, for each of the
/// first `graph_size()` node slots in turn.
pub fn get_deck(graph: &Graph) -> (deck: Vec<Graph>)
    ensures
        deck@.len() == present_count(graph.words()),
        forall|i: int|
            0 <= i < deck@.len() ==> (#[trigger] deck@[i]).words() == remove_node_spec(
                graph.words(),
                i,
                present_count(graph.words()) as int,
            ) && deck@[i].initial_size() == graph.initial_size(),
{
    let mut deck: Vec<Graph> = Vec::new();
    let graph_size: usize = graph.graph_size();
    let mut i: usize = 0;
    while i < graph_size
        invariant
            i <= graph_size <= MAX_NODES,
            graph_size == present_count(graph.words()),
            deck@.len() == i,
            forall|j: int|
                0 <= j < i ==> (#[trigger] deck@[j]).words() == remove_node_spec(
                    graph.words(),
                    j,
                    graph_size as int,
                ) && deck@[j].initial_size() == graph.initial_size(),
        decreases graph_size - i,
    {
        let mut current_graph: Graph = *graph;
        current_graph.remove_node(i, graph_size);
        deck.push(current_graph);
        i += 1;
    }
    deck
}

} // verus!
