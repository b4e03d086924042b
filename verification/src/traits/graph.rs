//! What the recurrence engines ask of a bit-packed graph.

use crate::bits::popcount;
use crate::complement::complement_spec;
use crate::words::{
    edge_count_spec, edgeless_spec, present_count, relevant_edge_spec, remove_edge_spec,
    remove_node_spec, union_bits, within_capacity, without_edge, without_endpoints, MAX_NODES,
};
use vstd::prelude::*;

verus! {

/// Largest number of edges that `n` nodes can have.
pub open spec fn max_edges(n: nat) -> nat {
    (n * (n - 1) / 2) as nat
}

pub trait Graph: Sized {
    /// The adjacency words that the graph stands for.
    spec fn words(&self) -> Seq<u64>;

    /// The width of the encoding that the graph was made with.
    spec fn initial_size(&self) -> nat;

    /// Zeroes the word of `node` and clears its column in every word of an
    /// encoding of width `graph_size`.
    fn remove_node(&mut self, node: usize, graph_size: usize)
        requires
            node < MAX_NODES,
            graph_size <= MAX_NODES,
        ensures
            final(self).words() == remove_node_spec(
                old(self).words(),
                node as int,
                graph_size as int,
            ),
            final(self).initial_size() == old(self).initial_size(),
    ;

    /// Clears, in the word of `node1`, the bit that stands for `node2` in an
    /// encoding of width `graph_size`.  The word of `node2` is left as it is.
    fn remove_edge(&mut self, node1: usize, node2: usize, graph_size: usize)
        requires
            node1 < old(self).words().len(),
            node2 < graph_size <= MAX_NODES,
        ensures
            final(self).words() == remove_edge_spec(
                old(self).words(),
                node1 as int,
                node2 as int,
                graph_size as int,
            ),
            final(self).initial_size() == old(self).initial_size(),
    ;

    /// Number of set bits of the OR of all words: the number of nodes where
    /// the graph is edgeless.
    fn edgeless_node_count(&self) -> (r: usize)
        ensures
            r == popcount(union_bits(self.words())),
            r <= MAX_NODES,
    ;

    /// Number of nodes that are present.
    fn graph_size(&self) -> (r: usize)
        ensures
            r == present_count(self.words()),
            r <= MAX_NODES,
    ;

    /// Number of edges.
    fn edge_count(&self) -> (r: usize)
        ensures
            r == edge_count_spec(self.words()),
            r <= 63 * MAX_NODES,
    ;

    /// Whether every word is zero or a power of two.
    fn edgeless(&self) -> (r: bool)
        ensures
            r == edgeless_spec(self.words()),
    ;

    fn initial_graph_size(&self) -> (r: usize)
        ensures
            r == self.initial_size(),
    ;

    /// `(G - e, G - {u, v})` for the relevant edge `e = (u, v)`.
    fn get_graph_primes(self) -> (r: (Self, Self))
        requires
            !edgeless_spec(self.words()),
            within_capacity(self.words()),
        ensures
            r.0.words() == without_edge(self.words()),
            r.1.words() == without_endpoints(self.words()),
            r.0.initial_size() == self.initial_size(),
            r.1.initial_size() == self.initial_size(),
    ;

    /// The edge `(start, end, size)` that the deletion step works on.
    fn get_relevant_edge(&self) -> (r: (usize, usize, usize))
        requires
            !edgeless_spec(self.words()),
            within_capacity(self.words()),
        ensures
            (r.0 as int, r.1 as int, r.2 as int) == relevant_edge_spec(self.words()),
            r.0 < r.1 < r.2 <= MAX_NODES,
    ;

    /// The density as an exact fraction: the number of edges over the largest
    /// number of edges that the present nodes can have.  The denominator is
    /// zero for fewer than two nodes.
    fn density(&self) -> (r: (usize, usize))
        ensures
            r.0 == edge_count_spec(self.words()),
            r.1 == max_edges(present_count(self.words())),
            r.0 <= 63 * MAX_NODES,
    ;

    /// The graph on the same nodes with exactly the edges that this one
    /// lacks, in an encoding of the initial width.
    fn complement(&self) -> (r: Self)
        requires
            self.initial_size() <= MAX_NODES,
            self.words().len() == MAX_NODES,
        ensures
            r.words() == complement_spec(self.words(), self.initial_size() as int),
            r.initial_size() == self.initial_size(),
    ;
}

/// The graphs that `graph` gives with one node removed, for each of the first
/// `graph_size()` node slots in turn.
pub fn get_deck<T: Graph + Copy>(graph: T) -> (deck: Vec<T>)
    ensures
        deck@.len() == present_count(graph.words()),
        forall|i: int|
            0 <= i < deck@.len() ==> (#[trigger] deck@[i]).words() == remove_node_spec(
                graph.words(),
                i,
                present_count(graph.words()) as int,
            ) && deck@[i].initial_size() == graph.initial_size(),
{
    let mut deck: Vec<T> = Vec::new();
    let graph_size: usize = graph.graph_size();
    let mut i: usize = 0;
    while i < graph_size
        invariant
            i <= graph_size <= MAX_NODES,
            graph_size == present_count(graph.words()),
            deck@.len() == i,
            forall|j: int|
                0 <= j < i ==> (#[trigger] deck@[j]).words() == remove_node_spec(
                    graph.words(),
                    j,
                    graph_size as int,
                ) && deck@[j].initial_size() == graph.initial_size(),
        decreases graph_size - i,
    {
        let mut current_graph: T = graph;
        current_graph.remove_node(i, graph_size);
        deck.push(current_graph);
        i += 1;
    }
    deck
}

} // verus!
