//! A graph as a sequence of machine words in which each bit is an edge.  The
//! highest bit of a word says that its node is in the graph; removing a node
//! zeroes the word.

use crate::bits::{lemma_single, lemma_zero_word};
use crate::complement::{
    complement_spec, is_well_formed, present_mask_below, presence_bit, well_formed,
};
use crate::traits::graph::Graph;
use crate::words::{
    edge_count, edgeless, edgeless_node_count, graph_primes, graph_size, present_count,
    relevant_edge, remove_edge, remove_node, GraphData, MAX_NODES,
};
use vstd::prelude::*;
use vstd::std_specs::cmp::PartialEqSpecImpl;

verus! {

#[derive(Debug, Clone, Copy)]
pub struct BinaryGraph {
    data: GraphData,
    initial_graph_size: usize,
}

impl BinaryGraph {
    /// The graph without nodes.
    pub fn new() -> (g: BinaryGraph)
        ensures
            g.words() == Seq::new(MAX_NODES as nat, |i: int| 0u64),
            g.initial_size() == 0,
    {
        let blank_data: GraphData = [0;MAX_NODES];
        assert(blank_data@ =~= Seq::new(MAX_NODES as nat, |i: int| 0u64));
        BinaryGraph { data: blank_data, initial_graph_size: 0 }
    }

    /// The graph with the given words, its initial size being the number of
    /// words that are not zero.
    pub fn from(data: GraphData) -> (g: BinaryGraph)
        ensures
            g.words() == data@,
            g.initial_size() == present_count(data@),
    {
        BinaryGraph { data, initial_graph_size: graph_size(&data) }
    }

    /// The graph with the given words in an encoding of the given width,
    /// some of whose nodes may be absent.
    pub fn from_graph_subset(data: GraphData, initial_graph_size: usize) -> (g: BinaryGraph)
        ensures
            g.words() == data@,
            g.initial_size() == initial_graph_size,
    {
        BinaryGraph { data, initial_graph_size }
    }

    pub fn data(self) -> (d: GraphData)
        ensures
            d@ == self.words(),
    {
        self.data
    }

    /// Whether the words are a well-formed encoding of the initial width:
    /// every present node has its presence bit as its highest bit, and every
    /// edge bit stands for a node that is present.
    pub fn is_well_formed(&self) -> (r: bool)
        ensures
            r == well_formed(self.words(), self.initial_size() as int),
    {
        is_well_formed(&self.data, self.initial_graph_size)
    }
}

impl Graph for BinaryGraph {
    closed spec fn words(&self) -> Seq<u64> {
        self.data@
    }

    closed spec fn initial_size(&self) -> nat {
        self.initial_graph_size as nat
    }

    fn remove_node(&mut self, node: usize, graph_size: usize) {
        self.data = remove_node(self.data, node, graph_size);
    }

    fn remove_edge(&mut self, node1: usize, node2: usize, graph_size: usize) {
        self.data = remove_edge(self.data, node1, node2, graph_size);
    }

    fn edgeless_node_count(&self) -> (r: usize) {
        edgeless_node_count(&self.data)
    }

    fn graph_size(&self) -> (r: usize) {
        graph_size(&self.data)
    }

    fn edge_count(&self) -> (r: usize) {
        edge_count(&self.data)
    }

    fn edgeless(&self) -> (r: bool) {
        edgeless(&self.data)
    }

    fn initial_graph_size(&self) -> (r: usize) {
        self.initial_graph_size
    }

    fn get_graph_primes(self) -> (r: (BinaryGraph, BinaryGraph)) {
        let (prime, prime_prime) = graph_primes(self.data);
        (
            BinaryGraph { data: prime, initial_graph_size: self.initial_graph_size },
            BinaryGraph { data: prime_prime, initial_graph_size: self.initial_graph_size },
        )
    }

    fn get_relevant_edge(&self) -> (r: (usize, usize, usize)) {
        relevant_edge(&self.data)
    }

    fn density(&self) -> (r: (usize, usize)) {
        let edges: usize = edge_count(&self.data);
        let nodes: usize = graph_size(&self.data);
        if nodes == 0 {
            (edges, 0)
        } else {
            assert(nodes * (nodes - 1) <= 64 * 63) by (nonlinear_arith)
                requires
                    1 <= nodes <= 64,
            ;
            (edges, nodes * (nodes - 1) / 2)
        }
    }

    fn complement(&self) -> (r: BinaryGraph) {
        let width: usize = self.initial_graph_size;
        let mut present: u64 = 0;
        let mut i: usize = 0;
        while i < width
            invariant
                i <= width <= MAX_NODES,
                present == present_mask_below(self.data@, width as int, i as int),
            decreases width - i,
        {
            if self.data[i] != 0 {
                present = present | (1u64 << (width - 1 - i));
            } else {
                proof {
                    lemma_zero_word(present, 0);
                }
            }
            i += 1;
        }
        let mut new_data: GraphData = self.data;
        i = 0;
        while i < width
            invariant
                i <= width <= MAX_NODES,
                present == present_mask_below(self.data@, width as int, width as int),
                forall|j: int|
                    0 <= j < i ==> new_data@[j] == complement_spec(self.data@, width as int)[j],
                forall|j: int| i <= j < MAX_NODES ==> new_data@[j] == self.data@[j],
            decreases width - i,
        {
            let word: u64 = self.data[i];
            if word != 0 {
                let shift: u64 = (width - 1 - i) as u64;
                let diagonal: u64 = 1u64 << shift;
                proof {
                    lemma_single(shift, 0);
                }
                assert(diagonal == presence_bit(i as int, width as int));
                // every present node that the word has no edge to, and the node itself
                new_data[i] = ((!word) & (diagonal - 1) & present) | diagonal;
            }
            i += 1;
        }
        assert(new_data@ =~= complement_spec(self.data@, width as int));
        BinaryGraph { data: new_data, initial_graph_size: self.initial_graph_size }
    }
}

/// Two graphs are equal when their words are; the initial size is not
/// compared.
impl PartialEq for BinaryGraph {
    fn eq(&self, other: &BinaryGraph) -> (r: bool) {
        let mut i: usize = 0;
        while i < MAX_NODES
            invariant
                i <= MAX_NODES,
                forall|j: int| 0 <= j < i ==> self.data@[j] == other.data@[j],
            decreases MAX_NODES - i,
        {
            if self.data[i] != other.data[i] {
                return false;
            }
            i += 1;
        }
        assert(self.data@ =~= other.data@);
        true
    }
}

impl PartialEqSpecImpl for BinaryGraph {
    open spec fn obeys_eq_spec() -> bool {
        true
    }

    open spec fn eq_spec(&self, other: &BinaryGraph) -> bool {
        self.words() == other.words()
    }
}

} // verus!
