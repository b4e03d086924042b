//! The plain recurrence on raw adjacency words, with one scratch slot per
//! depth of the recursion in place of a copy of the graph per call.

use crate::bits::popcount;
use crate::recurrence::matching_coefficient;
use crate::words::{
    edgeless, edgeless_node_count, edgeless_spec, graph_size, lemma_without_edge_bits,
    lemma_without_endpoints_bits, present_count, relevant_edge, relevant_edge_spec, remove_edge,
    remove_edge_spec, remove_node, remove_node_spec, remove_nodes, total_bits, union_bits,
    within_capacity, MAX_NODES, POLY_SIZE,
};
use vstd::prelude::*;

verus! {

pub type GraphData = [u64; MAX_NODES];

/// Number of scratch slots: one more than the bits of a graph, each level of
/// the recursion clearing at least one.
pub const SCRATCH_SLOTS: usize = 4097;

pub trait GraphProperties {
    /// The adjacency words.
    spec fn words(&self) -> Seq<u64>;

    /// The edge `(start, end, size)` that the deletion step works on.
    fn get_relevant_edge(&self) -> (r: (usize, usize, usize))
        requires
            !edgeless_spec(self.words()),
            within_capacity(self.words()),
        ensures
            (r.0 as int, r.1 as int, r.2 as int) == relevant_edge_spec(self.words()),
            r.0 < r.1 < r.2 <= MAX_NODES,
    ;

    /// Whether every word is zero or a power of two.
    fn edgeless(&self) -> (r: bool)
        ensures
            r == edgeless_spec(self.words()),
    ;

    /// Number of nodes that are present.
    fn graph_size(&self) -> (r: usize)
        ensures
            r == present_count(self.words()),
            r <= MAX_NODES,
    ;

    /// Removes two nodes in a single pass over the words.
    fn remove_nodes(&mut self, start_node: usize, end_node: usize, graph_size: usize)
        requires
            start_node < MAX_NODES,
            end_node < MAX_NODES,
            graph_size <= MAX_NODES,
        ensures
            final(self).words() == remove_node_spec(
                remove_node_spec(old(self).words(), start_node as int, graph_size as int),
                end_node as int,
                graph_size as int,
            ),
    ;

    /// Zeroes the word of `node` and clears its column in every word.
    fn remove_node(&mut self, node: usize, graph_size: usize)
        requires
            node < MAX_NODES,
            graph_size <= MAX_NODES,
        ensures
            final(self).words() == remove_node_spec(
                old(self).words(),
                node as int,
                graph_size as int,
            ),
    ;

    /// Clears, in the word of `node1`, the bit that stands for `node2`.
    fn remove_edge(&mut self, node1: usize, node2: usize, graph_size: usize)
        requires
            node1 < MAX_NODES,
            node2 < graph_size <= MAX_NODES,
        ensures
            final(self).words() == remove_edge_spec(
                old(self).words(),
                node1 as int,
                node2 as int,
                graph_size as int,
            ),
    ;

    /// Number of set bits of the OR of all words.
    fn edgeless_node_count(&self) -> (r: usize)
        ensures
            r == popcount(union_bits(self.words())),
            r <= MAX_NODES,
    ;
}

impl GraphProperties for GraphData {
    open spec fn words(&self) -> Seq<u64> {
        self@
    }

    fn get_relevant_edge(&self) -> (r: (usize, usize, usize)) {
        relevant_edge(self)
    }

    fn edgeless(&self) -> (r: bool) {
        edgeless(self)
    }

    fn graph_size(&self) -> (r: usize) {
        graph_size(self)
    }

    fn remove_nodes(&mut self, start_node: usize, end_node: usize, graph_size: usize) {
        *self = remove_nodes(*self, start_node, end_node, graph_size);
    }

    fn remove_node(&mut self, node: usize, graph_size: usize) {
        *self = remove_node(*self, node, graph_size);
    }

    fn remove_edge(&mut self, start_node: usize, end_node: usize, graph_size: usize) {
        *self = remove_edge(*self, start_node, end_node, graph_size);
    }

    fn edgeless_node_count(&self) -> (r: usize) {
        edgeless_node_count(self)
    }
}

/// The signless matching polynomial of the graph with the given words.
pub fn calculate_matching_polynomial_raw(graph: GraphData) -> (poly: [u64; POLY_SIZE])
    requires
        within_capacity(graph@),
        forall|k: nat| k < POLY_SIZE ==> matching_coefficient(graph@, k) <= u64::MAX,
    ensures
        forall|k: int| 0 <= k < POLY_SIZE ==> poly@[k] == matching_coefficient(graph@, k as nat),
{
    let mut poly: [u64; POLY_SIZE] = [0;POLY_SIZE];
    // the scratch memory, the graph in every slot
    let mut graph_memory: Vec<GraphData> = Vec::new();
    let mut i: usize = 0;
    while i < SCRATCH_SLOTS
        invariant
            i <= SCRATCH_SLOTS,
            graph_memory@.len() == i,
            forall|j: int| 0 <= j < i ==> graph_memory@[j] == graph,
        decreases SCRATCH_SLOTS - i,
    {
        graph_memory.push(graph);
        i += 1;
    }
    proof {
        lemma_total_bits_bound(graph@);
    }
    _calculate_matching_polynomial_raw(&mut graph_memory, &mut poly, 0);
    poly
}

/// A graph has at most 64 bits in each of its 64 words.
proof fn lemma_total_bits_bound(w: Seq<u64>)
    ensures
        total_bits(w) <= 64 * w.len(),
    decreases w.len(),
{
    if w.len() > 0 {
        lemma_total_bits_bound(w.drop_last());
        crate::bits::lemma_popcount_bound(w.last());
    }
}

/// Adds to `poly` the polynomial of the graph in slot `depth`, using the
/// slots from `depth` on and leaving those below as they are.
fn _calculate_matching_polynomial_raw(
    graph_memory: &mut Vec<GraphData>,
    poly: &mut [u64; POLY_SIZE],
    depth: usize,
)
    requires
        depth < old(graph_memory)@.len(),
        depth + total_bits(old(graph_memory)@[depth as int]@) < old(graph_memory)@.len(),
        within_capacity(old(graph_memory)@[depth as int]@),
        forall|k: int|
            0 <= k < POLY_SIZE ==> old(poly)@[k] + matching_coefficient(
                old(graph_memory)@[depth as int]@,
                k as nat,
            ) <= u64::MAX,
    ensures
        final(graph_memory)@.len() == old(graph_memory)@.len(),
        forall|j: int| 0 <= j < depth ==> final(graph_memory)@[j] == old(graph_memory)@[j],
        forall|k: int|
            0 <= k < POLY_SIZE ==> final(poly)@[k] == old(poly)@[k] + matching_coefficient(
                old(graph_memory)@[depth as int]@,
                k as nat,
            ),
    decreases total_bits(old(graph_memory)@[depth as int]@),
{
    let graph: GraphData = graph_memory[depth];
    let ghost w = graph@;

    if graph.edgeless() {
        let node_count: usize = graph.edgeless_node_count();
        poly[node_count] = poly[node_count] + 1;
    } else {
        proof {
            lemma_without_edge_bits(w);
            lemma_without_endpoints_bits(w);
            assert(total_bits(w) >= 2);
        }
        let slots: usize = graph_memory.len();
        assert(depth + 1 < slots);
        let below: usize = depth + 1;
        let (start_node, end_node, graph_size) = graph.get_relevant_edge();

        // G' stays in this slot
        let mut prime: GraphData = graph;
        prime.remove_edge(start_node, end_node, graph_size);
        graph_memory.set(depth, prime);

        // G'' goes one slot down
        let mut prime_prime: GraphData = graph;
        prime_prime.remove_nodes(start_node, end_node, graph_size);
        graph_memory.set(below, prime_prime);

        _calculate_matching_polynomial_raw(graph_memory, poly, below);
        _calculate_matching_polynomial_raw(graph_memory, poly, depth);
    }
}

/// The graphs that `graph` gives with one node removed, for each of the
/// first `graph_size()` node slots in turn.
pub fn get_deck(graph: &GraphData) -> (deck: Vec<GraphData>)
    ensures
        deck@.len() == present_count(graph@),
        forall|i: int|
            0 <= i < deck@.len() ==> (#[trigger] deck@[i])@ == remove_node_spec(
                graph@,
                i,
                present_count(graph@) as int,
            ),
{
    let mut deck: Vec<GraphData> = Vec::new();
    let graph_size: usize = graph.graph_size();
    let mut i: usize = 0;
    while i < graph_size
        invariant
            i <= graph_size <= MAX_NODES,
            graph_size == present_count(graph@),
            deck@.len() == i,
            forall|j: int|
                0 <= j < i ==> (#[trigger] deck@[j])@ == remove_node_spec(
                    graph@,
                    j,
                    graph_size as int,
                ),
        decreases graph_size - i,
    {
        let mut current_graph: GraphData = *graph;
        current_graph.remove_node(i, graph_size);
        deck.push(current_graph);
        i += 1;
    }
    deck
}

} // verus!
