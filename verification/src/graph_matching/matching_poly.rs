//! The plain recurrence with every graph of the recursion in a box of its
//! own.

use crate::binary_graph_matching::binary_representation::BinaryGraph;
use crate::recurrence::matching_coefficient;
use crate::traits::graph::Graph;
use crate::words::{
    lemma_without_edge_bits, lemma_without_endpoints_bits, total_bits, within_capacity, POLY_SIZE,
};
use vstd::prelude::*;

verus! {

/// The signless matching polynomial of `graph`.
pub fn calculate_matching_polynomial_pointer(graph: BinaryGraph) -> (poly: [u64; POLY_SIZE])
    requires
        within_capacity(graph.words()),
        forall|k: nat| k < POLY_SIZE ==> matching_coefficient(graph.words(), k) <= u64::MAX,
    ensures
        forall|k: int|
            0 <= k < POLY_SIZE ==> poly@[k] == matching_coefficient(graph.words(), k as nat),
{
    let mut poly: [u64; POLY_SIZE] = [0;POLY_SIZE];
    _calculate_matching_polynomial_static(Box::new(graph), &mut poly);
    poly
}

/// Adds the polynomial of the graph to `poly`, in the standard basis.
fn _calculate_matching_polynomial_static(graph: Box<BinaryGraph>, poly: &mut [u64; POLY_SIZE])
    requires
        within_capacity(graph.words()),
        forall|k: int|
            0 <= k < POLY_SIZE ==> old(poly)@[k] + matching_coefficient(graph.words(), k as nat)
                <= u64::MAX,
    ensures
        forall|k: int|
            0 <= k < POLY_SIZE ==> final(poly)@[k] == old(poly)@[k] + matching_coefficient(
                graph.words(),
                k as nat,
            ),
    decreases total_bits(graph.words()),
{
    if graph.edgeless() {
        let node_count: usize = graph.edgeless_node_count();
        poly[node_count] = poly[node_count] + 1;
    } else {
        proof {
            lemma_without_edge_bits(graph.words());
            lemma_without_endpoints_bits(graph.words());
        }
        let (graph_prime, graph_prime_prime) = (*graph).get_graph_primes();
        _calculate_matching_polynomial_static(Box::new(graph_prime_prime), poly);
        _calculate_matching_polynomial_static(Box::new(graph_prime), poly);
    }
}

} // verus!
