//! The plain recurrence on the graph type that carries its own operations.

use crate::graph_matching::graphs::Graph;
use crate::recurrence::matching_coefficient;
use crate::words::{
    lemma_without_edge_bits, lemma_without_endpoints_bits, total_bits, within_capacity, POLY_SIZE,
};
use vstd::prelude::*;

verus! {

/// The signless matching polynomial of `graph`.
pub fn calculate_matching_polynomial_static(graph: Graph) -> (poly: [u64; POLY_SIZE])
    requires
        within_capacity(graph.words()),
        forall|k: nat| k < POLY_SIZE ==> matching_coefficient(graph.words(), k) <= u64::MAX,
    ensures
        forall|k: int|
            0 <= k < POLY_SIZE ==> poly@[k] == matching_coefficient(graph.words(), k as nat),
{
    let mut poly: [u64; POLY_SIZE] = [0;POLY_SIZE];
    _calculate_matching_polynomial_static(graph, &mut poly);
    poly
}

/// Adds the polynomial of `graph` to `poly`.
fn _calculate_matching_polynomial_static(graph: Graph, poly: &mut [u64; POLY_SIZE])
    requires
        within_capacity(graph.words()),
        forall|k: int|
            0 <= k < POLY_SIZE ==> old(poly)@[k] + matching_coefficient(graph.words(), k as nat)
                <= u64::MAX,
    ensures
        forall|k: int|
            0 <= k < POLY_SIZE ==> final(poly)@[k] == old(poly)@[k] + matching_coefficient(
                graph.words(),
                k as nat,
            ),
    decreases total_bits(graph.words()),
{
    if graph.edgeless() {
        let node_count: usize = graph.edgeless_node_count();
        poly[node_count] = poly[node_count] + 1;
    } else {
        proof {
            lemma_without_edge_bits(graph.words());
            lemma_without_endpoints_bits(graph.words());
        }
        let (graph_prime, graph_prime_prime) = graph.get_graph_primes();
        _calculate_matching_polynomial_static(graph_prime_prime, poly);
        _calculate_matching_polynomial_static(graph_prime, poly);
    }
}

} // verus!
