//! The weighted matching polynomial by the edge-deletion recurrence
//! `Q(G) = Q(G - e) + w(e)^2 Q(G - {u, v})`.

use crate::binary_graph_matching::binary_representation::BinaryGraph;
use crate::polynomials::algebra::{
    coeff, fits_i64, ints, lemma_coefficients, lemma_same_trim, lemma_trim, product_of,
    product_partial, sum_of, trim,
};
use crate::polynomials::outside::{
    signed_coefficients, signed_polynomial, signed_product, signed_sum,
};
use crate::recurrence::leaf_index;
use crate::traits::graph::Graph;
use crate::weighted_graph_matching::weighted_graphs::{edge_weight, WeightedGraph, WEIGHT_COUNT};
use crate::words::{
    edgeless_spec, lemma_without_edge_bits, lemma_without_endpoints_bits, total_bits,
    within_capacity, without_edge, without_endpoints, MAX_NODES, POLY_SIZE,
};
use polynomial::Polynomial;
use vstd::prelude::*;

verus! {

/// Coefficient of index `k` of the weighted matching polynomial that the
/// recurrence gives: every leaf of the recursion tree counts with the
/// product of the squared weights of the edges whose ends were deleted on
/// the way to it.
pub open spec fn weighted_coefficient(w: Seq<u64>, weights: Seq<i64>, initial: nat, k: nat) -> int
    decreases total_bits(w),
    via weighted_coefficient_decreases
{
    if edgeless_spec(w) {
        if k == leaf_index(w) {
            1
        } else {
            0
        }
    } else {
        weighted_coefficient(without_edge(w), weights, initial, k) + edge_weight(
            w,
            weights,
            initial,
        ) * edge_weight(w, weights, initial) * weighted_coefficient(
            without_endpoints(w),
            weights,
            initial,
            k,
        )
    }
}

#[via_fn]
proof fn weighted_coefficient_decreases(w: Seq<u64>, weights: Seq<i64>, initial: nat, k: nat) {
    if !edgeless_spec(w) {
        lemma_without_edge_bits(w);
        lemma_without_endpoints_bits(w);
    }
}

/// Every square, product and sum that the recurrence forms below `w` fits an
/// `i64`.
pub open spec fn weighted_fits(w: Seq<u64>, weights: Seq<i64>, initial: nat) -> bool
    decreases total_bits(w),
    via weighted_fits_decreases
{
    edgeless_spec(w) || {
        let x = edge_weight(w, weights, initial);
        &&& fits_i64(x * x)
        &&& forall|k: nat|
            k < POLY_SIZE ==> fits_i64(
                x * x * #[trigger] weighted_coefficient(without_endpoints(w), weights, initial, k),
            ) && fits_i64(weighted_coefficient(w, weights, initial, k))
        &&& weighted_fits(without_edge(w), weights, initial)
        &&& weighted_fits(without_endpoints(w), weights, initial)
    }
}

#[via_fn]
proof fn weighted_fits_decreases(w: Seq<u64>, weights: Seq<i64>, initial: nat) {
    if !edgeless_spec(w) {
        lemma_without_edge_bits(w);
        lemma_without_endpoints_bits(w);
    }
}

/// The coefficients of the weighted matching polynomial of `w`, one for
/// every index of a polynomial buffer.
pub open spec fn weighted_sequence(w: Seq<u64>, weights: Seq<i64>, initial: nat) -> Seq<int> {
    Seq::new(POLY_SIZE as nat, |k: int| weighted_coefficient(w, weights, initial, k as nat))
}

/// The weighted matching polynomial of a weighted graph.
pub fn _calculate_weighted_matching_polynomial_binary(weighted_graph: WeightedGraph) -> (poly:
    Polynomial<i64>)
    requires
        within_capacity(weighted_graph.graph.words()),
        weighted_graph.graph.initial_size() <= MAX_NODES,
        weighted_fits(
            weighted_graph.graph.words(),
            weighted_graph.weights@,
            weighted_graph.graph.initial_size(),
        ),
    ensures
        ints(signed_coefficients(poly)) == trim(
            weighted_sequence(
                weighted_graph.graph.words(),
                weighted_graph.weights@,
                weighted_graph.graph.initial_size(),
            ),
        ),
{
    weighted_polynomial_of(weighted_graph.graph, &weighted_graph.weights)
}

/// The weighted matching polynomial of `graph` with the given weights, which
/// the recursion reads and never copies.
fn weighted_polynomial_of(graph: BinaryGraph, all_weights: &[i64; WEIGHT_COUNT]) -> (poly:
    Polynomial<i64>)
    requires
        within_capacity(graph.words()),
        graph.initial_size() <= MAX_NODES,
        weighted_fits(graph.words(), all_weights@, graph.initial_size()),
    ensures
        ints(signed_coefficients(poly)) == trim(
            weighted_sequence(graph.words(), all_weights@, graph.initial_size()),
        ),
    decreases total_bits(graph.words()),
{
    let ghost w = graph.words();
    let ghost weights = all_weights@;
    let ghost initial = graph.initial_size();
    if graph.edgeless() {
        // one zero for each node, then the leading one
        let node_count: usize = graph.edgeless_node_count();
        let mut coeffics: Vec<i64> = Vec::new();
        let mut i: usize = 0;
        while i < node_count
            invariant
                i <= node_count,
                coeffics@.len() == i,
                forall|t: int| 0 <= t < i ==> coeffics@[t] == 0,
            decreases node_count - i,
        {
            coeffics.push(0);
            i += 1;
        }
        coeffics.push(1);
        proof {
            let a = ints(coeffics@);
            let b = weighted_sequence(w, weights, initial);
            assert forall|t: int| coeff(a, t) == coeff(b, t) by {}
            lemma_same_trim(a, b);
        }
        signed_polynomial(coeffics)
    } else {
        proof {
            lemma_without_edge_bits(w);
            lemma_without_endpoints_bits(w);
        }
        let (start_node, end_node, _) = graph.get_relevant_edge();
        let columns: usize = graph.initial_graph_size();
        assert(start_node * columns + end_node < WEIGHT_COUNT) by (nonlinear_arith)
            requires
                start_node <= 62,
                end_node <= 63,
                columns <= 64,
        ;
        let weight: i64 = all_weights[start_node * columns + end_node];
        let (graph_prime, graph_prime_prime) = graph.get_graph_primes();

        let poly_1: Polynomial<i64> = weighted_polynomial_of(graph_prime, all_weights);
        let poly_2: Polynomial<i64> = weighted_polynomial_of(graph_prime_prime, all_weights);

        // the squared weight as a polynomial of degree zero
        let ghost x = weight as int;
        assert(fits_i64(x * x));
        let square: Vec<i64> = vec![weight * weight];
        let new_poly: Polynomial<i64> = signed_polynomial(square);
        let ghost a = ints(signed_coefficients(new_poly));
        let ghost b = ints(signed_coefficients(poly_2));
        let ghost first = ints(signed_coefficients(poly_1));
        let ghost s1 = weighted_sequence(without_edge(w), weights, initial);
        let ghost s2 = weighted_sequence(without_endpoints(w), weights, initial);
        proof {
            assert(ints(square@) =~= seq![x * x]);
            lemma_trim(seq![x * x]);
            lemma_trim(s1);
            lemma_trim(s2);
            assert forall|t: int| coeff(a, t) == if t == 0 { x * x } else { 0 } by {
                assert(coeff(a, t) == coeff(seq![x * x], t));
            }
            assert forall|t: int| x * x * coeff(b, t) == if 0 <= t < POLY_SIZE {
                x * x * weighted_coefficient(without_endpoints(w), weights, initial, t as nat)
            } else {
                0
            } by {
                assert(coeff(b, t) == coeff(s2, t));
                assert(x * x * 0 == 0);
            }
            assert forall|j: int, k: int|
                0 <= j < a.len() && 0 <= k < b.len() implies #[trigger] fits_i64(
                a[j] * b[k],
            ) by {
                assert(a[j] == coeff(a, j));
                assert(b[k] == coeff(b, k));
                assert(x * x * coeff(b, k) == x * x * weighted_coefficient(
                    without_endpoints(w),
                    weights,
                    initial,
                    k as nat,
                ));
            }
            assert forall|t: int, k: int| 0 <= t && 0 <= k <= a.len() implies #[trigger] fits_i64(
                product_partial(a, b, t, k),
            ) by {
                lemma_left_constant(a, b, t, k);
                if k == 1 {
                    assert(x * x * coeff(b, t) == if 0 <= t < POLY_SIZE {
                        x * x * weighted_coefficient(
                            without_endpoints(w),
                            weights,
                            initial,
                            t as nat,
                        )
                    } else {
                        0
                    });
                }
            }
        }
        let scaled_poly: Polynomial<i64> = signed_product(&new_poly, &poly_2);
        let ghost p = ints(signed_coefficients(scaled_poly));
        proof {
            lemma_trim(product_of(a, b));
            assert forall|t: int| coeff(product_of(a, b), t) == x * x * coeff(b, t) by {
                if a.len() > 0 && b.len() > 0 && 0 <= t < a.len() + b.len() - 1 {
                    lemma_left_constant(a, b, t, 1);
                } else {
                    assert(x * x * 0 == 0);
                    if a.len() == 0 {
                        assert(coeff(a, 0) == 0);
                        assert(0 * coeff(b, t) == 0);
                    }
                }
            }
            assert forall|t: int|
                0 <= t < first.len() && 0 <= t < p.len() implies #[trigger] fits_i64(
                first[t] + p[t],
            ) by {
                assert(first[t] == coeff(s1, t));
                assert(p[t] == coeff(product_of(a, b), t));
                assert(fits_i64(weighted_coefficient(w, weights, initial, t as nat)));
            }
            lemma_coefficients(first, p, 0);
            let target = weighted_sequence(w, weights, initial);
            assert forall|t: int| coeff(sum_of(first, p), t) == coeff(target, t) by {
                assert(coeff(first, t) == coeff(s1, t));
                assert(coeff(p, t) == coeff(product_of(a, b), t));
            }
            lemma_same_trim(sum_of(first, p), target);
        }
        signed_sum(&poly_1, &scaled_poly)
    }
}

/// The product of a polynomial of at most one term with another takes one
/// term per coefficient.
proof fn lemma_left_constant(a: Seq<int>, b: Seq<int>, t: int, k: int)
    requires
        a.len() <= 1,
        0 <= k <= a.len(),
    ensures
        product_partial(a, b, t, k) == if k == 1 {
            coeff(a, 0) * coeff(b, t)
        } else {
            0
        },
{
    if k == 1 {
        assert(product_partial(a, b, t, 1) == product_partial(a, b, t, 0) + coeff(a, 0) * coeff(
            b,
            t - 0,
        ));
    }
}

} // verus!
