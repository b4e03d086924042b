//! How the weighted matching polynomial depends on the weights.

use crate::complement::well_formed;
use crate::recurrence::matching_coefficient;
use crate::reference::{lemma_leaf_index_counts_nodes, lemma_primes_well_formed};
use crate::polynomials::algebra::fits_i64;
use crate::weighted_graph_matching::binary_weighted_polynomial::{
    weighted_coefficient, weighted_fits,
};
use crate::weighted_graph_matching::weighted_graphs::{edge_weight, WEIGHT_COUNT};
use crate::words::{
    edgeless_spec, lemma_relevant_edge, lemma_without_edge_bits, lemma_without_endpoints_bits,
    present_count, relevant_edge_spec, total_bits, within_capacity, without_edge,
    without_endpoints, MAX_NODES,
};
use vstd::prelude::*;

verus! {

/// `c^n`.
pub open spec fn power(c: int, n: nat) -> int
    decreases n,
{
    if n == 0 {
        1
    } else {
        c * power(c, (n - 1) as nat)
    }
}

/// The weight of the relevant edge is read inside the matrix.
pub proof fn lemma_edge_weight_index(w: Seq<u64>, initial: nat)
    requires
        within_capacity(w),
        !edgeless_spec(w),
        initial <= MAX_NODES,
    ensures
        ({
            let (s, e, size) = relevant_edge_spec(w);
            0 <= s * initial + e < WEIGHT_COUNT
        }),
{
    lemma_relevant_edge(w);
    let (s, e, size) = relevant_edge_spec(w);
    assert(0 <= s * initial + e < 4096) by (nonlinear_arith)
        requires
            0 <= s <= 62,
            0 <= e <= 63,
            0 <= initial <= 64,
    ;
}

/// With every weight one, the weighted matching polynomial is the matching
/// polynomial.
pub proof fn lemma_unit_weights(w: Seq<u64>, weights: Seq<i64>, initial: nat, k: nat)
    requires
        within_capacity(w),
        initial <= MAX_NODES,
        weights.len() == WEIGHT_COUNT,
        forall|i: int| 0 <= i < weights.len() ==> weights[i] == 1,
    ensures
        weighted_coefficient(w, weights, initial, k) == matching_coefficient(w, k),
    decreases total_bits(w),
{
    if !edgeless_spec(w) {
        lemma_without_edge_bits(w);
        lemma_without_endpoints_bits(w);
        lemma_edge_weight_index(w, initial);
        lemma_unit_weights(without_edge(w), weights, initial, k);
        lemma_unit_weights(without_endpoints(w), weights, initial, k);
        let b = weighted_coefficient(without_endpoints(w), weights, initial, k);
        let x = edge_weight(w, weights, initial);
        assert(x == 1);
        assert(x * x * b == b) by (nonlinear_arith)
            requires
                x == 1,
        ;
    }
}

/// With every weight one, the weighted recurrence stays within `i64` where
/// the numbers of matchings do.
pub proof fn lemma_unit_weights_fit(w: Seq<u64>, weights: Seq<i64>, initial: nat)
    requires
        within_capacity(w),
        initial <= MAX_NODES,
        weights.len() == WEIGHT_COUNT,
        forall|i: int| 0 <= i < weights.len() ==> weights[i] == 1,
        forall|k: nat| k < crate::words::POLY_SIZE ==> matching_coefficient(w, k) <= i64::MAX,
    ensures
        weighted_fits(w, weights, initial),
    decreases total_bits(w),
{
    if !edgeless_spec(w) {
        lemma_without_edge_bits(w);
        lemma_without_endpoints_bits(w);
        lemma_edge_weight_index(w, initial);
        let x = edge_weight(w, weights, initial);
        assert(x == 1);
        assert(x * x == 1) by (nonlinear_arith)
            requires
                x == 1,
        ;
        let g1 = without_edge(w);
        let g2 = without_endpoints(w);
        assert forall|k: nat| k < crate::words::POLY_SIZE implies matching_coefficient(g1, k)
            <= i64::MAX && matching_coefficient(g2, k) <= i64::MAX by {
            assert(matching_coefficient(w, k) <= i64::MAX);
        }
        lemma_unit_weights_fit(g1, weights, initial);
        lemma_unit_weights_fit(g2, weights, initial);
        assert forall|k: nat| k < crate::words::POLY_SIZE implies fits_i64(
            x * x * #[trigger] weighted_coefficient(g2, weights, initial, k),
        ) && fits_i64(weighted_coefficient(w, weights, initial, k)) by {
            lemma_unit_weights(w, weights, initial, k);
            lemma_unit_weights(g2, weights, initial, k);
            let b = weighted_coefficient(g2, weights, initial, k);
            assert(x * x * b == b) by (nonlinear_arith)
                requires
                    x == 1,
            ;
            assert(matching_coefficient(w, k) <= i64::MAX);
        }
    }
}

/// No matching leaves more nodes unmatched than the graph has.
pub proof fn lemma_weighted_above_nodes(
    w: Seq<u64>,
    width: int,
    weights: Seq<i64>,
    initial: nat,
    k: nat,
)
    requires
        well_formed(w, width),
        k > present_count(w),
    ensures
        weighted_coefficient(w, weights, initial, k) == 0,
    decreases total_bits(w),
{
    if edgeless_spec(w) {
        lemma_leaf_index_counts_nodes(w, width);
    } else {
        lemma_without_edge_bits(w);
        lemma_without_endpoints_bits(w);
        lemma_primes_well_formed(w, width);
        lemma_weighted_above_nodes(without_edge(w), width, weights, initial, k);
        lemma_weighted_above_nodes(without_endpoints(w), width, weights, initial, k);
        let x = edge_weight(w, weights, initial);
        assert(x * x * 0 == 0);
    }
}

/// Multiplying every weight by `c` multiplies the coefficient of the
/// matchings of `m` edges by `c^(2m)`.
pub proof fn lemma_scaled_weights(
    w: Seq<u64>,
    width: int,
    weights: Seq<i64>,
    scaled: Seq<i64>,
    c: int,
    initial: nat,
    m: nat,
)
    requires
        well_formed(w, width),
        initial <= MAX_NODES,
        weights.len() == WEIGHT_COUNT,
        scaled.len() == WEIGHT_COUNT,
        forall|i: int| 0 <= i < weights.len() ==> scaled[i] as int == c * weights[i],
        2 * m <= present_count(w),
    ensures
        weighted_coefficient(w, scaled, initial, (present_count(w) - 2 * m) as nat) == power(
            c,
            2 * m,
        ) * weighted_coefficient(w, weights, initial, (present_count(w) - 2 * m) as nat),
    decreases total_bits(w),
{
    let n = present_count(w);
    let k = (n - 2 * m) as nat;
    let p = power(c, 2 * m);
    if edgeless_spec(w) {
        lemma_leaf_index_counts_nodes(w, width);
        assert(p * 0 == 0);
        assert(power(c, 0) * 1 == 1);
    } else {
        lemma_without_edge_bits(w);
        lemma_without_endpoints_bits(w);
        lemma_primes_well_formed(w, width);
        lemma_edge_weight_index(w, initial);
        let g1 = without_edge(w);
        let g2 = without_endpoints(w);
        lemma_scaled_weights(g1, width, weights, scaled, c, initial, m);
        let x = edge_weight(w, weights, initial);
        let y = edge_weight(w, scaled, initial);
        assert(y == c * x);
        let a = weighted_coefficient(g1, weights, initial, k);
        let b = weighted_coefficient(g2, weights, initial, k);
        let sa = weighted_coefficient(g1, scaled, initial, k);
        let sb = weighted_coefficient(g2, scaled, initial, k);
        if m == 0 {
            lemma_weighted_above_nodes(g2, width, weights, initial, k);
            lemma_weighted_above_nodes(g2, width, scaled, initial, k);
            assert(sa + y * y * 0 == p * (a + x * x * 0)) by (nonlinear_arith)
                requires
                    sa == p * a,
            ;
        } else {
            lemma_scaled_weights(g2, width, weights, scaled, c, initial, (m - 1) as nat);
            let q = power(c, (2 * m - 2) as nat);
            assert(power(c, (2 * m - 1) as nat) == c * q);
            assert(p == c * (c * q));
            assert(sa + y * y * sb == p * (a + x * x * b)) by (nonlinear_arith)
                requires
                    sa == p * a,
                    sb == q * b,
                    y == c * x,
                    p == c * (c * q),
            ;
        }
    }
}

/// With every weight `c`, the coefficient of the matchings of `m` edges is
/// `c^(2m)` times their number.
pub proof fn lemma_uniform_weights(
    w: Seq<u64>,
    width: int,
    weights: Seq<i64>,
    c: int,
    initial: nat,
    m: nat,
)
    requires
        well_formed(w, width),
        initial <= MAX_NODES,
        weights.len() == WEIGHT_COUNT,
        forall|i: int| 0 <= i < weights.len() ==> weights[i] == c,
        2 * m <= present_count(w),
    ensures
        weighted_coefficient(w, weights, initial, (present_count(w) - 2 * m) as nat) == power(
            c,
            2 * m,
        ) * matching_coefficient(w, (present_count(w) - 2 * m) as nat),
{
    let ones = Seq::new(WEIGHT_COUNT as nat, |i: int| 1i64);
    assert forall|i: int| 0 <= i < ones.len() implies weights[i] as int == c * ones[i] by {
        assert(c * 1 == c);
    }
    lemma_scaled_weights(w, width, ones, weights, c, initial, m);
    lemma_well_formed_capacity(w, width);
    lemma_unit_weights(w, ones, initial, (present_count(w) - 2 * m) as nat);
}

/// A well-formed encoding is within the capacity.
pub proof fn lemma_well_formed_capacity(w: Seq<u64>, width: int)
    requires
        well_formed(w, width),
    ensures
        within_capacity(w),
{
}

} // verus!
