//! The density-adaptive recurrence computes the signed matching polynomial:
//! the coefficient of index `k` of a graph on `n` nodes is the number of
//! matchings that leave `k` nodes unmatched, with the sign
//! `(-1)^((n - k) / 2)`.
//!
//! The switch to the complement rests on the identity
//! `mu(G, x) = sum_k m(complement of G, k) He_k(x)`, where `m(H, k)` is the
//! number of matchings of `H` that leave `k` nodes unmatched.

use crate::binary_graph_matching::adaptive::{adaptive_coefficient, is_dense, sign_of, switches};
use crate::binary_graph_matching::matching_poly::coefficient_sequence;
use crate::bits::{lemma_has_bit_nonzero, lemma_popcount_bound, lemma_single_bit, popcount};
use crate::complement::{
    complement_spec, lemma_complement_capacity, lemma_complement_involution, lemma_complement_word,
    lemma_complement_word_bits, lemma_present_mask_bits, present_mask, well_formed,
};
use crate::complete::{
    complete_from, complete_matchings, complete_sequence, lemma_complete_matchings,
    lemma_complete_range, lemma_complete_series, lemma_series_same,
};
use crate::polynomials::algebra::{coeff, lemma_coefficients, sum_of};
use crate::polynomials::laws::{
    he, lemma_series_beyond, lemma_series_of_monomial, lemma_series_sum, monomial, series_value,
};
use crate::recurrence::matching_coefficient;
use crate::reference::{
    agree_from, lemma_agree_matchings, lemma_any_edge_recurrence, lemma_leaf_index_counts_nodes,
    lemma_nodes_from, lemma_primes_well_formed, lemma_recurrence_counts_matchings, model_of,
    nodes_from, SimpleGraph,
};
use crate::words::{
    edgeless_spec, lemma_relevant_edge, lemma_without_edge_bits, lemma_without_endpoints_bits,
    present_count, relevant_edge_spec, total_bits, without_edge, without_endpoints, POLY_SIZE,
};
use vstd::prelude::*;

verus! {

/// The graph on the same nodes in which two present nodes are joined
/// exactly when they are not joined in `g`.
pub open spec fn complement_model(g: SimpleGraph) -> SimpleGraph {
    SimpleGraph {
        size: g.size,
        nodes: g.nodes,
        edges: Set::new(
            |p: (int, int)|
                0 <= p.0 < p.1 < g.size && g.nodes.contains(p.0) && g.nodes.contains(p.1)
                    && !g.edges.contains(p),
        ),
    }
}

/// The polynomial `sum_j m(w, j) He_j(x)`, coefficient by coefficient.
pub open spec fn hermite_mix(w: Seq<u64>, k: int) -> int {
    series_value(coefficient_sequence(w), POLY_SIZE as int, k)
}

/// A well-formed encoding has no more nodes than its width.
pub proof fn lemma_nodes_within_width(w: Seq<u64>, width: int)
    requires
        well_formed(w, width),
    ensures
        present_count(w) <= width,
        present_count(w) == nodes_from(model_of(w, width), 0),
{
    lemma_nodes_from(w, width, 0);
    crate::words::lemma_total_bits_take(w, 0);
    lemma_nodes_le(model_of(w, width), 0);
}

proof fn lemma_nodes_le(g: SimpleGraph, v: int)
    requires
        0 <= v <= g.size,
    ensures
        nodes_from(g, v) <= g.size - v,
    decreases g.size - v,
{
    if v < g.size {
        lemma_nodes_le(g, v + 1);
    }
}

/// The count of the present nodes depends on the nodes only.
proof fn lemma_nodes_same(a: SimpleGraph, b: SimpleGraph, v: int)
    requires
        a.size == b.size,
        forall|i: int| v <= i < a.size ==> (a.nodes.contains(i) <==> b.nodes.contains(i)),
    ensures
        nodes_from(a, v) == nodes_from(b, v),
    decreases a.size - v,
{
    if v < a.size {
        lemma_nodes_same(a, b, v + 1);
    }
}

/// A matching leaves no more nodes unmatched than there are, and as many as
/// there are less an even number.
pub proof fn lemma_coefficient_support(w: Seq<u64>, width: int, k: nat)
    requires
        well_formed(w, width),
        k > present_count(w) || (present_count(w) - k) % 2 != 0,
    ensures
        matching_coefficient(w, k) == 0,
    decreases total_bits(w),
{
    if edgeless_spec(w) {
        lemma_leaf_index_counts_nodes(w, width);
    } else {
        lemma_without_edge_bits(w);
        lemma_without_endpoints_bits(w);
        lemma_primes_well_formed(w, width);
        lemma_coefficient_support(without_edge(w), width, k);
        lemma_coefficient_support(without_endpoints(w), width, k);
    }
}

/// The encoding of the complement stands for the complement of the graph.
pub proof fn lemma_complement_model(w: Seq<u64>, width: int)
    requires
        well_formed(w, width),
    ensures
        well_formed(complement_spec(w, width), width),
        present_count(complement_spec(w, width)) == present_count(w),
        agree_from(
            model_of(complement_spec(w, width), width),
            complement_model(model_of(w, width)),
            0,
        ),
{
    let c = complement_spec(w, width);
    let pm = present_mask(w, width);
    lemma_complement_involution(w, width);
    lemma_complement_capacity(w, width);
    let mc = model_of(c, width);
    let cm = complement_model(model_of(w, width));
    assert forall|i: int| 0 <= i < mc.size implies (#[trigger] mc.nodes.contains(i)
        <==> cm.nodes.contains(i)) by {
        lemma_complement_word(w, width, i);
    }
    assert forall|i: int, u: int|
        0 <= i < u < mc.size && mc.nodes.contains(i) && mc.nodes.contains(u) implies (
    #[trigger] mc.edges.contains((i, u)) <==> cm.edges.contains((i, u))) by {
        lemma_complement_word(w, width, i);
        lemma_complement_word(w, width, u);
        lemma_complement_word_bits(w[i], i, width, pm, width - 1 - u);
        lemma_present_mask_bits(w, width, width, width - 1 - u);
        assert(c[i] == crate::complement::complement_word(w[i], i, width, pm));
    }
}

/// The value of the series of an edgeless graph is the Hermite polynomial of
/// its number of nodes.
proof fn lemma_mix_of_leaf(w: Seq<u64>, width: int, k: int)
    requires
        well_formed(w, width),
        edgeless_spec(w),
    ensures
        hermite_mix(w, k) == he(present_count(w) as int, k),
{
    let n = present_count(w);
    lemma_leaf_index_counts_nodes(w, width);
    lemma_nodes_within_width(w, width);
    let c = coefficient_sequence(w);
    lemma_series_same(c, monomial(n), POLY_SIZE as int, k);
    lemma_series_beyond(monomial(n), POLY_SIZE as int, k);
    lemma_series_of_monomial(n, (n + 1) as int, k);
}

/// The series of a graph is the sum of the series of its two smaller graphs.
proof fn lemma_mix_of_sum(a: Seq<u64>, b: Seq<u64>, c: Seq<u64>, k: int)
    requires
        forall|j: nat|
            j < POLY_SIZE ==> matching_coefficient(a, j) == matching_coefficient(b, j)
                + matching_coefficient(c, j),
    ensures
        hermite_mix(a, k) == hermite_mix(b, k) + hermite_mix(c, k),
{
    let sa = coefficient_sequence(a);
    let sb = coefficient_sequence(b);
    let sc = coefficient_sequence(c);
    lemma_coefficients(sb, sc, 0);
    assert forall|j: int| 0 <= j < POLY_SIZE implies coeff(sa, j) == coeff(sum_of(sb, sc), j) by {
        assert(matching_coefficient(a, j as nat) == matching_coefficient(b, j as nat)
            + matching_coefficient(c, j as nat));
    }
    lemma_series_same(sa, sum_of(sb, sc), POLY_SIZE as int, k);
    lemma_series_sum(sb, sc, POLY_SIZE as int, k);
}

/// After the switch the recurrence adds up the Hermite polynomials of its
/// leaves: `sign * sum_j m(w, j) He_j`.
pub proof fn lemma_complemented_branch(w: Seq<u64>, width: int, initial: nat, sign: int, k: int)
    requires
        well_formed(w, width),
    ensures
        adaptive_coefficient(w, initial, true, sign, k) == sign * hermite_mix(w, k),
    decreases total_bits(w),
{
    if edgeless_spec(w) {
        lemma_mix_of_leaf(w, width, k);
    } else {
        lemma_without_edge_bits(w);
        lemma_without_endpoints_bits(w);
        lemma_primes_well_formed(w, width);
        let g1 = without_edge(w);
        let g2 = without_endpoints(w);
        lemma_complemented_branch(g1, width, initial, sign, k);
        lemma_complemented_branch(g2, width, initial, sign, k);
        lemma_mix_of_sum(w, g1, g2, k);
        let a = hermite_mix(g1, k);
        let b = hermite_mix(g2, k);
        assert(sign * (a + b) == sign * a + sign * b) by (nonlinear_arith);
    }
}

/// The matchings of the complement of an edgeless graph are those of the
/// complete graph on its nodes.
proof fn lemma_complement_of_edgeless(w: Seq<u64>, width: int, j: nat)
    requires
        well_formed(w, width),
        edgeless_spec(w),
    ensures
        matching_coefficient(complement_spec(w, width), j) == complete_matchings(
            present_count(w),
            j as int,
        ),
{
    let x = complement_spec(w, width);
    let g = model_of(w, width);
    let cm = complement_model(g);
    lemma_complement_model(w, width);
    lemma_recurrence_counts_matchings(x, width, j);
    lemma_agree_matchings(model_of(x, width), cm, 0, j as int);
    assert(complete_from(cm, 0)) by {
        assert forall|i: int, u: int|
            0 <= i < u < cm.size && cm.nodes.contains(i) && cm.nodes.contains(
                u,
            ) implies #[trigger] cm.edges.contains((i, u)) by {
            if g.edges.contains((i, u)) {
                lemma_has_bit_nonzero(w[i], width - 1 - u);
                lemma_popcount_bound(w[i]);
                assert(popcount(w[i]) <= 1);
                lemma_single_bit(w[i]);
            }
        }
    }
    lemma_complete_matchings(cm, 0, j as int);
    lemma_nodes_same(cm, g, 0);
    lemma_nodes_within_width(w, width);
}

/// Taking an edge from a graph adds it to the complement: the matchings of
/// the complement of `G - e` are those of the complement of `G` and those
/// of the complement of `G - {u, v}`.
proof fn lemma_complement_of_primes(w: Seq<u64>, width: int, j: nat)
    requires
        well_formed(w, width),
        !edgeless_spec(w),
    ensures
        matching_coefficient(complement_spec(without_edge(w), width), j) == matching_coefficient(
            complement_spec(w, width),
            j,
        ) + matching_coefficient(complement_spec(without_endpoints(w), width), j),
{
    lemma_primes_well_formed(w, width);
    lemma_relevant_edge(w);
    let (s, e, size) = relevant_edge_spec(w);
    let w1 = without_edge(w);
    let w2 = without_endpoints(w);
    let g = model_of(w, width);
    let g1 = model_of(w1, width);
    let g2 = model_of(w2, width);
    let x = complement_spec(w, width);
    let x1 = complement_spec(w1, width);
    let x2 = complement_spec(w2, width);
    lemma_complement_model(w, width);
    lemma_complement_model(w1, width);
    lemma_complement_model(w2, width);
    lemma_recurrence_counts_matchings(x, width, j);
    lemma_recurrence_counts_matchings(x1, width, j);
    lemma_recurrence_counts_matchings(x2, width, j);
    let c = complement_model(g);
    let c1 = complement_model(g1);
    let c2 = complement_model(g2);
    lemma_agree_matchings(model_of(x, width), c, 0, j as int);
    lemma_agree_matchings(model_of(x1, width), c1, 0, j as int);
    lemma_agree_matchings(model_of(x2, width), c2, 0, j as int);
    // the edge is in the complement of the graph without it
    assert(g1.nodes.contains(s) && g1.nodes.contains(e));
    assert(g1.edges.contains((s, e)) <==> g.without_edge(s, e).edges.contains((s, e)));
    assert(c1.edges.contains((s, e)));
    lemma_any_edge_recurrence(c1, s, e, 0, j as int);
    // without the edge, that complement is the complement of the graph
    let c1e = c1.without_edge(s, e);
    assert forall|i: int| 0 <= i < c1e.size implies (#[trigger] c1e.nodes.contains(i)
        <==> c.nodes.contains(i)) by {
        assert(g1.nodes.contains(i) <==> g.without_edge(s, e).nodes.contains(i));
    }
    assert forall|i: int, u: int|
        0 <= i < u < c1e.size && c1e.nodes.contains(i) && c1e.nodes.contains(u) implies (
    #[trigger] c1e.edges.contains((i, u)) <==> c.edges.contains((i, u))) by {
        assert(g1.nodes.contains(i) <==> g.without_edge(s, e).nodes.contains(i));
        assert(g1.nodes.contains(u) <==> g.without_edge(s, e).nodes.contains(u));
        assert(g1.edges.contains((i, u)) <==> g.without_edge(s, e).edges.contains((i, u)));
    }
    assert(agree_from(c1e, c, 0));
    lemma_agree_matchings(c1e, c, 0, j as int);
    // without the two ends, it is the complement of the graph without them
    let c1n = c1.without_node(s).without_node(e);
    let gn = g.without_node(s).without_node(e);
    assert forall|i: int| 0 <= i < c1n.size implies (#[trigger] c1n.nodes.contains(i)
        <==> c2.nodes.contains(i)) by {
        assert(g1.nodes.contains(i) <==> g.without_edge(s, e).nodes.contains(i));
        assert(g2.nodes.contains(i) <==> gn.nodes.contains(i));
    }
    assert forall|i: int, u: int|
        0 <= i < u < c1n.size && c1n.nodes.contains(i) && c1n.nodes.contains(u) implies (
    #[trigger] c1n.edges.contains((i, u)) <==> c2.edges.contains((i, u))) by {
        assert(g1.nodes.contains(i) <==> g.without_edge(s, e).nodes.contains(i));
        assert(g1.nodes.contains(u) <==> g.without_edge(s, e).nodes.contains(u));
        assert(g2.nodes.contains(i) <==> gn.nodes.contains(i));
        assert(g2.nodes.contains(u) <==> gn.nodes.contains(u));
        assert(g1.edges.contains((i, u)) <==> g.without_edge(s, e).edges.contains((i, u)));
        assert(g2.edges.contains((i, u)) <==> gn.edges.contains((i, u)));
    }
    assert(agree_from(c1n, c2, 0));
    lemma_agree_matchings(c1n, c2, 0, j as int);
}

/// The complement of an edgeless graph on `n` nodes is complete, and its
/// matchings with their Hermite polynomials add up to `x^n`.
proof fn lemma_complement_series_of_leaf(w: Seq<u64>, width: int, k: int)
    requires
        well_formed(w, width),
        edgeless_spec(w),
    ensures
        hermite_mix(complement_spec(w, width), k) == if k == present_count(w) {
            1int
        } else {
            0int
        },
{
    let n = present_count(w);
    let x = complement_spec(w, width);
    lemma_nodes_within_width(w, width);
    let c = coefficient_sequence(x);
    let d = complete_sequence(n);
    assert forall|j: int| 0 <= j < POLY_SIZE implies coeff(c, j) == coeff(d, j) by {
        lemma_complement_of_edgeless(w, width, j as nat);
        if j > n {
            lemma_complete_range(n, j);
        }
    }
    lemma_series_same(c, d, POLY_SIZE as int, k);
    lemma_series_beyond(d, POLY_SIZE as int, k);
    lemma_complete_series(n, k);
}

/// Two nodes fewer turn the sign.
proof fn lemma_sign_step(n: nat, k: nat)
    requires
        k + 2 <= n,
    ensures
        sign_of((n - 2) as nat, k) == -sign_of(n, k),
{
    let x = (n - k) / 2;
    let y = (n - 2 - k) / 2;
    assert(x == y + 1);
}

/// What the series of the complements of the two smaller graphs give for
/// the complement of the graph.
proof fn lemma_signed_step(s: int, s2: int, a: int, b: int, below: bool)
    requires
        below ==> s2 == -s,
        !below ==> b == 0,
    ensures
        s * a - s2 * b == s * (a + b),
{
    if below {
        assert(s * a - s2 * b == s * (a + b)) by (nonlinear_arith)
            requires
                s2 == -s,
        ;
    } else {
        assert(s * a - s2 * 0 == s * (a + 0)) by (nonlinear_arith);
    }
}

/// The identity behind the switch: the matchings of the complement, each
/// counted with the Hermite polynomial of its unmatched nodes, add up to the
/// signed matching polynomial of the graph.
pub proof fn lemma_complement_series(w: Seq<u64>, width: int, k: nat)
    requires
        well_formed(w, width),
        k < POLY_SIZE,
    ensures
        hermite_mix(complement_spec(w, width), k as int) == sign_of(present_count(w), k)
            * matching_coefficient(w, k),
    decreases total_bits(w),
{
    let n = present_count(w);
    let x = complement_spec(w, width);
    if edgeless_spec(w) {
        lemma_leaf_index_counts_nodes(w, width);
        lemma_complement_series_of_leaf(w, width, k as int);
        if k == n {
            assert(sign_of(n, k) * 1 == 1);
        } else {
            assert(sign_of(n, k) * 0 == 0);
        }
    } else {
        lemma_without_edge_bits(w);
        lemma_without_endpoints_bits(w);
        lemma_primes_well_formed(w, width);
        let w1 = without_edge(w);
        let w2 = without_endpoints(w);
        lemma_complement_series(w1, width, k);
        lemma_complement_series(w2, width, k);
        assert forall|j: nat| j < POLY_SIZE implies matching_coefficient(
            complement_spec(w1, width),
            j,
        ) == matching_coefficient(x, j) + matching_coefficient(complement_spec(w2, width), j) by {
            lemma_complement_of_primes(w, width, j);
        }
        lemma_mix_of_sum(complement_spec(w1, width), x, complement_spec(w2, width), k as int);
        let a = matching_coefficient(w1, k) as int;
        let b = matching_coefficient(w2, k) as int;
        let s = sign_of(n, k);
        let s2 = sign_of((n - 2) as nat, k);
        if k + 2 <= n {
            lemma_sign_step(n, k);
        } else {
            lemma_coefficient_support(w2, width, k);
        }
        lemma_signed_step(s, s2, a, b, k + 2 <= n);
    }
}

/// The density-adaptive recurrence gives the signed matching polynomial:
/// what a graph adds to the coefficient of index `k`, whether or not a
/// branch of the recursion switches to the complement, is its number of
/// matchings that leave `k` nodes unmatched with the sign
/// `(-1)^((initial - k) / 2)`.
pub proof fn lemma_adaptive_is_signed(w: Seq<u64>, initial: nat, sign: int, k: nat)
    requires
        well_formed(w, initial as int),
        k < POLY_SIZE,
    ensures
        adaptive_coefficient(w, initial, false, sign, k as int) == sign_of(initial, k)
            * matching_coefficient(w, k),
    decreases total_bits(w),
{
    let width = initial as int;
    let n = present_count(w);
    let m = matching_coefficient(w, k) as int;
    lemma_nodes_within_width(w, width);
    if is_dense(w) {
        let g = complement_spec(w, width);
        let s = sign_of(initial, n);
        lemma_complement_model(w, width);
        assert(adaptive_coefficient(w, initial, false, sign, k as int) == adaptive_coefficient(
            g,
            initial,
            true,
            s,
            k as int,
        )) by {
            if !edgeless_spec(g) {
                lemma_without_edge_bits(g);
                lemma_without_endpoints_bits(g);
            }
        }
        lemma_complemented_branch(g, width, initial, s, k as int);
        lemma_complement_series(w, width, k);
        let t = sign_of(n, k);
        if k > n || (n - k) % 2 != 0 {
            lemma_coefficient_support(w, width, k);
            assert(s * (t * 0) == sign_of(initial, k) * 0) by (nonlinear_arith);
        } else {
            assert(s * t == sign_of(initial, k)) by {
                lemma_signs_compose(initial, n, k);
            }
            assert(s * (t * m) == (s * t) * m) by (nonlinear_arith);
        }
    } else if edgeless_spec(w) {
        lemma_leaf_index_counts_nodes(w, width);
        if k == n {
            assert(sign_of(initial, k) * 1 == sign_of(initial, n));
        } else {
            assert(sign_of(initial, k) * 0 == 0);
        }
    } else {
        lemma_without_edge_bits(w);
        lemma_without_endpoints_bits(w);
        lemma_primes_well_formed(w, width);
        let w1 = without_edge(w);
        let w2 = without_endpoints(w);
        lemma_adaptive_is_signed(w1, initial, sign, k);
        lemma_adaptive_is_signed(w2, initial, sign, k);
        let a = matching_coefficient(w1, k) as int;
        let b = matching_coefficient(w2, k) as int;
        let s = sign_of(initial, k);
        assert(s * b + s * a == s * (a + b)) by (nonlinear_arith);
    }
}

/// The signs of two stretches of the same parity multiply.
proof fn lemma_signs_compose(a: nat, b: nat, c: nat)
    requires
        c <= b <= a,
        (b - c) % 2 == 0,
    ensures
        sign_of(a, b) * sign_of(b, c) == sign_of(a, c),
{
    let x = (a - b) / 2;
    let y = (b - c) / 2;
    let z = (a - c) / 2;
    assert(z == x + y);
}

} // verus!
