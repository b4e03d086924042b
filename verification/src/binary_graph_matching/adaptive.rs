//! What the density-adaptive recurrence computes.
//!
//! A branch that meets a graph with at least half of the edges that its
//! nodes can have switches, once, to the complement of that graph.  From
//! then on an edgeless graph on `n` nodes contributes the Hermite polynomial
//! `He_n` in place of `x^n`, with the sign that the branch had when it
//! switched.

use crate::complement::complement_spec;
use crate::polynomials::algebra::ints;
use crate::polynomials::laws::{he, hermite_polynomial};
use crate::traits::graph::max_edges;
use crate::words::{
    edge_count_spec, edgeless_spec, lemma_without_edge_bits, lemma_without_endpoints_bits,
    present_count, total_bits, without_edge, without_endpoints,
};
use vstd::prelude::*;

verus! {

pub open spec fn magnitude(x: int) -> nat {
    if x >= 0 {
        x as nat
    } else {
        (-x) as nat
    }
}

/// `(-1)^((initial - size) / 2)`: the sign of a graph that has lost
/// `initial - size` nodes, two for every vertex deletion.
pub open spec fn sign_of(initial: nat, size: nat) -> int {
    if ((initial - size) / 2) % 2 == 0 {
        1
    } else {
        -1
    }
}

/// The graph has two nodes or more and at least half of the edges that they
/// can have.
pub open spec fn is_dense(w: Seq<u64>) -> bool {
    max_edges(present_count(w)) > 0 && 2 * edge_count_spec(w) >= max_edges(present_count(w))
}

/// Whether a branch switches to the complement at `w`.
pub open spec fn switches(w: Seq<u64>, complemented: bool) -> bool {
    !complemented && is_dense(w)
}

/// The words that the branch goes on with at `w`.
pub open spec fn effective_words(w: Seq<u64>, initial: nat, complemented: bool) -> Seq<u64> {
    if switches(w, complemented) {
        complement_spec(w, initial as int)
    } else {
        w
    }
}

/// The sign that the branch goes on with at `w`.
pub open spec fn effective_sign(w: Seq<u64>, initial: nat, complemented: bool, sign: int) -> int {
    if switches(w, complemented) {
        sign_of(initial, present_count(w))
    } else {
        sign
    }
}

/// What the branch at `w` adds to the coefficient of index `k`.
pub open spec fn adaptive_coefficient(
    w: Seq<u64>,
    initial: nat,
    complemented: bool,
    sign: int,
    k: int,
) -> int
    decreases
            if complemented {
                0nat
            } else {
                1nat
            },
            total_bits(w),
    via adaptive_coefficient_decreases
{
    let g = effective_words(w, initial, complemented);
    let now = complemented || switches(w, complemented);
    let s = effective_sign(w, initial, complemented, sign);
    if edgeless_spec(g) {
        if now {
            s * he(present_count(g) as int, k)
        } else if k == present_count(g) {
            sign_of(initial, present_count(g))
        } else {
            0
        }
    } else {
        adaptive_coefficient(without_endpoints(g), initial, now, s, k) + adaptive_coefficient(
            without_edge(g),
            initial,
            now,
            s,
            k,
        )
    }
}

#[via_fn]
proof fn adaptive_coefficient_decreases(
    w: Seq<u64>,
    initial: nat,
    complemented: bool,
    sign: int,
    k: int,
) {
    let g = effective_words(w, initial, complemented);
    if !edgeless_spec(g) {
        lemma_without_edge_bits(g);
        lemma_without_endpoints_bits(g);
    }
}

/// The sum of the magnitudes of what the leaves below `w` add to the
/// coefficient of index `k`: a bound on every partial sum.
pub open spec fn adaptive_weight(w: Seq<u64>, initial: nat, complemented: bool, k: int) -> nat
    decreases
            if complemented {
                0nat
            } else {
                1nat
            },
            total_bits(w),
    via adaptive_weight_decreases
{
    let g = effective_words(w, initial, complemented);
    let now = complemented || switches(w, complemented);
    if edgeless_spec(g) {
        if now {
            magnitude(he(present_count(g) as int, k))
        } else if k == present_count(g) {
            1
        } else {
            0
        }
    } else {
        adaptive_weight(without_endpoints(g), initial, now, k) + adaptive_weight(
            without_edge(g),
            initial,
            now,
            k,
        )
    }
}

#[via_fn]
proof fn adaptive_weight_decreases(w: Seq<u64>, initial: nat, complemented: bool, k: int) {
    let g = effective_words(w, initial, complemented);
    if !edgeless_spec(g) {
        lemma_without_edge_bits(g);
        lemma_without_endpoints_bits(g);
    }
}

/// The rows `0..=initial` of the cache hold the Hermite polynomials of
/// their order.
pub open spec fn hermite_cache(rows: Seq<Vec<i64>>, initial: nat) -> bool {
    &&& rows.len() == initial + 1
    &&& forall|n: int|
        0 <= n <= initial ==> ints((#[trigger] rows[n])@) == hermite_polynomial(n as nat)
}

/// No contribution exceeds the weight in magnitude.
pub proof fn lemma_adaptive_bound(w: Seq<u64>, initial: nat, complemented: bool, sign: int, k: int)
    requires
        sign == 1 || sign == -1,
    ensures
        magnitude(adaptive_coefficient(w, initial, complemented, sign, k)) <= adaptive_weight(
            w,
            initial,
            complemented,
            k,
        ),
    decreases
            if complemented {
                0nat
            } else {
                1nat
            },
            total_bits(w),
{
    let g = effective_words(w, initial, complemented);
    let now = complemented || switches(w, complemented);
    let s = effective_sign(w, initial, complemented, sign);
    if edgeless_spec(g) {
        let h = he(present_count(g) as int, k);
        assert(s * h == h || s * h == -h) by (nonlinear_arith)
            requires
                s == 1 || s == -1,
        ;
    } else {
        lemma_without_edge_bits(g);
        lemma_without_endpoints_bits(g);
        lemma_adaptive_bound(without_endpoints(g), initial, now, s, k);
        lemma_adaptive_bound(without_edge(g), initial, now, s, k);
    }
}

} // verus!
