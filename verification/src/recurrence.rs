//! The edge/vertex deletion recurrence on adjacency words:
//! `m(G) = m(G - e) + m(G - {u, v})`, with an edgeless graph on `n` nodes
//! contributing one to the coefficient of index `n`.

use crate::bits::popcount;
use crate::words::{
    edgeless_spec, lemma_without_edge_bits, lemma_without_endpoints_bits, total_bits, union_bits,
    without_edge, without_endpoints,
};
use vstd::prelude::*;

verus! {

/// Index at which an edgeless graph contributes: its number of nodes.
pub open spec fn leaf_index(w: Seq<u64>) -> nat {
    popcount(union_bits(w))
}

/// Coefficient of index `k` of the signless matching polynomial that the
/// deletion recurrence gives for the words `w`: the number of edgeless graphs
/// with `k` nodes at the leaves of the recursion tree.
pub open spec fn matching_coefficient(w: Seq<u64>, k: nat) -> nat
    decreases total_bits(w),
    via matching_coefficient_decreases
{
    if edgeless_spec(w) {
        if k == leaf_index(w) {
            1
        } else {
            0
        }
    } else {
        matching_coefficient(without_edge(w), k) + matching_coefficient(without_endpoints(w), k)
    }
}

#[via_fn]
proof fn matching_coefficient_decreases(w: Seq<u64>, k: nat) {
    if !edgeless_spec(w) {
        lemma_without_edge_bits(w);
        lemma_without_endpoints_bits(w);
    }
}

/// The address below `address` that the vertex-deletion branch takes.
pub open spec fn right_address(address: u64) -> u64 {
    address << 1
}

/// The address below `address` that the edge-deletion branch takes.
pub open spec fn left_address(address: u64) -> u64 {
    (address << 1) | 1
}

/// The addresses of the leaves below `w` in the order in which the recursion
/// reaches them, the vertex-deletion branch first, where `address` is the
/// address of `w` itself.
pub open spec fn leaf_addresses(w: Seq<u64>, address: u64) -> Seq<u64>
    decreases total_bits(w),
    via leaf_addresses_decreases
{
    if edgeless_spec(w) {
        seq![address]
    } else {
        leaf_addresses(without_endpoints(w), right_address(address)) + leaf_addresses(
            without_edge(w),
            left_address(address),
        )
    }
}

#[via_fn]
proof fn leaf_addresses_decreases(w: Seq<u64>, address: u64) {
    if !edgeless_spec(w) {
        lemma_without_edge_bits(w);
        lemma_without_endpoints_bits(w);
    }
}

/// Number of leaves of the recursion tree below `w`.
pub open spec fn leaf_count(w: Seq<u64>) -> nat
    decreases total_bits(w),
    via leaf_count_decreases
{
    if edgeless_spec(w) {
        1
    } else {
        leaf_count(without_edge(w)) + leaf_count(without_endpoints(w))
    }
}

#[via_fn]
proof fn leaf_count_decreases(w: Seq<u64>) {
    if !edgeless_spec(w) {
        lemma_without_edge_bits(w);
        lemma_without_endpoints_bits(w);
    }
}

/// No coefficient exceeds the number of leaves, and there is one address per
/// leaf.
pub proof fn lemma_coefficient_le_leaves(w: Seq<u64>, k: nat)
    ensures
        matching_coefficient(w, k) <= leaf_count(w),
    decreases total_bits(w),
{
    if !edgeless_spec(w) {
        lemma_without_edge_bits(w);
        lemma_without_endpoints_bits(w);
        lemma_coefficient_le_leaves(without_edge(w), k);
        lemma_coefficient_le_leaves(without_endpoints(w), k);
    }
}

pub proof fn lemma_address_count(w: Seq<u64>, address: u64)
    ensures
        leaf_addresses(w, address).len() == leaf_count(w),
    decreases total_bits(w),
{
    if !edgeless_spec(w) {
        lemma_without_edge_bits(w);
        lemma_without_endpoints_bits(w);
        lemma_address_count(without_edge(w), left_address(address));
        lemma_address_count(without_endpoints(w), right_address(address));
    }
}

/// `2^n`.
pub open spec fn pow2(n: nat) -> nat
    decreases n,
{
    if n == 0 {
        1
    } else {
        2 * pow2((n - 1) as nat)
    }
}

pub proof fn lemma_pow2_monotone(a: nat, b: nat)
    requires
        a <= b,
    ensures
        pow2(a) <= pow2(b),
        pow2(a) >= 1,
    decreases b,
{
    if a < b {
        lemma_pow2_monotone(a, (b - 1) as nat);
    } else if a > 0 {
        lemma_pow2_monotone((a - 1) as nat, (a - 1) as nat);
    }
}

/// A graph has at most `2^bits` leaves, `bits` being the number of set bits
/// of its words: every step of the recurrence clears at least one.
pub proof fn lemma_leaf_count_bound(w: Seq<u64>)
    ensures
        leaf_count(w) <= pow2(total_bits(w)),
    decreases total_bits(w),
{
    lemma_pow2_monotone(0, total_bits(w));
    if !edgeless_spec(w) {
        lemma_without_edge_bits(w);
        lemma_without_endpoints_bits(w);
        lemma_leaf_count_bound(without_edge(w));
        lemma_leaf_count_bound(without_endpoints(w));
        lemma_pow2_monotone(total_bits(without_endpoints(w)), (total_bits(w) - 1) as nat);
    }
}

/// The coefficients of a graph with fewer than 64 set bits fit a `u64`.
pub proof fn lemma_small_graph_fits(w: Seq<u64>, k: nat)
    requires
        total_bits(w) <= 63,
    ensures
        matching_coefficient(w, k) <= u64::MAX,
{
    lemma_coefficient_le_leaves(w, k);
    lemma_leaf_count_bound(w);
    lemma_pow2_monotone(total_bits(w), 63);
    assert(pow2(63) <= u64::MAX) by {
        lemma_pow2_63();
    }
}

proof fn lemma_pow2_63()
    ensures
        pow2(63) == 0x8000_0000_0000_0000,
{
    reveal_with_fuel(pow2, 64);
}

} // verus!
