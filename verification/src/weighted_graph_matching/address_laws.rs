//! With every weight one, the addresses of the leaves give the matching
//! polynomial back: every address resolves to the weight one and lands on
//! the coefficient of its leaf.

use crate::bits::{
    clear_bit, has_bit, lemma_bitwise, lemma_has_bit_cleared, lemma_has_bit_nonzero,
    lemma_has_bit_set, lemma_popcount_and, lemma_popcount_bound, lemma_popcount_clear_bit,
    lemma_popcount_le_length, lemma_same_bits, lemma_single, lemma_top_bit_below, lemma_top_low,
    lemma_zero_word, popcount, top_bit,
};
use crate::complement::{lemma_present_mask_bits, present_mask, present_mask_below, well_formed};
use crate::recurrence::{leaf_addresses, left_address, matching_coefficient, right_address};
use crate::reference::{lemma_leaf_index_counts_nodes, lemma_primes_well_formed};
use crate::weighted_graph_matching::address_weighted_polynomial::{
    address_engine_coefficient, address_engine_resolves, address_engine_weight, address_index,
    address_walk, address_weight, addresses_coefficient, addresses_resolve, all_nodes, next_weight,
    right_turns, row_scan, strike, MAX_ADDRESS_NODES,
};
use crate::weighted_graph_matching::weighted_graphs::WEIGHT_COUNT;
use crate::words::{
    edge_count_spec, edgeless_spec, lemma_present_le_total, lemma_total_bits_take,
    lemma_without_edge_bits, lemma_without_endpoints_bits, present_count, total_bits, without_edge,
    without_endpoints,
};
use vstd::prelude::*;
use vstd::std_specs::bits::axiom_u64_leading_zeros;

verus! {

/// Every weight is one.
pub open spec fn unit_weights(weights: Seq<i64>) -> bool {
    &&& weights.len() == WEIGHT_COUNT
    &&& forall|i: int| 0 <= i < weights.len() ==> weights[i] == 1
}

/// Number of valid nodes from `node` up to `gs`.
pub open spec fn rows_from(valid: u64, node: int, gs: int) -> int
    decreases gs + 1 - node,
{
    if node > gs {
        0
    } else {
        (if has_bit(valid, node) {
            1int
        } else {
            0int
        }) + rows_from(valid, node + 1, gs)
    }
}

/// The two addresses below an address: one bit longer, the address in front,
/// and a clear or a set bit at the end.
proof fn lemma_child_addresses(a: u64)
    requires
        a >= 1,
        top_bit(a) < 63,
    ensures
        right_address(a) >= 1,
        left_address(a) >= 1,
        top_bit(right_address(a)) == top_bit(a) + 1,
        top_bit(left_address(a)) == top_bit(a) + 1,
        right_turns(right_address(a)) == right_turns(a) + 1,
        right_turns(left_address(a)) == right_turns(a),
        !has_bit(right_address(a), 0),
        has_bit(left_address(a), 0),
        right_address(a) >> 1 == a,
        left_address(a) >> 1 == a,
{
    lemma_top_low(a);
    axiom_u64_leading_zeros(a);
    let t: u64 = top_bit(a) as u64;
    let up: u64 = (t + 1) as u64;
    let upup: u64 = (t + 2) as u64;
    let r = right_address(a);
    let l = left_address(a);
    assert(a >> up == 0);
    assert((r >> up) & 1 == 1 && (upup == 64 || r >> upup == 0) && (l >> up) & 1 == 1 && (upup == 64
        || l >> upup == 0) && r >> 1 == a && l >> 1 == a && (r >> 0) & 1 == 0 && (l >> 0) & 1 == 1
        && r % 2 == 0 && r / 2 == a && l % 2 == 1 && l / 2 == a && r != 0 && l != 0)
        by (bit_vector)
        requires
            r == a << 1,
            l == (a << 1) | 1,
            (a >> t) & 1 == 1,
            a >> up == 0,
            up == t + 1,
            upup == t + 2,
            t < 63,
    ;
    lemma_top_bit_below(r, t + 1);
    lemma_top_bit_below(l, t + 1);
}

/// A row of ones gives its `skip`-th weight from the end, or is used up.
proof fn lemma_row_scan_ones(weights: Seq<i64>, gs: int, node: int, col: int, skip: int)
    requires
        unit_weights(weights),
        0 <= node <= gs <= MAX_ADDRESS_NODES,
        0 <= col <= gs,
        0 <= skip,
    ensures
        row_scan(weights, gs, node, col, skip) == if skip < col {
            (Some(node * gs + col - 1 - skip), 0int)
        } else {
            (None::<int>, skip - col)
        },
    decreases col,
{
    if col > 0 {
        assert(0 <= node * gs + col - 1 < 4096) by (nonlinear_arith)
            requires
                0 <= node <= gs <= 62,
                0 < col <= gs,
        ;
        if skip > 0 {
            lemma_row_scan_ones(weights, gs, node, col - 1, skip - 1);
        }
    }
}

/// In a matrix of ones a weight is found as long as fewer weights are
/// skipped than the rows of the valid nodes hold.
proof fn lemma_next_weight_ones(weights: Seq<i64>, gs: int, valid: u64, node: int, skip: int)
    requires
        unit_weights(weights),
        1 <= gs <= MAX_ADDRESS_NODES,
        0 <= node,
        0 <= skip < gs * rows_from(valid, node, gs),
    ensures
        next_weight(weights, gs, valid, node, skip) is Some,
        ({
            let (index, nd) = next_weight(weights, gs, valid, node, skip).unwrap();
            &&& 0 <= index < WEIGHT_COUNT
            &&& weights[index] == 1
            &&& node <= nd <= gs
            &&& 0 <= index % gs < gs
        }),
    decreases gs + 1 - node,
{
    if node > gs {
        assert(gs * 0 == 0);
    } else if !has_bit(valid, node) {
        lemma_next_weight_ones(weights, gs, valid, node + 1, skip);
    } else {
        lemma_row_scan_ones(weights, gs, node, gs, skip);
        if skip < gs {
            let index = node * gs + gs - 1 - skip;
            assert(0 <= index < 4096) by (nonlinear_arith)
                requires
                    index == node * gs + gs - 1 - skip,
                    0 <= node <= gs <= 62,
                    0 <= skip < gs,
            ;
        } else {
            let rest = rows_from(valid, node + 1, gs);
            assert(skip - gs < gs * rest) by (nonlinear_arith)
                requires
                    skip < gs * (1 + rest),
            ;
            lemma_next_weight_ones(weights, gs, valid, node + 1, skip - gs);
        }
    }
}

/// Striking one bit takes at most one valid node away.
proof fn lemma_rows_cleared(valid: u64, c: int, node: int, gs: int)
    requires
        0 <= c < 64,
        0 <= node,
        gs < 64,
    ensures
        rows_from(clear_bit(valid, c), node, gs) + 1 >= rows_from(valid, node, gs),
    decreases gs + 1 - node,
{
    if node <= gs {
        lemma_rows_cleared(valid, c, node + 1, gs);
        lemma_has_bit_cleared(valid, c, node);
        if node == c {
            lemma_rows_same_above(valid, c, node + 1, gs);
        }
    }
}

/// Above the bit that is struck nothing changes.
proof fn lemma_rows_same_above(valid: u64, c: int, node: int, gs: int)
    requires
        0 <= c < 64,
        0 <= node,
        c < node,
        gs < 64,
    ensures
        rows_from(clear_bit(valid, c), node, gs) == rows_from(valid, node, gs),
    decreases gs + 1 - node,
{
    if node <= gs {
        lemma_rows_same_above(valid, c, node + 1, gs);
        lemma_has_bit_cleared(valid, c, node);
    }
}

/// At the start every node from `node` to `gs` is valid.
proof fn lemma_rows_of_all_nodes(gs: int, node: int)
    requires
        0 <= node <= gs + 1,
        gs <= MAX_ADDRESS_NODES,
    ensures
        rows_from(all_nodes(gs), node, gs) == gs + 1 - node,
    decreases gs + 1 - node,
{
    if node <= gs {
        lemma_rows_of_all_nodes(gs, node + 1);
        lemma_single((gs + 1) as u64, node as u64);
    }
}

/// A word of a well-formed encoding has no bit outside the presence bits of
/// the nodes that are present.
proof fn lemma_word_within_mask(w: Seq<u64>, width: int, i: int)
    requires
        well_formed(w, width),
        0 <= i < w.len(),
    ensures
        present_mask(w, width) & w[i] == w[i],
{
    let x = w[i];
    let pm = present_mask(w, width);
    assert forall|k: int| 0 <= k < 64 implies (has_bit(pm & x, k) <==> has_bit(x, k)) by {
        lemma_bitwise(pm, x, k as u64);
        lemma_present_mask_bits(w, width, width, k);
        if has_bit(x, k) {
            lemma_has_bit_nonzero(x, k);
            lemma_top_low(x);
            let u = width - 1 - k;
            assert(has_bit(w[i], width - 1 - u));
            if u != i {
                assert(w[u] != 0);
            }
        }
    }
    lemma_same_bits(pm & x, x);
}

/// The mask of the nodes below `n` has one bit for each that is present.
proof fn lemma_mask_popcount(w: Seq<u64>, width: int, n: int)
    requires
        well_formed(w, width),
        0 <= n <= width,
    ensures
        popcount(present_mask_below(w, width, n)) == present_count(w.take(n)),
    decreases n,
{
    lemma_total_bits_take(w, 0);
    if n > 0 {
        lemma_mask_popcount(w, width, n - 1);
        lemma_total_bits_take(w, n - 1);
        let a = present_mask_below(w, width, n - 1);
        if w[n - 1] != 0 {
            let s = width - 1 - (n - 1);
            let y = a | (1u64 << (s as u64));
            lemma_present_mask_bits(w, width, n - 1, s);
            assert(!has_bit(a, s));
            lemma_has_bit_set(a, s, s);
            lemma_popcount_clear_bit(y, s as u64);
        } else {
            lemma_zero_word(a, 0);
        }
    }
}

/// The words beyond the width of a well-formed encoding are zero.
proof fn lemma_present_within_width(w: Seq<u64>, width: int, n: int)
    requires
        well_formed(w, width),
        width <= n <= w.len(),
    ensures
        present_count(w.take(n)) == present_count(w.take(width)),
    decreases n,
{
    if n > width {
        lemma_present_within_width(w, width, n - 1);
        lemma_total_bits_take(w, n - 1);
    }
}

/// No word has more bits than the graph has nodes.
proof fn lemma_bits_le_nodes(w: Seq<u64>, width: int, n: int)
    requires
        well_formed(w, width),
        0 <= n <= w.len(),
    ensures
        total_bits(w.take(n)) <= present_count(w) * present_count(w.take(n)),
    decreases n,
{
    lemma_total_bits_take(w, 0);
    let nodes = present_count(w);
    if n > 0 {
        lemma_bits_le_nodes(w, width, n - 1);
        lemma_total_bits_take(w, n - 1);
        let x = w[n - 1];
        let pm = present_mask(w, width);
        lemma_word_within_mask(w, width, n - 1);
        lemma_popcount_and(pm, x);
        lemma_mask_popcount(w, width, width);
        lemma_present_within_width(w, width, w.len() as int);
        assert(w.take(w.len() as int) == w);
        assert(popcount(x) <= nodes);
        lemma_popcount_bound(x);
        let before = present_count(w.take(n - 1));
        if x != 0 {
            assert(nodes * (before + 1) == nodes * before + nodes) by (nonlinear_arith);
        }
    } else {
        assert(nodes * 0 == 0);
    }
}

/// A graph on `n` nodes has at most `n (n - 1)` edge bits.
pub proof fn lemma_edge_bound(w: Seq<u64>, width: int)
    requires
        well_formed(w, width),
    ensures
        edge_count_spec(w) <= present_count(w) * present_count(w) - present_count(w),
{
    lemma_bits_le_nodes(w, width, w.len() as int);
    assert(w.take(w.len() as int) == w);
    lemma_present_le_total(w);
}

/// What holds of a graph of the recursion, its address, and the state of
/// the walk that has read the address: two nodes are gone for every clear
/// bit, the address has room for the edges that are left, and the rows of
/// the valid nodes hold more weights than the walk can still skip.
pub open spec fn on_path(w: Seq<u64>, a: u64, gs: int, valid: u64, skip: int) -> bool {
    &&& a >= 1
    &&& 1 <= gs <= MAX_ADDRESS_NODES
    &&& present_count(w) + 2 * right_turns(a) == gs
    &&& top_bit(a) + edge_count_spec(w) <= 63
    &&& 0 <= skip
    &&& skip + edge_count_spec(w) + 1 <= gs * rows_from(valid, 0, gs)
    &&& rows_from(valid, 0, gs) >= present_count(w) + 1
}

/// The number of edges goes down by one or more with every step.
proof fn lemma_edges_decrease(w: Seq<u64>, width: int)
    requires
        well_formed(w, width),
        !edgeless_spec(w),
    ensures
        edge_count_spec(without_edge(w)) + 1 == edge_count_spec(w),
        edge_count_spec(without_endpoints(w)) + 1 <= edge_count_spec(w),
        edge_count_spec(w) >= 1,
{
    lemma_without_edge_bits(w);
    lemma_without_endpoints_bits(w);
    lemma_primes_well_formed(w, width);
    lemma_present_le_total(w);
    lemma_present_le_total(without_edge(w));
    lemma_present_le_total(without_endpoints(w));
}

/// Every leaf below a graph on the path has an address that begins with the
/// address of the graph, and the walk from the state of the graph on reads
/// the rest of it and ends with the weight one.
proof fn lemma_leaf_walks(
    w: Seq<u64>,
    width: int,
    a: u64,
    gs: int,
    valid: u64,
    skip: int,
    weights: Seq<i64>,
    i: int,
)
    requires
        well_formed(w, width),
        unit_weights(weights),
        on_path(w, a, gs, valid, skip),
        0 <= i < leaf_addresses(w, a).len(),
    ensures
        ({
            let l = leaf_addresses(w, a)[i];
            &&& l >= 1
            &&& top_bit(a) <= top_bit(l) <= 63
            &&& l >> ((top_bit(l) - top_bit(a)) as u64) == a
            &&& address_walk(l, top_bit(l) - top_bit(a), weights, gs, valid, skip, 1) == Some(
                1int,
            )
        }),
    decreases total_bits(w),
{
    lemma_top_low(a);
    lemma_popcount_le_length(a);
    if edgeless_spec(w) {
        lemma_zero_word(a, 0);
    } else {
        lemma_without_edge_bits(w);
        lemma_without_endpoints_bits(w);
        lemma_primes_well_formed(w, width);
        lemma_edges_decrease(w, width);
        lemma_child_addresses(a);
        let g1 = without_edge(w);
        let g2 = without_endpoints(w);
        let right = leaf_addresses(g2, right_address(a));
        let left = leaf_addresses(g1, left_address(a));
        let rows = rows_from(valid, 0, gs);
        let e = edge_count_spec(w);
        if i < right.len() {
            let l = right[i];
            assert(leaf_addresses(w, a)[i] == l);
            assert(skip < gs * rows);
            lemma_next_weight_ones(weights, gs, valid, 0, skip);
            let (index, node) = next_weight(weights, gs, valid, 0, skip).unwrap();
            let next = strike(valid, index % gs, node);
            lemma_rows_cleared(valid, index % gs, 0, gs);
            lemma_rows_cleared(clear_bit(valid, index % gs), node, 0, gs);
            let rows2 = rows_from(next, 0, gs);
            assert(rows2 + 2 >= rows);
            lemma_edge_bound(g2, width);
            let n2 = present_count(g2) as int;
            let e2 = edge_count_spec(g2) as int;
            assert(e2 + 1 <= gs * rows2) by (nonlinear_arith)
                requires
                    e2 <= n2 * n2 - n2,
                    0 <= n2 <= gs,
                    rows2 >= n2 + 1,
                    gs >= 1,
            ;
            assert(on_path(g2, right_address(a), gs, next, 0));
            lemma_leaf_walks(g2, width, right_address(a), gs, next, 0, weights, i);
            lemma_walk_step(l, a, right_address(a));
            let j = top_bit(l) - top_bit(a);
            assert(!has_bit(l, j - 1));
            assert(1 * weights[index] == 1);
        } else {
            let l = left[i - right.len()];
            assert(leaf_addresses(w, a)[i] == l);
            assert(on_path(g1, left_address(a), gs, valid, skip + 1));
            lemma_leaf_walks(
                g1,
                width,
                left_address(a),
                gs,
                valid,
                skip + 1,
                weights,
                i - right.len(),
            );
            lemma_walk_step(l, a, left_address(a));
            let j = top_bit(l) - top_bit(a);
            assert(has_bit(l, j - 1));
        }
    }
}

/// An address that begins with a child of `a` begins with `a`, and its next
/// bit is the last bit of the child.
proof fn lemma_walk_step(l: u64, a: u64, child: u64)
    requires
        a >= 1,
        l >= 1,
        top_bit(child) == top_bit(a) + 1,
        top_bit(child) <= top_bit(l) <= 63,
        child >> 1 == a,
        l >> ((top_bit(l) - top_bit(child)) as u64) == child,
    ensures
        l >> ((top_bit(l) - top_bit(a)) as u64) == a,
        has_bit(l, top_bit(l) - top_bit(a) - 1) == has_bit(child, 0),
{
    let j: u64 = (top_bit(l) - top_bit(child)) as u64;
    let up: u64 = (j + 1) as u64;
    assert(l >> up == a && ((l >> j) & 1 == 1) == ((child >> 0) & 1 == 1)) by (bit_vector)
        requires
            l >> j == child,
            child >> 1 == a,
            up == j + 1,
            j < 63,
    ;
}

/// Every address of the leaves of a well-formed graph resolves to the
/// weight one.
pub proof fn lemma_unit_address_weights(w: Seq<u64>, width: int, weights: Seq<i64>, i: int)
    requires
        well_formed(w, width),
        unit_weights(weights),
        1 <= present_count(w) <= MAX_ADDRESS_NODES,
        edge_count_spec(w) <= 63,
        0 <= i < leaf_addresses(w, 1).len(),
    ensures
        leaf_addresses(w, 1)[i] >= 1,
        address_weight(leaf_addresses(w, 1)[i], weights, present_count(w) as int) == Some(1int),
{
    let gs = present_count(w) as int;
    lemma_root_on_path(w, width);
    lemma_leaf_walks(w, width, 1, gs, all_nodes(gs), 0, weights, i);
}

/// The graph itself is on the path, with the address one and all nodes
/// valid.
proof fn lemma_root_on_path(w: Seq<u64>, width: int)
    requires
        well_formed(w, width),
        1 <= present_count(w) <= MAX_ADDRESS_NODES,
        edge_count_spec(w) <= 63,
    ensures
        on_path(w, 1, present_count(w) as int, all_nodes(present_count(w) as int), 0),
        top_bit(1) == 0,
        right_turns(1) == 0,
{
    let gs = present_count(w) as int;
    assert((1u64 >> 0) & 1 == 1 && 1u64 >> 1 == 0) by (bit_vector);
    lemma_top_bit_below(1, 0);
    assert(popcount(1) == 1) by {
        assert(popcount(1) == 1 + popcount(0));
    }
    lemma_rows_of_all_nodes(gs, 0);
    lemma_edge_bound(w, width);
    let e = edge_count_spec(w) as int;
    assert(e + 1 <= gs * (gs + 1)) by (nonlinear_arith)
        requires
            e <= gs * gs - gs,
            gs >= 1,
    ;
}

/// What two lists of addresses add, one after the other.
proof fn lemma_addresses_concat(
    first: Seq<u64>,
    second: Seq<u64>,
    weights: Seq<i64>,
    gs: int,
    n: int,
    k: int,
)
    requires
        0 <= n <= second.len(),
    ensures
        addresses_coefficient(first + second, weights, gs, first.len() + n, k)
            == addresses_coefficient(first, weights, gs, first.len() as int, k)
            + addresses_coefficient(second, weights, gs, n, k),
    decreases n,
{
    let both = first + second;
    if n > 0 {
        lemma_addresses_concat(first, second, weights, gs, n - 1, k);
        assert(both[first.len() + n - 1] == second[n - 1]);
    } else {
        lemma_addresses_prefix(first, both, weights, gs, first.len() as int, k);
    }
}

/// The first addresses of a list add what they add on their own.
proof fn lemma_addresses_prefix(
    first: Seq<u64>,
    both: Seq<u64>,
    weights: Seq<i64>,
    gs: int,
    n: int,
    k: int,
)
    requires
        0 <= n <= first.len() <= both.len(),
        forall|i: int| 0 <= i < first.len() ==> first[i] == both[i],
    ensures
        addresses_coefficient(both, weights, gs, n, k) == addresses_coefficient(
            first,
            weights,
            gs,
            n,
            k,
        ),
    decreases n,
{
    if n > 0 {
        lemma_addresses_prefix(first, both, weights, gs, n - 1, k);
    }
}

/// Where every address of the leaves below a graph has the weight one, the
/// addresses add up to the matching polynomial of the graph.
proof fn lemma_addresses_sum(
    w: Seq<u64>,
    width: int,
    a: u64,
    gs: int,
    weights: Seq<i64>,
    k: int,
)
    requires
        well_formed(w, width),
        a >= 1,
        present_count(w) + 2 * right_turns(a) == gs,
        top_bit(a) + edge_count_spec(w) <= 63,
        0 <= k,
        forall|i: int|
            0 <= i < leaf_addresses(w, a).len() ==> address_weight(
                #[trigger] leaf_addresses(w, a)[i],
                weights,
                gs,
            ) == Some(1int),
    ensures
        addresses_coefficient(
            leaf_addresses(w, a),
            weights,
            gs,
            leaf_addresses(w, a).len() as int,
            k,
        ) == matching_coefficient(w, k as nat),
        forall|i: int|
            0 <= i < leaf_addresses(w, a).len() ==> address_index(
                #[trigger] leaf_addresses(w, a)[i],
                gs,
            ) >= 0,
    decreases total_bits(w),
{
    let all = leaf_addresses(w, a);
    if edgeless_spec(w) {
        lemma_leaf_index_counts_nodes(w, width);
        assert(addresses_coefficient(all, weights, gs, 1, k) == addresses_coefficient(
            all,
            weights,
            gs,
            0,
            k,
        ) + if address_index(all[0], gs) == k {
            address_weight(all[0], weights, gs).unwrap()
        } else {
            0
        });
    } else {
        lemma_without_edge_bits(w);
        lemma_without_endpoints_bits(w);
        lemma_primes_well_formed(w, width);
        lemma_edges_decrease(w, width);
        lemma_top_low(a);
        lemma_child_addresses(a);
        let g1 = without_edge(w);
        let g2 = without_endpoints(w);
        let right = leaf_addresses(g2, right_address(a));
        let left = leaf_addresses(g1, left_address(a));
        assert(all == right + left);
        assert forall|i: int| 0 <= i < right.len() implies address_weight(
            #[trigger] right[i],
            weights,
            gs,
        ) == Some(1int) by {
            assert(all[i] == right[i]);
        }
        assert forall|i: int| 0 <= i < left.len() implies address_weight(
            #[trigger] left[i],
            weights,
            gs,
        ) == Some(1int) by {
            assert(all[right.len() + i] == left[i]);
        }
        lemma_addresses_sum(g2, width, right_address(a), gs, weights, k);
        lemma_addresses_sum(g1, width, left_address(a), gs, weights, k);
        lemma_addresses_concat(right, left, weights, gs, left.len() as int, k);
        assert forall|i: int| 0 <= i < all.len() implies address_index(#[trigger] all[i], gs)
            >= 0 by {
            if i < right.len() {
                assert(all[i] == right[i]);
            } else {
                assert(all[i] == left[i - right.len()]);
            }
        }
    }
}

/// With every weight one, the addresses of the leaves of a graph give its
/// matching polynomial: every address resolves, to the weight one, and the
/// weights add up, coefficient by coefficient, to the numbers of matchings.
pub proof fn lemma_unit_weight_addresses(w: Seq<u64>, width: int, weights: Seq<i64>, k: nat)
    requires
        well_formed(w, width),
        unit_weights(weights),
        1 <= present_count(w) <= MAX_ADDRESS_NODES,
        edge_count_spec(w) <= 63,
    ensures
        addresses_resolve(leaf_addresses(w, 1), weights, present_count(w) as int),
        addresses_coefficient(
            leaf_addresses(w, 1),
            weights,
            present_count(w) as int,
            leaf_addresses(w, 1).len() as int,
            k as int,
        ) == matching_coefficient(w, k),
{
    let gs = present_count(w) as int;
    let all = leaf_addresses(w, 1);
    lemma_root_on_path(w, width);
    assert forall|i: int| 0 <= i < all.len() implies (#[trigger] all[i]) >= 1 && address_weight(
        all[i],
        weights,
        gs,
    ) == Some(1int) by {
        lemma_unit_address_weights(w, width, weights, i);
    }
    lemma_addresses_sum(w, width, 1, gs, weights, k as int);
}

/// Where every address of the leaves below a graph has the weight one, the
/// walk of the recursion adds up the matching polynomial of the graph.
proof fn lemma_engine_sum(w: Seq<u64>, a: u64, gs: int, weights: Seq<i64>, k: int)
    requires
        0 <= k,
        forall|i: int|
            0 <= i < leaf_addresses(w, a).len() ==> (#[trigger] leaf_addresses(w, a)[i]) >= 1
                && address_weight(leaf_addresses(w, a)[i], weights, gs) == Some(1int),
    ensures
        address_engine_resolves(w, a, weights, gs),
        address_engine_coefficient(w, a, weights, gs, k) == matching_coefficient(w, k as nat),
        address_engine_weight(w, a, weights, gs, k) == matching_coefficient(w, k as nat),
    decreases total_bits(w),
{
    let all = leaf_addresses(w, a);
    if edgeless_spec(w) {
        assert(all[0] == a);
    } else {
        lemma_without_edge_bits(w);
        lemma_without_endpoints_bits(w);
        let g1 = without_edge(w);
        let g2 = without_endpoints(w);
        let right = leaf_addresses(g2, right_address(a));
        let left = leaf_addresses(g1, left_address(a));
        assert(all == right + left);
        assert forall|i: int| 0 <= i < right.len() implies (#[trigger] right[i]) >= 1
            && address_weight(right[i], weights, gs) == Some(1int) by {
            assert(all[i] == right[i]);
        }
        assert forall|i: int| 0 <= i < left.len() implies (#[trigger] left[i]) >= 1
            && address_weight(left[i], weights, gs) == Some(1int) by {
            assert(all[right.len() + i] == left[i]);
        }
        lemma_engine_sum(g2, right_address(a), gs, weights, k);
        lemma_engine_sum(g1, left_address(a), gs, weights, k);
    }
}

/// With every weight one, the walk of the recursion with addresses gives
/// the matching polynomial: every leaf resolves, to the weight one.
pub proof fn lemma_unit_weight_engine(w: Seq<u64>, width: int, weights: Seq<i64>, k: nat)
    requires
        well_formed(w, width),
        unit_weights(weights),
        1 <= present_count(w) <= MAX_ADDRESS_NODES,
        edge_count_spec(w) <= 63,
    ensures
        address_engine_resolves(w, 1, weights, present_count(w) as int),
        address_engine_coefficient(w, 1, weights, present_count(w) as int, k as int)
            == matching_coefficient(w, k),
        address_engine_weight(w, 1, weights, present_count(w) as int, k as int)
            == matching_coefficient(w, k),
{
    let gs = present_count(w) as int;
    let all = leaf_addresses(w, 1);
    assert forall|i: int| 0 <= i < all.len() implies (#[trigger] all[i]) >= 1 && address_weight(
        all[i],
        weights,
        gs,
    ) == Some(1int) by {
        lemma_unit_address_weights(w, width, weights, i);
    }
    lemma_engine_sum(w, 1, gs, weights, k as int);
}

} // verus!
