//! The weighted matching polynomial from the addresses of the leaves of the
//! recursion.
//!
//! An address is read from the bit below its highest bit, the cap, down to
//! bit zero.  A set bit is a step into the edge-deletion branch and only
//! counts; a clear bit is a step into the vertex-deletion branch and takes a
//! weight from the matrix: the rows of the nodes that are still valid are
//! scanned in rising order, each from its last column to its first, and the
//! weight taken is the first one that is not zero after as many such weights
//! as set bits were counted.  Its row and its column then stop being valid.

use crate::binary_graph_matching::adaptive::magnitude;
use crate::binary_graph_matching::binary_representation::BinaryGraph;
use crate::bits::{
    has_bit, lemma_popcount_bound, lemma_popcount_le_length, lemma_shifted_down, lemma_single,
    lemma_top_low, lemma_zero_word, popcount, top_bit,
};
use crate::polynomials::algebra::fits_i64;
use crate::recurrence::{left_address, leaf_index, right_address};
use crate::traits::graph::Graph;
use crate::weighted_graph_matching::weighted_graphs::WEIGHT_COUNT;
use crate::words::{
    edgeless_spec, lemma_without_edge_bits, lemma_without_endpoints_bits, total_bits,
    within_capacity, without_edge, without_endpoints, MAX_NODES, POLY_SIZE,
};
use vstd::prelude::*;
use vstd::std_specs::bits::{
    axiom_u64_leading_zeros, axiom_u64_trailing_zeros, u64_trailing_zeros,
};

verus! {

/// Largest graph size that the address walk takes: the valid nodes are the
/// bits `0..=graph_size` of one word.
pub const MAX_ADDRESS_NODES: usize = 62;

/// Scans the columns below `col` of the row of `node`, last column first:
/// the index of the first weight that is not zero after `skip` such weights,
/// or else what is left of `skip` at the end of the row.
pub open spec fn row_scan(weights: Seq<i64>, gs: int, node: int, col: int, skip: int) -> (
    Option<int>,
    int,
)
    decreases col,
{
    if col <= 0 {
        (None, skip)
    } else {
        let i = node * gs + col - 1;
        if weights[i] != 0 {
            if skip == 0 {
                (Some(i), 0)
            } else {
                row_scan(weights, gs, node, col - 1, skip - 1)
            }
        } else {
            row_scan(weights, gs, node, col - 1, skip)
        }
    }
}

/// Scans the rows of the valid nodes from `node` up to `gs`: the index of
/// the weight found and the node in whose row it stands, or `None` where
/// the rows run out.
pub open spec fn next_weight(
    weights: Seq<i64>,
    gs: int,
    valid: u64,
    node: int,
    skip: int,
) -> Option<(int, int)>
    decreases gs + 1 - node,
{
    if node > gs {
        None
    } else if !has_bit(valid, node) {
        next_weight(weights, gs, valid, node + 1, skip)
    } else {
        let (found, rest) = row_scan(weights, gs, node, gs, skip);
        match found {
            Some(i) => Some((i, node)),
            None => next_weight(weights, gs, valid, node + 1, rest),
        }
    }
}

/// The valid nodes without `column` and `node`.
pub open spec fn strike(valid: u64, column: int, node: int) -> u64 {
    valid & !(1u64 << (column as u64)) & !(1u64 << (node as u64))
}

/// The nodes `0..=gs`, all valid.
pub open spec fn all_nodes(gs: int) -> u64 {
    ((1u64 << ((gs + 1) as u64)) - 1) as u64
}

/// Walks the bits below `bit` of `address`: the product of `acc` and the
/// weights taken, or `None` where a weight is not found or a product leaves
/// `i64`.
pub open spec fn address_walk(
    address: u64,
    bit: int,
    weights: Seq<i64>,
    gs: int,
    valid: u64,
    skip: int,
    acc: int,
) -> Option<int>
    decreases bit,
{
    if bit <= 0 {
        Some(acc)
    } else if has_bit(address, bit - 1) {
        address_walk(address, bit - 1, weights, gs, valid, skip + 1, acc)
    } else {
        match next_weight(weights, gs, valid, 0, skip) {
            None => None,
            Some((index, node)) => {
                let product = acc * weights[index];
                if fits_i64(product) {
                    address_walk(
                        address,
                        bit - 1,
                        weights,
                        gs,
                        strike(valid, index % gs, node),
                        0,
                        product,
                    )
                } else {
                    None
                }
            },
        }
    }
}

/// The weight of the path that `address` stands for.
pub open spec fn address_weight(address: u64, weights: Seq<i64>, gs: int) -> Option<int> {
    address_walk(address, top_bit(address), weights, gs, all_nodes(gs), 0, 1)
}

/// Number of clear bits below the cap: the steps into the vertex-deletion
/// branch.
pub open spec fn right_turns(address: u64) -> int {
    top_bit(address) + 1 - popcount(address)
}

/// The index of the coefficient that the leaf at `address` adds to.
pub open spec fn address_index(address: u64, gs: int) -> int {
    gs - 2 * right_turns(address)
}

/// What the first `n` addresses add to the coefficient of index `k`.
pub open spec fn addresses_coefficient(
    addresses: Seq<u64>,
    weights: Seq<i64>,
    gs: int,
    n: int,
    k: int,
) -> int
    decreases n,
{
    if n <= 0 {
        0
    } else {
        addresses_coefficient(addresses, weights, gs, n - 1, k) + if address_index(
            addresses[n - 1],
            gs,
        ) == k {
            address_weight(addresses[n - 1], weights, gs).unwrap()
        } else {
            0
        }
    }
}

/// Every address has a cap, a weight and an index that is not negative.
pub open spec fn addresses_resolve(addresses: Seq<u64>, weights: Seq<i64>, gs: int) -> bool {
    forall|i: int|
        0 <= i < addresses.len() ==> (#[trigger] addresses[i]) >= 1 && address_weight(
            addresses[i],
            weights,
            gs,
        ) is Some && address_index(addresses[i], gs) >= 0
}

/// Every coefficient fits an `i64` after every address.
pub open spec fn addresses_fit(addresses: Seq<u64>, weights: Seq<i64>, gs: int) -> bool {
    forall|n: int, k: int|
        0 <= n <= addresses.len() && 0 <= k < POLY_SIZE ==> fits_i64(
            #[trigger] addresses_coefficient(addresses, weights, gs, n, k),
        )
}

/// What the leaves below `w` add to the coefficient of index `k`, each the
/// weight of its address.
pub open spec fn address_engine_coefficient(
    w: Seq<u64>,
    address: u64,
    weights: Seq<i64>,
    gs: int,
    k: int,
) -> int
    decreases total_bits(w),
    via address_engine_coefficient_decreases
{
    if edgeless_spec(w) {
        if k == leaf_index(w) {
            address_weight(address, weights, gs).unwrap()
        } else {
            0
        }
    } else {
        address_engine_coefficient(without_endpoints(w), right_address(address), weights, gs, k)
            + address_engine_coefficient(without_edge(w), left_address(address), weights, gs, k)
    }
}

#[via_fn]
proof fn address_engine_coefficient_decreases(
    w: Seq<u64>,
    address: u64,
    weights: Seq<i64>,
    gs: int,
    k: int,
) {
    if !edgeless_spec(w) {
        lemma_without_edge_bits(w);
        lemma_without_endpoints_bits(w);
    }
}

/// The sum of the magnitudes of what the leaves below `w` add to the
/// coefficient of index `k`: a bound on every partial sum.
pub open spec fn address_engine_weight(
    w: Seq<u64>,
    address: u64,
    weights: Seq<i64>,
    gs: int,
    k: int,
) -> nat
    decreases total_bits(w),
    via address_engine_weight_decreases
{
    if edgeless_spec(w) {
        if k == leaf_index(w) {
            magnitude(address_weight(address, weights, gs).unwrap())
        } else {
            0
        }
    } else {
        address_engine_weight(without_endpoints(w), right_address(address), weights, gs, k)
            + address_engine_weight(without_edge(w), left_address(address), weights, gs, k)
    }
}

#[via_fn]
proof fn address_engine_weight_decreases(
    w: Seq<u64>,
    address: u64,
    weights: Seq<i64>,
    gs: int,
    k: int,
) {
    if !edgeless_spec(w) {
        lemma_without_edge_bits(w);
        lemma_without_endpoints_bits(w);
    }
}

/// Every leaf below `w` has an address with a cap and a weight.
pub open spec fn address_engine_resolves(
    w: Seq<u64>,
    address: u64,
    weights: Seq<i64>,
    gs: int,
) -> bool
    decreases total_bits(w),
    via address_engine_resolves_decreases
{
    if edgeless_spec(w) {
        address >= 1 && address_weight(address, weights, gs) is Some
    } else {
        address_engine_resolves(without_endpoints(w), right_address(address), weights, gs)
            && address_engine_resolves(without_edge(w), left_address(address), weights, gs)
    }
}

#[via_fn]
proof fn address_engine_resolves_decreases(w: Seq<u64>, address: u64, weights: Seq<i64>, gs: int) {
    if !edgeless_spec(w) {
        lemma_without_edge_bits(w);
        lemma_without_endpoints_bits(w);
    }
}

pub proof fn lemma_address_engine_bound(
    w: Seq<u64>,
    address: u64,
    weights: Seq<i64>,
    gs: int,
    k: int,
)
    ensures
        magnitude(address_engine_coefficient(w, address, weights, gs, k)) <= address_engine_weight(
            w,
            address,
            weights,
            gs,
            k,
        ),
    decreases total_bits(w),
{
    if !edgeless_spec(w) {
        lemma_without_edge_bits(w);
        lemma_without_endpoints_bits(w);
        lemma_address_engine_bound(without_endpoints(w), right_address(address), weights, gs, k);
        lemma_address_engine_bound(without_edge(w), left_address(address), weights, gs, k);
    }
}

/// The first valid node at or above `from`, as the trailing zeros of the
/// shifted word give it.
proof fn lemma_next_valid(valid: u64, from: u64)
    requires
        from < 64,
    ensures
        ({
            let t = u64_trailing_zeros(valid >> from) as int;
            &&& forall|j: int| from <= j < from + t && j < 64 ==> !has_bit(valid, j)
            &&& (t < 64 ==> from + t < 64 && has_bit(valid, from + t))
            &&& 0 <= t <= 64
        }),
{
    let x = valid >> from;
    axiom_u64_trailing_zeros(x);
    let t: u64 = u64_trailing_zeros(x) as u64;
    if t < 64 {
        lemma_shifted_down(valid, from, t);
    }
    assert forall|j: int| from <= j < from + t && j < 64 implies !has_bit(valid, j) by {
        let d: u64 = (j - from) as u64;
        assert((x >> d) & 1 == 0);
        lemma_shifted_down(valid, from, d);
    }
}

/// Nodes that are not valid are passed over.
proof fn lemma_skip_invalid(weights: Seq<i64>, gs: int, valid: u64, from: int, to: int, skip: int)
    requires
        0 <= from <= to,
        forall|j: int| from <= j < to && j < 64 ==> !has_bit(valid, j),
        gs < 64,
    ensures
        to <= gs ==> next_weight(weights, gs, valid, from, skip) == next_weight(
            weights,
            gs,
            valid,
            to,
            skip,
        ),
        to > gs ==> next_weight(weights, gs, valid, from, skip) is None,
    decreases to - from,
{
    if from < to && from <= gs {
        lemma_skip_invalid(weights, gs, valid, from + 1, to, skip);
    }
}

/// Takes the next weight for a step into the vertex-deletion branch and
/// strikes its row and column from the valid nodes.
fn get_next_weight(
    weights: &[i64; WEIGHT_COUNT],
    weights_to_skip: usize,
    graph_size: usize,
    valid_nodes: &mut u64,
) -> (r: i64)
    requires
        1 <= graph_size <= MAX_ADDRESS_NODES,
        next_weight(weights@, graph_size as int, *old(valid_nodes), 0, weights_to_skip as int)
            is Some,
    ensures
        ({
            let (index, node) = next_weight(
                weights@,
                graph_size as int,
                *old(valid_nodes),
                0,
                weights_to_skip as int,
            ).unwrap();
            &&& 0 <= index < WEIGHT_COUNT
            &&& r == weights@[index]
            &&& *final(valid_nodes) == strike(*old(valid_nodes), index % (graph_size as int), node)
        }),
{
    let valid: u64 = *valid_nodes;
    let ghost ws = weights@;
    let ghost gs = graph_size as int;
    let ghost total = weights_to_skip as int;
    let mut skipped_weights: usize = 0;
    let mut current_node: usize = valid.trailing_zeros() as usize;
    proof {
        lemma_zero_word(valid, 0);
        lemma_next_valid(valid, 0);
        lemma_skip_invalid(ws, gs, valid, 0, current_node as int, total);
    }
    let mut index: usize = 0;
    let mut found: bool = false;
    while !found
        invariant
            1 <= graph_size <= MAX_ADDRESS_NODES,
            ws == weights@,
            gs == graph_size,
            total == weights_to_skip,
            next_weight(ws, gs, valid, 0, total) is Some,
            !found ==> current_node <= graph_size && has_bit(valid, current_node as int)
                && skipped_weights <= weights_to_skip && next_weight(ws, gs, valid, 0, total)
                == next_weight(ws, gs, valid, current_node as int, total - skipped_weights),
            found ==> current_node <= graph_size && index < WEIGHT_COUNT && next_weight(
                ws,
                gs,
                valid,
                0,
                total,
            ) == Some((index as int, current_node as int)),
        decreases
                if found {
                    0int
                } else {
                    graph_size + 1 - current_node
                },
    {
        assert(current_node * graph_size + graph_size < WEIGHT_COUNT) by (nonlinear_arith)
            requires
                current_node <= graph_size,
                graph_size <= 62,
        ;
        let low: usize = current_node * graph_size;
        let mut i: usize = low + graph_size;
        let ghost row_skip = total - skipped_weights;
        while i > low && !found
            invariant
                low <= i <= low + graph_size,
                low == current_node * graph_size,
                low + graph_size < WEIGHT_COUNT,
                ws == weights@,
                gs == graph_size,
                total == weights_to_skip,
                !found ==> skipped_weights <= weights_to_skip && row_scan(
                    ws,
                    gs,
                    current_node as int,
                    gs,
                    row_skip,
                ) == row_scan(ws, gs, current_node as int, i - low, total - skipped_weights),
                found ==> index < WEIGHT_COUNT && row_scan(
                    ws,
                    gs,
                    current_node as int,
                    gs,
                    row_skip,
                ) == (Some(index as int), 0int),
            decreases i,
        {
            i -= 1;
            assert(current_node as int * gs + (i + 1 - low) - 1 == i) by (nonlinear_arith)
                requires
                    low == current_node * graph_size,
                    gs == graph_size,
            ;
            if weights[i] != 0 {
                if skipped_weights == weights_to_skip {
                    index = i;
                    found = true;
                } else {
                    skipped_weights += 1;
                }
            }
        }
        if !found {
            proof {
                lemma_next_valid(valid, (current_node + 1) as u64);
            }
            let step: usize = (valid >> (current_node + 1)).trailing_zeros() as usize + 1;
            proof {
                lemma_skip_invalid(
                    ws,
                    gs,
                    valid,
                    current_node + 1,
                    current_node + step,
                    total - skipped_weights,
                );
            }
            current_node += step;
        }
    }
    assert(index as int % gs < gs);
    let column: usize = index % graph_size;
    // neither the column nor the row of the weight stays valid
    *valid_nodes = valid & !(1u64 << column) & !(1u64 << current_node);
    weights[index]
}

/// The weight of the path that `address` stands for: the product of the
/// weights taken at its clear bits.
pub fn weight_from_address(address: u64, weights: &[i64; WEIGHT_COUNT], graph_size: usize) -> (r:
    i64)
    requires
        address >= 1,
        1 <= graph_size <= MAX_ADDRESS_NODES,
        address_weight(address, weights@, graph_size as int) is Some,
    ensures
        r == address_weight(address, weights@, graph_size as int).unwrap(),
{
    let mut weight: i64 = 1;
    proof {
        axiom_u64_leading_zeros(address);
        lemma_top_low(address);
    }
    // the length of the address with its cap
    let address_len: usize = MAX_NODES - address.leading_zeros() as usize;
    if address_len < 2 {
        return weight;
    }
    let mut mask: u64 = 1u64 << (address_len - 2);
    proof {
        lemma_single((graph_size + 1) as u64, 0);
    }
    // all nodes; the walk strikes those that it removes
    let mut valid_nodes: u64 = (1u64 << (graph_size + 1)) - 1;
    let mut weights_to_skip: usize = 0;
    let ghost mut bit: int = address_len - 1;
    let ghost gs = graph_size as int;
    while mask > 0
        invariant
            1 <= graph_size <= MAX_ADDRESS_NODES,
            gs == graph_size,
            0 <= bit <= 63,
            weights_to_skip + bit <= 63,
            bit > 0 ==> mask == 1u64 << ((bit - 1) as u64),
            bit == 0 ==> mask == 0,
            address_walk(
                address,
                bit,
                weights@,
                gs,
                valid_nodes,
                weights_to_skip as int,
                weight as int,
            ) == address_weight(address, weights@, gs),
            address_weight(address, weights@, gs) is Some,
        decreases bit,
    {
        let ghost b: u64 = (bit - 1) as u64;
        proof {
            lemma_single(b, 0);
            assert(((address & mask != mask) <==> ((address >> b) & 1 != 1)) && mask >> 1 == if b
                > 0 {
                1u64 << ((b - 1) as u64)
            } else {
                0
            }) by (bit_vector)
                requires
                    mask == 1u64 << b,
                    b < 64,
            ;
        }
        let path_bit: u64 = address & mask;
        if path_bit != mask {
            // a step into the vertex-deletion branch
            let next: i64 = get_next_weight(weights, weights_to_skip, graph_size, &mut valid_nodes);
            weight = weight * next;
            weights_to_skip = 0;
        } else {
            weights_to_skip += 1;
        }
        proof {
            bit = bit - 1;
        }
        mask = mask >> 1;
    }
    proof {
        if bit > 0 {
            lemma_single((bit - 1) as u64, 0);
        }
    }
    weight
}

/// The weighted matching polynomial from the addresses of the leaves: each
/// address adds its weight to the coefficient whose index is the graph size
/// less two for every step into the vertex-deletion branch.
pub fn weighted_matching_polynomial_from_addresses(
    addresses: Vec<u64>,
    weights: &[i64; WEIGHT_COUNT],
    graph_size: usize,
) -> (poly: [i64; POLY_SIZE])
    requires
        1 <= graph_size <= MAX_ADDRESS_NODES,
        addresses_resolve(addresses@, weights@, graph_size as int),
        addresses_fit(addresses@, weights@, graph_size as int),
    ensures
        forall|k: int|
            0 <= k < POLY_SIZE ==> poly@[k] == addresses_coefficient(
                addresses@,
                weights@,
                graph_size as int,
                addresses@.len() as int,
                k,
            ),
{
    let mut poly: [i64; POLY_SIZE] = [0;POLY_SIZE];
    let ghost gs = graph_size as int;
    let mut n: usize = 0;
    while n < addresses.len()
        invariant
            n <= addresses.len(),
            1 <= graph_size <= MAX_ADDRESS_NODES,
            gs == graph_size,
            addresses_resolve(addresses@, weights@, gs),
            addresses_fit(addresses@, weights@, gs),
            forall|k: int|
                0 <= k < POLY_SIZE ==> poly@[k] == addresses_coefficient(
                    addresses@,
                    weights@,
                    gs,
                    n as int,
                    k,
                ),
        decreases addresses.len() - n,
    {
        let address: u64 = addresses[n];
        proof {
            assert(addresses@[n as int] >= 1);
            axiom_u64_leading_zeros(address);
            lemma_top_low(address);
            lemma_popcount_bound(address);
            lemma_popcount_le_length(address);
        }
        // the clear bits below the cap
        let zeros: usize = (MAX_NODES - address.leading_zeros() as usize)
            - address.count_ones() as usize;
        let coefficient: usize = graph_size - 2 * zeros;
        let weight: i64 = weight_from_address(address, weights, graph_size);
        proof {
            assert(fits_i64(
                addresses_coefficient(addresses@, weights@, gs, n + 1, coefficient as int),
            ));
        }
        poly[coefficient] = poly[coefficient] + weight;
        n += 1;
    }
    poly
}

/// The weighted matching polynomial of `graph` by walking the recursion and
/// resolving the weight of every leaf from its address.
pub fn weighted_matching_polynomial_addresses(
    graph: BinaryGraph,
    weights: &[i64; WEIGHT_COUNT],
) -> (poly: [i64; POLY_SIZE])
    requires
        within_capacity(graph.words()),
        1 <= graph.initial_size() <= MAX_ADDRESS_NODES,
        address_engine_resolves(graph.words(), 1, weights@, graph.initial_size() as int),
        forall|k: int|
            0 <= k < POLY_SIZE ==> address_engine_weight(
                graph.words(),
                1,
                weights@,
                graph.initial_size() as int,
                k,
            ) <= i64::MAX,
    ensures
        forall|k: int|
            0 <= k < POLY_SIZE ==> poly@[k] == address_engine_coefficient(
                graph.words(),
                1,
                weights@,
                graph.initial_size() as int,
                k,
            ),
{
    let mut poly: [i64; POLY_SIZE] = [0;POLY_SIZE];
    let address: u64 = 1;
    _calculate_weighted_matching_polynomial_static_addresses(graph, weights, &mut poly, address);
    poly
}

/// Adds to `poly` the weights of the leaves below `graph`.
pub fn _calculate_weighted_matching_polynomial_static_addresses<T: Graph>(
    graph: T,
    weights: &[i64; WEIGHT_COUNT],
    poly: &mut [i64; POLY_SIZE],
    current_address: u64,
)
    requires
        within_capacity(graph.words()),
        1 <= graph.initial_size() <= MAX_ADDRESS_NODES,
        address_engine_resolves(
            graph.words(),
            current_address,
            weights@,
            graph.initial_size() as int,
        ),
        forall|k: int|
            0 <= k < POLY_SIZE ==> i64::MIN < old(poly)@[k] - address_engine_weight(
                graph.words(),
                current_address,
                weights@,
                graph.initial_size() as int,
                k,
            ) && old(poly)@[k] + address_engine_weight(
                graph.words(),
                current_address,
                weights@,
                graph.initial_size() as int,
                k,
            ) <= i64::MAX,
    ensures
        forall|k: int|
            0 <= k < POLY_SIZE ==> final(poly)@[k] == old(poly)@[k] + address_engine_coefficient(
                graph.words(),
                current_address,
                weights@,
                graph.initial_size() as int,
                k,
            ),
    decreases total_bits(graph.words()),
{
    let ghost w = graph.words();
    let ghost gs = graph.initial_size() as int;
    if graph.edgeless() {
        let node_count: usize = graph.edgeless_node_count();
        let weight: i64 = weight_from_address(current_address, weights, graph.initial_graph_size());
        proof {
            assert(address_engine_weight(w, current_address, weights@, gs, node_count as int)
                == magnitude(weight as int));
        }
        poly[node_count] = poly[node_count] + weight;
    } else {
        proof {
            lemma_without_edge_bits(w);
            lemma_without_endpoints_bits(w);
            assert forall|k: int| 0 <= k < POLY_SIZE implies magnitude(
                #[trigger] address_engine_coefficient(
                    without_endpoints(w),
                    right_address(current_address),
                    weights@,
                    gs,
                    k,
                ),
            ) <= address_engine_weight(
                without_endpoints(w),
                right_address(current_address),
                weights@,
                gs,
                k,
            ) && address_engine_weight(w, current_address, weights@, gs, k)
                == address_engine_weight(
                without_endpoints(w),
                right_address(current_address),
                weights@,
                gs,
                k,
            ) + address_engine_weight(
                without_edge(w),
                left_address(current_address),
                weights@,
                gs,
                k,
            ) by {
                lemma_address_engine_bound(
                    without_endpoints(w),
                    right_address(current_address),
                    weights@,
                    gs,
                    k,
                );
            }
        }
        let (graph_prime, graph_prime_prime) = graph.get_graph_primes();
        _calculate_weighted_matching_polynomial_static_addresses(
            graph_prime_prime,
            weights,
            poly,
            current_address << 1,
        );
        _calculate_weighted_matching_polynomial_static_addresses(
            graph_prime,
            weights,
            poly,
            (current_address << 1) | 1,
        );
    }
}

} // verus!
