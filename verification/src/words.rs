//! The adjacency words of a bit-packed graph as a mathematical sequence, the
//! edge/vertex deletion step on them, and the executable primitives that the
//! graph types share.
//!
//! Word `i` is non-zero exactly when node `i` is present.  Its highest set
//! bit is the node's presence bit; every lower set bit is an edge to a node
//! with a larger index, the lowest bit standing for the last node.

use crate::bits::{
    clear_bit, has_bit, lemma_has_bit_cleared, lemma_has_bit_nonzero, lemma_popcount_and,
    lemma_popcount_bound, lemma_popcount_clear_bit, lemma_top_low, lemma_zero_word, low_bit,
    popcount, top_bit,
};
use vstd::prelude::*;
use vstd::std_specs::bits::{axiom_u64_leading_zeros, axiom_u64_trailing_zeros};

verus! {

/// Number of node slots of a graph.
pub const MAX_NODES: usize = 64;

/// Number of coefficients of a polynomial buffer: one per possible count of
/// unmatched nodes, `0..=MAX_NODES`.
pub const POLY_SIZE: usize = 65;

/// The raw adjacency words of a graph.
pub type GraphData = [u64; MAX_NODES];

/// No word has more than its presence bit.
pub open spec fn edgeless_spec(w: Seq<u64>) -> bool {
    forall|i: int| 0 <= i < w.len() ==> popcount(#[trigger] w[i]) <= 1
}

/// Number of set bits over all words.
pub open spec fn total_bits(w: Seq<u64>) -> nat
    decreases w.len(),
{
    if w.len() == 0 {
        0
    } else {
        total_bits(w.drop_last()) + popcount(w.last())
    }
}

/// Number of non-zero words: the nodes that are present.
pub open spec fn present_count(w: Seq<u64>) -> nat
    decreases w.len(),
{
    if w.len() == 0 {
        0
    } else {
        present_count(w.drop_last()) + if w.last() != 0 {
            1nat
        } else {
            0nat
        }
    }
}

/// Bitwise OR of all words.
pub open spec fn union_bits(w: Seq<u64>) -> u64
    decreases w.len(),
{
    if w.len() == 0 {
        0
    } else {
        union_bits(w.drop_last()) | w.last()
    }
}

/// Number of edge bits: every set bit that is not the presence bit of a
/// non-zero word.
pub open spec fn edge_count_spec(w: Seq<u64>) -> nat {
    (total_bits(w) - present_count(w)) as nat
}

/// Every non-zero word `i` lies below bit `64 - i`, so that the node indices
/// derived from its bit positions stay below `MAX_NODES`.
pub open spec fn within_capacity(w: Seq<u64>) -> bool {
    &&& w.len() == MAX_NODES
    &&& forall|i: int| 0 <= i < w.len() && #[trigger] w[i] != 0 ==> i + top_bit(w[i]) < 64
}

/// `i` is the first node that has an edge.
pub open spec fn is_first_branching(w: Seq<u64>, i: int) -> bool {
    &&& 0 <= i < w.len()
    &&& popcount(w[i]) >= 2
    &&& forall|j: int| 0 <= j < i ==> popcount(#[trigger] w[j]) <= 1
}

pub open spec fn first_branching(w: Seq<u64>) -> int {
    choose|i: int| is_first_branching(w, i)
}

/// The edge that the deletion step works on, as `(start, end, size)`:
/// `start` is the first node with an edge, `end` the last neighbour of
/// `start`, and `size` the width of the encoding as the start word shows it.
pub open spec fn relevant_edge_spec(w: Seq<u64>) -> (int, int, int) {
    let s = first_branching(w);
    let size = s + top_bit(w[s]) + 1;
    (s, size - 1 - low_bit(w[s]), size)
}

/// The bit that stands for `node` in an encoding of width `size`.
pub open spec fn column_of(node: int, size: int) -> int {
    if size >= node + 1 {
        size - node - 1
    } else {
        0
    }
}

pub open spec fn remove_edge_spec(w: Seq<u64>, node1: int, node2: int, size: int) -> Seq<u64> {
    w.update(node1, clear_bit(w[node1], size - node2 - 1))
}

pub open spec fn remove_node_spec(w: Seq<u64>, node: int, size: int) -> Seq<u64> {
    Seq::new(
        w.len(),
        |i: int|
            if i == node {
                0u64
            } else {
                clear_bit(w[i], column_of(node, size))
            },
    )
}

/// `G - e`: the graph without the relevant edge.
pub open spec fn without_edge(w: Seq<u64>) -> Seq<u64> {
    let (s, e, size) = relevant_edge_spec(w);
    remove_edge_spec(w, s, e, size)
}

/// `G - {u, v}`: the graph without the two ends of the relevant edge.
pub open spec fn without_endpoints(w: Seq<u64>) -> Seq<u64> {
    let (s, e, size) = relevant_edge_spec(w);
    remove_node_spec(remove_node_spec(w, s, size), e, size)
}

pub proof fn lemma_total_bits_take(w: Seq<u64>, i: int)
    requires
        0 <= i < w.len(),
    ensures
        total_bits(w.take(i + 1)) == total_bits(w.take(i)) + popcount(w[i]),
        present_count(w.take(i + 1)) == present_count(w.take(i)) + if w[i] != 0 {
            1nat
        } else {
            0nat
        },
        union_bits(w.take(i + 1)) == union_bits(w.take(i)) | w[i],
        w.take(w.len() as int) == w,
        total_bits(w.take(0)) == 0,
        present_count(w.take(0)) == 0,
        union_bits(w.take(0)) == 0,
{
    assert(w.take(i + 1).drop_last() == w.take(i));
}

/// A present node contributes at least its presence bit.
pub proof fn lemma_present_le_total(w: Seq<u64>)
    ensures
        present_count(w) <= total_bits(w),
    decreases w.len(),
{
    if w.len() > 0 {
        lemma_present_le_total(w.drop_last());
        lemma_popcount_bound(w.last());
    }
}

/// Pointwise fewer bits give fewer bits in total, strictly fewer by the
/// difference at any one index.
pub proof fn lemma_total_bits_monotone(a: Seq<u64>, b: Seq<u64>, at: int)
    requires
        a.len() == b.len(),
        0 <= at < a.len(),
        forall|i: int| 0 <= i < a.len() ==> popcount(#[trigger] a[i]) <= popcount(b[i]),
    ensures
        total_bits(a) + popcount(b[at]) <= total_bits(b) + popcount(a[at]),
    decreases a.len(),
{
    let a1 = a.drop_last();
    let b1 = b.drop_last();
    if at == a.len() - 1 {
        lemma_total_bits_le(a1, b1);
    } else {
        lemma_total_bits_monotone(a1, b1, at);
    }
}

pub proof fn lemma_total_bits_le(a: Seq<u64>, b: Seq<u64>)
    requires
        a.len() == b.len(),
        forall|i: int| 0 <= i < a.len() ==> popcount(#[trigger] a[i]) <= popcount(b[i]),
    ensures
        total_bits(a) <= total_bits(b),
    decreases a.len(),
{
    if a.len() > 0 {
        lemma_total_bits_le(a.drop_last(), b.drop_last());
    }
}

/// Words that are present only where those of another graph are count no
/// more nodes.
pub proof fn lemma_present_count_le(a: Seq<u64>, b: Seq<u64>)
    requires
        a.len() == b.len(),
        forall|i: int| 0 <= i < a.len() && #[trigger] a[i] != 0 ==> b[i] != 0,
    ensures
        present_count(a) <= present_count(b),
    decreases a.len(),
{
    if a.len() > 0 {
        lemma_present_count_le(a.drop_last(), b.drop_last());
    }
}

/// Zeroing two present words takes two from the number of nodes.
pub proof fn lemma_present_count_without_two(a: Seq<u64>, b: Seq<u64>, s: int, e: int, n: int)
    requires
        a.len() == b.len(),
        0 <= n <= a.len(),
        0 <= s < a.len(),
        0 <= e < a.len(),
        s != e,
        a[s] != 0,
        a[e] != 0,
        forall|i: int|
            0 <= i < a.len() ==> (#[trigger] b[i] != 0 <==> (a[i] != 0 && i != s && i != e)),
    ensures
        present_count(b.take(n)) + (if s < n {
            1nat
        } else {
            0nat
        }) + (if e < n {
            1nat
        } else {
            0nat
        }) == present_count(a.take(n)),
    decreases n,
{
    if n > 0 {
        lemma_present_count_without_two(a, b, s, e, n - 1);
        lemma_total_bits_take(a, n - 1);
        lemma_total_bits_take(b, n - 1);
        assert(b[n - 1] != 0 <==> (a[n - 1] != 0 && n - 1 != s && n - 1 != e));
    } else {
        lemma_total_bits_take(a, 0);
        lemma_total_bits_take(b, 0);
    }
}

/// A graph with an edge has a first node with an edge.
pub proof fn lemma_first_branching(w: Seq<u64>)
    requires
        !edgeless_spec(w),
    ensures
        is_first_branching(w, first_branching(w)),
{
    let i = choose|i: int| 0 <= i < w.len() && popcount(#[trigger] w[i]) > 1;
    lemma_least_branching(w, i);
}

proof fn lemma_least_branching(w: Seq<u64>, i: int)
    requires
        0 <= i < w.len(),
        popcount(w[i]) >= 2,
    ensures
        exists|j: int| is_first_branching(w, j),
    decreases i,
{
    if exists|j: int| 0 <= j < i && popcount(#[trigger] w[j]) >= 2 {
        let j = choose|j: int| 0 <= j < i && popcount(#[trigger] w[j]) >= 2;
        lemma_least_branching(w, j);
    } else {
        assert(is_first_branching(w, i));
    }
}

/// The first node with an edge is the only index that meets its definition.
pub proof fn lemma_first_branching_unique(w: Seq<u64>, i: int)
    requires
        is_first_branching(w, i),
    ensures
        first_branching(w) == i,
{
    let j = first_branching(w);
    if j < i {
        assert(popcount(w[j]) <= 1);
    }
    if i < j {
        assert(popcount(w[i]) <= 1);
    }
}

/// The relevant edge of a graph with an edge joins two distinct nodes, the
/// start before the end, and the start word holds the bits of both.
pub proof fn lemma_relevant_edge(w: Seq<u64>)
    requires
        !edgeless_spec(w),
    ensures
        ({
            let (s, e, size) = relevant_edge_spec(w);
            &&& is_first_branching(w, s)
            &&& 0 <= s < e < size
            &&& size - s - 1 == top_bit(w[s])
            &&& size - e - 1 == low_bit(w[s])
            &&& 0 <= low_bit(w[s]) < top_bit(w[s]) < 64
            &&& has_bit(w[s], low_bit(w[s]))
            &&& has_bit(w[s], top_bit(w[s]))
            &&& (within_capacity(w) ==> size <= 64)
        }),
{
    lemma_first_branching(w);
    let s = first_branching(w);
    lemma_popcount_bound(w[s]);
    lemma_top_low(w[s]);
}

/// Deleting the relevant edge removes exactly one bit.
pub proof fn lemma_without_edge_bits(w: Seq<u64>)
    requires
        !edgeless_spec(w),
    ensures
        total_bits(without_edge(w)) + 1 == total_bits(w),
        without_edge(w).len() == w.len(),
        within_capacity(w) ==> within_capacity(without_edge(w)),
        present_count(without_edge(w)) <= present_count(w),
{
    lemma_relevant_edge(w);
    let (s, e, size) = relevant_edge_spec(w);
    let x = w[s];
    let k: u64 = low_bit(x) as u64;
    lemma_popcount_clear_bit(x, k);
    let g = without_edge(w);
    assert(g[s] == x & !(1u64 << k));
    assert forall|i: int| 0 <= i < g.len() implies popcount(#[trigger] g[i]) <= popcount(w[i]) by {}
    lemma_total_bits_monotone(g, w, s);
    assert forall|i: int| 0 <= i < w.len() implies popcount(#[trigger] w[i]) <= popcount(g[i]) + (
    if i == s {
        1nat
    } else {
        0nat
    }) by {}
    lemma_total_bits_update(w, s, g[s]);
    lemma_cleared_within(x, k);
    lemma_present_count_le(g, w);
}

/// Replacing one word changes the total by the difference of the two.
pub proof fn lemma_total_bits_update(w: Seq<u64>, at: int, y: u64)
    requires
        0 <= at < w.len(),
    ensures
        total_bits(w.update(at, y)) + popcount(w[at]) == total_bits(w) + popcount(y),
    decreases w.len(),
{
    let u = w.update(at, y);
    if at == w.len() - 1 {
        assert(u.drop_last() == w.drop_last());
    } else {
        assert(u.drop_last() == w.drop_last().update(at, y));
        lemma_total_bits_update(w.drop_last(), at, y);
    }
}

/// Clearing bits never raises the highest set bit.
pub proof fn lemma_cleared_within(x: u64, k: u64)
    requires
        k < 64,
    ensures
        x & !(1u64 << k) != 0 ==> top_bit(x & !(1u64 << k)) <= top_bit(x),
        x & !(1u64 << k) != 0 ==> x != 0,
{
    let y = x & !(1u64 << k);
    if y != 0 {
        lemma_top_low(y);
        lemma_has_bit_cleared(x, k as int, top_bit(y));
        lemma_has_bit_nonzero(x, top_bit(y));
        lemma_top_low(x);
    }
}

/// Deleting the two ends of the relevant edge removes at least two bits.
pub proof fn lemma_without_endpoints_bits(w: Seq<u64>)
    requires
        !edgeless_spec(w),
    ensures
        total_bits(without_endpoints(w)) + 2 <= total_bits(w),
        without_endpoints(w).len() == w.len(),
        within_capacity(w) ==> within_capacity(without_endpoints(w)),
        present_count(without_endpoints(w)) <= present_count(w),
{
    lemma_relevant_edge(w);
    let (s, e, size) = relevant_edge_spec(w);
    let g = without_endpoints(w);
    let cs: u64 = column_of(s, size) as u64;
    let ce: u64 = column_of(e, size) as u64;
    assert forall|i: int| 0 <= i < g.len() implies popcount(#[trigger] g[i]) <= popcount(w[i]) && (
    g[i] != 0 ==> w[i] != 0 && top_bit(g[i]) <= top_bit(w[i])) by {
        let m = w[i] & !(1u64 << cs);
        lemma_popcount_and(w[i], !(1u64 << cs));
        lemma_popcount_and(m, !(1u64 << ce));
        lemma_cleared_within(w[i], cs);
        lemma_cleared_within(m, ce);
        if i == s || i == e {
            lemma_zero_word(0, ce);
            assert(g[i] == 0);
        } else {
            assert(g[i] == m & !(1u64 << ce));
        }
    }
    lemma_zero_word(0, ce);
    assert(g[s] == 0);
    lemma_total_bits_monotone(g, w, s);
    lemma_present_count_le(g, w);
}

/// Whether a word is zero or a single presence bit.
pub fn word_is_isolated(x: u64) -> (r: bool)
    ensures
        r == (popcount(x) <= 1),
{
    if x == 0 {
        true
    } else {
        proof {
            lemma_top_low(x);
            let k: u64 = low_bit(x) as u64;
            let y = x & !(1u64 << k);
            lemma_popcount_clear_bit(x, k);
            lemma_popcount_bound(y);
            axiom_u64_trailing_zeros(x);
            assert(x & ((x - 1) as u64) == y) by (bit_vector)
                requires
                    x != 0,
                    k < 64,
                    (x >> k) & 1 == 1,
                    k == 0 || x << ((64 - k) as u64) == 0,
                    y == x & !(1u64 << k),
            ;
        }
        x & (x - 1) == 0
    }
}

/// Whether the graph has no edge: every word is zero or a power of two.
pub fn edgeless(data: &GraphData) -> (r: bool)
    ensures
        r == edgeless_spec(data@),
{
    let mut i: usize = 0;
    while i < MAX_NODES
        invariant
            i <= MAX_NODES,
            forall|j: int| 0 <= j < i ==> popcount(#[trigger] data@[j]) <= 1,
        decreases MAX_NODES - i,
    {
        if !word_is_isolated(data[i]) {
            return false;
        }
        i += 1;
    }
    true
}

/// Number of nodes of an edgeless graph: the set bits of the OR of all words.
pub fn edgeless_node_count(data: &GraphData) -> (r: usize)
    ensures
        r == popcount(union_bits(data@)),
        r <= MAX_NODES,
{
    let mut acc: u64 = 0;
    let mut i: usize = 0;
    while i < MAX_NODES
        invariant
            i <= MAX_NODES,
            acc == union_bits(data@.take(i as int)),
        decreases MAX_NODES - i,
    {
        proof {
            lemma_total_bits_take(data@, i as int);
        }
        acc = acc | data[i];
        i += 1;
    }
    proof {
        lemma_total_bits_take(data@, 0);
        lemma_popcount_bound(acc);
    }
    acc.count_ones() as usize
}

/// Number of nodes that are present: the non-zero words.
pub fn graph_size(data: &GraphData) -> (r: usize)
    ensures
        r == present_count(data@),
        r <= MAX_NODES,
{
    let mut count: usize = 0;
    let mut i: usize = 0;
    while i < MAX_NODES
        invariant
            i <= MAX_NODES,
            count == present_count(data@.take(i as int)),
            count <= i,
        decreases MAX_NODES - i,
    {
        proof {
            lemma_total_bits_take(data@, i as int);
        }
        if data[i] > 0 {
            count += 1;
        }
        i += 1;
    }
    proof {
        lemma_total_bits_take(data@, 0);
    }
    count
}

/// Number of edges: the set bits below the presence bits.
pub fn edge_count(data: &GraphData) -> (r: usize)
    ensures
        r == edge_count_spec(data@),
        r <= 63 * MAX_NODES,
{
    let mut count: usize = 0;
    let mut i: usize = 0;
    while i < MAX_NODES
        invariant
            i <= MAX_NODES,
            count + present_count(data@.take(i as int)) == total_bits(data@.take(i as int)),
            count <= 63 * i,
        decreases MAX_NODES - i,
    {
        proof {
            lemma_total_bits_take(data@, i as int);
            lemma_popcount_bound(data@[i as int]);
        }
        if data[i] > 0 {
            count += data[i].count_ones() as usize - 1;
        }
        i += 1;
    }
    proof {
        lemma_total_bits_take(data@, 0);
    }
    count
}

/// The relevant edge `(start, end, size)` of a graph that has an edge.
pub fn relevant_edge(data: &GraphData) -> (r: (usize, usize, usize))
    requires
        !edgeless_spec(data@),
        within_capacity(data@),
    ensures
        (r.0 as int, r.1 as int, r.2 as int) == relevant_edge_spec(data@),
        r.0 < r.1 < r.2 <= MAX_NODES,
{
    proof {
        lemma_relevant_edge(data@);
    }
    let mut start: usize = 0;
    while start < MAX_NODES && word_is_isolated(data[start])
        invariant
            start <= MAX_NODES,
            forall|j: int| 0 <= j < start ==> popcount(#[trigger] data@[j]) <= 1,
        decreases MAX_NODES - start,
    {
        start += 1;
    }
    proof {
        if start >= MAX_NODES {
            assert(edgeless_spec(data@));
        }
        lemma_first_branching_unique(data@, start as int);
        axiom_u64_leading_zeros(data@[start as int]);
        axiom_u64_trailing_zeros(data@[start as int]);
    }
    let word: u64 = data[start];
    // zeros in front of the presence bit, less the node's own index
    let comparison_point: usize = word.leading_zeros() as usize - start;
    let size: usize = MAX_NODES - comparison_point;
    // the last set bit is the edge to the last neighbour
    let trailing: usize = word.trailing_zeros() as usize + 1;
    let end: usize = size - trailing;
    (start, end, size)
}

/// The words with `node` zeroed and its column cleared in every word.
pub fn remove_node(data: GraphData, node: usize, size: usize) -> (r: GraphData)
    requires
        node < MAX_NODES,
        size <= MAX_NODES,
    ensures
        r@ == remove_node_spec(data@, node as int, size as int),
{
    let mut out: GraphData = data;
    let shift: usize = if size >= node + 1 {
        size - node - 1
    } else {
        0
    };
    let mask: u64 = !(1u64 << shift);
    let mut i: usize = 0;
    while i < MAX_NODES
        invariant
            i <= MAX_NODES,
            node < MAX_NODES,
            shift == column_of(node as int, size as int),
            mask == !(1u64 << (shift as u64)),
            forall|j: int|
                0 <= j < i ==> out@[j] == remove_node_spec(data@, node as int, size as int)[j],
            forall|j: int| i <= j < MAX_NODES ==> out@[j] == data@[j],
        decreases MAX_NODES - i,
    {
        if i == node {
            out[i] = 0;
        } else {
            out[i] = out[i] & mask;
        }
        i += 1;
    }
    assert(out@ =~= remove_node_spec(data@, node as int, size as int));
    out
}

/// The words with the edge bit of `node2` cleared in the word of `node1`.
pub fn remove_edge(data: GraphData, node1: usize, node2: usize, size: usize) -> (r: GraphData)
    requires
        node1 < MAX_NODES,
        node2 < size <= MAX_NODES,
    ensures
        r@ == remove_edge_spec(data@, node1 as int, node2 as int, size as int),
{
    let mut out: GraphData = data;
    let shift: usize = size - node2;
    out[node1] = out[node1] & !(1u64 << (shift - 1));
    assert(out@ =~= remove_edge_spec(data@, node1 as int, node2 as int, size as int));
    out
}

/// `(G - e, G - {u, v})` for the relevant edge `e = (u, v)`.
pub fn graph_primes(data: GraphData) -> (r: (GraphData, GraphData))
    requires
        !edgeless_spec(data@),
        within_capacity(data@),
    ensures
        r.0@ == without_edge(data@),
        r.1@ == without_endpoints(data@),
{
    let (start, end, size) = relevant_edge(&data);
    let prime = remove_edge(data, start, end, size);
    let prime_prime = remove_node(remove_node(data, start, size), end, size);
    (prime, prime_prime)
}

/// The words with both nodes zeroed and both columns cleared, in one pass.
pub fn remove_nodes(data: GraphData, start_node: usize, end_node: usize, size: usize) -> (r:
    GraphData)
    requires
        start_node < MAX_NODES,
        end_node < MAX_NODES,
        size <= MAX_NODES,
    ensures
        r@ == remove_node_spec(
            remove_node_spec(data@, start_node as int, size as int),
            end_node as int,
            size as int,
        ),
{
    let mut out: GraphData = data;
    let start_shift: usize = if size >= start_node + 1 {
        size - start_node - 1
    } else {
        0
    };
    let end_shift: usize = if size >= end_node + 1 {
        size - end_node - 1
    } else {
        0
    };
    let mask: u64 = !((1u64 << start_shift) | (1u64 << end_shift));
    let ghost target = remove_node_spec(
        remove_node_spec(data@, start_node as int, size as int),
        end_node as int,
        size as int,
    );
    let mut i: usize = 0;
    while i < MAX_NODES
        invariant
            i <= MAX_NODES,
            start_node < MAX_NODES,
            end_node < MAX_NODES,
            size <= MAX_NODES,
            start_shift == column_of(start_node as int, size as int),
            end_shift == column_of(end_node as int, size as int),
            mask == !((1u64 << (start_shift as u64)) | (1u64 << (end_shift as u64))),
            target == remove_node_spec(
                remove_node_spec(data@, start_node as int, size as int),
                end_node as int,
                size as int,
            ),
            forall|j: int| 0 <= j < i ==> out@[j] == target[j],
            forall|j: int| i <= j < MAX_NODES ==> out@[j] == data@[j],
        decreases MAX_NODES - i,
    {
        let word: u64 = out[i];
        proof {
            let a: u64 = start_shift as u64;
            let b: u64 = end_shift as u64;
            assert(word & !((1u64 << a) | (1u64 << b)) == (word & !(1u64 << a)) & !(1u64 << b))
                by (bit_vector);
            lemma_zero_word(0, b);
        }
        if i == start_node || i == end_node {
            out[i] = 0;
        } else {
            out[i] = word & mask;
        }
        i += 1;
    }
    assert(out@ =~= target);
    out
}

} // verus!
