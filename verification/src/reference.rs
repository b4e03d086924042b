//! Matchings counted vertex by vertex on a plain graph of nodes and edges,
//! and the proof that the deletion recurrence on adjacency words counts the
//! same.

use crate::bits::{
    clear_bit, has_bit, lemma_has_bit_cleared, lemma_has_bit_nonzero, lemma_has_bit_set,
    lemma_popcount_and, lemma_popcount_bound, lemma_popcount_clear_bit, lemma_same_top,
    lemma_single_bit, lemma_top_low, lemma_zero_word, low_bit, popcount, top_bit,
};
use crate::complement::well_formed;
use crate::recurrence::{leaf_index, matching_coefficient};
use crate::words::{
    edgeless_spec, lemma_present_count_le, lemma_present_count_without_two, lemma_relevant_edge,
    lemma_total_bits_monotone, lemma_total_bits_take, lemma_without_edge_bits,
    lemma_without_endpoints_bits, present_count, relevant_edge_spec, remove_node_spec, total_bits,
    union_bits, without_edge, without_endpoints,
};
use vstd::prelude::*;

verus! {

/// An undirected graph on the node slots `0..size`: the nodes that are
/// present, and the edges as pairs with the smaller node first.
pub struct SimpleGraph {
    pub size: int,
    pub nodes: Set<int>,
    pub edges: Set<(int, int)>,
}

impl SimpleGraph {
    pub open spec fn without_node(self, u: int) -> SimpleGraph {
        SimpleGraph { size: self.size, nodes: self.nodes.remove(u), edges: self.edges }
    }

    pub open spec fn without_edge(self, a: int, b: int) -> SimpleGraph {
        SimpleGraph { size: self.size, nodes: self.nodes, edges: self.edges.remove((a, b)) }
    }
}

/// Number of matchings among the present nodes at or above `v` that leave
/// exactly `k` of them unmatched.  Node `v`, where present, either stays
/// unmatched or is paired with a later neighbour that is present.
pub open spec fn matchings_from(g: SimpleGraph, v: int, k: int) -> nat
    decreases g.size - v, g.size - v + 1,
{
    if v >= g.size {
        if k == 0 {
            1
        } else {
            0
        }
    } else if !g.nodes.contains(v) {
        matchings_from(g, v + 1, k)
    } else {
        matchings_from(g, v + 1, k - 1) + paired_from(g, v, v + 1, k)
    }
}

/// Number of those matchings in which `v` is paired with a neighbour at or
/// above `u`.
pub open spec fn paired_from(g: SimpleGraph, v: int, u: int, k: int) -> nat
    decreases g.size - v, g.size - u,
{
    if u >= g.size || u <= v {
        0
    } else {
        (if g.nodes.contains(u) && g.edges.contains((v, u)) {
            matchings_from(g.without_node(u), v + 1, k)
        } else {
            0
        }) + paired_from(g, v, u + 1, k)
    }
}

/// Number of present nodes at or above `v`.
pub open spec fn nodes_from(g: SimpleGraph, v: int) -> nat
    decreases g.size - v,
{
    if v >= g.size {
        0
    } else {
        (if g.nodes.contains(v) {
            1nat
        } else {
            0nat
        }) + nodes_from(g, v + 1)
    }
}

/// The graph that the words `w` encode at width `width`.
pub open spec fn model_of(w: Seq<u64>, width: int) -> SimpleGraph {
    SimpleGraph {
        size: width,
        nodes: Set::new(|i: int| 0 <= i < width && w[i] != 0),
        edges: Set::new(
            |p: (int, int)| 0 <= p.0 < p.1 < width && has_bit(w[p.0], width - 1 - p.1),
        ),
    }
}

/// The two graphs have the same nodes from `v` on and the same edges between
/// them.
pub open spec fn agree_from(a: SimpleGraph, b: SimpleGraph, v: int) -> bool {
    &&& a.size == b.size
    &&& forall|i: int| v <= i < a.size ==> (#[trigger] a.nodes.contains(i) <==> b.nodes.contains(i))
    &&& forall|i: int, u: int|
        v <= i < u < a.size && a.nodes.contains(i) && a.nodes.contains(u) ==> (
        #[trigger] a.edges.contains((i, u)) <==> b.edges.contains((i, u)))
}

/// Graphs that agree from `v` on have the same matchings from `v` on.
pub proof fn lemma_agree_matchings(a: SimpleGraph, b: SimpleGraph, v: int, k: int)
    requires
        agree_from(a, b, v),
    ensures
        matchings_from(a, v, k) == matchings_from(b, v, k),
    decreases a.size - v, a.size - v + 1,
{
    if v < a.size {
        assert(a.nodes.contains(v) <==> b.nodes.contains(v));
        assert(agree_from(a, b, v + 1));
        if a.nodes.contains(v) {
            lemma_agree_matchings(a, b, v + 1, k - 1);
            lemma_agree_paired(a, b, v, v + 1, k);
        } else {
            lemma_agree_matchings(a, b, v + 1, k);
        }
    }
}

proof fn lemma_agree_paired(a: SimpleGraph, b: SimpleGraph, v: int, u: int, k: int)
    requires
        agree_from(a, b, v),
        a.nodes.contains(v),
        v < a.size,
    ensures
        paired_from(a, v, u, k) == paired_from(b, v, u, k),
    decreases a.size - v, a.size - u,
{
    if u < a.size && u > v {
        assert(a.nodes.contains(u) <==> b.nodes.contains(u));
        if a.nodes.contains(u) {
            assert(a.edges.contains((v, u)) <==> b.edges.contains((v, u)));
            if a.edges.contains((v, u)) {
                let a1 = a.without_node(u);
                let b1 = b.without_node(u);
                assert forall|i: int| v + 1 <= i < a1.size implies (#[trigger] a1.nodes.contains(i)
                    <==> b1.nodes.contains(i)) by {
                    assert(a.nodes.contains(i) <==> b.nodes.contains(i));
                }
                assert forall|i: int, j: int|
                    v + 1 <= i < j < a1.size && a1.nodes.contains(i) && a1.nodes.contains(
                        j,
                    ) implies (#[trigger] a1.edges.contains((i, j)) <==> b1.edges.contains(
                    (i, j),
                )) by {
                    assert(a.edges.contains((i, j)) <==> b.edges.contains((i, j)));
                }
                lemma_agree_matchings(a1, b1, v + 1, k);
            }
        }
        lemma_agree_paired(a, b, v, u + 1, k);
    }
}

/// A node without later neighbours is paired with none.
proof fn lemma_paired_none(g: SimpleGraph, v: int, u: int, k: int)
    requires
        forall|j: int| !g.edges.contains((v, j)),
    ensures
        paired_from(g, v, u, k) == 0,
    decreases g.size - u,
{
    if u < g.size && u > v {
        lemma_paired_none(g, v, u + 1, k);
    }
}

/// A graph without edges from `v` on has one matching: the empty one.
pub proof fn lemma_isolated_matchings(g: SimpleGraph, v: int, k: int)
    requires
        forall|i: int, j: int| !g.edges.contains((i, j)),
    ensures
        matchings_from(g, v, k) == if k == nodes_from(g, v) {
            1nat
        } else {
            0nat
        },
    decreases g.size - v,
{
    if v < g.size {
        lemma_paired_none(g, v, v + 1, k);
        lemma_isolated_matchings(g, v + 1, k);
        lemma_isolated_matchings(g, v + 1, k - 1);
    }
}

/// Pairing `s` with a neighbour at or above `u` splits by whether the
/// neighbour is `e`.
proof fn lemma_paired_split(g: SimpleGraph, s: int, e: int, u: int, k: int)
    requires
        0 <= s < e < g.size,
        s < u,
        g.nodes.contains(s),
        g.nodes.contains(e),
        g.edges.contains((s, e)),
    ensures
        paired_from(g, s, u, k) == paired_from(g.without_edge(s, e), s, u, k) + if u <= e {
            matchings_from(g.without_node(e), s + 1, k)
        } else {
            0
        },
    decreases g.size - u,
{
    let h = g.without_edge(s, e);
    if u < g.size {
        lemma_paired_split(g, s, e, u + 1, k);
        if u != e {
            assert(g.edges.contains((s, u)) <==> h.edges.contains((s, u)));
            if g.nodes.contains(u) && g.edges.contains((s, u)) {
                let g1 = g.without_node(u);
                let h1 = h.without_node(u);
                assert forall|i: int, j: int|
                    s + 1 <= i < j < g1.size && g1.nodes.contains(i) && g1.nodes.contains(
                        j,
                    ) implies (#[trigger] g1.edges.contains((i, j)) <==> h1.edges.contains(
                    (i, j),
                )) by {}
                assert(agree_from(g1, h1, s + 1));
                lemma_agree_matchings(g1, h1, s + 1, k);
            }
        } else {
            assert(!h.edges.contains((s, e)));
        }
    }
}




/// The deletion recurrence for any edge `(s, e)` of a plain graph: its
/// matchings are those of the graph without the edge and those of the graph
/// without the two ends of the edge.
pub proof fn lemma_any_edge_recurrence(g: SimpleGraph, s: int, e: int, v: int, k: int)
    requires
        0 <= v <= s < e < g.size,
        g.nodes.contains(s),
        g.nodes.contains(e),
        g.edges.contains((s, e)),
    ensures
        matchings_from(g, v, k) == matchings_from(g.without_edge(s, e), v, k) + matchings_from(
            g.without_node(s).without_node(e),
            v,
            k,
        ),
    decreases s - v, g.size + 1,
{
    let h = g.without_edge(s, e);
    let r = g.without_node(s).without_node(e);
    if v == s {
        assert(h.nodes.contains(s));
        assert(!r.nodes.contains(s));
        lemma_paired_split(g, s, e, s + 1, k);
        assert forall|i: int, j: int|
            s + 1 <= i < j < g.size && g.nodes.contains(i) && g.nodes.contains(j) implies (
        #[trigger] g.edges.contains((i, j)) <==> h.edges.contains((i, j))) by {}
        assert(agree_from(g, h, s + 1));
        lemma_agree_matchings(g, h, s + 1, k - 1);
        let ge = g.without_node(e);
        assert forall|i: int| s + 1 <= i < r.size implies (#[trigger] r.nodes.contains(i)
            <==> ge.nodes.contains(i)) by {}
        assert(agree_from(r, ge, s + 1));
        lemma_agree_matchings(r, ge, s + 1, k);
    } else {
        assert(g.nodes.contains(v) <==> h.nodes.contains(v));
        assert(g.nodes.contains(v) <==> r.nodes.contains(v));
        if g.nodes.contains(v) {
            lemma_any_edge_recurrence(g, s, e, v + 1, k - 1);
            lemma_any_edge_paired(g, s, e, v, v + 1, k);
        } else {
            lemma_any_edge_recurrence(g, s, e, v + 1, k);
        }
    }
}

proof fn lemma_any_edge_paired(g: SimpleGraph, s: int, e: int, v: int, u: int, k: int)
    requires
        0 <= v < s < e < g.size,
        v < u,
        g.nodes.contains(v),
        g.nodes.contains(s),
        g.nodes.contains(e),
        g.edges.contains((s, e)),
    ensures
        paired_from(g, v, u, k) == paired_from(g.without_edge(s, e), v, u, k) + paired_from(
            g.without_node(s).without_node(e),
            v,
            u,
            k,
        ),
    decreases s - v, g.size - u,
{
    let h = g.without_edge(s, e);
    let r = g.without_node(s).without_node(e);
    if u < g.size {
        lemma_any_edge_paired(g, s, e, v, u + 1, k);
        assert(g.edges.contains((v, u)) <==> h.edges.contains((v, u)));
        assert(g.edges.contains((v, u)) <==> r.edges.contains((v, u)));
        if g.nodes.contains(u) && g.edges.contains((v, u)) {
            let gu = g.without_node(u);
            let hu = h.without_node(u);
            if u == s || u == e {
                assert(!r.nodes.contains(u));
                assert forall|i: int, j: int|
                    v + 1 <= i < j < gu.size && gu.nodes.contains(i) && gu.nodes.contains(
                        j,
                    ) implies (#[trigger] gu.edges.contains((i, j)) <==> hu.edges.contains(
                    (i, j),
                )) by {}
                assert(agree_from(gu, hu, v + 1));
                lemma_agree_matchings(gu, hu, v + 1, k);
            } else {
                assert(r.nodes.contains(u));
                lemma_any_edge_recurrence(gu, s, e, v + 1, k);
                let ru = r.without_node(u);
                let gur = gu.without_node(s).without_node(e);
                assert(gu.without_edge(s, e) == hu);
                assert forall|i: int| v + 1 <= i < ru.size implies (#[trigger] ru.nodes.contains(i)
                    <==> gur.nodes.contains(i)) by {}
                assert(agree_from(ru, gur, v + 1));
                lemma_agree_matchings(ru, gur, v + 1, k);
            }
        }
    }
}

/// In a well-formed edgeless graph the OR of the first `n` words has one bit
/// per present node among them.
proof fn lemma_union_of_presence_bits(w: Seq<u64>, width: int, n: int)
    requires
        well_formed(w, width),
        edgeless_spec(w),
        0 <= n <= w.len(),
    ensures
        popcount(union_bits(w.take(n))) == present_count(w.take(n)),
        forall|k: int|
            0 <= k < 64 ==> (has_bit(union_bits(w.take(n)), k) <==> (0 <= width - 1 - k < n && w[width
                - 1 - k] != 0)),
    decreases n,
{
    if n == 0 {
        lemma_total_bits_take(w, 0);
        assert forall|k: int| 0 <= k < 64 implies !has_bit(0u64, k) by {
            lemma_zero_word(0, k as u64);
        }
    } else {
        lemma_union_of_presence_bits(w, width, n - 1);
        lemma_total_bits_take(w, n - 1);
        let a = union_bits(w.take(n - 1));
        let x = w[n - 1];
        if x == 0 {
            lemma_zero_word(a, 0);
        } else {
            lemma_popcount_bound(x);
            assert(popcount(x) <= 1);
            lemma_single_bit(x);
            let s = top_bit(x);
            assert(s == width - 1 - (n - 1));
            let y = a | x;
            assert(!has_bit(a, s));
            lemma_has_bit_set(a, s, s);
            lemma_popcount_clear_bit(y, s as u64);
            assert forall|k: int| 0 <= k < 64 implies (has_bit(y, k) <==> (0 <= width - 1 - k < n
                && w[width - 1 - k] != 0)) by {
                lemma_has_bit_set(a, s, k);
                assert(has_bit(a, k) <==> (0 <= width - 1 - k < n - 1 && w[width - 1 - k] != 0));
            }
        }
    }
}

/// An edgeless graph contributes at the index that is its number of nodes.
pub proof fn lemma_leaf_index_counts_nodes(w: Seq<u64>, width: int)
    requires
        well_formed(w, width),
        edgeless_spec(w),
    ensures
        leaf_index(w) == present_count(w),
{
    lemma_union_of_presence_bits(w, width, w.len() as int);
    assert(w.take(w.len() as int) == w);
}

/// The words from `v` on hold as many present nodes as the model does.
pub proof fn lemma_nodes_from(w: Seq<u64>, width: int, v: int)
    requires
        well_formed(w, width),
        0 <= v <= w.len(),
    ensures
        present_count(w.take(v)) + nodes_from(model_of(w, width), v) == present_count(w),
    decreases w.len() - v,
{
    if v < w.len() {
        lemma_nodes_from(w, width, v + 1);
        lemma_total_bits_take(w, v);
    } else {
        assert(w.take(v) == w);
        lemma_nodes_beyond(model_of(w, width), v);
    }
}

proof fn lemma_nodes_beyond(g: SimpleGraph, v: int)
    requires
        forall|i: int| i >= g.size ==> !g.nodes.contains(i),
        forall|i: int| v <= i ==> !g.nodes.contains(i),
    ensures
        nodes_from(g, v) == 0,
    decreases g.size - v,
{
    if v < g.size {
        lemma_nodes_beyond(g, v + 1);
    }
}

/// The deletion step keeps an encoding well formed, and its two graphs are
/// the model without the relevant edge and the model without its two ends.
pub proof fn lemma_primes_well_formed(w: Seq<u64>, width: int)
    requires
        well_formed(w, width),
        !edgeless_spec(w),
    ensures
        well_formed(without_edge(w), width),
        well_formed(without_endpoints(w), width),
        present_count(without_edge(w)) == present_count(w),
        present_count(without_endpoints(w)) + 2 == present_count(w),
        total_bits(without_endpoints(w)) + 3 <= total_bits(w),
        ({
            let (s, e, size) = relevant_edge_spec(w);
            let g = model_of(w, width);
            &&& size == width
            &&& g.nodes.contains(s)
            &&& g.nodes.contains(e)
            &&& g.edges.contains((s, e))
            &&& agree_from(model_of(without_edge(w), width), g.without_edge(s, e), 0)
            &&& agree_from(
                model_of(without_endpoints(w), width),
                g.without_node(s).without_node(e),
                0,
            )
        }),
{
    lemma_relevant_edge(w);
    lemma_without_edge_bits(w);
    lemma_without_endpoints_bits(w);
    let (s, e, size) = relevant_edge_spec(w);
    let g = model_of(w, width);
    let x = w[s];
    lemma_popcount_bound(x);
    assert(x != 0);
    assert(size == width);
    let lo = low_bit(x);
    let hi = top_bit(x);
    assert(has_bit(w[s], width - 1 - e));
    assert(w[e] != 0);
    assert(g.edges.contains((s, e)));
    // without the edge
    let w1 = without_edge(w);
    assert forall|i: int, k: int| 0 <= i < w.len() && 0 <= k < 64 implies (has_bit(w1[i], k) <==> (
    has_bit(w[i], k) && !(i == s && k == lo))) by {
        if i == s {
            lemma_has_bit_cleared(x, lo, k);
        }
    }
    assert forall|i: int| 0 <= i < w.len() implies (#[trigger] w1[i] != 0 <==> w[i] != 0) && (w1[i]
        != 0 ==> top_bit(w1[i]) == top_bit(w[i])) by {
        if i == s {
            assert(has_bit(w1[s], hi));
            lemma_same_top(x, w1[s]);
        }
    }
    assert(well_formed(w1, width)) by {
        assert forall|i: int, u: int|
            0 <= i < w1.len() && 0 <= u < width && u != i && #[trigger] has_bit(
                w1[i],
                width - 1 - u,
            ) implies w1[u] != 0 by {
            assert(has_bit(w[i], width - 1 - u));
        }
    }
    let without_edge_model = model_of(w1, width);
    let h = g.without_edge(s, e);
    assert forall|i: int, u: int|
        0 <= i < u < without_edge_model.size && without_edge_model.nodes.contains(i)
            && without_edge_model.nodes.contains(u) implies (
    #[trigger] without_edge_model.edges.contains((i, u)) <==> h.edges.contains((i, u))) by {
        assert(has_bit(w1[i], width - 1 - u) <==> (has_bit(w[i], width - 1 - u) && !(i == s && width
            - 1 - u == lo)));
    }
    assert(agree_from(without_edge_model, h, 0));
    // without the two ends
    let w2 = without_endpoints(w);
    let cs = width - 1 - s;
    let ce = width - 1 - e;
    assert forall|i: int, k: int| 0 <= i < w.len() && 0 <= k < 64 implies (has_bit(w2[i], k) <==> (
    has_bit(w[i], k) && i != s && i != e && k != cs && k != ce)) by {
        if i == s || i == e {
            lemma_zero_word(0, ce as u64);
            lemma_zero_word(0, k as u64);
            assert(w2[i] == 0);
        } else {
            lemma_has_bit_cleared(w[i], cs, k);
            lemma_has_bit_cleared(clear_bit(w[i], cs), ce, k);
        }
    }
    assert forall|i: int| 0 <= i < w.len() implies (#[trigger] w2[i] != 0 <==> (w[i] != 0 && i != s
        && i != e)) && (w2[i] != 0 ==> top_bit(w2[i]) == top_bit(w[i])) by {
        if i == s || i == e {
            lemma_zero_word(0, ce as u64);
            assert(w2[i] == 0);
        } else if w[i] != 0 {
            lemma_top_low(w[i]);
            assert(has_bit(w2[i], top_bit(w[i])));
            lemma_same_top(w[i], w2[i]);
        } else {
            if w2[i] != 0 {
                lemma_top_low(w2[i]);
                assert(has_bit(w[i], top_bit(w2[i])));
                lemma_top_low(w[i]);
            }
        }
    }
    assert(well_formed(w2, width)) by {
        assert forall|i: int, u: int|
            0 <= i < w2.len() && 0 <= u < width && u != i && #[trigger] has_bit(
                w2[i],
                width - 1 - u,
            ) implies w2[u] != 0 by {
            assert(has_bit(w[i], width - 1 - u));
        }
    }
    let without_ends_model = model_of(w2, width);
    let r = g.without_node(s).without_node(e);
    assert forall|i: int|
        0 <= i < without_ends_model.size implies (#[trigger] without_ends_model.nodes.contains(i)
        <==> r.nodes.contains(i)) by {}
    assert forall|i: int, u: int|
        0 <= i < u < without_ends_model.size && without_ends_model.nodes.contains(i)
            && without_ends_model.nodes.contains(u) implies (
    #[trigger] without_ends_model.edges.contains((i, u)) <==> r.edges.contains((i, u))) by {
        assert(has_bit(w2[i], width - 1 - u) <==> (has_bit(w[i], width - 1 - u) && i != s && i != e
            && width - 1 - u != cs && width - 1 - u != ce));
    }
    assert(agree_from(without_ends_model, r, 0));
    // the nodes and the bits that are gone
    lemma_present_count_le(w1, w);
    lemma_present_count_le(w, w1);
    lemma_present_count_without_two(w, w2, s, e, w.len() as int);
    assert(w.take(w.len() as int) == w);
    assert(w2.take(w.len() as int) == w2);
    let mid = remove_node_spec(w, s, size);
    assert(w2 == remove_node_spec(mid, e, size));
    assert forall|i: int|
        0 <= i < w.len() implies popcount(#[trigger] mid[i]) <= popcount(w[i]) by {
        lemma_popcount_and(w[i], !(1u64 << (cs as u64)));
    }
    assert forall|i: int|
        0 <= i < w.len() implies popcount(#[trigger] w2[i]) <= popcount(mid[i]) by {
        lemma_popcount_and(mid[i], !(1u64 << (ce as u64)));
        lemma_zero_word(0, ce as u64);
    }
    lemma_total_bits_monotone(mid, w, s);
    lemma_total_bits_monotone(w2, mid, e);
    assert(mid[s] == 0);
    assert(w2[e] == 0);
    assert(mid[e] != 0) by {
        lemma_top_low(w[e]);
        lemma_has_bit_cleared(w[e], cs, top_bit(w[e]));
        lemma_has_bit_nonzero(mid[e], top_bit(w[e]));
    }
    lemma_popcount_bound(mid[e]);
}


/// The deletion recurrence counts matchings: for a well-formed encoding the
/// coefficient of index `k` is the number of matchings of the encoded graph
/// that leave `k` nodes unmatched.
pub proof fn lemma_recurrence_counts_matchings(w: Seq<u64>, width: int, k: nat)
    requires
        well_formed(w, width),
    ensures
        matching_coefficient(w, k) == matchings_from(model_of(w, width), 0, k as int),
    decreases total_bits(w),
{
    let g = model_of(w, width);
    if edgeless_spec(w) {
        assert forall|i: int, j: int| !g.edges.contains((i, j)) by {
            if g.edges.contains((i, j)) {
                lemma_has_bit_nonzero(w[i], width - 1 - j);
                lemma_popcount_bound(w[i]);
                assert(popcount(w[i]) <= 1);
                lemma_single_bit(w[i]);
            }
        }
        lemma_isolated_matchings(g, 0, k as int);
        lemma_leaf_index_counts_nodes(w, width);
        lemma_nodes_from(w, width, 0);
        lemma_total_bits_take(w, 0);
    } else {
        lemma_without_edge_bits(w);
        lemma_without_endpoints_bits(w);
        lemma_primes_well_formed(w, width);
        let (s, e, size) = relevant_edge_spec(w);
        lemma_relevant_edge(w);
        lemma_recurrence_counts_matchings(without_edge(w), width, k);
        lemma_recurrence_counts_matchings(without_endpoints(w), width, k);
        lemma_any_edge_recurrence(g, s, e, 0, k as int);
        lemma_agree_matchings(model_of(without_edge(w), width), g.without_edge(s, e), 0, k as int);
        lemma_agree_matchings(
            model_of(without_endpoints(w), width),
            g.without_node(s).without_node(e),
            0,
            k as int,
        );
    }
}

} // verus!
