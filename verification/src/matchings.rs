//! Matchings as sets of edges, and the proof that counting vertex by vertex
//! counts them.

use crate::complement::well_formed;
use crate::complete::lemma_nodes_without;
use crate::recurrence::matching_coefficient;
use crate::reference::{
    lemma_recurrence_counts_matchings, matchings_from, model_of, nodes_from, paired_from,
    SimpleGraph,
};
use vstd::prelude::*;
use vstd::set_lib::{lemma_map_size, lemma_set_disjoint_lens};

verus! {

/// A matching of `g` among the nodes from `v` on: a finite set of edges of
/// `g` between present nodes at or above `v`, no two of which share a node.
pub open spec fn is_matching_from(g: SimpleGraph, v: int, m: Set<(int, int)>) -> bool {
    &&& m.finite()
    &&& forall|p: (int, int)| #[trigger]
        m.contains(p) ==> v <= p.0 < p.1 < g.size && g.nodes.contains(p.0) && g.nodes.contains(p.1)
            && g.edges.contains(p)
    &&& forall|p: (int, int), q: (int, int)|
        #[trigger] m.contains(p) && #[trigger] m.contains(q) && p != q ==> p.0 != q.0 && p.0 != q.1
            && p.1 != q.0 && p.1 != q.1
}

/// The matchings among the nodes from `v` on that leave `k` of them
/// unmatched.
pub open spec fn matchings_leaving(g: SimpleGraph, v: int, k: int) -> Set<Set<(int, int)>> {
    Set::new(|m: Set<(int, int)>| is_matching_from(g, v, m) && nodes_from(g, v) - 2 * m.len() == k)
}

/// Those of them in which `v` is paired with a node at or above `u`.
pub open spec fn matchings_pairing(g: SimpleGraph, v: int, u: int, k: int) -> Set<Set<(int, int)>> {
    Set::new(
        |m: Set<(int, int)>|
            is_matching_from(g, v, m) && nodes_from(g, v) - 2 * m.len() == k && exists|t: int|
                u <= t && #[trigger] m.contains((v, t)),
    )
}

/// Those of them in which `v` is paired with `u`.
pub open spec fn matchings_with(g: SimpleGraph, v: int, u: int, k: int) -> Set<Set<(int, int)>> {
    Set::new(
        |m: Set<(int, int)>|
            is_matching_from(g, v, m) && nodes_from(g, v) - 2 * m.len() == k && m.contains((v, u)),
    )
}

/// Counting vertex by vertex counts the matchings: there are finitely many
/// matchings among the nodes from `v` on that leave `k` of them unmatched,
/// and `matchings_from` is their number.
pub proof fn lemma_counts_sets(g: SimpleGraph, v: int, k: int)
    requires
        0 <= v,
    ensures
        matchings_leaving(g, v, k).finite(),
        matchings_leaving(g, v, k).len() == matchings_from(g, v, k),
    decreases g.size - v, g.size + 1,
{
    let all = matchings_leaving(g, v, k);
    if v >= g.size {
        let none = Set::<(int, int)>::empty();
        let only = Set::<Set<(int, int)>>::empty().insert(none);
        if k == 0 {
            assert forall|m: Set<(int, int)>| all.contains(m) <==> only.contains(m) by {
                if all.contains(m) {
                    assert forall|p: (int, int)| !m.contains(p) by {}
                    assert(m =~= none);
                }
                if only.contains(m) {
                    assert(m == none);
                    assert(is_matching_from(g, v, none));
                    assert(none.len() == 0);
                }
            }
            assert(all =~= only);
        } else {
            assert forall|m: Set<(int, int)>| !all.contains(m) by {
                if all.contains(m) {
                    assert forall|p: (int, int)| !m.contains(p) by {}
                    assert(m =~= none);
                }
            }
            assert(all =~= Set::<Set<(int, int)>>::empty());
        }
    } else if !g.nodes.contains(v) {
        let next = matchings_leaving(g, v + 1, k);
        lemma_counts_sets(g, v + 1, k);
        assert forall|m: Set<(int, int)>| all.contains(m) <==> next.contains(m) by {
            if all.contains(m) {
                assert(is_matching_from(g, v + 1, m));
            }
            if next.contains(m) {
                assert(is_matching_from(g, v, m));
            }
        }
        assert(all =~= next);
    } else {
        let free = matchings_leaving(g, v + 1, k - 1);
        let paired = matchings_pairing(g, v, v + 1, k);
        lemma_counts_sets(g, v + 1, k - 1);
        lemma_counts_pairing(g, v, v + 1, k);
        assert forall|m: Set<(int, int)>| all.contains(m) <==> (free + paired).contains(m) by {
            if all.contains(m) {
                if exists|t: int| #[trigger] m.contains((v, t)) {
                    let t = choose|t: int| #[trigger] m.contains((v, t));
                    assert(paired.contains(m));
                } else {
                    assert(is_matching_from(g, v + 1, m)) by {
                        assert forall|p: (int, int)| #[trigger] m.contains(p) implies v + 1
                            <= p.0 by {
                            if p.0 == v {
                                assert(m.contains((v, p.1)));
                            }
                        }
                    }
                    assert(free.contains(m));
                }
            }
            if free.contains(m) {
                assert(is_matching_from(g, v, m));
            }
        }
        assert(all =~= free + paired);
        assert(free.disjoint(paired)) by {
            assert forall|m: Set<(int, int)>| !(free.contains(m) && paired.contains(m)) by {
                if free.contains(m) && paired.contains(m) {
                    let t = choose|t: int| v + 1 <= t && #[trigger] m.contains((v, t));
                    assert(m.contains((v, t)));
                }
            }
        }
        lemma_set_disjoint_lens(free, paired);
    }
}

proof fn lemma_counts_pairing(g: SimpleGraph, v: int, u: int, k: int)
    requires
        0 <= v < g.size,
        v < u,
        g.nodes.contains(v),
    ensures
        matchings_pairing(g, v, u, k).finite(),
        matchings_pairing(g, v, u, k).len() == paired_from(g, v, u, k),
    decreases g.size - v, g.size - u,
{
    let all = matchings_pairing(g, v, u, k);
    if u >= g.size {
        assert forall|m: Set<(int, int)>| !all.contains(m) by {
            if all.contains(m) {
                let t = choose|t: int| u <= t && #[trigger] m.contains((v, t));
                assert(m.contains((v, t)));
            }
        }
        assert(all =~= Set::<Set<(int, int)>>::empty());
    } else {
        let here = matchings_with(g, v, u, k);
        let later = matchings_pairing(g, v, u + 1, k);
        lemma_counts_pairing(g, v, u + 1, k);
        lemma_counts_with(g, v, u, k);
        assert forall|m: Set<(int, int)>| all.contains(m) <==> (here + later).contains(m) by {
            if all.contains(m) {
                let t = choose|t: int| u <= t && #[trigger] m.contains((v, t));
                if t == u {
                    assert(here.contains(m));
                } else {
                    assert(u + 1 <= t && m.contains((v, t)));
                    assert(later.contains(m));
                }
            }
            if here.contains(m) {
                assert(u <= u && m.contains((v, u)));
            }
            if later.contains(m) {
                let t = choose|t: int| u + 1 <= t && #[trigger] m.contains((v, t));
                assert(u <= t && m.contains((v, t)));
            }
        }
        assert(all =~= here + later);
        assert(here.disjoint(later)) by {
            assert forall|m: Set<(int, int)>| !(here.contains(m) && later.contains(m)) by {
                if here.contains(m) && later.contains(m) {
                    let t = choose|t: int| u + 1 <= t && #[trigger] m.contains((v, t));
                    assert(m.contains((v, u)) && m.contains((v, t)));
                }
            }
        }
        lemma_set_disjoint_lens(here, later);
    }
}

/// The matchings in which `v` is paired with `u` are the matchings of the
/// graph without `u` among the nodes after `v`, each with the edge `(v, u)`
/// added.
proof fn lemma_counts_with(g: SimpleGraph, v: int, u: int, k: int)
    requires
        0 <= v < u < g.size,
        g.nodes.contains(v),
    ensures
        matchings_with(g, v, u, k).finite(),
        matchings_with(g, v, u, k).len() == if g.nodes.contains(u) && g.edges.contains((v, u)) {
            matchings_from(g.without_node(u), v + 1, k)
        } else {
            0
        },
    decreases g.size - v, 0int,
{
    let here = matchings_with(g, v, u, k);
    let edge = (v, u);
    if g.nodes.contains(u) && g.edges.contains(edge) {
        let gu = g.without_node(u);
        let rest = matchings_leaving(gu, v + 1, k);
        lemma_counts_sets(gu, v + 1, k);
        lemma_nodes_without(g, u, v + 1);
        let with_edge = |m: Set<(int, int)>| m.insert(edge);
        assert(vstd::relations::injective_on(with_edge, rest)) by {
            assert forall|a: Set<(int, int)>, b: Set<(int, int)>|
                rest.contains(a) && rest.contains(b) && #[trigger] with_edge(a) == #[trigger] with_edge(
                    b,
                ) implies a == b by {
                assert(!a.contains(edge));
                assert(!b.contains(edge));
                assert(a =~= with_edge(a).remove(edge));
                assert(b =~= with_edge(b).remove(edge));
            }
        }
        assert forall|m: Set<(int, int)>| rest.map(with_edge).contains(m) <==> here.contains(m) by {
            if rest.map(with_edge).contains(m) {
                let base = choose|base: Set<(int, int)>|
                    rest.contains(base) && m == with_edge(base);
                assert(!base.contains(edge));
                assert(m.len() == base.len() + 1);
                assert(is_matching_from(g, v, m)) by {
                    assert forall|p: (int, int)| #[trigger] m.contains(p) implies v <= p.0 < p.1
                        < g.size && g.nodes.contains(p.0) && g.nodes.contains(p.1)
                        && g.edges.contains(p) by {
                        if p != edge {
                            assert(base.contains(p));
                        }
                    }
                    assert forall|p: (int, int), q: (int, int)|
                        #[trigger] m.contains(p) && #[trigger] m.contains(q) && p != q implies p.0
                        != q.0 && p.0 != q.1 && p.1 != q.0 && p.1 != q.1 by {
                        if p != edge {
                            assert(base.contains(p));
                        }
                        if q != edge {
                            assert(base.contains(q));
                        }
                    }
                }
                assert(m.contains(edge));
            }
            if here.contains(m) {
                let base = m.remove(edge);
                assert(m =~= with_edge(base));
                assert(base.len() + 1 == m.len());
                assert(is_matching_from(gu, v + 1, base)) by {
                    assert forall|p: (int, int)| #[trigger] base.contains(p) implies v + 1 <= p.0
                        < p.1 < gu.size && gu.nodes.contains(p.0) && gu.nodes.contains(p.1)
                        && gu.edges.contains(p) by {
                        assert(m.contains(p) && m.contains(edge) && p != edge);
                    }
                    assert forall|p: (int, int), q: (int, int)|
                        #[trigger] base.contains(p) && #[trigger] base.contains(q) && p
                            != q implies p.0 != q.0 && p.0 != q.1 && p.1 != q.0 && p.1 != q.1 by {
                        assert(m.contains(p) && m.contains(q));
                    }
                }
                assert(rest.contains(base));
            }
        }
        assert(rest.map(with_edge) =~= here);
        lemma_map_size(rest, here, with_edge);
    } else {
        assert forall|m: Set<(int, int)>| !here.contains(m) by {}
        assert(here =~= Set::<Set<(int, int)>>::empty());
    }
}

/// The deletion recurrence counts sets of edges: for a well-formed encoding
/// the coefficient of index `k` is the number of matchings of the encoded
/// graph, as sets of pairwise disjoint edges, that leave `k` nodes
/// unmatched.
pub proof fn lemma_coefficient_counts_matchings(w: Seq<u64>, width: int, k: nat)
    requires
        well_formed(w, width),
    ensures
        matchings_leaving(model_of(w, width), 0, k as int).finite(),
        matching_coefficient(w, k) == matchings_leaving(model_of(w, width), 0, k as int).len(),
{
    lemma_recurrence_counts_matchings(w, width, k);
    lemma_counts_sets(model_of(w, width), 0, k as int);
}

} // verus!
