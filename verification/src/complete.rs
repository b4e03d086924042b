//! The matchings of complete graphs, and the Hermite polynomials that they
//! add up to a power of `x` with.

use crate::polynomials::algebra::coeff;
use crate::polynomials::hermite::hermite_times_x;
use crate::polynomials::laws::{he, lemma_he_recurrence, lemma_series_shift, series_value};
use crate::reference::{matchings_from, nodes_from, paired_from, SimpleGraph};
use vstd::prelude::*;

verus! {

/// Number of matchings of the complete graph on `a` nodes that leave `j` of
/// them unmatched: the first node stays unmatched, or is paired with one of
/// the `a - 1` others.
pub open spec fn complete_matchings(a: nat, j: int) -> int
    decreases a,
{
    if a == 0 {
        if j == 0 {
            1
        } else {
            0
        }
    } else {
        complete_matchings((a - 1) as nat, j - 1) + (a - 1) * (if a >= 2 {
            complete_matchings((a - 2) as nat, j)
        } else {
            0
        })
    }
}

/// Every two present nodes from `v` on are joined.
pub open spec fn complete_from(g: SimpleGraph, v: int) -> bool {
    forall|i: int, u: int|
        v <= i < u < g.size && g.nodes.contains(i) && g.nodes.contains(u)
            ==> #[trigger] g.edges.contains((i, u))
}

/// No matching leaves fewer than no node or more than all nodes unmatched.
pub proof fn lemma_complete_range(a: nat, j: int)
    requires
        j < 0 || j > a,
    ensures
        complete_matchings(a, j) == 0,
    decreases a,
{
    if a >= 1 {
        lemma_complete_range((a - 1) as nat, j - 1);
        if a >= 2 {
            lemma_complete_range((a - 2) as nat, j);
            assert((a - 1) * 0 == 0);
        }
    }
}

/// Removing a present node takes one from the count of the nodes at or
/// above any node before it.
pub proof fn lemma_nodes_without(g: SimpleGraph, u: int, v: int)
    requires
        0 <= v,
        u < g.size,
    ensures
        nodes_from(g.without_node(u), v) == nodes_from(g, v) - if v <= u && g.nodes.contains(u) {
            1int
        } else {
            0int
        },
    decreases g.size - v,
{
    if v < g.size {
        lemma_nodes_without(g, u, v + 1);
    }
}

/// The matchings of a plain graph that is complete from `v` on are those of
/// the complete graph on as many nodes.
pub proof fn lemma_complete_matchings(g: SimpleGraph, v: int, j: int)
    requires
        0 <= v,
        complete_from(g, v),
    ensures
        matchings_from(g, v, j) == complete_matchings(nodes_from(g, v), j),
    decreases g.size - v, g.size + 1,
{
    if v < g.size {
        assert(complete_from(g, v + 1));
        if g.nodes.contains(v) {
            lemma_complete_matchings(g, v + 1, j - 1);
            lemma_complete_paired(g, v, v + 1, j);
            let rest = nodes_from(g, v + 1);
            if rest == 0 {
                assert(0 * 0 == 0);
            }
        } else {
            lemma_complete_matchings(g, v + 1, j);
        }
    }
}

proof fn lemma_complete_paired(g: SimpleGraph, v: int, u: int, j: int)
    requires
        0 <= v < g.size,
        v < u,
        g.nodes.contains(v),
        complete_from(g, v),
    ensures
        paired_from(g, v, u, j) == nodes_from(g, u) * (if nodes_from(g, v + 1) >= 1 {
            complete_matchings((nodes_from(g, v + 1) - 1) as nat, j)
        } else {
            0
        }),
    decreases g.size - v, g.size - u,
{
    let rest = nodes_from(g, v + 1);
    let each = if rest >= 1 {
        complete_matchings((rest - 1) as nat, j)
    } else {
        0
    };
    if u < g.size {
        lemma_complete_paired(g, v, u + 1, j);
        let above = nodes_from(g, u + 1);
        if g.nodes.contains(u) {
            assert(g.edges.contains((v, u)));
            let gu = g.without_node(u);
            assert(complete_from(gu, v + 1)) by {
                assert forall|i: int, t: int|
                    v + 1 <= i < t < gu.size && gu.nodes.contains(i) && gu.nodes.contains(
                        t,
                    ) implies #[trigger] gu.edges.contains((i, t)) by {
                    assert(g.edges.contains((i, t)));
                }
            }
            lemma_complete_matchings(gu, v + 1, j);
            lemma_nodes_without(g, u, v + 1);
            lemma_nodes_monotone(g, v + 1, u);
            assert((1 + above) * each == each + above * each) by (nonlinear_arith);
        }
    } else {
        assert(0 * each == 0);
    }
}

/// There are no more present nodes from a later node on.
pub proof fn lemma_nodes_monotone(g: SimpleGraph, v: int, u: int)
    requires
        v <= u,
    ensures
        nodes_from(g, u) <= nodes_from(g, v),
    decreases u - v,
{
    if v < u {
        lemma_nodes_monotone(g, v + 1, u);
    }
}

/// Choosing the unmatched node that a new node is paired with, or the node
/// that an old node is paired with, counts the same matchings:
/// `(j + 1) m(n, j + 1) = n m(n - 1, j)`.
proof fn lemma_complete_exchange(n: nat, j: int)
    requires
        n >= 1,
    ensures
        (j + 1) * complete_matchings(n, j + 1) == n * complete_matchings((n - 1) as nat, j),
    decreases n,
{
    let before = complete_matchings((n - 1) as nat, j);
    if j < 0 {
        lemma_complete_range((n - 1) as nat, j);
        if j == -1 {
            assert(0 * complete_matchings(n, 0) == 0);
        } else {
            lemma_complete_range(n, j + 1);
            assert((j + 1) * 0 == 0);
        }
        assert(n * 0 == 0);
    } else if n == 1 {
        assert(complete_matchings(1, j + 1) == complete_matchings(0, j));
        if j == 0 {
            assert(1 * 1 == 1);
        } else {
            assert((j + 1) * 0 == 0);
            assert(1 * 0 == 0);
        }
    } else if n == 2 {
        assert(complete_matchings(2, j + 1) == complete_matchings(1, j) + 1 * complete_matchings(
            0,
            j + 1,
        ));
        assert(complete_matchings(1, j) == complete_matchings(0, j - 1));
        if j == 1 {
            assert(2 * (1 + 1 * 0) == 2 * 1);
        } else {
            assert((j + 1) * (0 + 1 * 0) == 2 * 0) by (nonlinear_arith);
        }
    } else {
        // m(n, j + 1) = m(n - 1, j) + (n - 1) m(n - 2, j + 1)
        // m(n - 1, j) = m(n - 2, j - 1) + (n - 2) m(n - 3, j)
        let n_ = n as int;
        let a = complete_matchings((n - 2) as nat, j + 1);
        let b = complete_matchings((n - 2) as nat, j - 1);
        let c = complete_matchings((n - 3) as nat, j);
        lemma_complete_exchange((n - 2) as nat, j);
        lemma_complete_exchange((n - 1) as nat, j - 1);
        assert(complete_matchings(n, j + 1) == before + (n_ - 1) * a);
        assert(before == b + (n_ - 2) * c);
        assert((j + 1) * (before + (n_ - 1) * a) == n_ * before) by (nonlinear_arith)
            requires
                (j + 1) * a == (n_ - 2) * c,
                j * before == (n_ - 1) * b,
                before == b + (n_ - 2) * c,
        ;
    }
}

/// Adding a node to a complete graph: it stays unmatched, or is paired with
/// a node that was unmatched.
pub proof fn lemma_complete_grows(n: nat, j: int)
    ensures
        complete_matchings(n + 1, j) == complete_matchings(n, j - 1) + (j + 1)
            * complete_matchings(n, j + 1),
{
    if n >= 1 {
        lemma_complete_exchange(n, j);
    } else {
        if j == -1 {
            assert(0 * complete_matchings(0, 0) == 0);
        } else {
            assert((j + 1) * 0 == 0);
        }
        assert(0 * 0 == 0);
    }
}

/// The numbers of matchings of the complete graph on `n` nodes as a
/// sequence.
pub open spec fn complete_sequence(n: nat) -> Seq<int> {
    Seq::new(n + 1, |j: int| complete_matchings(n, j))
}

/// The value of a series depends on its coefficients only.
pub proof fn lemma_series_same(a: Seq<int>, b: Seq<int>, n: int, t: int)
    requires
        forall|j: int| 0 <= j < n ==> coeff(a, j) == coeff(b, j),
    ensures
        series_value(a, n, t) == series_value(b, n, t),
    decreases n,
{
    if n > 0 {
        lemma_series_same(a, b, n - 1, t);
    }
}

/// The Hermite polynomials, each taken as often as the complete graph on `n`
/// nodes has matchings that leave its index unmatched, add up to `x^n`.
pub proof fn lemma_complete_series(n: nat, t: int)
    ensures
        series_value(complete_sequence(n), (n + 1) as int, t) == if t == n {
            1int
        } else {
            0int
        },
    decreases n,
{
    let c = complete_sequence(n);
    if n == 0 {
        lemma_he_recurrence(0, t);
        assert(series_value(c, 1, t) == series_value(c, 0, t) + coeff(c, 0) * he(0, t));
        assert(1 * he(0, t) == he(0, t));
    } else {
        let b = complete_sequence((n - 1) as nat);
        lemma_complete_series((n - 1) as nat, t - 1);
        lemma_series_shift(b, t);
        assert(hermite_times_x(b) =~= c) by {
            assert forall|j: int| 0 <= j < n + 1 implies hermite_times_x(b)[j] == c[j] by {
                lemma_complete_grows((n - 1) as nat, j);
                if j - 1 < 0 || j - 1 > n - 1 {
                    lemma_complete_range((n - 1) as nat, j - 1);
                }
                if j + 1 > n - 1 {
                    lemma_complete_range((n - 1) as nat, j + 1);
                    assert((j + 1) * 0 == 0);
                }
            }
        }
    }
}

} // verus!
