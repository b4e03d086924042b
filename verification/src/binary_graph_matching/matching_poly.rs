//! The recurrence engines on bit-packed graphs: the plain recurrence, with
//! and without the addresses of its leaves, the density-adaptive recurrence,
//! and the plain recurrence as a sum of polynomials.  But for the last, the
//! polynomial is one buffer that the whole recursion adds to: the
//! recurrence only ever adds, so the order of the two branches does not
//! matter.

use crate::binary_graph_matching::adaptive::{
    adaptive_coefficient, adaptive_weight, effective_sign, effective_words, hermite_cache,
    lemma_adaptive_bound, magnitude, sign_of, switches,
};
use crate::binary_graph_matching::adaptive_laws::lemma_adaptive_is_signed;
use crate::binary_graph_matching::binary_representation::BinaryGraph;
use crate::complement::{lemma_complement_capacity, well_formed};
use crate::matchings::{lemma_coefficient_counts_matchings, matchings_leaving};
use crate::polynomials::algebra::{
    coeff, ints, lemma_coefficients, lemma_same_trim, lemma_trim, nats, sum_of, trim,
};
use crate::polynomials::hermite::{from_hermite_fits, herme2poly};
use crate::polynomials::laws::{
    he, hermite_polynomial, lemma_from_hermite_monomial, lemma_hermite_shape, monomial,
};
use crate::polynomials::outside::{
    signed_data, signed_polynomial, unsigned_coefficients, unsigned_polynomial, unsigned_sum,
};
use crate::recurrence::{leaf_addresses, matching_coefficient};
use crate::reference::model_of;
use crate::traits::graph::Graph;
use crate::words::{
    lemma_without_edge_bits, lemma_without_endpoints_bits, present_count, total_bits,
    within_capacity, without_edge, without_endpoints, MAX_NODES, POLY_SIZE,
};
use polynomial::Polynomial;
use vstd::prelude::*;

verus! {

/// The signless matching polynomial of `graph` by the deletion recurrence.
/// For a well-formed encoding the coefficient of index `k` is the number of
/// matchings of the encoded graph, as sets of pairwise disjoint edges, that
/// leave `k` nodes unmatched.
pub fn calculate_matching_polynomial_pointer(graph: BinaryGraph) -> (poly: [u64; POLY_SIZE])
    requires
        within_capacity(graph.words()),
        forall|k: nat| k < POLY_SIZE ==> matching_coefficient(graph.words(), k) <= u64::MAX,
    ensures
        forall|k: int|
            0 <= k < POLY_SIZE ==> poly@[k] == matching_coefficient(graph.words(), k as nat),
        forall|width: int, k: int|
            #[trigger] well_formed(graph.words(), width) && 0 <= k < POLY_SIZE
                ==> #[trigger] poly@[k] == matchings_leaving(
                model_of(graph.words(), width),
                0,
                k,
            ).len(),
{
    let mut poly: [u64; POLY_SIZE] = [0;POLY_SIZE];
    _calculate_matching_polynomial_static(graph, &mut poly);
    proof {
        assert forall|width: int, k: int|
            #[trigger] well_formed(graph.words(), width) && 0 <= k < POLY_SIZE
            implies #[trigger] poly@[k] == matchings_leaving(
            model_of(graph.words(), width),
            0,
            k,
        ).len() by {
            lemma_coefficient_counts_matchings(graph.words(), width, k as nat);
        }
    }
    poly
}

/// The signless matching polynomial of `graph` together with the address of
/// every leaf of the recursion, in the order in which the leaves are reached.
pub fn calculate_matching_polynomial_pointer_addresses(graph: BinaryGraph) -> (r: (
    [u64; POLY_SIZE],
    Vec<u64>,
))
    requires
        within_capacity(graph.words()),
        forall|k: nat| k < POLY_SIZE ==> matching_coefficient(graph.words(), k) <= u64::MAX,
    ensures
        forall|k: int|
            0 <= k < POLY_SIZE ==> r.0@[k] == matching_coefficient(graph.words(), k as nat),
        r.1@ == leaf_addresses(graph.words(), 1),
{
    let mut poly: [u64; POLY_SIZE] = [0;POLY_SIZE];
    let mut addresses: Vec<u64> = Vec::new();
    let address: u64 = 1;
    _calculate_matching_polynomial_static_addresses(graph, &mut poly, address, &mut addresses);
    assert(addresses@ =~= leaf_addresses(graph.words(), 1));
    (poly, addresses)
}

/// Adds the polynomial of `graph` to `poly`.
pub fn _calculate_matching_polynomial_static<T: Graph>(graph: T, poly: &mut [u64; POLY_SIZE])
    requires
        within_capacity(graph.words()),
        forall|k: int|
            0 <= k < POLY_SIZE ==> old(poly)@[k] + matching_coefficient(graph.words(), k as nat)
                <= u64::MAX,
    ensures
        forall|k: int|
            0 <= k < POLY_SIZE ==> final(poly)@[k] == old(poly)@[k] + matching_coefficient(
                graph.words(),
                k as nat,
            ),
    decreases total_bits(graph.words()),
{
    if graph.edgeless() {
        let node_count: usize = graph.edgeless_node_count();
        poly[node_count] = poly[node_count] + 1;
    } else {
        proof {
            lemma_without_edge_bits(graph.words());
            lemma_without_endpoints_bits(graph.words());
        }
        let (graph_prime, graph_prime_prime) = graph.get_graph_primes();
        _calculate_matching_polynomial_static(graph_prime_prime, poly);
        _calculate_matching_polynomial_static(graph_prime, poly);
    }
}

/// Adds the polynomial of `graph` to `poly` and appends the addresses of the
/// leaves below it, `current_address` being the address of `graph`.
pub fn _calculate_matching_polynomial_static_addresses<T: Graph>(
    graph: T,
    poly: &mut [u64; POLY_SIZE],
    current_address: u64,
    addresses: &mut Vec<u64>,
)
    requires
        within_capacity(graph.words()),
        forall|k: int|
            0 <= k < POLY_SIZE ==> old(poly)@[k] + matching_coefficient(graph.words(), k as nat)
                <= u64::MAX,
    ensures
        forall|k: int|
            0 <= k < POLY_SIZE ==> final(poly)@[k] == old(poly)@[k] + matching_coefficient(
                graph.words(),
                k as nat,
            ),
        final(addresses)@ == old(addresses)@ + leaf_addresses(graph.words(), current_address),
    decreases total_bits(graph.words()),
{
    if graph.edgeless() {
        let node_count: usize = graph.edgeless_node_count();
        poly[node_count] = poly[node_count] + 1;
        addresses.push(current_address);
        assert(final(addresses)@ =~= old(addresses)@ + leaf_addresses(
            graph.words(),
            current_address,
        ));
    } else {
        proof {
            lemma_without_edge_bits(graph.words());
            lemma_without_endpoints_bits(graph.words());
        }
        let (graph_prime, graph_prime_prime) = graph.get_graph_primes();
        _calculate_matching_polynomial_static_addresses(
            graph_prime_prime,
            poly,
            current_address << 1,
            addresses,
        );
        _calculate_matching_polynomial_static_addresses(
            graph_prime,
            poly,
            (current_address << 1) | 1,
            addresses,
        );
        assert(final(addresses)@ =~= old(addresses)@ + leaf_addresses(
            graph.words(),
            current_address,
        ));
    }
}

/// The signed matching polynomial of `graph` by the density-adaptive
/// recurrence: a branch of the recursion that meets a dense graph goes on
/// with the complement and adds Hermite polynomials at its leaves.  For a
/// well-formed encoding of the initial width the coefficient of index `k` is
/// the number of matchings that leave `k` nodes unmatched, with the sign
/// `(-1)^((initial - k) / 2)`.
pub fn calculate_matching_polynomial_adaptive(graph: BinaryGraph) -> (poly: [i64; POLY_SIZE])
    requires
        within_capacity(graph.words()),
        graph.initial_size() <= MAX_NODES,
        present_count(graph.words()) <= graph.initial_size(),
        forall|n: nat| n <= graph.initial_size() ==> from_hermite_fits(#[trigger] monomial(n)),
        forall|k: int|
            0 <= k < POLY_SIZE ==> adaptive_weight(
                graph.words(),
                graph.initial_size(),
                false,
                k,
            ) <= i64::MAX,
    ensures
        forall|k: int|
            0 <= k < POLY_SIZE ==> poly@[k] == adaptive_coefficient(
                graph.words(),
                graph.initial_size(),
                false,
                1,
                k,
            ),
        well_formed(graph.words(), graph.initial_size() as int) ==> forall|k: int|
            0 <= k < POLY_SIZE ==> #[trigger] poly@[k] == sign_of(graph.initial_size(), k as nat)
                * matching_coefficient(graph.words(), k as nat),
{
    let mut poly: [i64; POLY_SIZE] = [0;POLY_SIZE];
    let initial: usize = graph.initial_graph_size();
    // cache the Hermite polynomials of every order that a leaf can have
    let mut hermites: Vec<Vec<i64>> = Vec::new();
    let mut i: usize = 0;
    while i < initial + 1
        invariant
            i <= initial + 1,
            initial <= MAX_NODES,
            initial == graph.initial_size(),
            forall|n: nat| n <= graph.initial_size() ==> from_hermite_fits(#[trigger] monomial(n)),
            hermites@.len() == i,
            forall|n: int|
                0 <= n < i ==> ints((#[trigger] hermites@[n])@) == hermite_polynomial(n as nat),
        decreases initial + 1 - i,
    {
        // the unit series of order i
        let mut coeffics: Vec<i64> = Vec::new();
        let mut j: usize = 0;
        while j < i
            invariant
                j <= i,
                coeffics@.len() == j,
                forall|t: int| 0 <= t < j ==> coeffics@[t] == 0,
            decreases i - j,
        {
            coeffics.push(0);
            j += 1;
        }
        coeffics.push(1);
        proof {
            assert(ints(coeffics@) =~= monomial(i as nat));
            lemma_trim(monomial(i as nat));
            assert(from_hermite_fits(monomial(i as nat)));
            lemma_from_hermite_monomial(i as nat);
        }
        let series: Polynomial<i64> = signed_polynomial(coeffics);
        let hermite: Polynomial<i64> = herme2poly(&series);
        hermites.push(signed_data(&hermite));
        i += 1;
    }
    _calculate_matching_polynomial_static_adaptive(graph, &mut poly, false, &hermites, 1);
    proof {
        if well_formed(graph.words(), graph.initial_size() as int) {
            assert forall|k: int| 0 <= k < POLY_SIZE implies #[trigger] poly@[k] == sign_of(
                graph.initial_size(),
                k as nat,
            ) * matching_coefficient(graph.words(), k as nat) by {
                lemma_adaptive_is_signed(graph.words(), graph.initial_size(), 1, k as nat);
            }
        }
    }
    poly
}

/// Adds to `poly` what the graph contributes on a branch that has, or has
/// not yet, switched to the complement.
pub fn _calculate_matching_polynomial_static_adaptive<T: Graph>(
    graph: T,
    poly: &mut [i64; POLY_SIZE],
    complement: bool,
    hermites: &Vec<Vec<i64>>,
    sign_coeffic: i64,
)
    requires
        within_capacity(graph.words()),
        graph.initial_size() <= MAX_NODES,
        present_count(graph.words()) <= graph.initial_size(),
        hermite_cache(hermites@, graph.initial_size()),
        sign_coeffic == 1 || sign_coeffic == -1,
        forall|k: int|
            0 <= k < POLY_SIZE ==> i64::MIN < old(poly)@[k] - adaptive_weight(
                graph.words(),
                graph.initial_size(),
                complement,
                k,
            ) && old(poly)@[k] + adaptive_weight(
                graph.words(),
                graph.initial_size(),
                complement,
                k,
            ) <= i64::MAX,
    ensures
        forall|k: int|
            0 <= k < POLY_SIZE ==> final(poly)@[k] == old(poly)@[k] + adaptive_coefficient(
                graph.words(),
                graph.initial_size(),
                complement,
                sign_coeffic as int,
                k,
            ),
    decreases
            if complement {
                0nat
            } else {
                1nat
            },
            total_bits(graph.words()),
{
    let ghost w0 = graph.words();
    let ghost initial = graph.initial_size();
    let ghost g = effective_words(w0, initial, complement);
    let mut graph = graph;
    let mut complement_now: bool = complement;
    let mut sign: i64 = sign_coeffic;
    let (edges, possible) = graph.density();
    if possible > 0 && 2 * edges >= possible && !complement {
        complement_now = true;
        let removed: usize = graph.initial_graph_size() - graph.graph_size();
        sign = if (removed / 2) % 2 == 0 {
            1
        } else {
            -1
        };
        proof {
            lemma_complement_capacity(w0, initial as int);
        }
        graph = graph.complement();
    }
    assert(graph.words() == g);
    assert(complement_now == (complement || switches(w0, complement)));
    assert(sign as int == effective_sign(w0, initial, complement, sign_coeffic as int));
    if graph.edgeless() {
        let graph_size: usize = graph.graph_size();
        if complement_now {
            let ghost before = poly@;
            proof {
                lemma_hermite_shape(graph_size as nat);
            }
            let mut i: usize = 0;
            while i < graph_size + 1
                invariant
                    i <= graph_size + 1,
                    graph_size <= initial <= MAX_NODES,
                    graph_size == present_count(g),
                    hermite_cache(hermites@, initial),
                    hermite_polynomial(graph_size as nat).len() == graph_size + 1,
                    sign == 1 || sign == -1,
                    before == old(poly)@,
                    forall|k: int|
                        0 <= k < POLY_SIZE ==> i64::MIN < before[k] - magnitude(
                            he(graph_size as int, k),
                        ) && before[k] + magnitude(he(graph_size as int, k)) <= i64::MAX,
                    forall|k: int|
                        0 <= k < i ==> poly@[k] == before[k] + sign * he(graph_size as int, k),
                    forall|k: int| i <= k < POLY_SIZE ==> poly@[k] == before[k],
                decreases graph_size + 1 - i,
            {
                proof {
                    assert(ints(hermites@[graph_size as int]@) == hermite_polynomial(
                        graph_size as nat,
                    ));
                    assert(hermites@[graph_size as int]@.len() == graph_size + 1);
                }
                let coefficient: i64 = hermites[graph_size][i];
                proof {
                    assert(ints(hermites@[graph_size as int]@)[i as int] == he(
                        graph_size as int,
                        i as int,
                    ));
                    assert(sign * coefficient == coefficient || sign * coefficient == -coefficient)
                        by (nonlinear_arith)
                        requires
                            sign == 1 || sign == -1,
                    ;
                    let h = he(graph_size as int, i as int);
                    assert(coefficient as int == h);
                    assert(i64::MIN < before[i as int] - magnitude(h) && before[i as int]
                        + magnitude(h) <= i64::MAX);
                    assert(poly@[i as int] == before[i as int]);
                }
                poly[i] = poly[i] + sign * coefficient;
                i += 1;
            }
            proof {
                assert forall|k: int| graph_size < k < POLY_SIZE implies sign * he(
                    graph_size as int,
                    k,
                ) == 0 by {
                    assert(sign * 0 == 0);
                }
            }
        } else {
            let removed: usize = graph.initial_graph_size() - graph_size;
            let unit: i64 = if (removed / 2) % 2 == 0 {
                1
            } else {
                -1
            };
            poly[graph_size] = poly[graph_size] + unit;
        }
    } else {
        proof {
            lemma_without_edge_bits(g);
            lemma_without_endpoints_bits(g);
            assert forall|k: int| 0 <= k < POLY_SIZE implies adaptive_weight(
                w0,
                initial,
                complement,
                k,
            ) == adaptive_weight(without_endpoints(g), initial, complement_now, k)
                + adaptive_weight(without_edge(g), initial, complement_now, k) by {}
            assert forall|k: int| 0 <= k < POLY_SIZE implies magnitude(
                #[trigger] adaptive_coefficient(
                    without_endpoints(g),
                    initial,
                    complement_now,
                    sign as int,
                    k,
                ),
            ) <= adaptive_weight(without_endpoints(g), initial, complement_now, k) by {
                lemma_adaptive_bound(without_endpoints(g), initial, complement_now, sign as int, k);
            }
        }
        let (graph_prime, graph_prime_prime) = graph.get_graph_primes();
        _calculate_matching_polynomial_static_adaptive(
            graph_prime_prime,
            poly,
            complement_now,
            hermites,
            sign,
        );
        _calculate_matching_polynomial_static_adaptive(
            graph_prime,
            poly,
            complement_now,
            hermites,
            sign,
        );
    }
}

/// The coefficients of the signless matching polynomial of `w`, one for
/// every index of a polynomial buffer.
pub open spec fn coefficient_sequence(w: Seq<u64>) -> Seq<int> {
    Seq::new(POLY_SIZE as nat, |k: int| matching_coefficient(w, k as nat) as int)
}

/// The signless matching polynomial of `graph` as the sum of the polynomials
/// of its two smaller graphs.
pub fn _calculate_matching_polynomial_binary<T: Graph>(graph: T) -> (poly: Polynomial<u64>)
    requires
        within_capacity(graph.words()),
        forall|k: nat| k < POLY_SIZE ==> matching_coefficient(graph.words(), k) <= u64::MAX,
    ensures
        nats(unsigned_coefficients(poly)) == trim(coefficient_sequence(graph.words())),
    decreases total_bits(graph.words()),
{
    let ghost w = graph.words();
    if graph.edgeless() {
        // one zero for each node, then the leading one
        let node_count: usize = graph.edgeless_node_count();
        let mut coeffics: Vec<u64> = Vec::new();
        let mut i: usize = 0;
        while i < node_count
            invariant
                i <= node_count,
                coeffics@.len() == i,
                forall|t: int| 0 <= t < i ==> coeffics@[t] == 0,
            decreases node_count - i,
        {
            coeffics.push(0);
            i += 1;
        }
        coeffics.push(1);
        proof {
            let a = nats(coeffics@);
            let b = coefficient_sequence(w);
            assert forall|t: int|
                coeff(a, t) == coeff(
                    b,
                    t,
                ) by {}
            lemma_same_trim(a, b);
        }
        unsigned_polynomial(coeffics)
    } else {
        proof {
            lemma_without_edge_bits(w);
            lemma_without_endpoints_bits(w);
            assert forall|k: nat| k < POLY_SIZE implies matching_coefficient(without_edge(w), k)
                <= u64::MAX && matching_coefficient(without_endpoints(w), k) <= u64::MAX by {
                assert(matching_coefficient(w, k) <= u64::MAX);
            }
        }
        let (graph_prime, graph_prime_prime) = graph.get_graph_primes();
        let poly_1: Polynomial<u64> = _calculate_matching_polynomial_binary(graph_prime);
        let poly_2: Polynomial<u64> = _calculate_matching_polynomial_binary(graph_prime_prime);
        proof {
            let a = coefficient_sequence(without_edge(w));
            let b = coefficient_sequence(without_endpoints(w));
            let first = nats(unsigned_coefficients(poly_1));
            let second = nats(unsigned_coefficients(poly_2));
            lemma_trim(a);
            lemma_trim(b);
            assert forall|i: int|
                0 <= i < unsigned_coefficients(poly_1).len() && 0 <= i < unsigned_coefficients(
                    poly_2,
                ).len() implies #[trigger] unsigned_coefficients(poly_1)[i]
                + unsigned_coefficients(poly_2)[i] <= u64::MAX by {
                assert(first[i] == a[i]);
                assert(second[i] == b[i]);
                assert(matching_coefficient(w, i as nat) <= u64::MAX);
            }
            lemma_coefficients(first, second, 0);
            assert forall|t: int|
                coeff(sum_of(first, second), t)
                    == coeff(coefficient_sequence(w), t) by {
                assert(coeff(first, t)
                    == coeff(a, t));
                assert(coeff(second, t)
                    == coeff(b, t));
            }
            lemma_same_trim(sum_of(first, second), coefficient_sequence(w));
        }
        unsigned_sum(&poly_1, &poly_2)
    }
}

} // verus!
