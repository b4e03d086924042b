use matching_polynomial::polynomials::{hermadd, herme2poly, hermemulx, poly2herme};
use matching_polynomial::traits::Graph;
use matching_polynomial::weighted_graph_matching::{
    _calculate_weighted_matching_polynomial_binary, weight_from_address,
    weighted_matching_polynomial_addresses, weighted_matching_polynomial_from_addresses,
    WeightedGraph,
};
use matching_polynomial::{
    _calculate_matching_polynomial_binary, calculate_matching_polynomial_adaptive,
    calculate_matching_polynomial_pointer, calculate_matching_polynomial_pointer_addresses,
    BinaryGraph,
};
use polynomial::Polynomial;

fn encoded(head: &[u64]) -> [u64; 64] {
    let mut data = [0u64; 64];
    data[..head.len()].copy_from_slice(head);
    data
}

fn sample_graphs() -> Vec<[u64; 64]> {
    vec![
        encoded(&[0b1111, 0b111, 0b11, 0b1]),
        encoded(&[0b11111, 0b1111, 0b111, 0b11, 0b1]),
        encoded(&[0b11001, 0b1001, 0b110, 0b11, 0b1]),
        encoded(&[0b1101, 0b101, 0b11, 0b1]),
        encoded(&[0b11000, 0b1100, 0b110, 0b11, 0b1]),
        encoded(&[0b110000, 0b11000, 0b1100, 0b110, 0b11, 0b1]),
        encoded(&[0b101010, 0b10101, 0b1010, 0b101, 0b10, 0b1]),
        encoded(&[0b10, 0b1]),
        encoded(&[0b1]),
    ]
}

#[test]
fn path_on_four_nodes_has_one_three_one() {
    let poly = calculate_matching_polynomial_pointer(BinaryGraph::from(encoded(&[10, 5, 3, 1])));
    assert_eq!(poly[..5], [1, 0, 3, 0, 1]);
    assert!(poly[5..].iter().all(|c| *c == 0));
}

#[test]
fn unit_weights_give_the_matching_polynomial() {
    for data in sample_graphs() {
        let plain = calculate_matching_polynomial_pointer(BinaryGraph::from(data));
        let weighted =
            _calculate_weighted_matching_polynomial_binary(WeightedGraph::from(data, [1; 4096]));
        let size = BinaryGraph::from(data).graph_size();
        let expected: Vec<i64> = plain[..=size].iter().map(|c| *c as i64).collect();
        assert_eq!(weighted.data(), &expected[..]);
    }
}

#[test]
fn scaled_weights_scale_by_even_powers() {
    for data in sample_graphs() {
        let size = BinaryGraph::from(data).graph_size();
        let plain = calculate_matching_polynomial_pointer(BinaryGraph::from(data));
        let weighted =
            _calculate_weighted_matching_polynomial_binary(WeightedGraph::from(data, [3; 4096]));
        let mut m = 0;
        while 2 * m <= size {
            let index = size - 2 * m;
            let expected = 9i64.pow(m as u32) * plain[index] as i64;
            let found = weighted.data().get(index).copied().unwrap_or(0);
            assert_eq!(found, expected);
            m += 1;
        }
    }
}

#[test]
fn scaling_arbitrary_weights() {
    let data = encoded(&[0b1111, 0b111, 0b11, 0b1]);
    let mut weights = [0i64; 4096];
    let mut scaled = [0i64; 4096];
    for i in 0..16 {
        weights[i] = (i as i64 % 5) - 2;
        scaled[i] = -2 * weights[i];
    }
    let base = _calculate_weighted_matching_polynomial_binary(WeightedGraph::from(data, weights));
    let other = _calculate_weighted_matching_polynomial_binary(WeightedGraph::from(data, scaled));
    let at = |p: &Polynomial<i64>, i: usize| p.data().get(i).copied().unwrap_or(0);
    assert_eq!(at(&other, 4), at(&base, 4));
    assert_eq!(at(&other, 2), 4 * at(&base, 2));
    assert_eq!(at(&other, 0), 16 * at(&base, 0));
    // the weights of the edges (0,1), (0,2), (0,3), (1,2), (1,3), (2,3): -1, 0, 1, -1, 0, -1
    assert_eq!(base.data(), &[2, 0, 4, 0, 1]);
}

#[test]
fn a_zero_weight_drops_the_matchings_through_its_edge() {
    let data = encoded(&[10, 5, 3, 1]);
    let mut weights = [1i64; 4096];
    weights[2 * 4 + 3] = 0;
    let poly = _calculate_weighted_matching_polynomial_binary(WeightedGraph::from(data, weights));
    assert_eq!(poly.data(), &[1, 0, 2, 0, 1]);
}

#[test]
fn addresses_with_unit_weights_give_the_matching_polynomial() {
    for data in sample_graphs() {
        let graph = BinaryGraph::from(data);
        let (plain, addresses) = calculate_matching_polynomial_pointer_addresses(graph);
        assert_eq!(plain, calculate_matching_polynomial_pointer(graph));
        let weights = [1i64; 4096];
        for address in addresses.iter() {
            assert_eq!(weight_from_address(*address, &weights, graph.graph_size()), 1);
        }
        let rebuilt =
            weighted_matching_polynomial_from_addresses(addresses, &weights, graph.graph_size());
        let walked = weighted_matching_polynomial_addresses(graph, &weights);
        for k in 0..65 {
            assert_eq!(rebuilt[k], plain[k] as i64);
            assert_eq!(walked[k], plain[k] as i64);
        }
    }
}

#[test]
fn the_address_of_the_root_has_the_weight_one() {
    let weights = [5i64; 4096];
    assert_eq!(weight_from_address(1, &weights, 4), 1);
    assert_eq!(weight_from_address(0b11, &weights, 4), 1);
    assert_eq!(weight_from_address(0b10, &weights, 4), 5);
    assert_eq!(weight_from_address(0b100, &weights, 4), 25);
}

#[test]
fn additive_engine_agrees_with_the_accumulating_one() {
    for data in sample_graphs() {
        let graph = BinaryGraph::from(data);
        let size = graph.graph_size();
        let plain = calculate_matching_polynomial_pointer(graph);
        let additive = _calculate_matching_polynomial_binary(graph);
        assert_eq!(&plain[..=size], additive.data());
    }
}

#[test]
fn adaptive_engine_is_the_plain_one_with_signs() {
    for data in sample_graphs() {
        let graph = BinaryGraph::from(data);
        let size = graph.graph_size();
        let plain = calculate_matching_polynomial_pointer(graph);
        let adaptive = calculate_matching_polynomial_adaptive(graph);
        for k in 0..65 {
            let sign = if k <= size && ((size - k) / 2) % 2 == 1 { -1 } else { 1 };
            assert_eq!(adaptive[k], sign * plain[k] as i64);
        }
    }
}

#[test]
fn round_trip_through_the_hermite_basis() {
    let polynomials = [
        vec![0, 1, 2, 3],
        vec![2, 0, -4, 0, 1],
        vec![7],
        vec![-3, 5],
        vec![1, -1, 1, -1, 1, -1, 1],
        vec![0, 0, 0, 0, 0, 0, 0, 0, 9],
    ];
    for coefficients in polynomials {
        let p = Polynomial::new(coefficients.clone());
        let back = herme2poly(&poly2herme(&p));
        assert_eq!(back.data(), &coefficients[..]);
    }
}

#[test]
fn hermite_polynomials_from_unit_series() {
    let he5 = herme2poly(&Polynomial::new(vec![0, 0, 0, 0, 0, 1]));
    assert_eq!(he5.data(), &[0, 15, 0, -10, 0, 1]);
    let he6 = herme2poly(&Polynomial::new(vec![0, 0, 0, 0, 0, 0, 1]));
    assert_eq!(he6.data(), &[-15, 0, 45, 0, -15, 0, 1]);
}

#[test]
fn monomials_in_the_hermite_basis() {
    let x4 = poly2herme(&Polynomial::new(vec![0, 0, 0, 0, 1]));
    assert_eq!(x4.data(), &[3, 0, 6, 0, 1]);
    let one = poly2herme(&Polynomial::new(vec![4]));
    assert_eq!(one.data(), &[4]);
}

#[test]
fn hermite_sum_drops_the_zeros_at_its_end() {
    let sum = hermadd(&Polynomial::new(vec![1, 2]), &Polynomial::new(vec![0, -2]));
    assert_eq!(sum.data(), &[1]);
    let none = hermadd(&Polynomial::new(vec![1, 2]), &Polynomial::new(vec![-1, -2]));
    assert!(none.data().is_empty());
    let left = hermadd(&Polynomial::new(vec![1, 2, 3]), &Polynomial::new(vec![]));
    assert_eq!(left.data(), &[1, 2, 3]);
}

#[test]
fn hermite_times_x_of_low_orders() {
    assert_eq!(hermemulx(&Polynomial::new(vec![1])).data(), &[0, 1]);
    assert_eq!(hermemulx(&Polynomial::new(vec![0, 1])).data(), &[1, 0, 1]);
    assert_eq!(hermemulx(&Polynomial::new(vec![0, 0, 1])).data(), &[0, 2, 0, 1]);
}
