use matching_polynomial::polynomials::{hermadd, herme2poly, hermemulx, poly2herme};
use polynomial::Polynomial;

#[test]
fn poly2herme_test_1() {
    let poly = Polynomial::new(vec![0, 1, 2, 3]);
    let herm = poly2herme(&poly);
    assert_eq!(herm.data(), &[2, 10, 2, 3]);
}

#[test]
fn poly2herme_test_2() {
    let poly = Polynomial::new(vec![2, 0, -4, 0, 1]);
    let herm = poly2herme(&poly);
    assert_eq!(herm.data(), &[1, 0, 2, 0, 1]);
}

#[test]
fn herme2poly_test() {
    let herm = Polynomial::new(vec![2, 10, 2, 3]);
    let poly = herme2poly(&herm);
    assert_eq!(poly.data(), &[0, 1, 2, 3]);
}

#[test]
fn herme2poly_test_2() {
    let herm = Polynomial::new(vec![1, 0, 2, 0, 1]);
    let poly = herme2poly(&herm);
    assert_eq!(poly.data(), &[2, 0, -4, 0, 1]);
}

#[test]
fn herme2poly_test_3() {
    // n = 0
    let herm = Polynomial::new(vec![1]);
    let poly = herme2poly(&herm);
    assert_eq!(poly.data(), &[1]);

    // n = 1
    let herm = Polynomial::new(vec![0, 1]);
    let poly = herme2poly(&herm);
    assert_eq!(poly.data(), &[0, 1]);

    // n = 2
    let herm = Polynomial::new(vec![0, 0, 1]);
    let poly = herme2poly(&herm);
    assert_eq!(poly.data(), &[-1, 0, 1]);

    // n = 3
    let herm = Polynomial::new(vec![0, 0, 0, 1]);
    let poly = herme2poly(&herm);
    assert_eq!(poly.data(), &[0, -3, 0, 1]);

    // n = 4
    let herm = Polynomial::new(vec![0, 0, 0, 0, 1]);
    let poly = herme2poly(&herm);
    assert_eq!(poly.data(), &[3, 0, -6, 0, 1]);
}

#[test]
fn hermadd_test() {
    let poly_1 = Polynomial::new(vec![1, 2, 3]);
    let poly_2 = Polynomial::new(vec![1, 2, 3, 4]);
    let result = hermadd(&poly_1, &poly_2);
    assert_eq!(result.data(), &[2, 4, 6, 4]);
}

#[test]
fn hermemul_test() {
    let poly_1 = Polynomial::new(vec![1, 2, 3]);
    let mul = hermemulx(&poly_1);
    let test_data = vec![2, 7, 2, 3];
    assert_eq!(mul.data(), &test_data);
}
