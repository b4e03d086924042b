//! The `polynomial` crate's `Polynomial` over `i64` and `u64`, as this
//! library uses it: what its constructor keeps, what `data` hands out, and
//! what the three operators compute.  None of this is proved here; each
//! contract restates what the crate's source does.

use crate::polynomials::algebra::{
    coeff, difference_of, fits_i64, ints, nats, product_of, product_partial, sum_of, trim,
};
use polynomial::Polynomial;
use vstd::prelude::*;

verus! {

#[verifier::external_type_specification]
#[verifier::external_body]
#[verifier::reject_recursive_types(T)]
pub struct ExPolynomial<T>(Polynomial<T>);

/// The coefficients that a polynomial over `i64` holds, lowest degree first.
pub uninterp spec fn signed_coefficients(p: Polynomial<i64>) -> Seq<i64>;

/// The coefficients that a polynomial over `u64` holds, lowest degree first.
pub uninterp spec fn unsigned_coefficients(p: Polynomial<u64>) -> Seq<u64>;

/// Every sum of two coefficients of the same degree fits an `i64`.
pub open spec fn sum_fits(a: Seq<int>, b: Seq<int>) -> bool {
    forall|i: int| 0 <= i < a.len() && 0 <= i < b.len() ==> #[trigger] fits_i64(a[i] + b[i])
}

/// Every difference of two coefficients of the same degree fits an `i64`.
pub open spec fn difference_fits(a: Seq<int>, b: Seq<int>) -> bool {
    forall|i: int| #[trigger] fits_i64(coeff(a, i) - coeff(b, i))
}

/// Every product of two coefficients, and every sum of such products as far
/// as a coefficient of `a * b` has been added up, fits an `i64`.
pub open spec fn product_fits(a: Seq<int>, b: Seq<int>) -> bool {
    &&& forall|j: int, k: int|
        0 <= j < a.len() && 0 <= k < b.len() ==> #[trigger] fits_i64(a[j] * b[k])
    &&& forall|i: int, k: int|
        0 <= i && 0 <= k <= a.len() ==> #[trigger] fits_i64(product_partial(a, b, i, k))
}

/// `Polynomial::new` keeps the coefficients up to the last one that is not
/// zero.
#[verifier::external_body]
pub(crate) fn signed_polynomial(data: Vec<i64>) -> (p: Polynomial<i64>)
    ensures
        ints(signed_coefficients(p)) == trim(ints(data@)),
{
    Polynomial::new(data)
}

/// `Polynomial::data` hands out the coefficients that the polynomial holds.
#[verifier::external_body]
pub(crate) fn signed_data(p: &Polynomial<i64>) -> (data: Vec<i64>)
    ensures
        data@ == signed_coefficients(*p),
{
    p.data().to_vec()
}

/// `&a + &b` adds coefficient by coefficient, the shorter polynomial counting
/// as zero beyond its end, and drops the zeros at the end of the result.
#[verifier::external_body]
pub(crate) fn signed_sum(a: &Polynomial<i64>, b: &Polynomial<i64>) -> (r: Polynomial<i64>)
    requires
        sum_fits(ints(signed_coefficients(*a)), ints(signed_coefficients(*b))),
    ensures
        ints(signed_coefficients(r)) == trim(
            sum_of(ints(signed_coefficients(*a)), ints(signed_coefficients(*b))),
        ),
{
    a + b
}

/// `&a - &b` subtracts coefficient by coefficient, the shorter polynomial
/// counting as zero beyond its end, and drops the zeros at the end of the
/// result.
#[verifier::external_body]
pub(crate) fn signed_difference(a: &Polynomial<i64>, b: &Polynomial<i64>) -> (r: Polynomial<i64>)
    requires
        difference_fits(ints(signed_coefficients(*a)), ints(signed_coefficients(*b))),
    ensures
        ints(signed_coefficients(r)) == trim(
            difference_of(ints(signed_coefficients(*a)), ints(signed_coefficients(*b))),
        ),
{
    a - b
}

/// `&a * &b` is zero where either polynomial is; else its coefficient of
/// degree `i` is the sum of `a[k] * b[i - k]`, added up with `k` rising, and
/// the zeros at the end of the result are dropped.
#[verifier::external_body]
pub(crate) fn signed_product(a: &Polynomial<i64>, b: &Polynomial<i64>) -> (r: Polynomial<i64>)
    requires
        product_fits(ints(signed_coefficients(*a)), ints(signed_coefficients(*b))),
    ensures
        ints(signed_coefficients(r)) == trim(
            product_of(ints(signed_coefficients(*a)), ints(signed_coefficients(*b))),
        ),
{
    a * b
}

/// `Polynomial::new` keeps the coefficients up to the last one that is not
/// zero.
#[verifier::external_body]
pub(crate) fn unsigned_polynomial(data: Vec<u64>) -> (p: Polynomial<u64>)
    ensures
        nats(unsigned_coefficients(p)) == trim(nats(data@)),
{
    Polynomial::new(data)
}

/// `&a + &b` adds coefficient by coefficient, the shorter polynomial counting
/// as zero beyond its end, and drops the zeros at the end of the result.
#[verifier::external_body]
pub(crate) fn unsigned_sum(a: &Polynomial<u64>, b: &Polynomial<u64>) -> (r: Polynomial<u64>)
    requires
        forall|i: int|
            0 <= i < unsigned_coefficients(*a).len() && 0 <= i < unsigned_coefficients(*b).len()
                ==> #[trigger] unsigned_coefficients(*a)[i] + unsigned_coefficients(*b)[i]
                <= u64::MAX,
    ensures
        nats(unsigned_coefficients(r)) == trim(
            sum_of(nats(unsigned_coefficients(*a)), nats(unsigned_coefficients(*b))),
        ),
{
    a + b
}

} // verus!
