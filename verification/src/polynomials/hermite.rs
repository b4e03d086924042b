//! Conversions between the standard basis and the probabilists' Hermite
//! basis, and the two operations on Hermite series that they are built from.

use crate::polynomials::algebra::{
    coeff, difference_of, fits_i64, ints, is_trimmed, lemma_coefficients,
    lemma_product_by_constant, lemma_product_by_x, lemma_same_trim, lemma_trim, product_of,
    product_partial, scaled, shifted, sum_of, trim,
};
use crate::polynomials::outside::{
    difference_fits, signed_coefficients, signed_data, signed_difference, signed_polynomial,
    signed_product, signed_sum, sum_fits,
};
use crate::polynomials::laws::{lemma_from_hermite, lemma_to_hermite, series_value};
use polynomial::Polynomial;
use vstd::prelude::*;

verus! {

/// The Hermite series of `x` times the series `c`: since
/// `x He_i = He_(i+1) + i He_(i-1)`, every coefficient moves up by one place
/// and adds `i` times itself to the place below.
pub open spec fn hermite_times_x(c: Seq<int>) -> Seq<int> {
    Seq::new(c.len() + 1, |j: int| coeff(c, j - 1) + (j + 1) * coeff(c, j + 1))
}

/// Every step of `hermemulx` on `c` stays within `i64`.
pub open spec fn hermite_times_x_fits(c: Seq<int>) -> bool {
    &&& c.len() <= i64::MAX
    &&& forall|i: int|
        1 <= i < c.len() ==> #[trigger] fits_i64(c[i] * i) && fits_i64(coeff(c, i - 2) + c[i] * i)
}

/// Multiplies a Hermite series by `x`.
pub fn hermemulx(p: &Polynomial<i64>) -> (r: Polynomial<i64>)
    requires
        signed_coefficients(*p).len() >= 1,
        hermite_times_x_fits(ints(signed_coefficients(*p))),
    ensures
        ints(signed_coefficients(r)) == trim(hermite_times_x(ints(signed_coefficients(*p)))),
{
    let data: Vec<i64> = signed_data(p);
    let n: usize = data.len();
    let ghost c = ints(data@);
    if n == 1 && data[0] == 0 {
        let zero: Vec<i64> = vec![0];
        proof {
            let h = hermite_times_x(c);
            assert(h =~= seq![0int, 0int]);
            assert(h.drop_last() =~= seq![0int]);
            assert(seq![0int].drop_last() =~= Seq::<int>::empty());
            reveal_with_fuel(trim, 3);
            assert(ints(zero@) =~= seq![0int]);
        }
        return signed_polynomial(zero);
    }
    let mut new_data: Vec<i64> = Vec::new();
    new_data.push(0);
    let mut j: usize = 0;
    while j < n
        invariant
            j <= n,
            n == data.len(),
            new_data.len() == j + 1,
            forall|t: int| 0 <= t <= j ==> new_data@[t] == 0,
        decreases n - j,
    {
        new_data.push(0);
        j += 1;
    }
    new_data[1] = data[0];
    let mut i: usize = 1;
    while i < n
        invariant
            1 <= i <= n,
            n == data.len(),
            c == ints(data@),
            hermite_times_x_fits(c),
            new_data.len() == n + 1,
            forall|t: int|
                0 <= t <= i ==> new_data@[t] as int == coeff(c, t - 1) + if t + 1 < i {
                    (t + 1) * c[t + 1]
                } else {
                    0
                },
            forall|t: int| i < t <= n ==> new_data@[t] == 0,
        decreases n - i,
    {
        let factor: i64 = i as i64;
        proof {
            assert(fits_i64(c[i as int] * (i as int)));
            assert(c[i as int] * (i as int) == (i as int) * c[i as int]) by (nonlinear_arith);
        }
        new_data[i + 1] = data[i];
        let term: i64 = data[i] * factor;
        new_data[i - 1] = new_data[i - 1] + term;
        i += 1;
    }
    proof {
        assert(ints(new_data@) =~= hermite_times_x(c));
    }
    signed_polynomial(new_data)
}

/// Adds two Hermite series.
pub fn hermadd(p: &Polynomial<i64>, q: &Polynomial<i64>) -> (r: Polynomial<i64>)
    requires
        sum_fits(ints(signed_coefficients(*p)), ints(signed_coefficients(*q))),
    ensures
        ints(signed_coefficients(r)) == trim(
            sum_of(ints(signed_coefficients(*p)), ints(signed_coefficients(*q))),
        ),
{
    let p_data: Vec<i64> = signed_data(p);
    let q_data: Vec<i64> = signed_data(q);
    let ghost a = ints(p_data@);
    let ghost b = ints(q_data@);
    let relevant_length: usize = if p_data.len() < q_data.len() {
        p_data.len()
    } else {
        q_data.len()
    };
    let mut used_coeffics: Vec<i64> = Vec::new();
    let mut i: usize = 0;
    while i < relevant_length
        invariant
            i <= relevant_length,
            relevant_length <= p_data.len(),
            relevant_length <= q_data.len(),
            a == ints(p_data@),
            b == ints(q_data@),
            sum_fits(a, b),
            used_coeffics.len() == i,
            forall|t: int| 0 <= t < i ==> used_coeffics@[t] as int == a[t] + b[t],
        decreases relevant_length - i,
    {
        proof {
            assert(fits_i64(a[i as int] + b[i as int]));
        }
        used_coeffics.push(p_data[i] + q_data[i]);
        i += 1;
    }
    // the coefficients of the longer series that have no partner
    if p_data.len() > q_data.len() {
        while i < p_data.len()
            invariant
                q_data.len() <= i <= p_data.len(),
                a == ints(p_data@),
                b == ints(q_data@),
                used_coeffics.len() == i,
                forall|t: int| 0 <= t < i ==> used_coeffics@[t] as int == coeff(a, t) + coeff(b, t),
            decreases p_data.len() - i,
        {
            used_coeffics.push(p_data[i]);
            i += 1;
        }
    } else {
        while i < q_data.len()
            invariant
                p_data.len() <= i <= q_data.len(),
                a == ints(p_data@),
                b == ints(q_data@),
                used_coeffics.len() == i,
                forall|t: int| 0 <= t < i ==> used_coeffics@[t] as int == coeff(a, t) + coeff(b, t),
            decreases q_data.len() - i,
        {
            used_coeffics.push(q_data[i]);
            i += 1;
        }
    }
    proof {
        assert(ints(used_coeffics@) =~= sum_of(a, b));
    }
    signed_polynomial(used_coeffics)
}

/// The Hermite series of the polynomial `c[index..]`, by Horner's rule.
pub open spec fn to_hermite_from(c: Seq<int>, index: int) -> Seq<int>
    decreases c.len() - index,
{
    if index >= c.len() - 1 {
        seq![c[c.len() - 1]]
    } else {
        sum_of(hermite_times_x(to_hermite_from(c, index + 1)), seq![c[index]])
    }
}

/// The Hermite series of the polynomial `c`.
pub open spec fn to_hermite(c: Seq<int>) -> Seq<int> {
    to_hermite_from(c, 0)
}

/// Every step of `poly2herme` on `c` stays within `i64`.
pub open spec fn to_hermite_fits(c: Seq<int>) -> bool {
    forall|index: int|
        0 <= index < c.len() - 1 ==> #[trigger] hermite_times_x_fits(
            to_hermite_from(c, index + 1),
        ) && fits_i64(coeff(hermite_times_x(to_hermite_from(c, index + 1)), 0) + c[index])
}

/// One step of the downward recurrence: the polynomial of a Hermite series
/// `c`, where `lower` and `upper` are what the terms of degree `i - 1` and above
/// have come to.
pub open spec fn clenshaw(c: Seq<int>, i: int, lower: Seq<int>, upper: Seq<int>) -> Seq<int>
    decreases i,
{
    if i < 2 {
        sum_of(lower, shifted(upper))
    } else {
        clenshaw(
            c,
            i - 1,
            difference_of(seq![c[i - 2]], scaled(upper, i - 1)),
            sum_of(lower, shifted(upper)),
        )
    }
}

/// The polynomial of the Hermite series `c`.
pub open spec fn from_hermite(c: Seq<int>) -> Seq<int> {
    if c.len() <= 2 {
        c
    } else {
        clenshaw(c, c.len() - 1, seq![c[c.len() - 2]], seq![c[c.len() - 1]])
    }
}

/// Every multiple `k * p[t]` fits an `i64`.
pub open spec fn scale_fits(p: Seq<int>, k: int) -> bool {
    forall|t: int| 0 <= t < p.len() ==> #[trigger] fits_i64(p[t] * k)
}

/// Every coefficient of `a + b` fits an `i64`.
pub open spec fn sum_within(a: Seq<int>, b: Seq<int>) -> bool {
    forall|t: int| #[trigger] fits_i64(coeff(a, t) + coeff(b, t))
}

/// Every step of the downward recurrence from `(i, lower, upper)` on stays within
/// `i64`.
pub open spec fn clenshaw_fits(c: Seq<int>, i: int, lower: Seq<int>, upper: Seq<int>) -> bool
    decreases i,
{
    if i < 2 {
        sum_within(lower, shifted(upper))
    } else {
        &&& scale_fits(upper, i - 1)
        &&& difference_fits(seq![c[i - 2]], scaled(upper, i - 1))
        &&& sum_within(lower, shifted(upper))
        &&& clenshaw_fits(
            c,
            i - 1,
            difference_of(seq![c[i - 2]], scaled(upper, i - 1)),
            sum_of(lower, shifted(upper)),
        )
    }
}

/// Every step of `herme2poly` on `c` stays within `i64`.
pub open spec fn from_hermite_fits(c: Seq<int>) -> bool {
    &&& c.len() <= i64::MAX
    &&& c.len() > 2 ==> clenshaw_fits(
        c,
        c.len() - 1,
        seq![c[c.len() - 2]],
        seq![c[c.len() - 1]],
    )
}

/// The coefficients of `x` times a Hermite series.
pub proof fn lemma_hermite_times_x(c: Seq<int>)
    ensures
        forall|j: int| #[trigger]
            coeff(hermite_times_x(c), j) == coeff(c, j - 1) + (j + 1) * coeff(c, j + 1),
{
    assert forall|j: int| #[trigger]
        coeff(hermite_times_x(c), j) == coeff(c, j - 1) + (j + 1) * coeff(c, j + 1) by {
        if j < 0 || j > c.len() {
            assert((j + 1) * 0 == 0);
            if j == -1 {
                assert(0 * coeff(c, 0) == 0);
            }
        }
    }
}

/// The Horner steps keep the highest coefficient and add one degree each.
pub proof fn lemma_to_hermite_shape(c: Seq<int>, index: int)
    requires
        0 <= index <= c.len() - 1,
    ensures
        to_hermite_from(c, index).len() == c.len() - index,
        to_hermite_from(c, index).last() == c[c.len() - 1],
    decreases c.len() - index,
{
    if index < c.len() - 1 {
        lemma_to_hermite_shape(c, index + 1);
        let r = to_hermite_from(c, index + 1);
        let h = hermite_times_x(r);
        let n = r.len() as int;
        assert(h[n] == coeff(r, n - 1) + (n + 1) * coeff(r, n + 1));
        assert((n + 1) * 0 == 0);
    }
}

/// The Hermite series of a polynomial, by Horner's rule on its coefficients
/// from the highest down, multiplying by `x` in the Hermite basis: the
/// coefficients `h` with `sum h[j] He_j(x) = p(x)`.
pub fn poly2herme(p: &Polynomial<i64>) -> (r: Polynomial<i64>)
    requires
        signed_coefficients(*p).len() >= 1,
        signed_coefficients(*p).last() != 0,
        to_hermite_fits(ints(signed_coefficients(*p))),
    ensures
        ints(signed_coefficients(r)) == to_hermite(ints(signed_coefficients(*p))),
        is_trimmed(to_hermite(ints(signed_coefficients(*p)))),
        signed_coefficients(r).len() == signed_coefficients(*p).len(),
        forall|t: int| #[trigger]
            series_value(
                ints(signed_coefficients(r)),
                signed_coefficients(r).len() as int,
                t,
            ) == coeff(ints(signed_coefficients(*p)), t),
{
    let data: Vec<i64> = signed_data(p);
    let deg: usize = data.len() - 1;
    let ghost c = ints(data@);
    let top: Vec<i64> = vec![data[deg]];
    proof {
        assert(ints(top@) =~= to_hermite_from(c, deg as int));
        lemma_trim(ints(top@));
    }
    let mut res: Polynomial<i64> = signed_polynomial(top);
    let mut index: usize = deg;
    while index > 0
        invariant
            index <= deg,
            deg == data.len() - 1,
            c == ints(data@),
            c.last() != 0,
            to_hermite_fits(c),
            ints(signed_coefficients(res)) == to_hermite_from(c, index as int),
        decreases index,
    {
        index -= 1;
        let ghost before = to_hermite_from(c, index + 1);
        let ghost h = hermite_times_x(before);
        let constant: Vec<i64> = vec![data[index]];
        let low: Polynomial<i64> = signed_polynomial(constant);
        proof {
            lemma_to_hermite_shape(c, index + 1);
            lemma_to_hermite_shape(c, index as int);
            assert(hermite_times_x_fits(before));
        }
        let high: Polynomial<i64> = hermemulx(&res);
        proof {
            let n = before.len() as int;
            assert(h[n] == coeff(before, n - 1) + (n + 1) * coeff(before, n + 1));
            assert((n + 1) * 0 == 0);
            lemma_trim(h);
            lemma_trim(ints(constant@));
            let e = ints(signed_coefficients(low));
            assert(ints(constant@) =~= seq![c[index as int]]);
            assert forall|t: int| 0 <= t < h.len() && 0 <= t < e.len() implies #[trigger] fits_i64(
                h[t] + e[t],
            ) by {
                assert(t == 0);
                assert(e[0] == c[index as int]);
                assert(fits_i64(coeff(h, 0) + c[index as int]));
            }
            let target = to_hermite_from(c, index as int);
            assert(target == sum_of(h, seq![c[index as int]]));
            lemma_coefficients(h, e, 0);
            lemma_coefficients(h, seq![c[index as int]], 0);
            assert forall|t: int| coeff(sum_of(h, e), t) == coeff(target, t) by {
                assert(coeff(e, t) == coeff(seq![c[index as int]], t));
            }
            lemma_same_trim(sum_of(h, e), target);
            lemma_trim(target);
        }
        res = hermadd(&high, &low);
    }
    proof {
        lemma_to_hermite_shape(c, 0);
        let h = ints(signed_coefficients(res));
        assert(h == to_hermite(c));
        assert(h.len() == signed_coefficients(res).len());
        assert(c == ints(signed_coefficients(*p)));
        assert forall|t: int| #[trigger]
            series_value(h, signed_coefficients(res).len() as int, t) == coeff(c, t) by {
            lemma_to_hermite(c, t);
        }
    }
    res
}

/// Multiplies a polynomial by `x`.
fn polymulx(p: &Polynomial<i64>) -> (r: Polynomial<i64>)
    ensures
        ints(signed_coefficients(r)) == trim(shifted(ints(signed_coefficients(*p)))),
{
    let x_data: Vec<i64> = vec![0, 1];
    let x: Polynomial<i64> = signed_polynomial(x_data);
    proof {
        let a = ints(signed_coefficients(*p));
        assert(ints(x_data@) =~= seq![0int, 1int]);
        lemma_trim(ints(x_data@));
        let b = ints(signed_coefficients(x));
        assert(b == seq![0int, 1int]);
        assert forall|j: int, k: int|
            0 <= j < a.len() && 0 <= k < b.len() implies #[trigger] fits_i64(
            a[j] * b[k],
        ) by {
            assert(a[j] * 0 == 0);
            assert(a[j] * 1 == a[j]);
        }
        assert forall|i: int, k: int| 0 <= i && 0 <= k <= a.len() implies #[trigger] fits_i64(
            product_partial(a, b, i, k),
        ) by {
            lemma_product_by_x(a, i, k);
        }
        assert forall|t: int| coeff(product_of(a, b), t) == coeff(shifted(a), t) by {
            if a.len() > 0 && 0 <= t < a.len() + 1 {
                lemma_product_by_x(a, t, a.len() as int);
            }
        }
        lemma_same_trim(product_of(a, b), shifted(a));
    }
    signed_product(p, &x)
}

/// The polynomial `sum c[j] He_j(x)` of a Hermite series `c`, by the
/// downward three-term recurrence; series of one or two terms are
/// polynomials already.
pub fn herme2poly(p: &Polynomial<i64>) -> (r: Polynomial<i64>)
    requires
        signed_coefficients(*p).len() >= 1,
        from_hermite_fits(ints(signed_coefficients(*p))),
    ensures
        ints(signed_coefficients(r)) == trim(from_hermite(ints(signed_coefficients(*p)))),
        forall|t: int| #[trigger]
            coeff(ints(signed_coefficients(r)), t) == series_value(
                ints(signed_coefficients(*p)),
                signed_coefficients(*p).len() as int,
                t,
            ),
{
    let data: Vec<i64> = signed_data(p);
    let n: usize = data.len();
    let ghost c = ints(data@);
    proof {
        lemma_trim(from_hermite(c));
        assert forall|t: int| #[trigger]
            coeff(trim(from_hermite(c)), t) == series_value(c, c.len() as int, t) by {
            lemma_from_hermite(c, t);
            assert(coeff(trim(from_hermite(c)), t) == coeff(from_hermite(c), t));
        }
    }
    if n == 1 || n == 2 {
        return signed_polynomial(data);
    }
    let c0: Vec<i64> = vec![data[n - 2]];
    let c1: Vec<i64> = vec![data[n - 1]];
    let ghost mut lower_terms: Seq<int> = seq![c[n - 2]];
    let ghost mut upper_terms: Seq<int> = seq![c[n - 1]];
    proof {
        assert(ints(c0@) =~= lower_terms);
        assert(ints(c1@) =~= upper_terms);
    }
    let mut lower: Polynomial<i64> = signed_polynomial(c0);
    let mut upper: Polynomial<i64> = signed_polynomial(c1);
    let mut i: usize = n - 1;
    while i >= 2
        invariant
            1 <= i <= n - 1,
            n == data.len(),
            n <= i64::MAX,
            c == ints(data@),
            ints(signed_coefficients(lower)) == trim(lower_terms),
            ints(signed_coefficients(upper)) == trim(upper_terms),
            clenshaw_fits(c, i as int, lower_terms, upper_terms),
            clenshaw(c, i as int, lower_terms, upper_terms) == from_hermite(c),
        decreases i,
    {
        let tmp: Polynomial<i64> = lower;
        let ghost lower_held = ints(signed_coefficients(tmp));
        let ghost upper_held = ints(signed_coefficients(upper));
        let factor_data: Vec<i64> = vec![(i - 1) as i64];
        let factor: Polynomial<i64> = signed_polynomial(factor_data);
        let constant_data: Vec<i64> = vec![data[i - 2]];
        let constant: Polynomial<i64> = signed_polynomial(constant_data);
        let ghost k = (i - 1) as int;
        let ghost f = ints(signed_coefficients(factor));
        let ghost d = ints(signed_coefficients(constant));
        proof {
            lemma_trim(lower_terms);
            lemma_trim(upper_terms);
            assert(ints(factor_data@) =~= seq![k]);
            lemma_trim(ints(factor_data@));
            assert(f == seq![k]);
            assert(ints(constant_data@) =~= seq![c[i - 2]]);
            lemma_trim(ints(constant_data@));
            assert forall|j: int, kk: int|
                0 <= j < upper_held.len() && 0 <= kk < f.len() implies #[trigger] fits_i64(
                upper_held[j] * f[kk],
            ) by {
                assert(fits_i64(upper_terms[j] * k));
            }
            assert forall|t: int, kk: int|
                0 <= t && 0 <= kk <= upper_held.len() implies #[trigger] fits_i64(
                product_partial(upper_held, f, t, kk),
            ) by {
                lemma_product_by_constant(upper_held, k, t, kk);
                if 0 <= t < kk {
                    assert(fits_i64(upper_terms[t] * k));
                }
            }
        }
        let multiple: Polynomial<i64> = signed_product(&upper, &factor);
        let ghost g = ints(signed_coefficients(multiple));
        proof {
            lemma_coefficients(upper_terms, upper_terms, k);
            assert forall|t: int|
                coeff(product_of(upper_held, f), t) == coeff(scaled(upper_terms, k), t) by {
                if upper_held.len() > 0 && 0 <= t < upper_held.len() {
                    lemma_product_by_constant(upper_held, k, t, upper_held.len() as int);
                    assert(coeff(upper_held, t) * k
                        == k * coeff(upper_terms, t)) by (nonlinear_arith)
                        requires
                            coeff(upper_held, t) == coeff(upper_terms, t),
                    ;
                } else {
                    assert(coeff(upper_held, t) == 0);
                    assert(k * 0 == 0);
                }
            }
            lemma_same_trim(product_of(upper_held, f), scaled(upper_terms, k));
            lemma_trim(scaled(upper_terms, k));
            assert forall|t: int| #[trigger] fits_i64(coeff(d, t) - coeff(g, t)) by {
                assert(coeff(d, t) == coeff(seq![c[i - 2]], t));
                assert(fits_i64(coeff(seq![c[i - 2]], t) - coeff(scaled(upper_terms, k), t)));
            }
        }
        lower = signed_difference(&constant, &multiple);
        let times_x: Polynomial<i64> = polymulx(&upper);
        let ghost s = ints(signed_coefficients(times_x));
        proof {
            lemma_coefficients(upper_held, upper_held, 0);
            lemma_coefficients(upper_terms, upper_terms, 0);
            assert forall|t: int|
                coeff(shifted(upper_held), t) == coeff(shifted(upper_terms), t) by {
                assert(coeff(upper_held, t - 1) == coeff(upper_terms, t - 1));
            }
            lemma_same_trim(shifted(upper_held), shifted(upper_terms));
            lemma_trim(shifted(upper_terms));
            assert forall|t: int|
                0 <= t < lower_held.len() && 0 <= t < s.len() implies #[trigger] fits_i64(
                lower_held[t] + s[t],
            ) by {
                assert(fits_i64(coeff(lower_terms, t) + coeff(shifted(upper_terms), t)));
            }
        }
        upper = signed_sum(&tmp, &times_x);
        proof {
            let next_lower_terms = difference_of(seq![c[i - 2]], scaled(upper_terms, k));
            let next_upper_terms = sum_of(lower_terms, shifted(upper_terms));
            lemma_coefficients(d, g, 0);
            lemma_coefficients(seq![c[i - 2]], scaled(upper_terms, k), 0);
            assert forall|t: int| coeff(difference_of(d, g), t) == coeff(next_lower_terms, t) by {
                assert(coeff(d, t) == coeff(seq![c[i - 2]], t));
                assert(coeff(g, t) == coeff(scaled(upper_terms, k), t));
            }
            lemma_same_trim(difference_of(d, g), next_lower_terms);
            lemma_coefficients(lower_held, s, 0);
            lemma_coefficients(lower_terms, shifted(upper_terms), 0);
            assert forall|t: int| coeff(sum_of(lower_held, s), t) == coeff(next_upper_terms, t) by {
                assert(coeff(lower_held, t) == coeff(lower_terms, t));
                assert(coeff(s, t) == coeff(shifted(upper_terms), t));
            }
            lemma_same_trim(sum_of(lower_held, s), next_upper_terms);
            lower_terms = next_lower_terms;
            upper_terms = next_upper_terms;
        }
        i -= 1;
    }
    let times_x: Polynomial<i64> = polymulx(&upper);
    proof {
        let lower_held = ints(signed_coefficients(lower));
        let upper_held = ints(signed_coefficients(upper));
        let s = ints(signed_coefficients(times_x));
        lemma_trim(lower_terms);
        lemma_trim(upper_terms);
        lemma_coefficients(upper_held, upper_held, 0);
        lemma_coefficients(upper_terms, upper_terms, 0);
        assert forall|t: int| coeff(shifted(upper_held), t) == coeff(shifted(upper_terms), t) by {
            assert(coeff(upper_held, t - 1) == coeff(upper_terms, t - 1));
        }
        lemma_same_trim(shifted(upper_held), shifted(upper_terms));
        lemma_trim(shifted(upper_terms));
        assert forall|t: int|
            0 <= t < lower_held.len() && 0 <= t < s.len() implies #[trigger] fits_i64(
            lower_held[t] + s[t],
        ) by {
            assert(fits_i64(coeff(lower_terms, t) + coeff(shifted(upper_terms), t)));
        }
        lemma_coefficients(lower_held, s, 0);
        lemma_coefficients(lower_terms, shifted(upper_terms), 0);
        assert forall|t: int|
            coeff(sum_of(lower_held, s), t) == coeff(sum_of(lower_terms, shifted(upper_terms)), t) by {
            assert(coeff(lower_held, t) == coeff(lower_terms, t));
            assert(coeff(s, t) == coeff(shifted(upper_terms), t));
        }
        lemma_same_trim(sum_of(lower_held, s), sum_of(lower_terms, shifted(upper_terms)));
    }
    hermadd(&lower, &times_x)
}

} // verus!
