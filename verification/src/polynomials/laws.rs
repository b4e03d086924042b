//! What the two basis conversions compute, and that one undoes the other.
//!
//! A Hermite series `c` stands for the polynomial `sum c[j] He_j(x)`, where
//! `He_0 = 1`, `He_1 = x` and `He_(n+1) = x He_n - n He_(n-1)`.

use crate::polynomials::algebra::{
    coeff, difference_of, lemma_coefficients, lemma_same_trim, lemma_trim, scaled, shifted, sum_of,
    trim,
};
use crate::polynomials::hermite::{
    clenshaw, from_hermite, hermite_times_x, lemma_hermite_times_x, lemma_to_hermite_shape,
    to_hermite, to_hermite_from,
};
use vstd::prelude::*;

verus! {

/// The coefficients of the probabilists' Hermite polynomial `He_n`.
pub open spec fn hermite_polynomial(n: nat) -> Seq<int>
    decreases n,
{
    if n == 0 {
        seq![1int]
    } else if n == 1 {
        seq![0int, 1int]
    } else {
        difference_of(
            shifted(hermite_polynomial((n - 1) as nat)),
            scaled(hermite_polynomial((n - 2) as nat), n - 1),
        )
    }
}

/// Coefficient of degree `t` of `He_n`, zero for a negative `n`.
pub open spec fn he(n: int, t: int) -> int {
    if n < 0 {
        0
    } else {
        coeff(hermite_polynomial(n as nat), t)
    }
}

/// Coefficient of degree `t` of the polynomial that the first `n` terms of
/// the Hermite series `c` stand for.
pub open spec fn series_value(c: Seq<int>, n: int, t: int) -> int
    decreases n,
{
    if n <= 0 {
        0
    } else {
        series_value(c, n - 1, t) + coeff(c, n - 1) * he(n - 1, t)
    }
}

/// Coefficient of degree `t` of the product of `He_m` with the first `n`
/// terms of the polynomial `p`.
pub open spec fn he_multiple(p: Seq<int>, m: int, t: int, n: int) -> int
    decreases n,
{
    if n <= 0 {
        0
    } else {
        he_multiple(p, m, t, n - 1) + coeff(p, n - 1) * he(m, t - (n - 1))
    }
}

/// The unit series of index `n`: the Hermite series of `He_n`, and the
/// polynomial `x^n`.
pub open spec fn monomial(n: nat) -> Seq<int> {
    Seq::new(n + 1, |i: int| if i == n { 1int } else { 0int })
}

/// `He_n` has degree `n` and leading coefficient one.
pub proof fn lemma_hermite_shape(n: nat)
    ensures
        hermite_polynomial(n).len() == n + 1,
        hermite_polynomial(n)[n as int] == 1,
    decreases n,
{
    if n >= 2 {
        lemma_hermite_shape((n - 1) as nat);
        lemma_hermite_shape((n - 2) as nat);
        assert((n - 1) * 0 == 0);
    }
}

/// The three-term recurrence, coefficient by coefficient.
pub proof fn lemma_he_recurrence(n: int, t: int)
    requires
        n >= 0,
    ensures
        he(n + 1, t) == he(n, t - 1) - n * he(n - 1, t),
        he(0, t) == if t == 0 { 1int } else { 0int },
{
    if n >= 1 {
        let a = shifted(hermite_polynomial(n as nat));
        let b = scaled(hermite_polynomial((n - 1) as nat), n);
        lemma_coefficients(a, b, 0);
        lemma_coefficients(hermite_polynomial(n as nat), hermite_polynomial(n as nat), 0);
        lemma_coefficients(hermite_polynomial((n - 1) as nat), hermite_polynomial(0), n);
        assert(hermite_polynomial((n + 1) as nat) == difference_of(a, b));
    } else {
        assert(0 * he(-1, t) == 0);
    }
}

/// Terms beyond the end of a series add nothing.
pub proof fn lemma_series_beyond(c: Seq<int>, n: int, t: int)
    requires
        n >= c.len(),
    ensures
        series_value(c, n, t) == series_value(c, c.len() as int, t),
    decreases n,
{
    if n > c.len() {
        lemma_series_beyond(c, n - 1, t);
        assert(0 * he(n - 1, t) == 0);
    }
}

/// The value of a series is additive in the series.
pub proof fn lemma_series_sum(a: Seq<int>, b: Seq<int>, n: int, t: int)
    ensures
        series_value(sum_of(a, b), n, t) == series_value(a, n, t) + series_value(b, n, t),
    decreases n,
{
    if n > 0 {
        lemma_series_sum(a, b, n - 1, t);
        lemma_coefficients(a, b, 0);
        let x = coeff(a, n - 1);
        let y = coeff(b, n - 1);
        let h = he(n - 1, t);
        assert((x + y) * h == x * h + y * h) by (nonlinear_arith);
    }
}

/// The polynomial of `x` times a series is `x` times the polynomial of the
/// series, up to the two terms that the first `n` terms of the series do not
/// reach yet.
proof fn lemma_series_times_x(c: Seq<int>, n: int, t: int)
    requires
        n >= 0,
    ensures
        series_value(hermite_times_x(c), n + 1, t) == series_value(c, n, t - 1) + n * (coeff(c, n)
            * he(n - 1, t)) + (n + 1) * (coeff(c, n + 1) * he(n, t)),
    decreases n,
{
    let hx = hermite_times_x(c);
    lemma_hermite_times_x(c);
    if n == 0 {
        assert(series_value(hx, 1, t) == series_value(hx, 0, t) + coeff(hx, 0) * he(0, t));
        assert(coeff(hx, 0) == coeff(c, -1) + (0 + 1) * coeff(c, 1));
        let a = coeff(c, 1);
        let h = he(0, t);
        assert((0 + (0 + 1) * a) * h == 0 * (coeff(c, 0) * he(-1, t)) + (0 + 1) * (a * h))
            by (nonlinear_arith);
    } else {
        lemma_series_times_x(c, n - 1, t);
        lemma_he_recurrence(n - 1, t);
        let a = coeff(c, n - 1);
        let b = coeff(c, n + 1);
        let m = coeff(c, n);
        let x = he(n - 2, t);
        let y = he(n, t);
        let z = he(n - 1, t - 1);
        let u = he(n - 1, t);
        assert(coeff(hx, n) == a + (n + 1) * b);
        assert(series_value(hx, n + 1, t) == series_value(hx, n, t) + coeff(hx, n) * y);
        assert(series_value(c, n, t - 1) == series_value(c, n - 1, t - 1) + a * z);
        assert((n - 1) * (a * x) + n * (m * u) + (a + (n + 1) * b) * y == a * z + n * (m * u) + (n
            + 1) * (b * y)) by (nonlinear_arith)
            requires
                y == z - (n - 1) * x,
        ;
    }
}

/// The polynomial of `x` times a series is `x` times the polynomial of the
/// series.
pub proof fn lemma_series_shift(c: Seq<int>, t: int)
    ensures
        series_value(hermite_times_x(c), (c.len() + 1) as int, t) == series_value(
            c,
            c.len() as int,
            t - 1,
        ),
{
    let n = c.len() as int;
    lemma_series_times_x(c, n, t);
    assert(n * (0 * he(n - 1, t)) == 0) by (nonlinear_arith);
    assert((n + 1) * (0 * he(n, t)) == 0) by (nonlinear_arith);
}

/// The Hermite series that Horner's rule builds stands for the polynomial
/// that it was built from.
proof fn lemma_series_of_to_hermite(c: Seq<int>, index: int, t: int)
    requires
        0 <= index <= c.len() - 1,
    ensures
        series_value(to_hermite_from(c, index), c.len() - index, t) == if t >= 0 {
            coeff(c, t + index)
        } else {
            0
        },
    decreases c.len() - index,
{
    lemma_he_recurrence(0, t);
    if index >= c.len() - 1 {
        let r = to_hermite_from(c, index);
        assert(series_value(r, 1, t) == series_value(r, 0, t) + coeff(r, 0) * he(0, t));
        assert(coeff(r, 0) * 1 == coeff(r, 0));
        assert(coeff(r, 0) * 0 == 0);
    } else {
        let r1 = to_hermite_from(c, index + 1);
        let n = c.len() - index - 1;
        lemma_to_hermite_shape(c, index + 1);
        lemma_series_of_to_hermite(c, index + 1, t - 1);
        let hx = hermite_times_x(r1);
        let k = seq![c[index]];
        lemma_series_sum(hx, k, n + 1, t);
        lemma_series_shift(r1, t);
        lemma_series_beyond(k, n + 1, t);
        assert(series_value(k, 1, t) == series_value(k, 0, t) + coeff(k, 0) * he(0, t));
        assert(c[index] * 1 == c[index]);
        assert(c[index] * 0 == 0);
    }
}

/// Terms beyond the end of a polynomial add nothing to its product with a
/// Hermite polynomial.
proof fn lemma_multiple_beyond(p: Seq<int>, m: int, t: int, n: int)
    requires
        n >= p.len(),
    ensures
        he_multiple(p, m, t, n) == he_multiple(p, m, t, p.len() as int),
    decreases n,
{
    if n > p.len() {
        lemma_multiple_beyond(p, m, t, n - 1);
        assert(0 * he(m, t - (n - 1)) == 0);
    }
}

proof fn lemma_multiple_sum(a: Seq<int>, b: Seq<int>, m: int, t: int, n: int)
    ensures
        he_multiple(sum_of(a, b), m, t, n) == he_multiple(a, m, t, n) + he_multiple(b, m, t, n),
        he_multiple(difference_of(a, b), m, t, n) == he_multiple(a, m, t, n) - he_multiple(
            b,
            m,
            t,
            n,
        ),
    decreases n,
{
    if n > 0 {
        lemma_multiple_sum(a, b, m, t, n - 1);
        lemma_coefficients(a, b, 0);
        let x = coeff(a, n - 1);
        let y = coeff(b, n - 1);
        let h = he(m, t - (n - 1));
        assert((x + y) * h == x * h + y * h) by (nonlinear_arith);
        assert((x - y) * h == x * h - y * h) by (nonlinear_arith);
    }
}

proof fn lemma_multiple_scaled(a: Seq<int>, k: int, m: int, t: int, n: int)
    ensures
        he_multiple(scaled(a, k), m, t, n) == k * he_multiple(a, m, t, n),
    decreases n,
{
    if n > 0 {
        lemma_multiple_scaled(a, k, m, t, n - 1);
        lemma_coefficients(a, a, k);
        let x = coeff(a, n - 1);
        let h = he(m, t - (n - 1));
        let s = he_multiple(a, m, t, n - 1);
        assert(k * s + (k * x) * h == k * (s + x * h)) by (nonlinear_arith);
    } else {
        assert(k * 0 == 0);
    }
}

proof fn lemma_multiple_shifted(a: Seq<int>, m: int, t: int, n: int)
    requires
        n >= 0,
    ensures
        he_multiple(shifted(a), m, t, n + 1) == he_multiple(a, m, t - 1, n),
    decreases n,
{
    lemma_coefficients(a, a, 0);
    if n > 0 {
        lemma_multiple_shifted(a, m, t, n - 1);
    } else {
        assert(he_multiple(shifted(a), m, t, 1) == he_multiple(shifted(a), m, t, 0) + coeff(
            shifted(a),
            0,
        ) * he(m, t));
        assert(0 * he(m, t) == 0);
    }
}

proof fn lemma_multiple_recurrence(p: Seq<int>, m: int, t: int, n: int)
    requires
        m >= 1,
    ensures
        he_multiple(p, m + 1, t, n) == he_multiple(p, m, t - 1, n) - m * he_multiple(
            p,
            m - 1,
            t,
            n,
        ),
    decreases n,
{
    if n > 0 {
        lemma_multiple_recurrence(p, m, t, n - 1);
        lemma_he_recurrence(m, t - (n - 1));
        let x = coeff(p, n - 1);
        let h1 = he(m + 1, t - (n - 1));
        let h0 = he(m, t - 1 - (n - 1));
        let hm = he(m - 1, t - (n - 1));
        let s0 = he_multiple(p, m, t - 1, n - 1);
        let sm = he_multiple(p, m - 1, t, n - 1);
        assert(s0 - m * sm + x * h1 == (s0 + x * h0) - m * (sm + x * hm)) by (nonlinear_arith)
            requires
                h1 == h0 - m * hm,
        ;
    } else {
        assert(m * 0 == 0);
    }
}

/// The products with `He_0 = 1` and `He_1 = x`.
proof fn lemma_multiple_low(p: Seq<int>, t: int, n: int)
    requires
        n >= 0,
    ensures
        he_multiple(p, 0, t, n) == if 0 <= t < n { coeff(p, t) } else { 0 },
        he_multiple(p, 1, t, n) == if 0 <= t - 1 < n { coeff(p, t - 1) } else { 0 },
    decreases n,
{
    if n > 0 {
        lemma_multiple_low(p, t, n - 1);
        lemma_he_recurrence(0, t - (n - 1));
        lemma_he_recurrence(0, t - (n - 1) - 1);
        let x = coeff(p, n - 1);
        assert(x * 1 == x);
        assert(x * 0 == 0);
        assert(0 * he(-1, t - (n - 1)) == 0);
    }
}

/// What the downward recurrence has in hand at step `i`: the terms of the
/// series below `i - 1`, and `lower He_(i-1) + upper He_i` for those above.
proof fn lemma_clenshaw(c: Seq<int>, i: int, lower: Seq<int>, upper: Seq<int>, t: int)
    requires
        1 <= i,
        i - 2 < c.len(),
    ensures
        coeff(clenshaw(c, i, lower, upper), t) == series_value(c, i - 1, t) + he_multiple(
            lower,
            i - 1,
            t,
            lower.len() as int,
        ) + he_multiple(upper, i, t, upper.len() as int),
    decreases i,
{
    if i < 2 {
        lemma_coefficients(lower, shifted(upper), 0);
        lemma_coefficients(upper, upper, 0);
        lemma_multiple_low(lower, t, lower.len() as int);
        lemma_multiple_low(upper, t, upper.len() as int);
    } else {
        let k = seq![c[i - 2]];
        let next_lower = difference_of(k, scaled(upper, i - 1));
        let next_upper = sum_of(lower, shifted(upper));
        lemma_clenshaw(c, i - 1, next_lower, next_upper, t);
        // the new lower part
        let next_lower_terms = next_lower.len() as int;
        lemma_multiple_sum(k, scaled(upper, i - 1), i - 2, t, next_lower_terms);
        lemma_multiple_beyond(k, i - 2, t, next_lower_terms);
        lemma_multiple_beyond(scaled(upper, i - 1), i - 2, t, next_lower_terms);
        lemma_multiple_scaled(upper, i - 1, i - 2, t, upper.len() as int);
        assert(he_multiple(k, i - 2, t, 1) == he_multiple(k, i - 2, t, 0) + coeff(k, 0) * he(
            i - 2,
            t,
        ));
        // the new upper part
        let next_upper_terms = next_upper.len() as int;
        lemma_multiple_sum(lower, shifted(upper), i - 1, t, next_upper_terms);
        lemma_multiple_beyond(lower, i - 1, t, next_upper_terms);
        lemma_multiple_beyond(shifted(upper), i - 1, t, next_upper_terms);
        lemma_multiple_shifted(upper, i - 1, t, upper.len() as int);
        // the recurrence in the index of the Hermite polynomial
        lemma_multiple_recurrence(upper, i - 1, t, upper.len() as int);
        assert(series_value(c, i - 1, t) == series_value(c, i - 2, t) + coeff(c, i - 2) * he(
            i - 2,
            t,
        ));
    }
}

/// `herme2poly` gives the polynomial that the series stands for.
pub proof fn lemma_from_hermite(c: Seq<int>, t: int)
    ensures
        coeff(from_hermite(c), t) == series_value(c, c.len() as int, t),
{
    let n = c.len() as int;
    lemma_he_recurrence(0, t);
    lemma_he_recurrence(0, t - 1);
    if n == 0 {
    } else if n == 1 {
        assert(series_value(c, 1, t) == series_value(c, 0, t) + coeff(c, 0) * he(0, t));
        assert(c[0] * 1 == c[0]);
        assert(c[0] * 0 == 0);
    } else if n == 2 {
        assert(series_value(c, 1, t) == series_value(c, 0, t) + coeff(c, 0) * he(0, t));
        assert(series_value(c, 2, t) == series_value(c, 1, t) + coeff(c, 1) * he(1, t));
        assert(0 * he(-1, t) == 0);
        assert(c[0] * 1 == c[0]);
        assert(c[0] * 0 == 0);
        assert(c[1] * 1 == c[1]);
        assert(c[1] * 0 == 0);
    } else {
        let lower = seq![c[n - 2]];
        let upper = seq![c[n - 1]];
        lemma_clenshaw(c, n - 1, lower, upper, t);
        assert(he_multiple(lower, n - 2, t, 1)
            == he_multiple(lower, n - 2, t, 0) + coeff(lower, 0) * he(
            n - 2,
            t,
        ));
        assert(he_multiple(upper, n - 1, t, 1)
            == he_multiple(upper, n - 1, t, 0) + coeff(upper, 0) * he(
            n - 1,
            t,
        ));
        assert(series_value(c, n - 1, t) == series_value(c, n - 2, t) + coeff(c, n - 2) * he(
            n - 2,
            t,
        ));
        assert(series_value(c, n, t) == series_value(c, n - 1, t) + coeff(c, n - 1) * he(n - 1, t));
    }
}

/// `poly2herme` gives a Hermite series that stands for the polynomial.
pub proof fn lemma_to_hermite(c: Seq<int>, t: int)
    requires
        c.len() >= 1,
    ensures
        series_value(to_hermite(c), c.len() as int, t) == coeff(c, t),
        to_hermite(c).len() == c.len(),
{
    lemma_series_of_to_hermite(c, 0, t);
    lemma_to_hermite_shape(c, 0);
}

/// Converting a polynomial to its Hermite series and back gives the
/// polynomial: `herme2poly(poly2herme(p)) == p`.
pub proof fn lemma_round_trip(c: Seq<int>)
    requires
        c.len() >= 1,
        c.last() != 0,
    ensures
        trim(from_hermite(to_hermite(c))) == c,
{
    let h = to_hermite(c);
    lemma_to_hermite_shape(c, 0);
    assert forall|t: int| coeff(from_hermite(h), t) == coeff(c, t) by {
        lemma_from_hermite(h, t);
        lemma_series_of_to_hermite(c, 0, t);
    }
    lemma_same_trim(from_hermite(h), c);
    lemma_trim(c);
}

/// The value of a unit series is its Hermite polynomial.
pub proof fn lemma_series_of_monomial(n: nat, k: int, t: int)
    requires
        0 <= k <= n + 1,
    ensures
        series_value(monomial(n), k, t) == if k == n + 1 { he(n as int, t) } else { 0 },
    decreases k,
{
    if k > 0 {
        lemma_series_of_monomial(n, k - 1, t);
        assert(1 * he(k - 1, t) == he(k - 1, t));
        assert(0 * he(k - 1, t) == 0);
    }
}

/// The polynomial that `herme2poly` gives for the unit series of index `n`
/// is `He_n`.
pub proof fn lemma_from_hermite_monomial(n: nat)
    ensures
        trim(from_hermite(monomial(n))) == hermite_polynomial(n),
{
    assert forall|t: int|
        coeff(from_hermite(monomial(n)), t) == coeff(hermite_polynomial(n), t) by {
        lemma_from_hermite(monomial(n), t);
        lemma_series_of_monomial(n, (n + 1) as int, t);
    }
    lemma_same_trim(from_hermite(monomial(n)), hermite_polynomial(n));
    lemma_hermite_shape(n);
    lemma_trim(hermite_polynomial(n));
}

} // verus!
