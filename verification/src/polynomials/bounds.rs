//! Series for which `herme2poly` stays within `i64`.

use crate::polynomials::algebra::{
    coeff, difference_of, fits_i64, lemma_coefficients, scaled, shifted, sum_of,
};
use crate::polynomials::hermite::{clenshaw_fits, from_hermite_fits};
use crate::polynomials::laws::monomial;
use vstd::prelude::*;

verus! {

/// `n!`.
pub open spec fn factorial(n: nat) -> nat
    decreases n,
{
    if n == 0 {
        1
    } else {
        n * factorial((n - 1) as nat)
    }
}

/// No coefficient of `p` exceeds `b` in magnitude.
pub open spec fn bounded(p: Seq<int>, b: int) -> bool {
    forall|t: int| -b <= #[trigger] coeff(p, t) <= b
}

pub proof fn lemma_factorial_grows(n: nat)
    ensures
        factorial(n) >= 1,
        factorial(n) >= n,
        factorial(n + 1) >= factorial(n),
    decreases n,
{
    if n > 0 {
        lemma_factorial_grows((n - 1) as nat);
        let f = factorial((n - 1) as nat) as int;
        let m = n as int;
        assert(m * f >= m) by (nonlinear_arith)
            requires
                f >= 1,
                m >= 1,
        ;
    }
    let g = factorial(n) as int;
    let successor = (n + 1) as int;
    assert(factorial(n + 1) == (n + 1) * factorial(n));
    assert(successor * g >= g) by (nonlinear_arith)
        requires
            g >= 0,
            successor >= 1,
    ;
}

proof fn lemma_factorial_monotone(a: nat, b: nat)
    requires
        a <= b,
    ensures
        factorial(a) <= factorial(b),
    decreases b - a,
{
    if a < b {
        lemma_factorial_monotone(a, (b - 1) as nat);
        lemma_factorial_grows((b - 1) as nat);
    }
}

proof fn lemma_factorial_20()
    ensures
        factorial(20) == 2432902008176640000,
{
    assert(factorial(0) == 1);
    assert(factorial(1) == 1) by {
        assert(factorial(1) == 1 * factorial(0));
    }
    assert(factorial(2) == 2) by {
        assert(factorial(2) == 2 * factorial(1));
    }
    assert(factorial(3) == 6) by {
        assert(factorial(3) == 3 * factorial(2));
    }
    assert(factorial(4) == 24) by {
        assert(factorial(4) == 4 * factorial(3));
    }
    assert(factorial(5) == 120) by {
        assert(factorial(5) == 5 * factorial(4));
    }
    assert(factorial(6) == 720) by {
        assert(factorial(6) == 6 * factorial(5));
    }
    assert(factorial(7) == 5040) by {
        assert(factorial(7) == 7 * factorial(6));
    }
    assert(factorial(8) == 40320) by {
        assert(factorial(8) == 8 * factorial(7));
    }
    assert(factorial(9) == 362880) by {
        assert(factorial(9) == 9 * factorial(8));
    }
    assert(factorial(10) == 3628800) by {
        assert(factorial(10) == 10 * factorial(9));
    }
    assert(factorial(11) == 39916800) by {
        assert(factorial(11) == 11 * factorial(10));
    }
    assert(factorial(12) == 479001600) by {
        assert(factorial(12) == 12 * factorial(11));
    }
    assert(factorial(13) == 6227020800) by {
        assert(factorial(13) == 13 * factorial(12));
    }
    assert(factorial(14) == 87178291200) by {
        assert(factorial(14) == 14 * factorial(13));
    }
    assert(factorial(15) == 1307674368000) by {
        assert(factorial(15) == 15 * factorial(14));
    }
    assert(factorial(16) == 20922789888000) by {
        assert(factorial(16) == 16 * factorial(15));
    }
    assert(factorial(17) == 355687428096000) by {
        assert(factorial(17) == 17 * factorial(16));
    }
    assert(factorial(18) == 6402373705728000) by {
        assert(factorial(18) == 18 * factorial(17));
    }
    assert(factorial(19) == 121645100408832000) by {
        assert(factorial(19) == 19 * factorial(18));
    }
    assert(factorial(20) == 2432902008176640000) by {
        assert(factorial(20) == 20 * factorial(19));
    }
}

/// The downward recurrence multiplies the magnitude of what it holds by at
/// most the index of the step, so a bound of `b` at step `i` stays within
/// `b * i!`.
proof fn lemma_clenshaw_bounded(c: Seq<int>, i: int, lower: Seq<int>, upper: Seq<int>, b: int)
    requires
        0 <= i,
        i - 2 < c.len(),
        bounded(c, 1),
        bounded(lower, b),
        bounded(upper, b),
        b >= 1,
        2 * (b * factorial(i as nat)) <= i64::MAX,
    ensures
        clenshaw_fits(c, i, lower, upper),
    decreases i,
{
    lemma_factorial_grows(i as nat);
    let f = factorial(i as nat) as int;
    assert(b * f >= b) by (nonlinear_arith)
        requires
            f >= 1,
            b >= 1,
    ;
    lemma_coefficients(upper, upper, 0);
    lemma_coefficients(lower, shifted(upper), 0);
    assert forall|t: int| #[trigger] fits_i64(coeff(lower, t) + coeff(shifted(upper), t)) by {
        assert(-b <= coeff(lower, t) <= b);
        assert(-b <= coeff(upper, t - 1) <= b);
    }
    if i >= 2 {
        let k = i - 1;
        let constant = seq![c[i - 2]];
        let next_lower = difference_of(constant, scaled(upper, k));
        let next_upper = sum_of(lower, shifted(upper));
        let g = factorial((i - 1) as nat) as int;
        lemma_factorial_grows((i - 1) as nat);
        assert(f == i * g);
        assert(b * f >= b * i && (b * i) * g == b * f && b * i >= b * k + 1 && b * i >= 2 * b)
            by (nonlinear_arith)
            requires
                f == i * g,
                g >= 1,
                b >= 1,
                i >= 2,
                k == i - 1,
        ;
        lemma_factorial_grows((i - 1) as nat);
        assert forall|t: int| 0 <= t < upper.len() implies #[trigger] fits_i64(upper[t] * k) by {
            let x = upper[t];
            assert(-b <= coeff(upper, t) <= b);
            assert(-(b * k) <= x * k <= b * k) by (nonlinear_arith)
                requires
                    -b <= x <= b,
                    k >= 0,
            ;
        }
        lemma_coefficients(upper, upper, k);
        lemma_coefficients(constant, scaled(upper, k), 0);
        assert forall|t: int| -(b * k) <= #[trigger] coeff(scaled(upper, k), t) <= b * k by {
            let x = coeff(upper, t);
            assert(-b <= x <= b);
            assert(-(b * k) <= k * x <= b * k) by (nonlinear_arith)
                requires
                    -b <= x <= b,
                    k >= 0,
            ;
        }
        assert forall|t: int| -1 <= #[trigger] coeff(constant, t) <= 1 by {
            assert(-1 <= coeff(c, i - 2) <= 1);
        }
        assert forall|t: int|
            #[trigger] fits_i64(coeff(constant, t) - coeff(scaled(upper, k), t)) by {
            assert(-1 <= coeff(constant, t) <= 1);
            assert(-(b * k) <= coeff(scaled(upper, k), t) <= b * k);
        }
        assert forall|t: int| -(b * i) <= #[trigger] coeff(next_lower, t) <= b * i by {
            assert(-1 <= coeff(constant, t) <= 1);
            assert(-(b * k) <= coeff(scaled(upper, k), t) <= b * k);
        }
        assert forall|t: int| -(b * i) <= #[trigger] coeff(next_upper, t) <= b * i by {
            assert(-b <= coeff(lower, t) <= b);
            assert(-b <= coeff(upper, t - 1) <= b);
        }
        lemma_clenshaw_bounded(c, i - 1, next_lower, next_upper, b * i);
    }
}

/// `herme2poly` stays within `i64` on the unit series of every index up to
/// twenty.
pub proof fn lemma_monomial_fits(n: nat)
    requires
        n <= 20,
    ensures
        from_hermite_fits(monomial(n)),
{
    let c = monomial(n);
    if n >= 2 {
        let lower = seq![c[n - 1]];
        let upper = seq![c[n as int]];
        lemma_factorial_monotone(n, 20);
        lemma_factorial_20();
        assert(1 * factorial(n) == factorial(n));
        lemma_clenshaw_bounded(c, n as int, lower, upper, 1);
    }
}

} // verus!
