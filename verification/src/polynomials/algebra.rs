//! Polynomials as sequences of integer coefficients, lowest degree first.
//! Two sequences stand for the same polynomial when they differ only in
//! zeros at the end; `trim` picks the one without such zeros.

use vstd::prelude::*;

verus! {

/// Coefficient of degree `i`, zero beyond the end of the sequence.
pub open spec fn coeff(p: Seq<int>, i: int) -> int {
    if 0 <= i < p.len() {
        p[i]
    } else {
        0
    }
}

/// `p` without the zeros at its end.
pub open spec fn trim(p: Seq<int>) -> Seq<int>
    decreases p.len(),
{
    if p.len() > 0 && p.last() == 0 {
        trim(p.drop_last())
    } else {
        p
    }
}

pub open spec fn is_trimmed(p: Seq<int>) -> bool {
    p.len() == 0 || p.last() != 0
}

/// The two sequences have the same coefficient at every degree.
pub open spec fn same_polynomial(a: Seq<int>, b: Seq<int>) -> bool {
    forall|i: int| coeff(a, i) == coeff(b, i)
}

pub open spec fn longer(a: Seq<int>, b: Seq<int>) -> nat {
    if a.len() >= b.len() {
        a.len()
    } else {
        b.len()
    }
}

pub open spec fn sum_of(a: Seq<int>, b: Seq<int>) -> Seq<int> {
    Seq::new(longer(a, b), |i: int| coeff(a, i) + coeff(b, i))
}

pub open spec fn difference_of(a: Seq<int>, b: Seq<int>) -> Seq<int> {
    Seq::new(longer(a, b), |i: int| coeff(a, i) - coeff(b, i))
}

pub open spec fn scaled(a: Seq<int>, c: int) -> Seq<int> {
    Seq::new(a.len(), |i: int| c * a[i])
}

/// `x * a`.
pub open spec fn shifted(a: Seq<int>) -> Seq<int> {
    Seq::new(a.len() + 1, |i: int| coeff(a, i - 1))
}

/// The first `k` terms of the coefficient of degree `i` of `a * b`.
pub open spec fn product_partial(a: Seq<int>, b: Seq<int>, i: int, k: int) -> int
    decreases k,
{
    if k <= 0 {
        0
    } else {
        product_partial(a, b, i, k - 1) + coeff(a, k - 1) * coeff(b, i - (k - 1))
    }
}

/// `a * b`, the empty sequence where either is empty.
pub open spec fn product_of(a: Seq<int>, b: Seq<int>) -> Seq<int> {
    if a.len() == 0 || b.len() == 0 {
        Seq::empty()
    } else {
        Seq::new(
            (a.len() + b.len() - 1) as nat,
            |i: int| product_partial(a, b, i, a.len() as int),
        )
    }
}

pub open spec fn fits_i64(x: int) -> bool {
    i64::MIN <= x <= i64::MAX
}

pub open spec fn ints(s: Seq<i64>) -> Seq<int> {
    Seq::new(s.len(), |i: int| s[i] as int)
}

pub open spec fn nats(s: Seq<u64>) -> Seq<int> {
    Seq::new(s.len(), |i: int| s[i] as int)
}

pub proof fn lemma_trim(p: Seq<int>)
    ensures
        is_trimmed(trim(p)),
        same_polynomial(trim(p), p),
        trim(p).len() <= p.len(),
        is_trimmed(p) ==> trim(p) == p,
        forall|i: int| 0 <= i < trim(p).len() ==> trim(p)[i] == p[i],
    decreases p.len(),
{
    if p.len() > 0 && p.last() == 0 {
        lemma_trim(p.drop_last());
        assert forall|i: int| coeff(trim(p), i) == coeff(p, i) by {
            assert(coeff(trim(p), i) == coeff(p.drop_last(), i));
        }
        assert forall|i: int| 0 <= i < trim(p).len() implies trim(p)[i] == p[i] by {
            assert(trim(p)[i] == p.drop_last()[i]);
        }
    }
}

/// Sequences for the same polynomial have the same trimmed form.
pub proof fn lemma_same_trim(a: Seq<int>, b: Seq<int>)
    requires
        same_polynomial(a, b),
    ensures
        trim(a) == trim(b),
    decreases a.len() + b.len(),
{
    if a.len() > 0 && a.last() == 0 {
        assert forall|i: int| coeff(a.drop_last(), i) == coeff(b, i) by {
            assert(coeff(a, i) == coeff(b, i));
        }
        lemma_same_trim(a.drop_last(), b);
    } else if b.len() > 0 && b.last() == 0 {
        assert forall|i: int| coeff(a, i) == coeff(b.drop_last(), i) by {
            assert(coeff(a, i) == coeff(b, i));
        }
        lemma_same_trim(a, b.drop_last());
    } else {
        if a.len() > b.len() {
            assert(coeff(a, a.len() - 1) == coeff(b, a.len() - 1));
        }
        if b.len() > a.len() {
            assert(coeff(a, b.len() - 1) == coeff(b, b.len() - 1));
        }
        assert forall|i: int| 0 <= i < a.len() implies a[i] == b[i] by {
            assert(coeff(a, i) == coeff(b, i));
        }
        assert(a =~= b);
    }
}

/// The coefficients of sums, differences, multiples and shifts.
pub proof fn lemma_coefficients(a: Seq<int>, b: Seq<int>, c: int)
    ensures
        forall|i: int| #[trigger] coeff(sum_of(a, b), i) == coeff(a, i) + coeff(b, i),
        forall|i: int| #[trigger] coeff(difference_of(a, b), i) == coeff(a, i) - coeff(b, i),
        forall|i: int| #[trigger] coeff(scaled(a, c), i) == c * coeff(a, i),
        forall|i: int| #[trigger] coeff(shifted(a), i) == coeff(a, i - 1),
{
    assert forall|i: int| #[trigger] coeff(scaled(a, c), i) == c * coeff(a, i) by {
        if !(0 <= i < a.len()) {
            assert(c * 0 == 0);
        }
    }
}

/// Multiplying by a constant polynomial multiplies every coefficient.
pub proof fn lemma_product_by_constant(a: Seq<int>, c: int, i: int, k: int)
    requires
        0 <= k,
    ensures
        product_partial(a, seq![c], i, k) == if 0 <= i < k {
            coeff(a, i) * c
        } else {
            0
        },
    decreases k,
{
    if k > 0 {
        lemma_product_by_constant(a, c, i, k - 1);
        let b = seq![c];
        if i != k - 1 {
            assert(coeff(b, i - (k - 1)) == 0);
            assert(coeff(a, k - 1) * 0 == 0);
        } else {
            assert(coeff(b, 0) == c);
        }
    }
}

/// Multiplying by `x` moves every coefficient up by one degree.
pub proof fn lemma_product_by_x(a: Seq<int>, i: int, k: int)
    requires
        0 <= k,
    ensures
        product_partial(a, seq![0int, 1int], i, k) == if 1 <= i <= k {
            coeff(a, i - 1)
        } else {
            0
        },
    decreases k,
{
    if k > 0 {
        lemma_product_by_x(a, i, k - 1);
        let b = seq![0int, 1int];
        let j = i - (k - 1);
        if j == 1 {
            assert(coeff(b, j) == 1);
            assert(coeff(a, k - 1) * 1 == coeff(a, k - 1));
        } else {
            assert(coeff(b, j) == 0);
            assert(coeff(a, k - 1) * 0 == 0);
        }
    }
}

} // verus!
