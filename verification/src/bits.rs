//! Facts about single machine words: population count, the positions of the
//! highest and lowest set bit, and what the bitwise operations do to single
//! bits.

use vstd::prelude::*;
use vstd::std_specs::bits::{
    axiom_u64_leading_zeros, axiom_u64_trailing_zeros, u64_leading_zeros, u64_trailing_zeros,
};

verus! {

/// Number of set bits of `x`.
pub open spec fn popcount(x: u64) -> nat
    decreases x,
{
    if x == 0 {
        0
    } else {
        (x % 2) as nat + popcount(x / 2)
    }
}

/// `u64::count_ones` returns the number of ones in the binary representation
/// of its argument.
pub assume_specification[ u64::count_ones ](x: u64) -> (r: u32)
    ensures
        r as nat == popcount(x),
;

/// Whether bit `k` of `x` is set.
pub open spec fn has_bit(x: u64, k: int) -> bool {
    0 <= k < 64 && (x >> (k as u64)) & 1 == 1
}

/// `x` with bit `k` cleared.
pub open spec fn clear_bit(x: u64, k: int) -> u64 {
    x & !(1u64 << (k as u64))
}

/// Position of the highest set bit of a non-zero word.
pub open spec fn top_bit(x: u64) -> int {
    63 - u64_leading_zeros(x)
}

/// Position of the lowest set bit of a non-zero word.
pub open spec fn low_bit(x: u64) -> int {
    u64_trailing_zeros(x) as int
}

/// The zero word has no bit, and is neutral or absorbing as it should be.
pub proof fn lemma_zero_word(a: u64, k: u64)
    by (bit_vector)
    requires
        k < 64,
    ensures
        (0u64 >> k) & 1 == 0,
        0u64 & a == 0,
        a & 0u64 == 0,
        a | 0u64 == a,
        0u64 & !(1u64 << k) == 0,
        a >> 0u64 == a,
{
}

/// The bits of the word with one bit, and of the word with all bits below
/// one.
pub proof fn lemma_single(s: u64, k: u64)
    by (bit_vector)
    requires
        s < 64,
        k < 64,
    ensures
        ((1u64 << s) >> k) & 1 == 1 <==> k == s,
        ((((1u64 << s) - 1) as u64) >> k) & 1 == 1 <==> k < s,
        1u64 << s >= 1,
{
}

/// The bits of the results of the bitwise operations.
pub proof fn lemma_bitwise(x: u64, y: u64, k: u64)
    by (bit_vector)
    requires
        k < 64,
    ensures
        ((x & y) >> k) & 1 == 1 <==> ((x >> k) & 1 == 1 && (y >> k) & 1 == 1),
        ((x | y) >> k) & 1 == 1 <==> ((x >> k) & 1 == 1 || (y >> k) & 1 == 1),
        ((!x) >> k) & 1 == 1 <==> (x >> k) & 1 != 1,
{
}

/// The bits of a word that was shifted down.
pub proof fn lemma_shifted_down(x: u64, j: u64, k: u64)
    by (bit_vector)
    requires
        j < 64,
        k < 64,
    ensures
        ((x >> j) >> k) & 1 == 1 <==> (j + k < 64 && (x >> ((j + k) as u64)) & 1 == 1),
{
}

/// Words with the same bits are equal.
pub proof fn lemma_same_bits(x: u64, y: u64)
    requires
        forall|k: int| 0 <= k < 64 ==> (has_bit(x, k) <==> has_bit(y, k)),
    ensures
        x == y,
{
    let z = x ^ y;
    if z != 0 {
        lemma_top_low(z);
        let t: u64 = top_bit(z) as u64;
        assert(has_bit(z, t as int));
        assert(((x >> t) & 1 == 1) != ((y >> t) & 1 == 1)) by (bit_vector)
            requires
                z == x ^ y,
                (z >> t) & 1 == 1,
                t < 64,
        ;
        assert(has_bit(x, t as int) <==> has_bit(y, t as int));
    } else {
        assert(x == y) by (bit_vector)
            requires
                x ^ y == 0,
        ;
    }
}

/// Only a non-zero word has a set bit.
pub proof fn lemma_has_bit_nonzero(x: u64, k: int)
    requires
        has_bit(x, k),
    ensures
        x != 0,
{
    if x == 0 {
        lemma_zero_word(0, k as u64);
    }
}


/// Clearing bit `c` leaves every other bit as it was.
pub proof fn lemma_has_bit_cleared(x: u64, c: int, k: int)
    requires
        0 <= c < 64,
        0 <= k < 64,
    ensures
        has_bit(clear_bit(x, c), k) <==> (has_bit(x, k) && k != c),
{
    let c64: u64 = c as u64;
    let k64: u64 = k as u64;
    lemma_bitwise(x, !(1u64 << c64), k64);
    lemma_bitwise(1u64 << c64, 0, k64);
    lemma_single(c64, k64);
}

/// Setting bit `s` leaves every other bit as it was, and clearing it again
/// gives the word back where the bit was not set before.
pub proof fn lemma_has_bit_set(x: u64, s: int, k: int)
    requires
        0 <= s < 64,
        0 <= k < 64,
    ensures
        has_bit(x | (1u64 << (s as u64)), k) <==> (has_bit(x, k) || k == s),
        !has_bit(x, s) ==> clear_bit(x | (1u64 << (s as u64)), s) == x,
{
    let s64: u64 = s as u64;
    let k64: u64 = k as u64;
    lemma_bitwise(x, 1u64 << s64, k64);
    lemma_single(s64, k64);
    if !has_bit(x, s) {
        let y = x | (1u64 << s64);
        let z = clear_bit(y, s);
        assert forall|j: int| 0 <= j < 64 implies (has_bit(z, j) <==> has_bit(x, j)) by {
            lemma_has_bit_cleared(y, s, j);
            lemma_bitwise(x, 1u64 << s64, j as u64);
            lemma_single(s64, j as u64);
        }
        lemma_same_bits(z, x);
    }
}

pub proof fn lemma_popcount_bound(x: u64)
    ensures
        popcount(x) <= 64,
        x == 0 <==> popcount(x) == 0,
{
    lemma_popcount_below(x, 64);
    lemma_popcount_zero(x);
}

/// A word has no more set bits than it has bits up to its highest one.
pub proof fn lemma_popcount_le_length(x: u64)
    requires
        x != 0,
    ensures
        popcount(x) <= top_bit(x) + 1,
{
    axiom_u64_leading_zeros(x);
    lemma_popcount_below(x, (top_bit(x) + 1) as nat);
}

proof fn lemma_popcount_below(x: u64, n: nat)
    requires
        n <= 64,
        n < 64 ==> x >> (n as u64) == 0,
    ensures
        popcount(x) <= n,
    decreases n,
{
    if x != 0 {
        if n == 0 {
            lemma_zero_word(x, 0);
        } else {
            let m: u64 = (n - 1) as u64;
            let n64: u64 = n as u64;
            assert((x / 2) >> m == 0) by (bit_vector)
                requires
                    m + 1 == n64,
                    n64 <= 64,
                    n64 < 64 ==> x >> n64 == 0,
            ;
            lemma_popcount_below(x / 2, (n - 1) as nat);
        }
    }
}

proof fn lemma_popcount_zero(x: u64)
    ensures
        x == 0 <==> popcount(x) == 0,
    decreases x,
{
    if x != 0 {
        if x % 2 == 0 {
            lemma_popcount_zero(x / 2);
        }
    }
}

/// Clearing a set bit removes exactly one from the population count.
pub proof fn lemma_popcount_clear_bit(x: u64, k: u64)
    requires
        k < 64,
        (x >> k) & 1 == 1,
    ensures
        popcount(x & !(1u64 << k)) + 1 == popcount(x),
    decreases k,
{
    let y = x & !(1u64 << k);
    let k1: u64 = if k == 0 {
        0
    } else {
        (k - 1) as u64
    };
    assert(x != 0 && (k == 0 ==> x % 2 == 1 && y % 2 == 0 && y / 2 == x / 2) && (k > 0 ==> ((x / 2)
        >> k1) & 1 == 1 && y % 2 == x % 2 && y / 2 == (x / 2) & !(1u64 << k1))) by (bit_vector)
        requires
            k == 0 || k1 + 1 == k,
            k < 64,
            (x >> k) & 1 == 1,
            y == x & !(1u64 << k),
    ;
    if k > 0 {
        lemma_popcount_clear_bit(x / 2, k1);
    }
}

/// Masking never adds bits.
pub proof fn lemma_popcount_and(x: u64, m: u64)
    ensures
        popcount(x & m) <= popcount(x),
    decreases x,
{
    let y = x & m;
    assert((x == 0 ==> y == 0) && y % 2 <= x % 2 && y / 2 == (x / 2) & (m / 2)) by (bit_vector)
        requires
            y == x & m,
    ;
    if x != 0 {
        lemma_popcount_and(x / 2, m / 2);
    }
}

/// For a non-zero word the highest and lowest set bits are set, lie within
/// the word, and bound every other set bit.
pub proof fn lemma_top_low(x: u64)
    requires
        x != 0,
    ensures
        0 <= low_bit(x) <= top_bit(x) < 64,
        has_bit(x, top_bit(x)),
        has_bit(x, low_bit(x)),
        forall|k: int| has_bit(x, k) ==> low_bit(x) <= k <= top_bit(x),
        popcount(x) >= 2 <==> low_bit(x) < top_bit(x),
        popcount(x) == 1 <==> low_bit(x) == top_bit(x),
{
    axiom_u64_leading_zeros(x);
    axiom_u64_trailing_zeros(x);
    let lz: u64 = u64_leading_zeros(x) as u64;
    let tz: u64 = u64_trailing_zeros(x) as u64;
    let t: u64 = (63 - lz) as u64;
    let y = x & !(1u64 << tz);
    let up: u64 = if t == 63 {
        0
    } else {
        (t + 1) as u64
    };
    let down: u64 = if tz == 0 {
        0
    } else {
        (64 - tz) as u64
    };
    assert((x >> t) & 1 == 1 && (tz < t ==> (y >> t) & 1 == 1) && (tz == t ==> y == 0))
        by (bit_vector)
        requires
            (x >> t) & 1 != 0,
            t < 64,
            tz < 64,
            y == x & !(1u64 << tz),
            t == 63 || (up == t + 1 && x >> up == 0),
            tz == 0 || (down == 64 - tz && x << down == 0),
    ;
    assert forall|k: int| has_bit(x, k) implies low_bit(x) <= k <= top_bit(x) by {
        let k64: u64 = k as u64;
        if k64 < tz {
            assert((x >> k64) & 1 == 0);
        }
        if k64 > t {
            assert((x >> k64) & 1 == 0);
        }
    }
    assert(has_bit(x, tz as int));
    assert(has_bit(x, t as int));
    lemma_popcount_clear_bit(x, tz);
    lemma_popcount_zero(y);
    if tz < t {
        if y == 0 {
            lemma_zero_word(0, t);
        }
    }
}

/// The highest set bit is the one bit that is set with nothing above it.
pub proof fn lemma_top_bit_is(x: u64, t: int)
    requires
        has_bit(x, t),
        forall|k: int| t < k < 64 ==> !has_bit(x, k),
    ensures
        x != 0,
        top_bit(x) == t,
{
    lemma_has_bit_nonzero(x, t);
    lemma_top_low(x);
}

/// The highest set bit is the one bit that is set where the word shifted
/// down beyond it is zero.
pub proof fn lemma_top_bit_below(x: u64, t: int)
    requires
        has_bit(x, t),
        t == 63 || x >> ((t + 1) as u64) == 0,
    ensures
        x != 0,
        top_bit(x) == t,
{
    assert forall|k: int| t < k < 64 implies !has_bit(x, k) by {
        lemma_shifted_down(x, (t + 1) as u64, (k - t - 1) as u64);
        lemma_zero_word(0, (k - t - 1) as u64);
    }
    lemma_top_bit_is(x, t);
}

/// A word with one set bit is that bit.
pub proof fn lemma_single_bit(x: u64)
    requires
        popcount(x) == 1,
    ensures
        x == 1u64 << (top_bit(x) as u64),
        forall|k: int| has_bit(x, k) <==> k == top_bit(x),
{
    lemma_popcount_bound(x);
    lemma_top_low(x);
    let t: u64 = top_bit(x) as u64;
    assert forall|k: int| 0 <= k < 64 implies (has_bit(x, k) <==> has_bit(1u64 << t, k)) by {
        lemma_single(t, k as u64);
    }
    lemma_same_bits(x, 1u64 << t);
}

/// A word that keeps the highest bit of another and has no bit that the
/// other lacks has the same highest bit.
pub proof fn lemma_same_top(x: u64, y: u64)
    requires
        x != 0,
        has_bit(y, top_bit(x)),
        forall|k: int| has_bit(y, k) ==> has_bit(x, k),
    ensures
        y != 0,
        top_bit(y) == top_bit(x),
{
    lemma_has_bit_nonzero(y, top_bit(x));
    lemma_top_low(x);
    lemma_top_low(y);
    assert(has_bit(x, top_bit(y)));
}

} // verus!
