//! Well-formed encodings and the complement of a graph.

use crate::bits::{
    has_bit, lemma_bitwise, lemma_has_bit_nonzero, lemma_has_bit_set, lemma_same_bits,
    lemma_single, lemma_top_bit_is, lemma_top_low, lemma_zero_word, top_bit,
};
use crate::words::{
    lemma_present_count_le, present_count, within_capacity, GraphData, MAX_NODES,
};
use vstd::std_specs::bits::axiom_u64_leading_zeros;
use vstd::prelude::*;

verus! {

/// The presence bit of node `i` in an encoding of width `width`.
pub open spec fn presence_bit(i: int, width: int) -> u64 {
    1u64 << ((width - 1 - i) as u64)
}

/// The presence bits of the nodes below `n` that are present.
pub open spec fn present_mask_below(w: Seq<u64>, width: int, n: int) -> u64
    decreases n,
{
    if n <= 0 {
        0
    } else {
        present_mask_below(w, width, n - 1) | if w[n - 1] != 0 {
            presence_bit(n - 1, width)
        } else {
            0
        }
    }
}

/// The presence bits of all nodes that are present.
pub open spec fn present_mask(w: Seq<u64>, width: int) -> u64 {
    present_mask_below(w, width, width)
}

/// The word of node `i` in the complement: its presence bit, and below it the
/// bits of exactly those present nodes that `x` has no edge to.
pub open spec fn complement_word(x: u64, i: int, width: int, present: u64) -> u64 {
    if x == 0 {
        0
    } else {
        let d = presence_bit(i, width);
        ((!x) & ((d - 1) as u64) & present) | d
    }
}

pub open spec fn complement_spec(w: Seq<u64>, width: int) -> Seq<u64> {
    Seq::new(
        w.len(),
        |i: int|
            if i < width {
                complement_word(w[i], i, width, present_mask(w, width))
            } else {
                w[i]
            },
    )
}

/// An encoding of width `width`: every present node is below `width` and has
/// its presence bit as its highest bit, and every edge bit stands for a node
/// that is present.
pub open spec fn well_formed(w: Seq<u64>, width: int) -> bool {
    &&& w.len() == MAX_NODES
    &&& 0 <= width <= MAX_NODES
    &&& forall|i: int|
        0 <= i < w.len() && #[trigger] w[i] != 0 ==> i < width && top_bit(w[i]) == width - 1 - i
    &&& forall|i: int, u: int|
        0 <= i < w.len() && 0 <= u < width && u != i && #[trigger] has_bit(w[i], width - 1 - u)
            ==> w[u] != 0
}

/// The mask holds bit `k` exactly when the node that `k` stands for is below
/// `n` and present.
pub proof fn lemma_present_mask_bits(w: Seq<u64>, width: int, n: int, k: int)
    requires
        0 <= n <= width <= MAX_NODES,
        w.len() == MAX_NODES,
        0 <= k < 64,
    ensures
        has_bit(present_mask_below(w, width, n), k) <==> (0 <= width - 1 - k < n && w[width - 1
            - k] != 0),
    decreases n,
{
    if n <= 0 {
        lemma_zero_word(0, k as u64);
    } else {
        lemma_present_mask_bits(w, width, n - 1, k);
        let a = present_mask_below(w, width, n - 1);
        if w[n - 1] != 0 {
            lemma_has_bit_set(a, width - 1 - (n - 1), k);
        } else {
            lemma_zero_word(a, 0);
        }
    }
}


/// The bits of a word of the complement: the presence bit, and below it the
/// bits of the present nodes that the word has no edge to.
pub proof fn lemma_complement_word_bits(x: u64, i: int, width: int, present: u64, k: int)
    requires
        x != 0,
        0 <= i < width <= MAX_NODES,
        0 <= k < 64,
    ensures
        has_bit(complement_word(x, i, width, present), k) <==> (k == width - 1 - i || (k < width
            - 1 - i && !has_bit(x, k) && has_bit(present, k))),
{
    let s: u64 = (width - 1 - i) as u64;
    let k64: u64 = k as u64;
    let d = presence_bit(i, width);
    let m = (d - 1) as u64;
    lemma_single(s, k64);
    lemma_bitwise(x, x, k64);
    lemma_bitwise(!x, m, k64);
    lemma_bitwise((!x) & m, present, k64);
    lemma_bitwise((!x) & m & present, d, k64);
}

/// Taking the complement twice gives the graph back.
pub proof fn lemma_complement_involution(w: Seq<u64>, width: int)
    requires
        well_formed(w, width),
    ensures
        well_formed(complement_spec(w, width), width),
        complement_spec(complement_spec(w, width), width) == w,
{
    let c = complement_spec(w, width);
    let pm = present_mask(w, width);
    lemma_same_presence(w, c, width, width);
    assert forall|i: int| 0 <= i < w.len() && #[trigger] c[i] != 0 implies i < width && top_bit(
        c[i],
    ) == width - 1 - i by {
        lemma_complement_word(w, width, i);
    }
    assert forall|i: int, u: int|
        0 <= i < c.len() && 0 <= u < width && u != i && #[trigger] has_bit(
            c[i],
            width - 1 - u,
        ) implies c[u] != 0 by {
        lemma_complement_word(w, width, i);
        lemma_complement_word(w, width, u);
        lemma_has_bit_nonzero(c[i], width - 1 - u);
        lemma_present_mask_bits(w, width, width, width - 1 - u);
        lemma_complement_word_bits(w[i], i, width, pm, width - 1 - u);
    }
    let cc = complement_spec(c, width);
    assert forall|i: int| 0 <= i < w.len() implies cc[i] == w[i] by {
        lemma_complement_word(w, width, i);
        if i < width && w[i] != 0 {
            let x = w[i];
            lemma_top_low(x);
            assert forall|k: int| 0 <= k < 64 implies (has_bit(cc[i], k) <==> has_bit(x, k)) by {
                lemma_complement_word_bits(x, i, width, pm, k);
                lemma_complement_word_bits(c[i], i, width, pm, k);
                lemma_present_mask_bits(w, width, width, k);
                if has_bit(x, k) && k != width - 1 - i {
                    let u = width - 1 - k;
                    assert(has_bit(w[i], width - 1 - u));
                    assert(w[u] != 0);
                }
            }
            lemma_same_bits(cc[i], x);
        }
    }
    assert(cc =~= w);
}

/// The words of the complement are present exactly where those of the graph
/// are, and have the presence bit as their highest bit.
pub proof fn lemma_complement_word(w: Seq<u64>, width: int, i: int)
    requires
        w.len() == MAX_NODES,
        0 <= width <= MAX_NODES,
        0 <= i < w.len(),
    ensures
        complement_spec(w, width)[i] != 0 <==> w[i] != 0,
        i < width && w[i] != 0 ==> top_bit(complement_spec(w, width)[i]) == width - 1 - i,
{
    if i < width && w[i] != 0 {
        let pm = present_mask(w, width);
        let c = complement_spec(w, width)[i];
        assert forall|k: int| width - 1 - i < k < 64 implies !has_bit(c, k) by {
            lemma_complement_word_bits(w[i], i, width, pm, k);
        }
        lemma_complement_word_bits(w[i], i, width, pm, width - 1 - i);
        lemma_top_bit_is(c, width - 1 - i);
    }
}

/// The complement has the nodes of the graph and stays within the capacity
/// where the graph does.
pub proof fn lemma_complement_capacity(w: Seq<u64>, width: int)
    requires
        within_capacity(w),
        0 <= width <= MAX_NODES,
    ensures
        within_capacity(complement_spec(w, width)),
        present_count(complement_spec(w, width)) == present_count(w),
{
    let c = complement_spec(w, width);
    assert forall|i: int| 0 <= i < w.len() implies (#[trigger] c[i] != 0 <==> w[i] != 0) && (c[i]
        != 0 ==> i + top_bit(c[i]) < 64) by {
        lemma_complement_word(w, width, i);
    }
    lemma_present_count_le(c, w);
    lemma_present_count_le(w, c);
}

/// Graphs with the same present nodes have the same mask.
pub proof fn lemma_same_presence(a: Seq<u64>, b: Seq<u64>, width: int, n: int)
    requires
        a.len() == MAX_NODES,
        b == complement_spec(a, width),
        0 <= n <= width <= MAX_NODES,
    ensures
        present_mask_below(a, width, n) == present_mask_below(b, width, n),
    decreases n,
{
    if n > 0 {
        lemma_same_presence(a, b, width, n - 1);
        lemma_complement_word(a, width, n - 1);
    }
}

/// Whether the words are a well-formed encoding of width `width`.
pub fn is_well_formed(data: &GraphData, width: usize) -> (r: bool)
    ensures
        r == well_formed(data@, width as int),
{
    if width > MAX_NODES {
        return false;
    }
    let ghost w = data@;
    let ghost wd = width as int;
    // the presence bits of the nodes that are present
    let mut present: u64 = 0;
    let mut i: usize = 0;
    while i < width
        invariant
            i <= width <= MAX_NODES,
            present == present_mask_below(data@, width as int, i as int),
        decreases width - i,
    {
        if data[i] != 0 {
            present = present | (1u64 << (width - 1 - i));
        } else {
            proof {
                lemma_zero_word(present, 0);
            }
        }
        i += 1;
    }
    i = 0;
    while i < MAX_NODES
        invariant
            i <= MAX_NODES,
            width <= MAX_NODES,
            w == data@,
            wd == width,
            present == present_mask(w, wd),
            forall|j: int|
                0 <= j < i && #[trigger] w[j] != 0 ==> j < wd && top_bit(w[j]) == wd - 1 - j
                    && w[j] & !present == 0,
        decreases MAX_NODES - i,
    {
        let word: u64 = data[i];
        if word != 0 {
            if i >= width {
                return false;
            }
            proof {
                axiom_u64_leading_zeros(word);
            }
            if word.leading_zeros() as usize != MAX_NODES - (width - i) {
                return false;
            }
            if word & !present != 0 {
                proof {
                    lemma_dangling_bit(w, wd, i as int);
                }
                return false;
            }
        }
        i += 1;
    }
    proof {
        assert forall|a: int, u: int|
            0 <= a < w.len() && 0 <= u < wd && u != a && #[trigger] has_bit(
                w[a],
                wd - 1 - u,
            ) implies w[u] != 0 by {
            let k = wd - 1 - u;
            lemma_has_bit_nonzero(w[a], k);
            lemma_bitwise(w[a], !present, k as u64);
            lemma_bitwise(present, present, k as u64);
            lemma_zero_word(0, k as u64);
            lemma_present_mask_bits(w, wd, wd, k);
        }
    }
    true
}

/// A word with a bit outside the presence bits has an edge to a node that is
/// not present, or does not have its presence bit as its highest bit.
proof fn lemma_dangling_bit(w: Seq<u64>, width: int, i: int)
    requires
        w.len() == MAX_NODES,
        0 <= i < width <= MAX_NODES,
        w[i] & !present_mask(w, width) != 0,
    ensures
        !well_formed(w, width),
{
    let pm = present_mask(w, width);
    let y = w[i] & !pm;
    lemma_top_low(y);
    let k = top_bit(y);
    lemma_bitwise(w[i], !pm, k as u64);
    lemma_bitwise(pm, pm, k as u64);
    lemma_present_mask_bits(w, width, width, k);
    if well_formed(w, width) {
        lemma_has_bit_nonzero(w[i], k);
        lemma_top_low(w[i]);
        let u = width - 1 - k;
        assert(has_bit(w[i], width - 1 - u));
        assert(u != i);
        assert(w[u] != 0);
    }
}

} // verus!
