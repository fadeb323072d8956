//! Bit-reversal indices and the swap schedule of the permutation.
//!
//! Before the butterfly stages run, the padded buffer of length `n = 2^b` is
//! reordered so that position `k` holds the sample whose index is `k` with its
//! low `b` bits reversed. The reordering is done in place by swapping each
//! index `i` in `1 .. n-1` with its reversal, only when the reversal is the
//! larger of the two, so that no pair is swapped twice.

use vstd::prelude::*;

use crate::pow2::{is_pow2, lemma_pow2_log2, lemma_pow2_pos, log2, log2_exec, pow2};

verus! {

/// The integer formed by reversing the low `b` bits of `i`: the lowest bit of
/// `i` becomes the highest of the result, and so on.
pub open spec fn rev_bits(i: nat, b: nat) -> nat
    decreases b,
{
    if b == 0 {
        0
    } else {
        rev_bits(i / 2, (b - 1) as nat) + (i % 2) * pow2((b - 1) as nat)
    }
}

pub proof fn lemma_rev_bits_bound(i: nat, b: nat)
    ensures
        rev_bits(i, b) < pow2(b),
    decreases b,
{
    if b > 0 {
        lemma_rev_bits_bound(i / 2, (b - 1) as nat);
        if i % 2 == 0 {
            assert((i % 2) * pow2((b - 1) as nat) == 0);
        } else {
            assert(i % 2 == 1);
            assert((i % 2) * pow2((b - 1) as nat) == pow2((b - 1) as nat));
        }
    }
}

/// Prepending a bit below `b - 1` reversed bits appends it above them: the
/// induction step behind the involution property.
proof fn lemma_rev_bits_shift(lo: nat, hi: nat, b: nat)
    requires
        b >= 1,
        lo < pow2((b - 1) as nat),
        hi <= 1,
    ensures
        rev_bits(lo + hi * pow2((b - 1) as nat), b) == 2 * rev_bits(lo, (b - 1) as nat) + hi,
    decreases b,
{
    if hi == 0 {
        assert(hi * pow2((b - 1) as nat) == 0);
        if b == 1 {
            assert(lo == 0);
        } else {
            lemma_rev_bits_shift(lo / 2, 0, (b - 1) as nat);
            if lo % 2 == 0 {
                assert((lo % 2) * pow2((b - 1) as nat) == 0);
                assert((lo % 2) * pow2((b - 2) as nat) == 0);
            } else {
                assert(lo % 2 == 1);
                assert((lo % 2) * pow2((b - 1) as nat) == pow2((b - 1) as nat));
                assert((lo % 2) * pow2((b - 2) as nat) == pow2((b - 2) as nat));
            }
        }
    } else {
        assert(hi == 1);
        let x = lo + pow2((b - 1) as nat);
        assert(hi * pow2((b - 1) as nat) == pow2((b - 1) as nat));
        if b == 1 {
            assert(lo == 0);
            assert(x == 1);
        } else {
            // The added bit sits above the low bit: dividing by two carries it
            // down one place and leaves the parity of `lo` unchanged.
            assert(pow2((b - 1) as nat) == 2 * pow2((b - 2) as nat));
            assert(x / 2 == lo / 2 + pow2((b - 2) as nat));
            assert(x % 2 == lo % 2);
            assert(lo / 2 < pow2((b - 2) as nat));
            lemma_rev_bits_shift(lo / 2, 1, (b - 1) as nat);
            assert(rev_bits(x / 2, (b - 1) as nat) == 2 * rev_bits(lo / 2, (b - 2) as nat) + 1);
            if lo % 2 == 0 {
                assert((lo % 2) * pow2((b - 1) as nat) == 0);
                assert((lo % 2) * pow2((b - 2) as nat) == 0);
            } else {
                assert(lo % 2 == 1);
                assert((lo % 2) * pow2((b - 1) as nat) == pow2((b - 1) as nat));
                assert((lo % 2) * pow2((b - 2) as nat) == pow2((b - 2) as nat));
            }
        }
    }
}

/// Reversing the low `b` bits twice gives the index back.
pub proof fn lemma_rev_bits_involution(i: nat, b: nat)
    requires
        i < pow2(b),
    ensures
        rev_bits(rev_bits(i, b), b) == i,
    decreases b,
{
    if b > 0 {
        lemma_rev_bits_bound(i / 2, (b - 1) as nat);
        lemma_rev_bits_shift(rev_bits(i / 2, (b - 1) as nat), i % 2, b);
        lemma_rev_bits_involution(i / 2, (b - 1) as nat);
    }
}

/// Index zero is a fixed point of the reversal.
pub proof fn lemma_rev_bits_zero(b: nat)
    ensures
        rev_bits(0, b) == 0,
    decreases b,
{
    if b > 0 {
        lemma_rev_bits_zero((b - 1) as nat);
        assert((0nat % 2) * pow2((b - 1) as nat) == 0);
    }
}

/// The all-ones index `2^b - 1` is a fixed point of the reversal.
pub proof fn lemma_rev_bits_all_ones(b: nat)
    ensures
        rev_bits((pow2(b) - 1) as nat, b) == pow2(b) - 1,
    decreases b,
{
    if b > 0 {
        lemma_pow2_pos((b - 1) as nat);
        let i = (pow2(b) - 1) as nat;
        assert(pow2(b) == 2 * pow2((b - 1) as nat));
        assert(i / 2 == pow2((b - 1) as nat) - 1);
        assert(i % 2 == 1);
        lemma_rev_bits_all_ones((b - 1) as nat);
        assert((i % 2) * pow2((b - 1) as nat) == pow2((b - 1) as nat));
    }
}

/// `2^e` as an executable value.
pub fn pow2_exec(e: usize) -> (r: usize)
    requires
        pow2(e as nat) <= usize::MAX,
    ensures
        r as nat == pow2(e as nat),
    decreases e,
{
    if e == 0 {
        1
    } else {
        2 * pow2_exec(e - 1)
    }
}

/// Reverses the low `b` bits of `i`.
pub fn bit_reverse(i: usize, b: usize) -> (r: usize)
    requires
        pow2(b as nat) <= usize::MAX,
    ensures
        r as nat == rev_bits(i as nat, b as nat),
    decreases b,
{
    if b == 0 {
        0
    } else {
        let rest = bit_reverse(i / 2, b - 1);
        let top = pow2_exec(b - 1);
        proof {
            lemma_rev_bits_bound(i as nat / 2, (b - 1) as nat);
            if i as nat % 2 == 0 {
                assert((i as nat % 2) * pow2((b - 1) as nat) == 0);
            } else {
                assert(i as nat % 2 == 1);
                assert((i as nat % 2) * pow2((b - 1) as nat) == pow2((b - 1) as nat));
            }
        }
        if i % 2 == 1 {
            rest + top
        } else {
            rest
        }
    }
}

/// The swap contributed by index `i` of a buffer of length `n`: the pair
/// `(i, rev(i))`, present only when the reversal is the larger index.
pub open spec fn swap_at(n: nat, i: nat) -> Seq<(usize, usize)> {
    if rev_bits(i, log2(n)) > i {
        seq![(i as usize, rev_bits(i, log2(n)) as usize)]
    } else {
        Seq::empty()
    }
}

/// The swaps contributed by indices `1 .. m`, in increasing order of `i`.
pub open spec fn swap_list_upto(n: nat, m: nat) -> Seq<(usize, usize)>
    decreases m,
{
    if m <= 1 {
        Seq::empty()
    } else {
        swap_list_upto(n, (m - 1) as nat) + swap_at(n, (m - 1) as nat)
    }
}

/// The full swap schedule of the bit-reversal permutation of length `n`:
/// one swap `(i, rev(i))` for each `i` in `1 .. n-1` with `rev(i) > i`.
/// Indices `0` and `n-1` are fixed points and contribute nothing.
pub open spec fn swap_list(n: nat) -> Seq<(usize, usize)> {
    if n <= 1 {
        Seq::empty()
    } else {
        swap_list_upto(n, (n - 1) as nat)
    }
}

/// Builds the swap schedule of the bit-reversal permutation for a buffer of
/// power-of-two length `n`.
pub fn bit_reversal_swaps(n: usize) -> (swaps: Vec<(usize, usize)>)
    requires
        is_pow2(n as nat),
    ensures
        swaps@ == swap_list(n as nat),
{
    let mut swaps: Vec<(usize, usize)> = Vec::new();
    if n <= 1 {
        return swaps;
    }
    let bits = log2_exec(n);
    proof {
        lemma_pow2_log2(n as nat);
    }
    let mut i: usize = 1;
    while i < n - 1
        invariant
            1 <= i <= n - 1,
            2 <= n,
            bits as nat == log2(n as nat),
            pow2(bits as nat) == n as nat,
            swaps@ == swap_list_upto(n as nat, i as nat),
        decreases n - i,
    {
        let r = bit_reverse(i, bits);
        proof {
            lemma_rev_bits_bound(i as nat, bits as nat);
        }
        if r > i {
            swaps.push((i, r));
        }
        proof {
            assert(swaps@ == swap_list_upto(n as nat, i as nat) + swap_at(n as nat, i as nat));
            assert(swap_list_upto(n as nat, (i + 1) as nat) == swap_list_upto(n as nat, i as nat)
                + swap_at(n as nat, i as nat));
        }
        i = i + 1;
    }
    swaps
}

} // verus!
