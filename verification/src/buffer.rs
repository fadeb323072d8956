//! Data movement on the working buffer, generic in the element type.
//!
//! The transform only ever moves samples in two shapes: padding the input up
//! to the working length with a fill element, and exchanging pairs of
//! positions given by a swap schedule. Both are element-agnostic, so they are
//! verified here once, for any copyable element.

use vstd::prelude::*;

use crate::bitrev::{
    lemma_rev_bits_all_ones, lemma_rev_bits_bound, lemma_rev_bits_involution, lemma_rev_bits_zero,
    rev_bits, swap_at, swap_list, swap_list_upto,
};
use crate::pow2::{is_pow2, lemma_pow2_log2, log2};

verus! {

/// The sequence `s` with positions `a` and `b` exchanged.
pub open spec fn swap_pair<T>(s: Seq<T>, a: int, b: int) -> Seq<T> {
    s.update(a, s[b]).update(b, s[a])
}

/// The sequence `s` after every swap of `sw` has been applied, first to last.
pub open spec fn apply_swap_seq<T>(s: Seq<T>, sw: Seq<(usize, usize)>) -> Seq<T>
    decreases sw.len(),
{
    if sw.len() == 0 {
        s
    } else {
        apply_swap_seq(swap_pair(s, sw[0].0 as int, sw[0].1 as int), sw.drop_first())
    }
}

/// Every swap of `sw` stays inside a buffer of length `len`.
pub open spec fn swaps_in_bounds(sw: Seq<(usize, usize)>, len: nat) -> bool {
    forall|k: int| 0 <= k < sw.len() ==> (#[trigger] sw[k]).0 < len && sw[k].1 < len
}

/// Applying one more swap at the end applies it to the result of the rest.
proof fn lemma_apply_swap_seq_push<T>(s: Seq<T>, sw: Seq<(usize, usize)>, p: (usize, usize))
    ensures
        apply_swap_seq(s, sw.push(p)) == swap_pair(apply_swap_seq(s, sw), p.0 as int, p.1 as int),
    decreases sw.len(),
{
    if sw.len() == 0 {
        assert(sw.push(p)[0] == p);
        assert(sw.push(p).drop_first() =~= Seq::<(usize, usize)>::empty());
        assert(apply_swap_seq(swap_pair(s, p.0 as int, p.1 as int), Seq::<(usize, usize)>::empty())
            == swap_pair(s, p.0 as int, p.1 as int));
    } else {
        let s1 = swap_pair(s, sw[0].0 as int, sw[0].1 as int);
        assert(sw.push(p)[0] == sw[0]);
        assert(sw.push(p).drop_first() =~= sw.drop_first().push(p));
        lemma_apply_swap_seq_push(s1, sw.drop_first(), p);
        assert(apply_swap_seq(s, sw) == apply_swap_seq(s1, sw.drop_first()));
        assert(apply_swap_seq(s, sw.push(p)) == apply_swap_seq(s1, sw.drop_first().push(p)));
    }
}

/// In-bounds swaps never change the length of the buffer.
pub proof fn lemma_apply_swap_seq_len<T>(s: Seq<T>, sw: Seq<(usize, usize)>)
    requires
        swaps_in_bounds(sw, s.len()),
    ensures
        apply_swap_seq(s, sw).len() == s.len(),
    decreases sw.len(),
{
    if sw.len() > 0 {
        let s1 = swap_pair(s, sw[0].0 as int, sw[0].1 as int);
        assert(s1.len() == s.len());
        assert(swaps_in_bounds(sw.drop_first(), s1.len())) by {
            assert(forall|k: int|
                0 <= k < sw.drop_first().len() ==> sw.drop_first()[k] == sw[k + 1]);
        }
        lemma_apply_swap_seq_len(s1, sw.drop_first());
    }
}

/// Applies the swap schedule to the buffer, first to last.
pub fn apply_swaps<T: Copy>(data: &mut Vec<T>, swaps: &Vec<(usize, usize)>)
    requires
        swaps_in_bounds(swaps@, old(data)@.len()),
    ensures
        final(data)@ == apply_swap_seq(old(data)@, swaps@),
{
    let ghost s0 = data@;
    let mut k: usize = 0;
    while k < swaps.len()
        invariant
            k <= swaps@.len(),
            swaps_in_bounds(swaps@, s0.len()),
            data@ == apply_swap_seq(s0, swaps@.take(k as int)),
            data@.len() == s0.len(),
        decreases swaps@.len() - k,
    {
        proof {
            lemma_apply_swap_seq_len(s0, swaps@.take(k as int));
        }
        let (a, b) = swaps[k];
        let tmp = data[a];
        data[a] = data[b];
        data[b] = tmp;
        proof {
            assert(swaps@.take(k + 1) =~= swaps@.take(k as int).push(swaps@[k as int]));
            lemma_apply_swap_seq_push(s0, swaps@.take(k as int), swaps@[k as int]);
        }
        k = k + 1;
    }
    proof {
        assert(swaps@.take(swaps@.len() as int) =~= swaps@);
    }
}

proof fn lemma_swap_list_upto_in_bounds(n: nat, m: nat)
    requires
        is_pow2(n),
        m <= n <= usize::MAX,
    ensures
        swaps_in_bounds(swap_list_upto(n, m), n),
    decreases m,
{
    if m > 1 {
        let i = (m - 1) as nat;
        let prev = swap_list_upto(n, i);
        let cur = swap_list_upto(n, m);
        lemma_swap_list_upto_in_bounds(n, i);
        lemma_pow2_log2(n);
        lemma_rev_bits_bound(i, log2(n));
        assert forall|k: int| 0 <= k < cur.len() implies (#[trigger] cur[k]).0 < n && cur[k].1
            < n by {
            if k < prev.len() {
                assert(cur[k] == prev[k]);
            } else {
                assert(cur[k] == swap_at(n, i)[k - prev.len()]);
            }
        }
    }
}

/// Every swap of the schedule stays inside a buffer of length `n`.
pub proof fn lemma_swap_list_in_bounds(n: nat)
    requires
        is_pow2(n),
        n <= usize::MAX,
    ensures
        swaps_in_bounds(swap_list(n), n),
{
    if n > 1 {
        lemma_swap_list_upto_in_bounds(n, (n - 1) as nat);
    }
}

/// State of the buffer after the swaps of indices `1 .. m` have run: position
/// `k` already holds `s[rev(k)]` when `k` or its reversal lies below `m`, and
/// is still untouched otherwise.
proof fn lemma_swap_list_upto_state<T>(s: Seq<T>, n: nat, m: nat)
    requires
        is_pow2(n),
        s.len() == n,
        2 <= n <= usize::MAX,
        1 <= m <= n - 1,
    ensures
        ({
            let t = apply_swap_seq(s, swap_list_upto(n, m));
            let b = log2(n);
            &&& t.len() == n
            &&& forall|k: int|
                0 <= k < n ==> #[trigger] t[k] == (if k < m || rev_bits(k as nat, b) < m {
                    s[rev_bits(k as nat, b) as int]
                } else {
                    s[k]
                })
        }),
    decreases m,
{
    let b = log2(n);
    lemma_pow2_log2(n);
    if m == 1 {
        assert(swap_list_upto(n, 1) =~= Seq::<(usize, usize)>::empty());
        let t = apply_swap_seq(s, swap_list_upto(n, m));
        assert(t == s);
        assert forall|k: int|
            0 <= k < n implies #[trigger] t[k] == (if k < 1 || rev_bits(k as nat, b) < 1 {
            s[rev_bits(k as nat, b) as int]
        } else {
            s[k]
        }) by {
            lemma_rev_bits_zero(b);
            lemma_rev_bits_involution(k as nat, b);
        }
    } else {
        let i = (m - 1) as nat;
        let r = rev_bits(i, b);
        let prev = swap_list_upto(n, i);
        let tp = apply_swap_seq(s, prev);
        lemma_swap_list_upto_state(s, n, i);
        lemma_rev_bits_bound(i, b);
        lemma_rev_bits_involution(i, b);
        assert(swap_list_upto(n, m) == prev + swap_at(n, i));
        if r > i {
            let p = (i as usize, r as usize);
            assert(swap_at(n, i) =~= seq![p]);
            assert(prev + swap_at(n, i) =~= prev.push(p));
            lemma_apply_swap_seq_push(s, prev, p);
            let t = apply_swap_seq(s, swap_list_upto(n, m));
            assert(t == swap_pair(tp, i as int, r as int));
            assert forall|k: int|
                0 <= k < n implies #[trigger] t[k] == (if k < m || rev_bits(k as nat, b) < m {
                s[rev_bits(k as nat, b) as int]
            } else {
                s[k]
            }) by {
                lemma_rev_bits_involution(k as nat, b);
                lemma_rev_bits_bound(k as nat, b);
                if k == i as int {
                    assert(t[k] == tp[r as int]);
                    assert(tp[r as int] == s[r as int]);
                } else if k == r as int {
                    assert(t[k] == tp[i as int]);
                    assert(tp[i as int] == s[i as int]);
                    assert(rev_bits(r, b) == i);
                } else {
                    assert(t[k] == tp[k]);
                    if rev_bits(k as nat, b) == i {
                        assert(k as nat == rev_bits(i, b));
                    }
                }
            }
        } else {
            assert(prev + swap_at(n, i) =~= prev);
            let t = apply_swap_seq(s, swap_list_upto(n, m));
            assert(t == tp);
            assert forall|k: int|
                0 <= k < n implies #[trigger] t[k] == (if k < m || rev_bits(k as nat, b) < m {
                s[rev_bits(k as nat, b) as int]
            } else {
                s[k]
            }) by {
                lemma_rev_bits_involution(k as nat, b);
                lemma_rev_bits_bound(k as nat, b);
                if k == i as int {
                    if r == i {
                        assert(t[k] == s[k]);
                    } else {
                        assert(r < i);
                        assert(t[k] == s[rev_bits(k as nat, b) as int]);
                    }
                } else {
                    if rev_bits(k as nat, b) == i {
                        assert(k as nat == rev_bits(i, b));
                        assert(k as nat == r);
                        assert(r < i);
                    }
                }
            }
        }
    }
}

/// The permutation theorem: running the whole swap schedule over a buffer of
/// power-of-two length `n` puts the sample of index `rev(k)` at position `k`.
pub proof fn lemma_swap_list_is_bitrev<T>(s: Seq<T>, n: nat)
    requires
        is_pow2(n),
        s.len() == n,
        n <= usize::MAX,
    ensures
        apply_swap_seq(s, swap_list(n)).len() == n,
        forall|k: int|
            0 <= k < n ==> #[trigger] apply_swap_seq(s, swap_list(n))[k] == s[rev_bits(
                k as nat,
                log2(n),
            ) as int],
{
    let b = log2(n);
    let t = apply_swap_seq(s, swap_list(n));
    if n == 1 {
        assert(t == s);
        assert(rev_bits(0, b) == 0);
    } else {
        lemma_swap_list_upto_state(s, n, (n - 1) as nat);
        lemma_pow2_log2(n);
        assert forall|k: int| 0 <= k < n implies #[trigger] t[k] == s[rev_bits(k as nat, b) as int] by {
            lemma_rev_bits_bound(k as nat, b);
            if !(k < n - 1 || rev_bits(k as nat, b) < n - 1) {
                assert(k == n - 1);
                assert(rev_bits(k as nat, b) == n - 1) by {
                    lemma_rev_bits_all_ones(b);
                }
            }
        }
    }
}

/// Reorders the buffer in place by the bit-reversal permutation of its
/// power-of-two length.
pub fn bit_reverse_permute<T: Copy>(data: &mut Vec<T>)
    requires
        is_pow2(old(data)@.len()),
    ensures
        final(data)@.len() == old(data)@.len(),
        forall|k: int|
            0 <= k < old(data)@.len() ==> #[trigger] final(data)@[k] == old(data)@[rev_bits(
                k as nat,
                log2(old(data)@.len()),
            ) as int],
{
    let n = data.len();
    let swaps = crate::bitrev::bit_reversal_swaps(n);
    proof {
        lemma_swap_list_in_bounds(n as nat);
    }
    apply_swaps(data, &swaps);
    proof {
        lemma_swap_list_is_bitrev(old(data)@, n as nat);
    }
}

/// Copies the input and appends `fill` until the buffer has length `n`.
pub fn pad_with<T: Copy>(data: &Vec<T>, fill: T, n: usize) -> (out: Vec<T>)
    requires
        data@.len() <= n,
    ensures
        out@.len() == n,
        forall|k: int| 0 <= k < data@.len() ==> out@[k] == data@[k],
        forall|k: int| data@.len() <= k < n ==> out@[k] == fill,
{
    let mut out: Vec<T> = Vec::new();
    let mut k: usize = 0;
    while k < data.len()
        invariant
            k <= data@.len() <= n,
            out@.len() == k,
            forall|j: int| 0 <= j < k ==> out@[j] == data@[j],
        decreases data@.len() - k,
    {
        out.push(data[k]);
        k = k + 1;
    }
    while out.len() < n
        invariant
            data@.len() <= out@.len() <= n,
            forall|j: int| 0 <= j < data@.len() ==> out@[j] == data@[j],
            forall|j: int| data@.len() <= j < out@.len() ==> out@[j] == fill,
        decreases n - out@.len(),
    {
        out.push(fill);
    }
    out
}

} // verus!
