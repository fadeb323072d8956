//! The butterfly schedule of the iterative transform.
//!
//! After the bit-reversal reorder, the transform runs `log2(n)` stages. In the
//! stage of size `size` (doubling from `2` up to `n`), each block of `size`
//! consecutive positions is combined pairwise: for block start `i` and offset
//! `j` below `size / 2`, the pair at `i + j` and `i + j + size/2` is combined
//! with the twiddle factor of index `j * (n / size)`. A butterfly is recorded
//! as the triple `(even index, odd index, twiddle index)`, in execution order.

use vstd::prelude::*;

use vstd::arithmetic::div_mod::lemma_fundamental_div_mod_converse;

use crate::pow2::{
    is_pow2, lemma_log2_pow2, lemma_pow2_gap, lemma_pow2_increases, lemma_pow2_is_pow2,
    lemma_pow2_log2, log2, pow2,
};

verus! {

/// The butterfly of position `k` within the stage of size `size` of a
/// transform of length `n`: block `k / (size/2)`, offset `k % (size/2)`.
pub open spec fn stage_op(n: nat, size: nat, k: nat) -> (usize, usize, usize) {
    let half = size / 2;
    let blk = k / half;
    let j = k % half;
    (
        (blk * size + j) as usize,
        (blk * size + j + half) as usize,
        (j * (n / size)) as usize,
    )
}

/// `ops` is exactly the butterfly list of the stage of size `size`: one
/// butterfly per pair, `n / 2` in all, in block-major order.
pub open spec fn stage_ops_correct(ops: Seq<(usize, usize, usize)>, n: nat, size: nat) -> bool {
    &&& ops.len() == n / 2
    &&& forall|k: int| 0 <= k < ops.len() ==> #[trigger] ops[k] == stage_op(n, size, k as nat)
}

/// Builds the butterfly list of one stage.
pub fn stage_ops(n: usize, size: usize) -> (ops: Vec<(usize, usize, usize)>)
    requires
        is_pow2(n as nat),
        is_pow2(size as nat),
        2 <= size <= n,
    ensures
        stage_ops_correct(ops@, n as nat, size as nat),
{
    let half = size / 2;
    let nblocks = n / size;
    proof {
        lemma_pow2_divides(size as nat, n as nat);
        vstd::arithmetic::div_mod::lemma_fundamental_div_mod(n as int, size as int);
        assert(n == nblocks * size) by (nonlinear_arith)
            requires
                n as int == size as int * nblocks as int + 0,
        ;
        assert(size == 2 * half);
        assert(n as int == (nblocks * half) * 2) by (nonlinear_arith)
            requires
                n == nblocks * size,
                size == 2 * half,
        ;
        lemma_fundamental_div_mod_converse(n as int, 2, (nblocks * half) as int, 0);
        assert(n as nat / 2 == nblocks * half);
    }
    let mut ops: Vec<(usize, usize, usize)> = Vec::new();
    let mut blk: usize = 0;
    while blk < nblocks
        invariant
            blk <= nblocks,
            1 <= half,
            size == 2 * half,
            nblocks == n / size,
            n == nblocks * size,
            n as nat / 2 == nblocks * half,
            n <= usize::MAX,
            ops@.len() == blk * half,
            forall|k: int|
                0 <= k < ops@.len() ==> #[trigger] ops@[k] == stage_op(
                    n as nat,
                    size as nat,
                    k as nat,
                ),
        decreases nblocks - blk,
    {
        proof {
            assert(blk * size + size <= nblocks * size) by (nonlinear_arith)
                requires
                    blk < nblocks,
                    0 < size,
            ;
            assert((blk + 1) * half == blk * half + half) by (nonlinear_arith);
            assert(blk * half + half <= nblocks * half) by (nonlinear_arith)
                requires
                    blk < nblocks,
                    0 < half,
            ;
        }
        let base = blk * size;
        let mut j: usize = 0;
        while j < half
            invariant
                j <= half,
                blk < nblocks,
                1 <= half,
                size == 2 * half,
                nblocks == n / size,
                n == nblocks * size,
                n as nat / 2 == nblocks * half,
                n <= usize::MAX,
                base == blk * size,
                base + size <= n,
                blk * half + half <= n as nat / 2,
                ops@.len() == blk * half + j,
                forall|k: int|
                    0 <= k < ops@.len() ==> #[trigger] ops@[k] == stage_op(
                        n as nat,
                        size as nat,
                        k as nat,
                    ),
            decreases half - j,
        {
            proof {
                assert(j * nblocks + nblocks <= half * nblocks) by (nonlinear_arith)
                    requires
                        j < half,
                        0 < nblocks,
                ;
                assert(half * nblocks == nblocks * half) by (nonlinear_arith);
            }
            let tw = j * nblocks;
            ops.push((base + j, base + j + half, tw));
            proof {
                let k = (blk * half + j) as nat;
                lemma_fundamental_div_mod_converse(k as int, half as int, blk as int, j as int);
                assert(k / (half as nat) == blk as nat);
                assert(k % (half as nat) == j as nat);
                assert(stage_op(n as nat, size as nat, k).0 == base + j);
                assert(stage_op(n as nat, size as nat, k).1 == base + j + half);
                assert(stage_op(n as nat, size as nat, k).2 == tw);
                assert(ops@[k as int] == (((base + j) as usize, (base + j + half) as usize, tw)));
                assert(ops@[k as int] == stage_op(n as nat, size as nat, k));
            }
            j = j + 1;
        }
        blk = blk + 1;
        proof {
            assert(blk * half == (blk - 1) * half + half) by (nonlinear_arith);
        }
    }
    proof {
        assert(ops@.len() == nblocks * half);
    }
    ops
}

/// A power of two divides every larger power of two.
pub proof fn lemma_pow2_divides(s: nat, n: nat)
    requires
        is_pow2(s),
        is_pow2(n),
        s <= n,
    ensures
        n % s == 0,
    decreases n,
{
    if s == n {
        assert(n % s == 0) by (nonlinear_arith)
            requires
                s == n,
                0 < s,
        ;
    } else {
        lemma_pow2_gap(s, n);
        lemma_pow2_divides(s, n / 2);
        let q = (n / 2) / s;
        assert(n / 2 == q * s + 0) by {
            vstd::arithmetic::div_mod::lemma_fundamental_div_mod(n as int / 2, s as int);
        }
        assert(n == (2 * q) * s) by (nonlinear_arith)
            requires
                n % 2 == 0,
                n / 2 == q * s,
        ;
        lemma_fundamental_div_mod_converse(n as int, s as int, 2 * q as int, 0);
    }
}

/// Every butterfly of a correct stage touches only positions below `n` and a
/// twiddle index below `n / 2`.
pub proof fn lemma_stage_op_bounds(n: nat, size: nat, k: nat)
    requires
        is_pow2(n),
        is_pow2(size),
        2 <= size <= n,
        n <= usize::MAX,
        k < n / 2,
    ensures
        stage_op(n, size, k).0 < n,
        stage_op(n, size, k).1 < n,
        stage_op(n, size, k).2 < n / 2,
        stage_op(n, size, k).0 + size / 2 == stage_op(n, size, k).1,
        stage_op(n, size, k).0 as nat == (k / (size / 2)) * size + k % (size / 2),
        k == (k / (size / 2)) * (size / 2) + k % (size / 2),
{
    let half = size / 2;
    let nblocks = n / size;
    let blk = k / half;
    let j = k % half;
    lemma_pow2_divides(size, n);
    vstd::arithmetic::div_mod::lemma_fundamental_div_mod(n as int, size as int);
    assert(n == nblocks * size) by (nonlinear_arith)
        requires
            n as int == size as int * nblocks as int + 0,
    ;
    assert(n / 2 == nblocks * half) by (nonlinear_arith)
        requires
            n == nblocks * size,
            size == 2 * half,
            0 < half,
    ;
    vstd::arithmetic::div_mod::lemma_fundamental_div_mod(k as int, half as int);
    assert(k == blk * half + j);
    assert(j < half);
    assert(blk < nblocks) by (nonlinear_arith)
        requires
            blk * half + j == k,
            k < nblocks * half,
            j < half,
            0 < half,
    ;
    assert(blk * size + size <= nblocks * size) by (nonlinear_arith)
        requires
            blk < nblocks,
            0 < size,
    ;
    assert(j * nblocks + nblocks <= half * nblocks) by (nonlinear_arith)
        requires
            j < half,
            0 < nblocks,
    ;
    assert(half * nblocks == nblocks * half) by (nonlinear_arith);
    assert(stage_op(n, size, k).2 == j * nblocks);
    assert(0 < nblocks) by (nonlinear_arith)
        requires
            n == nblocks * size,
            0 < n,
    ;
}

/// Safety of a planned stage: the stage at position `t` of a transform of
/// length `n` touches only buffer positions below `n` and twiddle indices
/// below `n / 2`, so a cache of `n` entries is never overrun.
pub proof fn lemma_stage_in_bounds(ops: Seq<(usize, usize, usize)>, n: nat, t: nat)
    requires
        is_pow2(n),
        n <= usize::MAX,
        t < log2(n),
        stage_ops_correct(ops, n, pow2((t + 1) as nat)),
    ensures
        forall|k: int|
            0 <= k < ops.len() ==> (#[trigger] ops[k]).0 < n && ops[k].1 < n && ops[k].2 < n / 2,
{
    let size = pow2((t + 1) as nat);
    lemma_pow2_is_pow2((t + 1) as nat);
    assert(pow2(0nat) == 1);
    assert(pow2(1nat) == 2);
    lemma_pow2_increases(1, (t + 1) as nat);
    lemma_pow2_increases((t + 1) as nat, log2(n));
    lemma_pow2_log2(n);
    assert forall|k: int|
        0 <= k < ops.len() implies (#[trigger] ops[k]).0 < n && ops[k].1 < n && ops[k].2 < n
        / 2 by {
        lemma_stage_op_bounds(n, size, k as nat);
    }
}

/// No two butterflies of one stage share a buffer position, and the two
/// positions of one butterfly differ: the stage is a pairing, so the in-place
/// updates of a stage never interfere.
pub proof fn lemma_stage_ops_disjoint(n: nat, size: nat, k1: nat, k2: nat)
    requires
        is_pow2(n),
        is_pow2(size),
        2 <= size <= n,
        n <= usize::MAX,
        k1 < n / 2,
        k2 < n / 2,
    ensures
        stage_op(n, size, k1).0 != stage_op(n, size, k1).1,
        k1 != k2 ==> stage_op(n, size, k1).0 != stage_op(n, size, k2).0,
        k1 != k2 ==> stage_op(n, size, k1).0 != stage_op(n, size, k2).1,
        k1 != k2 ==> stage_op(n, size, k1).1 != stage_op(n, size, k2).1,
{
    let half = size / 2;
    lemma_stage_op_bounds(n, size, k1);
    lemma_stage_op_bounds(n, size, k2);
    let b1 = k1 / half;
    let j1 = k1 % half;
    let b2 = k2 / half;
    let j2 = k2 % half;
    if k1 != k2 {
        // Two decompositions of one position by block size agree, so equal
        // positions would force equal blocks and offsets, hence equal `k`.
        if stage_op(n, size, k1).0 == stage_op(n, size, k2).0 {
            lemma_fundamental_div_mod_converse(
                (b1 * size + j1) as int,
                size as int,
                b1 as int,
                j1 as int,
            );
            lemma_fundamental_div_mod_converse(
                (b2 * size + j2) as int,
                size as int,
                b2 as int,
                j2 as int,
            );
            assert(b1 == b2 && j1 == j2);
            assert(b1 * half + j1 == b2 * half + j2);
        }
        if stage_op(n, size, k1).0 == stage_op(n, size, k2).1 {
            lemma_fundamental_div_mod_converse(
                (b1 * size + j1) as int,
                size as int,
                b1 as int,
                j1 as int,
            );
            lemma_fundamental_div_mod_converse(
                (b2 * size + j2 + half) as int,
                size as int,
                b2 as int,
                (j2 + half) as int,
            );
            assert(j1 == j2 + half);
        }
        if stage_op(n, size, k1).1 == stage_op(n, size, k2).1 {
            lemma_fundamental_div_mod_converse(
                (b1 * size + j1 + half) as int,
                size as int,
                b1 as int,
                (j1 + half) as int,
            );
            lemma_fundamental_div_mod_converse(
                (b2 * size + j2 + half) as int,
                size as int,
                b2 as int,
                (j2 + half) as int,
            );
            assert(b1 == b2 && j1 == j2);
            assert(b1 * half + j1 == b2 * half + j2);
        }
    }
}

/// Every buffer position is the even or the odd position of some butterfly
/// of the stage: together with disjointness, each stage pairs up the whole
/// buffer, touching every position exactly once.
pub proof fn lemma_stage_ops_cover(n: nat, size: nat, p: nat)
    requires
        is_pow2(n),
        is_pow2(size),
        2 <= size <= n,
        n <= usize::MAX,
        p < n,
    ensures
        exists|k: nat|
            k < n / 2 && ((#[trigger] stage_op(n, size, k)).0 == p || stage_op(n, size, k).1
                == p),
{
    let half = size / 2;
    let nblocks = n / size;
    lemma_pow2_divides(size, n);
    vstd::arithmetic::div_mod::lemma_fundamental_div_mod(n as int, size as int);
    assert(n == nblocks * size) by (nonlinear_arith)
        requires
            n as int == size as int * nblocks as int + 0,
    ;
    assert(n / 2 == nblocks * half) by (nonlinear_arith)
        requires
            n == nblocks * size,
            size == 2 * half,
            0 < half,
    ;
    let blk = p / size;
    let r = p % size;
    vstd::arithmetic::div_mod::lemma_fundamental_div_mod(p as int, size as int);
    assert(p == blk * size + r) by (nonlinear_arith)
        requires
            p as int == size as int * blk as int + r as int,
    ;
    assert(blk < nblocks) by (nonlinear_arith)
        requires
            blk * size + r == p,
            p < nblocks * size,
            r < size,
            0 < size,
    ;
    let j = if r < half {
        r
    } else {
        (r - half) as nat
    };
    let k = blk * half + j;
    assert(blk * half + j < nblocks * half) by (nonlinear_arith)
        requires
            blk < nblocks,
            j < half,
            0 < half,
    ;
    lemma_fundamental_div_mod_converse(k as int, half as int, blk as int, j as int);
    assert(k / half == blk && k % half == j);
    if r < half {
        assert(stage_op(n, size, k).0 == p);
    } else {
        assert(stage_op(n, size, k).1 == p);
    }
    assert(k < n / 2 && (stage_op(n, size, k).0 == p || stage_op(n, size, k).1 == p));
}

/// The stages of the whole transform of length `n`, in execution order: the
/// stage of size `2^(t+1)` at position `t`, `log2(n)` stages in all.
pub fn butterfly_stages(n: usize) -> (stages: Vec<Vec<(usize, usize, usize)>>)
    requires
        is_pow2(n as nat),
    ensures
        stages@.len() == log2(n as nat),
        forall|t: int|
            0 <= t < stages@.len() ==> stage_ops_correct(
                #[trigger] stages@[t]@,
                n as nat,
                pow2((t + 1) as nat),
            ),
{
    let mut stages: Vec<Vec<(usize, usize, usize)>> = Vec::new();
    if n == 1 {
        return stages;
    }
    proof {
        assert(is_pow2(1nat));
        assert(is_pow2(2nat));
        assert(pow2(0nat) == 1);
        assert(pow2(1nat) == 2);
    }
    let mut size: usize = 2;
    loop
        invariant_except_break
            size as nat == pow2((stages@.len() + 1) as nat),
        invariant
            is_pow2(n as nat),
            is_pow2(size as nat),
            2 <= size <= n,
            forall|t: int|
                0 <= t < stages@.len() ==> stage_ops_correct(
                    #[trigger] stages@[t]@,
                    n as nat,
                    pow2((t + 1) as nat),
                ),
        ensures
            stages@.len() == log2(n as nat),
            forall|t: int|
                0 <= t < stages@.len() ==> stage_ops_correct(
                    #[trigger] stages@[t]@,
                    n as nat,
                    pow2((t + 1) as nat),
                ),
        decreases n - size,
    {
        let ops = stage_ops(n, size);
        stages.push(ops);
        if size == n {
            proof {
                lemma_log2_pow2(stages@.len() as nat);
            }
            break;
        }
        proof {
            lemma_pow2_gap(size as nat, n as nat);
        }
        size = size * 2;
    }
    stages
}

} // verus!
