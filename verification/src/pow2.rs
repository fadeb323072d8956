//! Powers of two and the padded transform length.
//!
//! Every transform runs on a buffer whose length is the smallest power of two
//! at or above the input length (an empty input is padded to length one).

use vstd::prelude::*;

verus! {

/// `2^e` as a mathematical natural number.
pub open spec fn pow2(e: nat) -> nat
    decreases e,
{
    if e == 0 {
        1
    } else {
        2 * pow2((e - 1) as nat)
    }
}

/// A length is a power of two exactly when repeated halving reaches one.
pub open spec fn is_pow2(n: nat) -> bool
    decreases n,
{
    if n == 0 {
        false
    } else if n == 1 {
        true
    } else {
        n % 2 == 0 && is_pow2(n / 2)
    }
}

/// The exponent of a power of two; for other arguments, the floor of the
/// base-two logarithm.
pub open spec fn log2(n: nat) -> nat
    decreases n,
{
    if n <= 1 {
        0
    } else {
        1 + log2(n / 2)
    }
}

pub proof fn lemma_pow2_pos(e: nat)
    ensures
        pow2(e) >= 1,
    decreases e,
{
    if e > 0 {
        lemma_pow2_pos((e - 1) as nat);
    }
}

pub proof fn lemma_pow2_is_pow2(e: nat)
    ensures
        is_pow2(pow2(e)),
    decreases e,
{
    if e > 0 {
        lemma_pow2_is_pow2((e - 1) as nat);
        lemma_pow2_pos((e - 1) as nat);
    }
}

pub proof fn lemma_pow2_increases(e1: nat, e2: nat)
    requires
        e1 <= e2,
    ensures
        pow2(e1) <= pow2(e2),
    decreases e2,
{
    if e1 < e2 {
        lemma_pow2_increases(e1, (e2 - 1) as nat);
    }
}

/// A power of two halves back onto the next-lower power: `log2` inverts `pow2`.
pub proof fn lemma_pow2_log2(n: nat)
    requires
        is_pow2(n),
    ensures
        pow2(log2(n)) == n,
    decreases n,
{
    if n > 1 {
        lemma_pow2_log2(n / 2);
    }
}

pub proof fn lemma_log2_pow2(e: nat)
    ensures
        log2(pow2(e)) == e,
    decreases e,
{
    if e > 0 {
        lemma_log2_pow2((e - 1) as nat);
        lemma_pow2_pos((e - 1) as nat);
    }
}

/// Distinct powers of two are at least a factor of two apart.
pub proof fn lemma_pow2_gap(p: nat, q: nat)
    requires
        is_pow2(p),
        is_pow2(q),
        p < q,
    ensures
        2 * p <= q,
    decreases q,
{
    if p > 1 {
        lemma_pow2_gap(p / 2, q / 2);
    }
}

/// The contract of `next_power_of_two`, as a predicate: `r` is the smallest
/// power of two at or above `len`, with an empty input mapped to one.
pub open spec fn is_next_pow2(len: nat, r: nat) -> bool {
    &&& is_pow2(r)
    &&& r >= len
    &&& (r == 1 || r < 2 * len)
}

/// No smaller power of two reaches `len`: the padded length is minimal.
pub proof fn lemma_next_pow2_smallest(len: nat, r: nat, m: nat)
    requires
        is_next_pow2(len, r),
        is_pow2(m),
        m >= len,
    ensures
        m >= r,
{
    if m < r {
        lemma_pow2_gap(m, r);
    }
}

/// The smallest power of two at or above `len`; `1` for an empty input.
pub fn next_power_of_two(len: usize) -> (r: usize)
    requires
        len <= usize::MAX / 2 + 1,
    ensures
        is_next_pow2(len as nat, r as nat),
{
    let mut n: usize = 1;
    while n < len
        invariant
            1 <= n,
            is_pow2(n as nat),
            n == 1 || n < 2 * len,
            len <= usize::MAX / 2 + 1,
        decreases 2 * len - n,
    {
        n = n * 2;
    }
    n
}

/// The exponent of a power of two, computed by repeated halving.
pub fn log2_exec(n: usize) -> (r: usize)
    requires
        n >= 1,
    ensures
        r as nat == log2(n as nat),
{
    let mut m: usize = n;
    let mut r: usize = 0;
    while m > 1
        invariant
            1 <= m <= n,
            r + m <= n,
            log2(n as nat) == r + log2(m as nat),
        decreases m,
    {
        m = m / 2;
        r = r + 1;
    }
    r
}

} // verus!
