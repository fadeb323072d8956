//! The engine's planning state and the plan of one transform.
//!
//! Between calls the engine remembers one thing: the transform length its
//! twiddle-factor cache currently matches. The cache itself holds complex
//! values and lives with the numeric shell; whether it must be rebuilt, and
//! every index decision of a transform, is settled here.

use vstd::prelude::*;

use crate::bitrev::{bit_reversal_swaps, swap_list};
use crate::buffer::{lemma_swap_list_in_bounds, swaps_in_bounds};
use crate::pow2::{is_next_pow2, log2, next_power_of_two, pow2};
use crate::schedule::{butterfly_stages, stage_ops_correct};

verus! {

/// The planning state of an engine: the size the twiddle cache matches.
/// Size zero is the state of a fresh engine; a padded transform length is
/// never zero, so the first transform always rebuilds the cache.
#[derive(Clone, Copy, Debug)]
pub struct TwiddlePlanner {
    pub current_size: usize,
}

/// Whether a request for a cache of `size` entries must rebuild it.
pub open spec fn plan_rebuilds(p: TwiddlePlanner, size: usize) -> bool {
    p.current_size != size
}

/// The planning state after a request for `size` has been served.
pub open spec fn plan_after(p: TwiddlePlanner, size: usize) -> TwiddlePlanner {
    TwiddlePlanner { current_size: size }
}

/// Serving the same size twice rebuilds at most once: the second request
/// asks for no rebuild and leaves the state exactly as the first left it.
pub proof fn lemma_plan_idempotent(p: TwiddlePlanner, size: usize)
    ensures
        !plan_rebuilds(plan_after(p, size), size),
        plan_after(plan_after(p, size), size) == plan_after(p, size),
{
}

/// Everything the numeric shell needs to run one transform of an input of
/// `len` samples: the padded working length, whether the twiddle cache must
/// be rebuilt, the swap schedule of the bit-reversal reorder, and the
/// butterfly schedule of every stage, in execution order.
pub struct TransformPlan {
    pub padded_len: usize,
    pub rebuild_twiddles: bool,
    pub swaps: Vec<(usize, usize)>,
    pub stages: Vec<Vec<(usize, usize, usize)>>,
}

impl TwiddlePlanner {
    /// A fresh engine matches no size yet.
    pub fn new() -> (p: Self)
        ensures
            p.current_size == 0,
    {
        TwiddlePlanner { current_size: 0 }
    }

    /// Records a request for a cache of `size` entries and says whether the
    /// cache must be rebuilt: only when the requested size differs from the
    /// size the cache holds.
    pub fn ensure_size(&mut self, size: usize) -> (rebuild: bool)
        ensures
            rebuild == plan_rebuilds(*old(self), size),
            *final(self) == plan_after(*old(self), size),
    {
        if self.current_size == size {
            false
        } else {
            self.current_size = size;
            true
        }
    }

    /// Plans one transform of an input of `len` samples and brings the cache
    /// size up to date with the padded working length.
    pub fn plan_transform(&mut self, len: usize) -> (plan: TransformPlan)
        requires
            len <= usize::MAX / 2 + 1,
        ensures
            is_next_pow2(len as nat, plan.padded_len as nat),
            1 <= plan.padded_len,
            plan.rebuild_twiddles == plan_rebuilds(*old(self), plan.padded_len),
            *final(self) == plan_after(*old(self), plan.padded_len),
            plan.swaps@ == swap_list(plan.padded_len as nat),
            swaps_in_bounds(plan.swaps@, plan.padded_len as nat),
            plan.stages@.len() == log2(plan.padded_len as nat),
            forall|t: int|
                0 <= t < plan.stages@.len() ==> stage_ops_correct(
                    #[trigger] plan.stages@[t]@,
                    plan.padded_len as nat,
                    pow2((t + 1) as nat),
                ),
    {
        let n = next_power_of_two(len);
        let rebuild = self.ensure_size(n);
        let swaps = bit_reversal_swaps(n);
        let stages = butterfly_stages(n);
        proof {
            lemma_swap_list_in_bounds(n as nat);
        }
        TransformPlan { padded_len: n, rebuild_twiddles: rebuild, swaps, stages }
    }
}

} // verus!
