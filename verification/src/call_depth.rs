//! A limit on nested native method calls, against stack overflow from circular
//! module initialisation.

use vstd::prelude::*;

verus! {

pub const MAX_CALL_METHOD_DEPTH: u32 = 512;

/// How many calls are in flight.
#[derive(Debug)]
pub struct CallMethodDepth {
    pub depth: u32,
}

/// Held by a call in flight.
#[derive(Debug)]
pub struct CallMethodDepthGuard {}

/// The depth inside one more call; `None` at the limit.
pub open spec fn entered(depth: u32) -> Option<u32> {
    if depth >= MAX_CALL_METHOD_DEPTH {
        None
    } else {
        Some((depth + 1) as u32)
    }
}

/// The depth after a call has returned.
pub open spec fn left(depth: u32) -> u32 {
    (depth - 1) as u32
}

impl CallMethodDepth {
    pub fn new() -> (r: CallMethodDepth)
        ensures
            r.depth == 0,
    {
        CallMethodDepth { depth: 0 }
    }
}

impl CallMethodDepthGuard {
    /// Enters a call. At the limit there is no guard, and the caller answers
    /// with the empty object in place of a call.
    pub fn enter(depth: &mut CallMethodDepth, _method_name: &str) -> (r: Option<
        CallMethodDepthGuard,
    >)
        ensures
            r is Some <==> entered(old(depth).depth) is Some,
            final(depth).depth == (match entered(old(depth).depth) {
                Some(d) => d,
                None => old(depth).depth,
            }),
    {
        let v: u32 = depth.depth;
        if v >= MAX_CALL_METHOD_DEPTH {
            None
        } else {
            depth.depth = v + 1;
            Some(CallMethodDepthGuard {  })
        }
    }

    /// Leaves the call.
    pub fn leave(self, depth: &mut CallMethodDepth)
        requires
            old(depth).depth > 0,
        ensures
            final(depth).depth == left(old(depth).depth),
    {
        depth.depth = depth.depth - 1;
    }
}

/// The depth, for a `try` to remember.
pub fn call_method_depth_savepoint(depth: &CallMethodDepth) -> (r: u32)
    ensures
        r == depth.depth,
{
    depth.depth
}

/// Back to a remembered depth. A throw jumps past the calls in between, which
/// then never leave; without this each caught throw would count as a call in
/// flight for ever.
pub fn call_method_depth_restore(depth: &mut CallMethodDepth, saved: u32)
    ensures
        final(depth).depth == saved,
{
    depth.depth = saved;
}

/// The depth after `n` more calls were entered, the refused ones not counted.
pub open spec fn entered_times(depth: u32, n: nat) -> u32
    decreases n,
{
    if n == 0 {
        depth
    } else {
        let before = entered_times(depth, (n - 1) as nat);
        match entered(before) {
            Some(d) => d,
            None => before,
        }
    }
}

/// Leaving undoes entering, and however many calls are entered, the depth stays
/// within its limit.
pub proof fn depth_is_balanced_and_bounded(depth: u32, n: nat)
    requires
        depth <= MAX_CALL_METHOD_DEPTH,
    ensures
        entered(depth) matches Some(d) ==> left(d) == depth,
        depth <= entered_times(depth, n) <= MAX_CALL_METHOD_DEPTH,
        entered_times(depth, n) == (if depth + n <= MAX_CALL_METHOD_DEPTH {
            depth + n
        } else {
            MAX_CALL_METHOD_DEPTH as int
        }),
    decreases n,
{
    if n > 0 {
        depth_is_balanced_and_bounded(depth, (n - 1) as nat);
    }
}

/// Calls nest as deep as the limit says and no deeper: with fewer than that many
/// in flight one more is let in and counted, and with as many it is refused.
pub proof fn calls_nest_up_to_the_limit(depth: u32)
    ensures
        entered(depth) is Some <==> depth < 512,
        entered(depth) matches Some(d) ==> d == depth + 1 && left(d) == depth,
{
}

} // verus!
