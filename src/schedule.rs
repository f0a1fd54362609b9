//! When the frame loop looks for new tiles and issues fetches: only once
//! the camera has been still for a while, so that dragging does not flood
//! the network.
use vstd::prelude::*;

verus! {

/// Quiet time after a view change before the wanted set is recomputed, in ms.
pub const LOOK_DEBOUNCE_MS: u64 = 200;

/// Quiet time after the last camera move before queued requests are
/// issued, in ms.
pub const FETCH_DEBOUNCE_MS: u64 = 100;

/// Time after which an unanswered request counts as failed, in ms.
pub const REQUEST_TIMEOUT_MS: u64 = 10000;

/// Time elapsed from `since` to `now`, zero if `now` is earlier.
pub open spec fn elapsed(since: u64, now: u64) -> nat {
    if now >= since {
        (now - since) as nat
    } else {
        0
    }
}

/// Whether to recompute the wanted cells: a view change is waiting and the
/// last recomputation is more than the debounce interval ago.
pub fn should_look_for_tiles(change_waiting: bool, last_look: u64, now: u64) -> (r: bool)
    ensures
        r == (change_waiting && elapsed(last_look, now) > LOOK_DEBOUNCE_MS),
{
    change_waiting && now >= last_look && now - last_look > LOOK_DEBOUNCE_MS
}

/// Whether queued requests may be issued: the camera is not coasting and
/// has not moved for more than the debounce interval.
pub fn may_fetch(last_move: u64, coasting: bool, now: u64) -> (r: bool)
    ensures
        r == (!coasting && elapsed(last_move, now) > FETCH_DEBOUNCE_MS),
{
    !coasting && now >= last_move && now - last_move > FETCH_DEBOUNCE_MS
}

/// Whether a request issued at `issued` and still unanswered at `now` has
/// timed out.
pub fn timed_out(issued: u64, now: u64) -> (r: bool)
    ensures
        r == (elapsed(issued, now) >= REQUEST_TIMEOUT_MS),
{
    now >= issued && now - issued >= REQUEST_TIMEOUT_MS
}

} // verus!
