//! A bounded wait: poll until healthy, or fail with `Timeout` once the
//! deadline elapses — never block indefinitely. The decision is a pure
//! function of elapsed time and the last observation; the embedding
//! program performs the sleeps and health checks.

use vstd::prelude::*;

use crate::errors::GenesisError;

verus! {

/// What a poller should do next.
#[derive(Clone, Copy, Debug, PartialEq, Eq, Structural)]
pub enum PollDecision {
    /// The awaited condition holds: stop polling.
    Done,
    /// Sleep this many milliseconds, observe again, and call back in.
    Wait(u64),
    /// The deadline has passed without success.
    GiveUp,
}

/// Decides one step of a bounded health poll: success stops, an elapsed
/// deadline gives up, anything else waits one interval (clipped to the
/// time that remains).
pub fn poll_step(elapsed_ms: u64, deadline_ms: u64, interval_ms: u64, healthy: bool) -> (r:
    PollDecision)
    ensures
        healthy ==> r == PollDecision::Done,
        !healthy && elapsed_ms >= deadline_ms ==> r == PollDecision::GiveUp,
        !healthy && elapsed_ms < deadline_ms ==> r == PollDecision::Wait(
            if interval_ms <= deadline_ms - elapsed_ms {
                interval_ms
            } else {
                (deadline_ms - elapsed_ms) as u64
            },
        ),
{
    if healthy {
        PollDecision::Done
    } else if elapsed_ms >= deadline_ms {
        PollDecision::GiveUp
    } else {
        let remaining = deadline_ms - elapsed_ms;
        PollDecision::Wait(if interval_ms <= remaining {
            interval_ms
        } else {
            remaining
        })
    }
}

/// The error a caller surfaces when a bounded wait gives up.
pub fn timeout_error() -> (r: GenesisError)
    ensures
        r == GenesisError::Timeout,
{
    GenesisError::Timeout
}

} // verus!
