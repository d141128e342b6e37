//! Giving previous requests time to settle before a request is rejected.
use vstd::prelude::*;

use crate::errors::WeightedPermissionErr;

verus! {

/// The time to wait before rejecting a request with a conflicted path, in milliseconds
pub const SETTLE_MILLIS: u64 = 5;

/// Which time a permission is asked for.
#[derive(Debug, Clone, Copy, PartialEq, Eq, Structural)]
pub enum Attempt {
    /// The request has just come in
    First,
    /// Previous requests have had time to settle
    AfterSettling,
}

/// What to do after a permission was asked for.
#[derive(Debug)]
pub enum Settled<T> {
    /// Answer the request
    Answer(Result<T, WeightedPermissionErr>),
    /// Wait for so many milliseconds, then ask once more
    Wait(u64),
}

/// Decides what follows a request for a permission: the first refusal is not yet the answer.
pub fn settle<T>(attempt: Attempt, outcome: Result<T, WeightedPermissionErr>) -> (next: Settled<T>)
    ensures
        next == if attempt == Attempt::First && outcome is Err {
            Settled::Wait(SETTLE_MILLIS)
        } else {
            Settled::Answer(outcome)
        },
{
    match (attempt, outcome) {
        (Attempt::First, Err(_)) => Settled::Wait(SETTLE_MILLIS),
        (_, outcome) => Settled::Answer(outcome),
    }
}

}
