//! The life of the region that machine code is run from.
//!
//! The region is written while the code is generated, then made readable and
//! executable, then called, then released. Only the host can do these things;
//! what is decided here is their order. The host reports what happened as an
//! [`Event`] and is told what to do next as an [`Action`].

use vstd::prelude::*;
use crate::error::Error;

verus! {

/// Where the region stands.
#[derive(Clone, Copy, Debug, PartialEq, Eq, Structural)]
pub enum Stage {
    /// The region can be written and cannot be run.
    Writable,
    /// The host has been asked to make the region readable and executable.
    Sealing,
    /// The region can be run and cannot be written, and the code has been called.
    Running,
    /// The host has been asked to release the region and the tape. The flag
    /// says whether the code has run.
    Releasing(bool),
    /// Nothing is left to do. The flag says whether the code has run.
    Done(bool),
}

/// What the host reports.
#[derive(Clone, Copy, Debug, PartialEq, Eq, Structural)]
pub enum Event {
    /// The code stands in the region.
    Installed,
    /// The region is readable and executable.
    Protected,
    /// The protection of the region could not be changed.
    ProtectionFailed,
    /// The code has returned.
    Returned,
    /// The region and the tape are released.
    Released,
}

/// What the host is to do next.
#[derive(Clone, Copy, Debug, PartialEq, Eq, Structural)]
pub enum Action {
    /// Make the region readable and executable, and no longer writable.
    Protect,
    /// Call the start of the region with the address of the tape.
    Invoke,
    /// Release the region and the tape.
    Release,
    /// Stop: the run is over.
    Stop,
    /// The event does not belong here: do nothing.
    Nothing,
}

/// The stage after an event and what the host is to do.
pub open spec fn next(stage: Stage, event: Event) -> (Stage, Action) {
    match (stage, event) {
        (Stage::Writable, Event::Installed) => (Stage::Sealing, Action::Protect),
        (Stage::Sealing, Event::Protected) => (Stage::Running, Action::Invoke),
        (Stage::Sealing, Event::ProtectionFailed) => (Stage::Releasing(false), Action::Release),
        (Stage::Running, Event::Returned) => (Stage::Releasing(true), Action::Release),
        (Stage::Releasing(ran), Event::Released) => (Stage::Done(ran), Action::Stop),
        _ => (stage, Action::Nothing),
    }
}

/// The stage after the first `n` of the events, from a writable region.
pub open spec fn stage_after(events: Seq<Event>, n: int) -> Stage
    decreases n,
{
    if n <= 0 {
        Stage::Writable
    } else {
        next(stage_after(events, n - 1), events[n - 1]).0
    }
}

/// What the host is told to do on event `i`.
pub open spec fn action_at(events: Seq<Event>, i: int) -> Action {
    next(stage_after(events, i), events[i]).1
}

/// How far a stage is from the beginning.
spec fn rank(stage: Stage) -> int {
    match stage {
        Stage::Writable => 0,
        Stage::Sealing => 1,
        Stage::Running => 2,
        Stage::Releasing(_) => 3,
        Stage::Done(_) => 4,
    }
}

proof fn lemma_rank_grows(events: Seq<Event>, a: int, b: int)
    requires
        0 <= a <= b,
    ensures
        rank(stage_after(events, a)) <= rank(stage_after(events, b)),
    decreases b,
{
    if a < b {
        lemma_rank_grows(events, a, b - 1);
    }
}

/// Whatever the host reports, it is told to make the region executable
/// before it is told to call it, and never after.
pub proof fn lemma_protect_before_invoke(events: Seq<Event>, p: int, i: int)
    requires
        0 <= p < events.len(),
        0 <= i < events.len(),
        action_at(events, p) == Action::Protect,
        action_at(events, i) == Action::Invoke,
    ensures
        p < i,
{
    if i <= p {
        lemma_rank_grows(events, i, p);
    }
}

/// The host is told to call the code only on the report that the region is
/// executable.
pub proof fn lemma_invoke_needs_protection(events: Seq<Event>, i: int)
    requires
        0 <= i < events.len(),
        action_at(events, i) == Action::Invoke,
    ensures
        events[i] == Event::Protected,
        stage_after(events, i) == Stage::Sealing,
{
}

/// A run ends only after the host has been told to release the region, and
/// a run whose code never ran never told the host to call it.
pub proof fn lemma_done_after_release(events: Seq<Event>, n: int)
    requires
        0 <= n <= events.len(),
        stage_after(events, n) is Done,
    ensures
        exists|i: int| 0 <= i < n && #[trigger] action_at(events, i) == Action::Release,
        stage_after(events, n) == Stage::Done(false) ==> forall|i: int|
            0 <= i < n ==> #[trigger] action_at(events, i) != Action::Invoke,
{
    lemma_history(events, n);
}

proof fn lemma_history(events: Seq<Event>, n: int)
    requires
        0 <= n <= events.len(),
    ensures
        rank(stage_after(events, n)) >= 3 ==> exists|i: int|
            0 <= i < n && #[trigger] action_at(events, i) == Action::Release,
        rank(stage_after(events, n)) < 2 || stage_after(events, n) == Stage::Releasing(false)
            || stage_after(events, n) == Stage::Done(false) ==> forall|i: int|
            0 <= i < n ==> #[trigger] action_at(events, i) != Action::Invoke,
    decreases n,
{
    if n > 0 {
        lemma_history(events, n - 1);
        if rank(stage_after(events, n)) >= 3 {
            if rank(stage_after(events, n - 1)) >= 3 {
                let i = choose|i: int|
                    0 <= i < n - 1 && #[trigger] action_at(events, i) == Action::Release;
                assert(action_at(events, i) == Action::Release);
            } else {
                assert(action_at(events, n - 1) == Action::Release);
            }
        }
    }
}

/// The stage after an event and what the host is to do.
pub fn advance(stage: Stage, event: Event) -> (r: (Stage, Action))
    ensures
        r == next(stage, event),
{
    match stage {
        Stage::Writable => match event {
            Event::Installed => (Stage::Sealing, Action::Protect),
            _ => (stage, Action::Nothing),
        },
        Stage::Sealing => match event {
            Event::Protected => (Stage::Running, Action::Invoke),
            Event::ProtectionFailed => (Stage::Releasing(false), Action::Release),
            _ => (stage, Action::Nothing),
        },
        Stage::Running => match event {
            Event::Returned => (Stage::Releasing(true), Action::Release),
            _ => (stage, Action::Nothing),
        },
        Stage::Releasing(ran) => match event {
            Event::Released => (Stage::Done(ran), Action::Stop),
            _ => (stage, Action::Nothing),
        },
        Stage::Done(_) => (stage, Action::Nothing),
    }
}

/// How a run ended: `None` while it is not over, `Some(Ok(()))` when the
/// code has run, and the failure to protect the region otherwise.
pub fn verdict(stage: Stage) -> (r: Option<Result<(), Error>>)
    ensures
        !(stage is Done) ==> r is None,
        stage == Stage::Done(true) ==> r == Some(Ok::<(), Error>(())),
        stage == Stage::Done(false) ==> (r matches Some(Err(Error::Generic(message))) && message@
            == "failed to set memory protection"@),
{
    match stage {
        Stage::Done(true) => Some(Ok(())),
        Stage::Done(false) => Some(Err(Error::Generic("failed to set memory protection".to_owned()))),
        _ => None,
    }
}

} // verus!
