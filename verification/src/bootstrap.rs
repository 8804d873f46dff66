//! Bringing the secure-element driver into the process, once.
//!
//! The driver is held as bytes. It is written to a temporary file that no one
//! else can have made, loaded from there, and the file is removed as soon as
//! the driver is loaded. This module decides; its caller touches the file
//! system. The caller reports each thing that happened as an `Event`, and is
//! told what to do next as an `Action`.

use crate::error::KeycacheError;
use vstd::prelude::*;

verus! {

/// The name that the temporary file is reserved under; the system replaces the six `X`.
pub const TEMPFILE_TEMPLATE: &'static str = "libsecureenclave-XXXXXX.dylib";

/// The number of characters of the template that follow the six `X`.
pub const TEMPFILE_SUFFIX_LEN: usize = 6;

/// How far the loading of the driver has come.
#[derive(Debug, Clone, Copy, PartialEq, Eq, Structural)]
pub enum Phase {
    /// Nothing was done yet.
    Idle,
    /// The temporary file is being reserved.
    Reserving,
    /// The driver is being written to the reserved file.
    Writing,
    /// The driver is being loaded from the file.
    Loading,
    /// The file is being removed.
    Unlinking,
    /// The driver is loaded and no file is left.
    Ready,
    /// A step failed; there is no bridge and there will be none.
    Failed {
        /// The error number of the step that failed.
        os_error: i32,
    },
}

/// What the caller reports.
#[derive(Debug, Clone, Copy, PartialEq, Eq, Structural)]
pub enum Event {
    /// Someone asks for the bridge.
    Access,
    /// The system answered the request for a temporary file.
    Reserved {
        /// The file descriptor that the system returned.
        descriptor: i32,
        /// The error number that the system left.
        os_error: i32,
    },
    /// The driver was written to the file.
    Written,
    /// The driver was loaded.
    Loaded,
    /// The file was removed.
    Unlinked,
    /// The step under way failed.
    StepFailed {
        /// The error number that the system left.
        os_error: i32,
    },
}

/// What the caller is to do.
#[derive(Debug, Clone, Copy, PartialEq, Eq, Structural)]
pub enum Action {
    /// Reserve a temporary file of a new name, made for this process alone.
    Reserve,
    /// Write the driver through the descriptor of the reserved file.
    Write,
    /// Load the driver from the file.
    Load,
    /// Remove the file by the name it was reserved under.
    Unlink,
    /// Hand out the loaded bridge.
    Share,
    /// Do nothing until the step under way has ended.
    Wait,
    /// Give up: without the bridge the process cannot go on.
    Abort {
        /// The failure to report.
        error: KeycacheError,
    },
}

impl Phase {
    /// How many steps lie behind a phase.
    pub open spec fn rank(self) -> nat {
        match self {
            Phase::Idle => 0,
            Phase::Reserving => 1,
            Phase::Writing => 2,
            Phase::Loading => 3,
            Phase::Unlinking => 4,
            Phase::Ready => 5,
            Phase::Failed { .. } => 6,
        }
    }

    /// What is done in a phase when nothing new was reported.
    pub open spec fn standing_action(self) -> Action {
        match self {
            Phase::Ready => Action::Share,
            Phase::Failed { os_error } => Action::Abort {
                error: KeycacheError::BridgeLoadFailed { os_error },
            },
            _ => Action::Wait,
        }
    }

    /// Whether a step is under way.
    pub open spec fn under_way(self) -> bool {
        self is Reserving || self is Writing || self is Loading || self is Unlinking
    }
}

impl Action {
    /// The phase that begins when a step is asked for; zero for what is no step.
    pub open spec fn rank(self) -> nat {
        match self {
            Action::Reserve => 1,
            Action::Write => 2,
            Action::Load => 3,
            Action::Unlink => 4,
            _ => 0,
        }
    }
}

/// The phase after an event, and what to do.
///
/// The first access begins the loading. Each step that ended well begins the
/// next, in the order reserve, write, load, unlink; a reserved descriptor that
/// is not above zero counts as a failure. A failure ends everything. Once the
/// driver is loaded every access shares it. A report that does not belong to
/// the phase changes nothing.
pub open spec fn next(phase: Phase, event: Event) -> (Phase, Action) {
    match (phase, event) {
        (Phase::Idle, Event::Access) => (Phase::Reserving, Action::Reserve),
        (Phase::Reserving, Event::Reserved { descriptor, os_error }) => if descriptor > 0 {
            (Phase::Writing, Action::Write)
        } else {
            (Phase::Failed { os_error }, Phase::Failed { os_error }.standing_action())
        },
        (Phase::Writing, Event::Written) => (Phase::Loading, Action::Load),
        (Phase::Loading, Event::Loaded) => (Phase::Unlinking, Action::Unlink),
        (Phase::Unlinking, Event::Unlinked) => (Phase::Ready, Action::Share),
        (_, Event::StepFailed { os_error }) => if phase.under_way() {
            (Phase::Failed { os_error }, Phase::Failed { os_error }.standing_action())
        } else {
            (phase, phase.standing_action())
        },
        _ => (phase, phase.standing_action()),
    }
}

/// The phase after a run of events.
pub open spec fn run(phase: Phase, events: Seq<Event>) -> Phase
    decreases events.len(),
{
    if events.len() == 0 {
        phase
    } else {
        run(next(phase, events.first()).0, events.drop_first())
    }
}

/// How often a run of events has the caller do `action`.
pub open spec fn issued(phase: Phase, events: Seq<Event>, action: Action) -> nat
    decreases events.len(),
{
    if events.len() == 0 {
        0
    } else {
        let step = next(phase, events.first());
        issued(step.0, events.drop_first(), action) + if step.1 == action {
            1nat
        } else {
            0nat
        }
    }
}

/// Decides what follows an event.
pub fn advance(phase: Phase, event: Event) -> (step: (Phase, Action))
    ensures
        step == next(phase, event),
{
    match (phase, event) {
        (Phase::Idle, Event::Access) => (Phase::Reserving, Action::Reserve),
        (Phase::Reserving, Event::Reserved { descriptor, os_error }) => {
            if descriptor > 0 {
                (Phase::Writing, Action::Write)
            } else {
                (
                    Phase::Failed { os_error },
                    Action::Abort { error: KeycacheError::BridgeLoadFailed { os_error } },
                )
            }
        },
        (Phase::Writing, Event::Written) => (Phase::Loading, Action::Load),
        (Phase::Loading, Event::Loaded) => (Phase::Unlinking, Action::Unlink),
        (Phase::Unlinking, Event::Unlinked) => (Phase::Ready, Action::Share),
        (Phase::Reserving, Event::StepFailed { os_error })
        | (Phase::Writing, Event::StepFailed { os_error })
        | (Phase::Loading, Event::StepFailed { os_error })
        | (Phase::Unlinking, Event::StepFailed { os_error }) => (
            Phase::Failed { os_error },
            Action::Abort { error: KeycacheError::BridgeLoadFailed { os_error } },
        ),
        (Phase::Ready, _) => (phase, Action::Share),
        (Phase::Failed { os_error }, _) => (
            phase,
            Action::Abort { error: KeycacheError::BridgeLoadFailed { os_error } },
        ),
        _ => (phase, Action::Wait),
    }
}

/// No event leads back: the phase after an event has at least the rank of the
/// phase before, and a step is asked for only on entering its phase.
pub proof fn lemma_next_advances(phase: Phase, event: Event)
    ensures
        phase.rank() <= next(phase, event).0.rank(),
        next(phase, event).1.rank() > 0 ==> phase.rank() < next(phase, event).1.rank()
            == next(phase, event).0.rank(),
{
}

/// Whatever is reported, and however often the bridge is asked for, each of
/// the four steps is asked for at most once, and not at all once its phase has begun.
pub proof fn lemma_steps_at_most_once(phase: Phase, events: Seq<Event>, action: Action)
    requires
        action.rank() > 0,
    ensures
        issued(phase, events, action) <= 1,
        phase.rank() >= action.rank() ==> issued(phase, events, action) == 0,
    decreases events.len(),
{
    if events.len() > 0 {
        let step = next(phase, events.first());
        lemma_next_advances(phase, events.first());
        lemma_steps_at_most_once(step.0, events.drop_first(), action);
    }
}

/// From the first access on, the driver is loaded once and its file removed
/// once at most, whatever is reported and however many ask.
pub proof fn lemma_one_load_and_unlink(events: Seq<Event>)
    ensures
        issued(Phase::Idle, events, Action::Reserve) <= 1,
        issued(Phase::Idle, events, Action::Write) <= 1,
        issued(Phase::Idle, events, Action::Load) <= 1,
        issued(Phase::Idle, events, Action::Unlink) <= 1,
{
    lemma_steps_at_most_once(Phase::Idle, events, Action::Reserve);
    lemma_steps_at_most_once(Phase::Idle, events, Action::Write);
    lemma_steps_at_most_once(Phase::Idle, events, Action::Load);
    lemma_steps_at_most_once(Phase::Idle, events, Action::Unlink);
}

/// Once the driver is loaded it stays loaded, every access shares it, and no step is asked for again.
pub proof fn lemma_ready_stays(events: Seq<Event>, action: Action)
    requires
        action.rank() > 0,
    ensures
        run(Phase::Ready, events) == Phase::Ready,
        next(Phase::Ready, Event::Access) == (Phase::Ready, Action::Share),
        issued(Phase::Ready, events, action) == 0,
    decreases events.len(),
{
    if events.len() > 0 {
        lemma_ready_stays(events.drop_first(), action);
    }
}

/// A failure is final: every later access is told to give up with that failure.
pub proof fn lemma_failure_is_final(os_error: i32, events: Seq<Event>)
    ensures
        run(Phase::Failed { os_error }, events) == (Phase::Failed { os_error }),
        next(Phase::Failed { os_error }, Event::Access).1 == (Action::Abort {
            error: KeycacheError::BridgeLoadFailed { os_error },
        }),
    decreases events.len(),
{
    if events.len() > 0 {
        lemma_failure_is_final(os_error, events.drop_first());
    }
}

/// When every step ends well, the first access loads the driver, through the
/// four steps in their order.
pub proof fn lemma_bootstrap_completes(descriptor: i32, os_error: i32)
    requires
        descriptor > 0,
    ensures
        next(Phase::Idle, Event::Access) == (Phase::Reserving, Action::Reserve),
        next(Phase::Reserving, Event::Reserved { descriptor, os_error }) == (
            Phase::Writing,
            Action::Write,
        ),
        next(Phase::Writing, Event::Written) == (Phase::Loading, Action::Load),
        next(Phase::Loading, Event::Loaded) == (Phase::Unlinking, Action::Unlink),
        next(Phase::Unlinking, Event::Unlinked) == (Phase::Ready, Action::Share),
{
}

} // verus!
