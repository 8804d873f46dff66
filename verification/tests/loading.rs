use keycache::bootstrap::{advance, Action, Event, Phase, TEMPFILE_SUFFIX_LEN, TEMPFILE_TEMPLATE};
use keycache::error::KeycacheError;

fn abort(os_error: i32) -> Action {
    Action::Abort { error: KeycacheError::BridgeLoadFailed { os_error } }
}

#[test]
fn the_template_ends_in_six_x_and_the_suffix() {
    assert_eq!(TEMPFILE_TEMPLATE, "libsecureenclave-XXXXXX.dylib");
    assert_eq!(TEMPFILE_SUFFIX_LEN, ".dylib".len());
    let stem = &TEMPFILE_TEMPLATE[..TEMPFILE_TEMPLATE.len() - TEMPFILE_SUFFIX_LEN];
    assert!(stem.ends_with("XXXXXX"));
}

#[test]
fn the_first_access_loads_the_driver_step_by_step() {
    assert_eq!(advance(Phase::Idle, Event::Access), (Phase::Reserving, Action::Reserve));
    assert_eq!(
        advance(Phase::Reserving, Event::Reserved { descriptor: 3, os_error: 0 }),
        (Phase::Writing, Action::Write)
    );
    assert_eq!(advance(Phase::Writing, Event::Written), (Phase::Loading, Action::Load));
    assert_eq!(advance(Phase::Loading, Event::Loaded), (Phase::Unlinking, Action::Unlink));
    assert_eq!(advance(Phase::Unlinking, Event::Unlinked), (Phase::Ready, Action::Share));
    assert_eq!(advance(Phase::Ready, Event::Access), (Phase::Ready, Action::Share));
}

#[test]
fn a_descriptor_that_is_not_above_zero_is_a_failure() {
    for descriptor in [0, -1, i32::MIN] {
        assert_eq!(
            advance(Phase::Reserving, Event::Reserved { descriptor, os_error: 13 }),
            (Phase::Failed { os_error: 13 }, abort(13))
        );
    }
    assert_eq!(
        advance(Phase::Reserving, Event::Reserved { descriptor: i32::MAX, os_error: 13 }),
        (Phase::Writing, Action::Write)
    );
}

#[test]
fn a_failed_step_ends_the_loading() {
    for phase in [Phase::Reserving, Phase::Writing, Phase::Loading, Phase::Unlinking] {
        assert_eq!(
            advance(phase, Event::StepFailed { os_error: 28 }),
            (Phase::Failed { os_error: 28 }, abort(28))
        );
    }
    assert_eq!(advance(Phase::Failed { os_error: 28 }, Event::Access), (Phase::Failed { os_error: 28 }, abort(28)));
    assert_eq!(
        advance(Phase::Failed { os_error: 28 }, Event::StepFailed { os_error: 1 }),
        (Phase::Failed { os_error: 28 }, abort(28))
    );
    assert_eq!(advance(Phase::Failed { os_error: 28 }, Event::Loaded), (Phase::Failed { os_error: 28 }, abort(28)));
}

#[test]
fn an_access_during_the_loading_waits() {
    for phase in [Phase::Reserving, Phase::Writing, Phase::Loading, Phase::Unlinking] {
        assert_eq!(advance(phase, Event::Access), (phase, Action::Wait));
    }
}

#[test]
fn a_report_that_does_not_belong_changes_nothing() {
    assert_eq!(advance(Phase::Idle, Event::Loaded), (Phase::Idle, Action::Wait));
    assert_eq!(advance(Phase::Idle, Event::StepFailed { os_error: 9 }), (Phase::Idle, Action::Wait));
    assert_eq!(advance(Phase::Writing, Event::Loaded), (Phase::Writing, Action::Wait));
    assert_eq!(advance(Phase::Loading, Event::Unlinked), (Phase::Loading, Action::Wait));
    assert_eq!(advance(Phase::Ready, Event::Loaded), (Phase::Ready, Action::Share));
    assert_eq!(advance(Phase::Ready, Event::StepFailed { os_error: 9 }), (Phase::Ready, Action::Share));
}

#[test]
fn many_callers_cause_one_load_and_one_unlink() {
    let events = [
        Event::Access,
        Event::Reserved { descriptor: 7, os_error: 0 },
        Event::Written,
        Event::Loaded,
        Event::Unlinked,
        Event::StepFailed { os_error: 4 },
    ];
    // Every order of many events, taken from a small generator.
    let mut state: u32 = 0x2545_f491;
    for _ in 0..200 {
        let mut phase = Phase::Idle;
        let mut counts = [0usize; 4];
        let mut shared_before_ready = false;
        for _ in 0..60 {
            state = state.wrapping_mul(1_664_525).wrapping_add(1_013_904_223);
            let event = events[(state >> 24) as usize % events.len()];
            let (next, action) = advance(phase, event);
            match action {
                Action::Reserve => counts[0] += 1,
                Action::Write => counts[1] += 1,
                Action::Load => counts[2] += 1,
                Action::Unlink => counts[3] += 1,
                Action::Share => shared_before_ready |= next != Phase::Ready,
                _ => {}
            }
            phase = next;
        }
        assert!(counts.iter().all(|count| *count <= 1), "{counts:?}");
        assert!(!shared_before_ready);
    }
}

#[test]
fn callers_that_come_later_share_the_loaded_driver() {
    let mut phase = Phase::Idle;
    let mut loads = 0;
    let mut unlinks = 0;
    let mut shares = 0;
    let mut report = Event::Access;
    for _ in 0..100 {
        let (next, action) = advance(phase, report);
        phase = next;
        report = match action {
            Action::Reserve => Event::Reserved { descriptor: 5, os_error: 0 },
            Action::Write => Event::Written,
            Action::Load => {
                loads += 1;
                Event::Loaded
            }
            Action::Unlink => {
                unlinks += 1;
                Event::Unlinked
            }
            Action::Share => {
                shares += 1;
                Event::Access
            }
            other => panic!("{other:?}"),
        };
    }
    assert_eq!((loads, unlinks, shares), (1, 1, 96));
    assert_eq!(phase, Phase::Ready);
}
