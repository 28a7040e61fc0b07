use time_tracker::dates::Stamp;
use time_tracker::timer::state_file_action;
use time_tracker::timer::whole_minutes;
use time_tracker::timer::ContinuationState;
use time_tracker::timer::RunningTimer;
use time_tracker::timer::StateFile;
use time_tracker::timer::Timer;
use time_tracker::timer::AUTOSTOP_AFTER_MIN;
use time_tracker::timer::REMIND_AFTER_MIN;
use time_tracker::timer::SANITY_CAP_MINUTES;

const NOW: Stamp = Stamp { secs: 1_778_000_000, nanos: 500 };

fn ago(minutes: i64) -> Stamp {
    Stamp { secs: NOW.secs - minutes * 60, nanos: NOW.nanos }
}

#[test]
fn empty_timer_not_running() {
    let t = Timer::default();
    assert!(!t.is_running());
    assert!(t.peek().is_none());
}

#[test]
fn start_then_peek_returns_fields() {
    let mut t = Timer::default();
    t.start("ClientCo".into(), "K-1".into(), "phone".into(), true, NOW)
        .unwrap();
    let r = t.peek().expect("running");
    assert_eq!(r.client, "ClientCo");
    assert_eq!(r.engagement, "K-1");
    assert_eq!(r.narrative, "phone");
    assert!(r.billable);
}

#[test]
fn cannot_start_when_running() {
    let mut t = Timer::default();
    let _ = t.start("A".into(), "".into(), "x".into(), true, NOW);
    let err = t.start("B".into(), "".into(), "y".into(), false, NOW);
    assert!(err.is_err());
    assert_eq!(err, Err("timer already running"));
    assert_eq!(t.peek().unwrap().client, "A");
}

#[test]
fn stop_returns_taken_timer() {
    let mut t = Timer::default();
    let _ = t.start("A".into(), "".into(), "x".into(), true, NOW);
    let taken = t.stop().expect("returned");
    assert_eq!(taken.client, "A");
    assert!(!t.is_running());
}

#[test]
fn stop_when_not_running_returns_none() {
    let mut t = Timer::default();
    assert!(t.stop().is_none());
}

/// A timer started so many minutes ago, never confirmed.
fn rt_started(minutes: i64) -> RunningTimer {
    RunningTimer {
        client: "A".into(),
        engagement: "".into(),
        narrative: "x".into(),
        billable: true,
        started_at: ago(minutes),
        reminder_base: None,
        reminded: false,
    }
}

#[test]
fn elapsed_under_cap_returns_unflagged() {
    let rt = rt_started(30);
    let (mins, exceeded) = rt.elapsed_minutes(&NOW);
    assert!(mins >= 29 && mins <= 31, "expected ~30, got {mins}");
    assert!(!exceeded);
}

#[test]
fn elapsed_over_12h_caps_and_flags() {
    let rt = rt_started(15 * 60);
    let (mins, exceeded) = rt.elapsed_minutes(&NOW);
    assert_eq!(mins, SANITY_CAP_MINUTES);
    assert!(exceeded);
}

#[test]
fn elapsed_of_just_12h_is_not_flagged() {
    assert_eq!(rt_started(720).elapsed_minutes(&NOW), (720, false));
    assert_eq!(rt_started(721).elapsed_minutes(&NOW), (720, true));
    assert_eq!(rt_started(-5).elapsed_minutes(&NOW), (0, false));
    assert_eq!(rt_started(1441).running_minutes(&NOW), 1440);
}

#[test]
fn minutes_are_whole_ones() {
    let a = Stamp { secs: 100, nanos: 999_999_999 };
    assert_eq!(whole_minutes(&a, &Stamp { secs: 160, nanos: 999_999_998 }), 0);
    assert_eq!(whole_minutes(&a, &Stamp { secs: 160, nanos: 999_999_999 }), 1);
    assert_eq!(whole_minutes(&a, &Stamp { secs: 0, nanos: 0 }), 0);
}

#[test]
fn continuation_ok_before_4h() {
    assert_eq!(rt_started(3 * 60).continuation_state(&NOW), ContinuationState::Fine);
}

#[test]
fn continuation_remind_due_at_4h_then_silenced() {
    let mut rt = rt_started(REMIND_AFTER_MIN + 5);
    assert_eq!(rt.continuation_state(&NOW), ContinuationState::RemindDue);
    // Once shown, nothing more is asked through the hour of grace.
    rt.reminded = true;
    assert_eq!(rt.continuation_state(&NOW), ContinuationState::Fine);
}

#[test]
fn continuation_autostop_at_5h_even_if_reminded() {
    let mut rt = rt_started(AUTOSTOP_AFTER_MIN + 1);
    rt.reminded = true;
    assert_eq!(rt.continuation_state(&NOW), ContinuationState::AutoStopDue);
}

#[test]
fn ack_continue_rebases_window() {
    let mut t = Timer::default();
    t.start("C".into(), "E".into(), "".into(), true, NOW).unwrap();
    // Force the running timer to look 4.5h old.
    t.current.as_mut().unwrap().started_at = ago(REMIND_AFTER_MIN + 30);
    assert_eq!(t.continuation_state(&NOW), Some(ContinuationState::RemindDue));
    t.mark_reminded();
    assert!(t.current.as_ref().unwrap().reminded);
    t.ack_continue(NOW);
    assert_eq!(t.continuation_state(&NOW), Some(ContinuationState::Fine));
    assert!(!t.current.as_ref().unwrap().reminded);
}

#[test]
fn idle_timer_has_no_continuation_state() {
    assert_eq!(Timer::default().continuation_state(&NOW), None);
}

#[test]
fn the_state_file_is_there_while_a_timer_runs() {
    let mut t = Timer::default();
    assert_eq!(state_file_action(&t), StateFile::Remove);
    t.start("C".into(), "E".into(), "".into(), true, NOW).unwrap();
    assert_eq!(state_file_action(&t), StateFile::Write);
}
