use time_tracker::autocomplete::Cache;
use time_tracker::csv_writer::Entry;
use time_tracker::csv_writer::EntryMethod;
use time_tracker::csv_writer::LocalTime;
use time_tracker::csv_writer::WriteResult;
use time_tracker::dates::Date;
use time_tracker::dates::Stamp;
use time_tracker::decimal::tenths_of_hours;
use time_tracker::popup::form_action;
use time_tracker::popup::suggestions_shown;
use time_tracker::popup::BusEvent;
use time_tracker::popup::Command;
use time_tracker::popup::FormAction;
use time_tracker::popup::Popup;
use time_tracker::popup::PopupMode;
use time_tracker::popup::Submission;
use time_tracker::popup::Tick;
use time_tracker::popup::UsageEvent;
use time_tracker::timer::ContinuationState;
use time_tracker::timer::Timer;
use time_tracker::workstream::derive_id;
use time_tracker::workstream::WorkstreamRegistry;

const AT: LocalTime = LocalTime {
    date: Date { year: 2026, month: 5, day: 8 },
    hour: 15,
    minute: 23,
    second: 11,
    micros: 0,
};

fn at(minutes: i64) -> Stamp {
    Stamp { secs: 1_778_000_000 + minutes * 60, nanos: 0 }
}

fn fresh() -> (Popup, WorkstreamRegistry) {
    (
        Popup::new(Cache::empty(), Timer::default(), "kim".to_string(), true),
        WorkstreamRegistry { version: 1, workstreams: vec![] },
    )
}

fn running(from: i64) -> (Popup, WorkstreamRegistry) {
    let (mut p, mut reg) = fresh();
    match p.cmd_timer_start(&mut reg, " Acme ", " Audit ", false, at(from)) {
        Command::Started(events) => assert_eq!(told(&events), ["started Acme/Audit/"]),
        _ => panic!("expected a start"),
    }
    (p, reg)
}

fn told(events: &[BusEvent]) -> Vec<String> {
    events
        .iter()
        .map(|e| match e {
            BusEvent::TimerStarted { client, engagement, narrative } => {
                format!("started {client}/{engagement}/{narrative}")
            }
            BusEvent::TimerStopped { client, minutes } => format!("stopped {client} {minutes}"),
            BusEvent::EntryLogged { staff, client, engagement, narrative, minutes, billable, method } => {
                format!("logged {staff} {client}/{engagement}/{narrative} {minutes} {billable} {method:?}")
            }
            BusEvent::WorkstreamSwitched { from_engagement, client, engagement } => {
                format!("switched {from_engagement} {client}/{engagement}")
            }
        })
        .collect()
}

fn fill(p: &mut Popup, client: &str, narrative: &str, duration: &str) {
    p.fields.client = client.to_string();
    p.fields.narrative = narrative.to_string();
    p.fields.duration_input = duration.to_string();
}

fn write_of(s: Submission) -> Entry {
    match s {
        Submission::Write(e) => e,
        _ => panic!("expected an entry to write"),
    }
}

#[test]
fn incomplete_forms_are_refused() {
    let (mut p, mut reg) = fresh();
    let mut why = |p: &mut Popup| {
        assert!(matches!(p.try_submit(&mut reg, at(0), AT), Submission::Refused));
        p.fields.error.clone().unwrap()
    };
    assert!(p.show(PopupMode::QuickEntry, &at(0)));
    assert_eq!(why(&mut p), "Client is required");
    fill(&mut p, "A", "  ", "");
    assert_eq!(why(&mut p), "Narrative is required");
    fill(&mut p, "A", "n", "");
    assert_eq!(why(&mut p), "Duration: empty");
    fill(&mut p, "A", "n", "25h");
    assert_eq!(why(&mut p), "Duration: must be <= 24h");
    assert!(p.is_visible());
    assert!(reg.workstreams.is_empty());
}

#[test]
fn a_quick_entry_is_written_and_told() {
    let (mut p, mut reg) = fresh();
    assert!(p.show(PopupMode::QuickEntry, &at(0)));
    fill(&mut p, " ClientCo ", " phone ", "18m");
    let e = write_of(p.try_submit(&mut reg, at(0), AT));
    assert_eq!((e.client.as_str(), e.narrative.as_str(), e.minutes), ("ClientCo", "phone", 18));
    assert_eq!((e.entry_method, e.billable, e.staff.as_str()), (EntryMethod::Quick, true, "kim"));
    assert_eq!(e.workstream_id, Some(derive_id("ClientCo", "")));
    assert_eq!(reg.workstreams.len(), 1);
    let r = p.submitted(&e, &WriteResult::Written);
    assert_eq!(told(&r.events), ["logged kim ClientCo//phone 18 true Quick"]);
    assert_eq!(
        r.usage,
        Some(UsageEvent::EntryWritten { method: EntryMethod::Quick, minutes: 18, billable: true })
    );
    assert_eq!(p.toast.as_deref(), Some("Logged 0.3h to ClientCo"));
    assert!(!p.is_visible());
    assert_eq!(p.cache.clients, ["ClientCo"]);
}

#[test]
fn an_entry_that_is_not_written_keeps_the_popup() {
    let (mut p, mut reg) = fresh();
    p.show(PopupMode::QuickEntry, &at(0));
    fill(&mut p, "A", "n", "1h");
    let e = write_of(p.try_submit(&mut reg, at(0), AT));
    let r = p.submitted(&e, &WriteResult::Error("disk full".to_string()));
    assert!(r.events.is_empty());
    assert_eq!(r.usage, None);
    assert_eq!(p.fields.error.as_deref(), Some("Write failed: disk full"));
    assert!(p.is_visible());
    assert!(p.cache.clients.is_empty());
    let r = p.submitted(&e, &WriteResult::Queued);
    assert!(r.events.is_empty());
    assert_eq!(r.usage, Some(UsageEvent::EntryQueued));
    assert_eq!(p.toast.as_deref(), Some("CSV locked - queued, will retry"));
    assert!(!p.is_visible());
}

#[test]
fn toasts_round_hours_like_the_machine_does() {
    for m in 0..=20_000u32 {
        let t = tenths_of_hours(m);
        assert_eq!(format!("{}.{}", t / 10, t % 10), format!("{:.1}", f64::from(m) / 60.0), "{m}");
    }
    assert_eq!(tenths_of_hours(u32::MAX), 715_827_882);
}

#[test]
fn a_timer_is_started_and_stopped_in_the_popup() {
    let (mut p, mut reg) = fresh();
    assert!(!p.show(PopupMode::TimerStop, &at(0)), "only a warning");
    assert_eq!(p.toast.as_deref(), Some("No timer running. Press Ctrl+Shift+; to start."));
    assert!(p.show(PopupMode::TimerStart, &at(0)));
    fill(&mut p, "Acme", "review", "");
    match p.try_submit(&mut reg, at(0), AT) {
        Submission::Started(events) => assert_eq!(told(&events), ["started Acme//review"]),
        _ => panic!("expected a start"),
    }
    assert_eq!(p.toast.as_deref(), Some("Timer started for Acme"));
    assert!(!p.show(PopupMode::TimerStart, &at(1)), "only a warning");
    assert_eq!(
        p.toast.as_deref(),
        Some("Timer already running for Acme. Press Ctrl+Shift+' to stop.")
    );
    fill(&mut p, "Other", "x", "");
    assert!(matches!(p.try_submit(&mut reg, at(1), AT), Submission::Refused));
    assert_eq!(p.fields.error.as_deref(), Some("Timer: timer already running"));

    assert!(p.show(PopupMode::TimerStop, &at(47)));
    assert_eq!(p.fields.client, "Acme");
    assert_eq!(p.fields.duration_input, "0.8");
    assert_eq!(p.fields.error, None);
    let e = write_of(p.try_submit(&mut reg, at(47), AT));
    assert_eq!((e.minutes, e.entry_method), (48, EntryMethod::Timer));
    let r = p.submitted(&e, &WriteResult::Written);
    assert_eq!(told(&r.events), ["stopped Acme 48", "logged kim Acme//review 48 true Timer"]);
    assert!(!p.timer.is_running());
}

#[test]
fn the_time_of_a_long_timer_is_asked_for() {
    let (mut p, _) = running(0);
    assert!(p.show(PopupMode::TimerStop, &at(900)));
    assert_eq!(p.fields.duration_input, "12.0");
    assert_eq!(p.fields.error.as_deref(), Some("Timer running >12h \u{2014} confirm or edit."));
    assert!(!p.fields.billable);
}

#[test]
fn the_form_begins_with_the_configured_flag() {
    let mut p = Popup::new(Cache::empty(), Timer::default(), "kim".to_string(), false);
    assert!(!p.fields.billable);
    p.fields.billable = true;
    p.show(PopupMode::QuickEntry, &at(0));
    assert!(!p.fields.billable);
    assert!(p.close());
    assert!(!p.close());
}

#[test]
fn stopping_writes_what_ran() {
    let (mut p, mut reg) = running(0);
    let e = p.cmd_timer_stop(&mut reg, &at(0), AT).unwrap();
    assert_eq!(e.minutes, 1, "at least a minute");
    let e = p.cmd_timer_stop(&mut reg, &at(75), AT).unwrap();
    assert_eq!((e.minutes, e.client.as_str(), e.billable), (75, "Acme", false));
    assert_eq!(reg.workstreams[0].last_used_at, at(75));
    let r = p.stop_running_and_log(&e, &WriteResult::Error("x".to_string()));
    assert!(r.events.is_empty());
    assert!(p.timer.is_running(), "no time is lost");
    let r = p.stop_running_and_log(&e, &WriteResult::Queued);
    assert_eq!(told(&r.events), ["stopped Acme 75"]);
    assert!(!p.timer.is_running());
    assert!(p.cmd_timer_stop(&mut reg, &at(80), AT).is_none());
}

#[test]
fn switching_follows_a_stop() {
    let (mut p, mut reg) = running(0);
    assert!(matches!(p.cmd_timer_start(&mut reg, "B", "T", true, at(5)), Command::Busy));
    assert!(matches!(p.cmd_timer_switch(&mut reg, "Audit", "B", "T", true, at(5)), Command::Busy));
    assert_eq!(p.running_summary(), Some(("Acme".to_string(), "Audit".to_string())));
    let e = p.cmd_timer_stop(&mut reg, &at(5), AT).unwrap();
    let r = p.stop_running_and_log(&e, &WriteResult::Written);
    assert_eq!(told(&r.events), ["stopped Acme 5", "logged kim Acme/Audit/ 5 false Timer"]);
    assert!(matches!(p.cmd_timer_switch(&mut reg, "Audit", " ", "T", true, at(5)), Command::Ignored));
    match p.cmd_timer_switch(&mut reg, "Audit", "B", "T", true, at(5)) {
        Command::Started(events) => assert_eq!(told(&events), ["started B/T/", "switched Audit B/T"]),
        _ => panic!("expected a start"),
    }
    assert_eq!(reg.workstreams.len(), 2);
}

#[test]
fn ticks_remind_and_then_stop() {
    let (mut p, _) = running(0);
    assert_eq!(p.tick(&at(239)), Tick::Persist);
    assert_eq!(p.tick(&at(240)), Tick::Remind);
    p.mark_reminded();
    assert_eq!(p.tick(&at(299)), Tick::Persist);
    assert_eq!(p.tick(&at(300)), Tick::StopAndLog);
    p.ack_continue(at(290));
    assert_eq!(p.tick(&at(300)), Tick::Persist);
    assert_eq!(p.continuation_state(&at(530)), Some(ContinuationState::RemindDue));
    let (idle, _) = fresh();
    assert_eq!(idle.tick(&at(999)), Tick::Persist);
}

#[test]
fn suggestions_are_shown_for_something_typed() {
    let one = vec!["ClientCo".to_string()];
    assert!(suggestions_shown("cli", &one));
    assert!(!suggestions_shown(" clientco ", &one), "that is it already");
    assert!(!suggestions_shown("  ", &one));
    assert!(!suggestions_shown("x", &Vec::new()));
    assert!(suggestions_shown("clientco", &vec!["ClientCo".to_string(), "ClientCo 2".to_string()]));
}

#[test]
fn enter_submits_and_escape_cancels() {
    assert_eq!(form_action(false, false, true, false, false, false), FormAction::Submit);
    assert_eq!(form_action(false, false, true, true, false, false), FormAction::Nothing);
    assert_eq!(form_action(false, false, true, false, true, false), FormAction::Nothing);
    assert_eq!(form_action(false, false, false, false, false, true), FormAction::Submit);
    assert_eq!(form_action(true, false, true, false, false, true), FormAction::Cancel);
    assert_eq!(form_action(false, true, false, false, false, false), FormAction::Cancel);
    assert_eq!(PopupMode::QuickEntry.title(), "Quick entry");
    assert!(!PopupMode::TimerStart.shows_duration_field());
    assert!(PopupMode::TimerStop.shows_duration_field());
}
