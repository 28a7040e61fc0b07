use time_tracker::csv_writer::RewriteResult;
use time_tracker::csv_writer::WriteResult;
use time_tracker::retry::drain_after_rewrite;
use time_tracker::retry::drain_after_write;
use time_tracker::retry::drain_flow;
use time_tracker::retry::drain_report;
use time_tracker::retry::drain_step;
use time_tracker::retry::is_lock_error;
use time_tracker::retry::queue_name_ok;
use time_tracker::retry::queue_outcome;
use time_tracker::retry::read_step;
use time_tracker::retry::replace_step;
use time_tracker::retry::save_step;
use time_tracker::retry::write_step;
use time_tracker::retry::Attempt;
use time_tracker::retry::Backoff;
use time_tracker::retry::DrainFlow;
use time_tracker::retry::DrainNext;
use time_tracker::retry::DrainOutcome;
use time_tracker::retry::Next;
use time_tracker::retry::QueueItem;
use time_tracker::retry::ReadAttempt;
use time_tracker::retry::ReadNext;
use time_tracker::retry::ReplaceAttempt;
use time_tracker::retry::ReplaceNext;
use time_tracker::retry::SaveAttempt;
use time_tracker::retry::SaveNext;

#[test]
fn only_sharing_and_lock_violations_are_waited_for() {
    assert!(is_lock_error(Some(32)));
    assert!(is_lock_error(Some(33)));
    assert!(!is_lock_error(Some(5)), "access denied is no lock");
    assert!(!is_lock_error(None));
}

#[test]
fn waits_double_up_to_two_seconds_within_ten() {
    let mut b = Backoff::new();
    let mut elapsed = 0u64;
    let mut waits = Vec::new();
    while let Some(ms) = b.wait(elapsed) {
        waits.push(ms);
        elapsed += ms;
    }
    assert_eq!(waits, [100, 200, 400, 800, 1600, 2000, 2000, 2000, 2000]);
    assert_eq!(elapsed, 11_100);
}

#[test]
fn a_write_is_seen_or_explained() {
    let mut b = Backoff::new();
    let done = |n: Next| match n {
        Next::Done(WriteResult::Error(m)) => m,
        Next::Done(WriteResult::Written) => "written".to_string(),
        Next::Queue => "queue".to_string(),
        Next::Wait(ms) => format!("wait {ms}"),
        Next::Again => "again".to_string(),
        Next::Done(WriteResult::Queued) => "queued".to_string(),
    };
    assert_eq!(done(write_step(&mut b, &Attempt::Appended(true), "p", 0)), "written");
    assert_eq!(done(write_step(&mut b, &Attempt::Appended(false), "p", 0)), "again");
    assert!(b.mismatched);
    assert_eq!(b.next_ms, 100);
    assert_eq!(
        done(write_step(&mut b, &Attempt::Appended(false), "p", 0)),
        "post-write self-verify failed"
    );
    assert_eq!(
        done(write_step(&mut b, &Attempt::Unread("gone".into()), "p", 0)),
        "verify read failed: gone"
    );
    assert_eq!(
        done(write_step(&mut b, &Attempt::Failed("denied".into()), "p", 0)),
        "can't write p \u{2014} check the folder's permissions (denied)"
    );
    assert_eq!(done(write_step(&mut b, &Attempt::Locked, "p", 0)), "wait 100");
    assert_eq!(done(write_step(&mut b, &Attempt::Locked, "p", 9_999)), "wait 200");
    assert_eq!(done(write_step(&mut b, &Attempt::Locked, "p", 10_000)), "queue");
    assert!(matches!(queue_outcome(&Ok(())), WriteResult::Queued));
    match queue_outcome(&Err("full".to_string())) {
        WriteResult::Error(m) => assert_eq!(m, "locked + queue write failed: full"),
        _ => panic!("expected an error"),
    }
}

#[test]
fn a_row_that_is_not_seen_is_written_once_more() {
    let mut b = Backoff::new();
    assert!(!b.mismatched);
    assert!(matches!(write_step(&mut b, &Attempt::Appended(false), "p", 0), Next::Again));
    assert!(matches!(write_step(&mut b, &Attempt::Locked, "p", 5), Next::Wait(100)));
    assert!(b.mismatched);
    match write_step(&mut b, &Attempt::Appended(false), "p", 105) {
        Next::Done(WriteResult::Error(m)) => assert_eq!(m, "post-write self-verify failed"),
        _ => panic!("expected an error"),
    }
    let mut seen = Backoff::new();
    assert!(matches!(write_step(&mut seen, &Attempt::Appended(false), "p", 0), Next::Again));
    assert!(matches!(
        write_step(&mut seen, &Attempt::Appended(true), "p", 1),
        Next::Done(WriteResult::Written)
    ));
    let mut queued = Backoff::new();
    assert!(matches!(drain_step(&mut queued, &Attempt::Appended(false), 0), DrainNext::Again));
    assert!(matches!(
        drain_step(&mut queued, &Attempt::Appended(true), 1),
        DrainNext::Done(DrainOutcome::Written)
    ));
}

#[test]
fn settings_are_read_back_and_written_once_more() {
    assert!(matches!(save_step(false, &SaveAttempt::Written(true)), SaveNext::Done(Ok(()))));
    assert!(matches!(save_step(true, &SaveAttempt::Written(true)), SaveNext::Done(Ok(()))));
    assert!(matches!(save_step(false, &SaveAttempt::Written(false)), SaveNext::Again));
    match save_step(true, &SaveAttempt::Written(false)) {
        SaveNext::Done(Err(m)) => assert_eq!(m, "post-write self-verify failed"),
        _ => panic!("expected an error"),
    }
    match save_step(false, &SaveAttempt::Failed("denied".into())) {
        SaveNext::Done(Err(m)) => assert_eq!(m, "denied"),
        _ => panic!("expected an error"),
    }
}

#[test]
fn queued_entries_are_drained_in_turn() {
    let mut b = Backoff::new();
    assert!(matches!(
        drain_step(&mut b, &Attempt::Appended(true), 0),
        DrainNext::Done(DrainOutcome::Written)
    ));
    assert!(matches!(drain_step(&mut b, &Attempt::Locked, 0), DrainNext::Wait(100)));
    assert!(matches!(
        drain_step(&mut b, &Attempt::Locked, 10_000),
        DrainNext::Done(DrainOutcome::StillLocked)
    ));
    assert!(matches!(drain_step(&mut b, &Attempt::Appended(false), 0), DrainNext::Again));
    match drain_step(&mut b, &Attempt::Appended(false), 0) {
        DrainNext::Done(DrainOutcome::Error(m)) => assert_eq!(m, "self-verify failed"),
        _ => panic!("expected an error"),
    }
    assert_eq!(drain_flow(&QueueItem::Tried(DrainOutcome::Written), 3), (DrainFlow::Remove, 4));
    assert_eq!(drain_flow(&QueueItem::Unusable, 3), (DrainFlow::Skip, 3));
    assert_eq!(drain_flow(&QueueItem::Tried(DrainOutcome::StillLocked), 3), (DrainFlow::Stop, 3));
    assert_eq!(
        drain_flow(&QueueItem::Tried(DrainOutcome::Error("x".into())), 3),
        (DrainFlow::Stop, 3)
    );
    assert!(queue_name_ok("20260508-152311-004096.json"));
    assert!(!queue_name_ok(".keep"));
    assert!(drain_after_write(&WriteResult::Written));
    assert!(!drain_after_write(&WriteResult::Queued));
    assert!(drain_after_rewrite(&RewriteResult::Written));
    assert!(!drain_after_rewrite(&RewriteResult::Locked("x".into())));
    assert_eq!(drain_report(&Ok(2)), Some(2));
    assert_eq!(drain_report(&Ok(0)), None);
    assert_eq!(drain_report(&Err("x".into())), None);
}

#[test]
fn a_failed_read_is_never_taken_for_an_absent_file() {
    let mut b = Backoff::new();
    assert!(matches!(read_step(&mut b, ReadAttempt::NotFound, "p", 0), ReadNext::Change(None)));
    match read_step(&mut b, ReadAttempt::Content(vec![1, 2]), "p", 0) {
        ReadNext::Change(Some(c)) => assert_eq!(c, [1, 2]),
        _ => panic!("expected the content"),
    }
    match read_step(&mut b, ReadAttempt::Failed("denied".into()), "p", 0) {
        ReadNext::Done(RewriteResult::Error(m)) => {
            assert_eq!(m, "can't read p \u{2014} check permissions (denied)")
        }
        _ => panic!("expected an error"),
    }
    assert!(matches!(read_step(&mut b, ReadAttempt::Locked, "p", 0), ReadNext::Wait(100)));
    match read_step(&mut b, ReadAttempt::Locked, "p", 10_000) {
        ReadNext::Done(RewriteResult::Locked(m)) => assert_eq!(
            m,
            "the CSV file is open in another program (Excel?) \u{2014} close it and try again (p)"
        ),
        _ => panic!("expected a lock"),
    }
}

#[test]
fn replacing_waits_for_the_lock() {
    let mut b = Backoff::new();
    assert!(matches!(
        replace_step(&mut b, &ReplaceAttempt::Replaced, "p", 0),
        ReplaceNext::Done(RewriteResult::Written)
    ));
    assert!(matches!(replace_step(&mut b, &ReplaceAttempt::Locked, "p", 0), ReplaceNext::Wait(100)));
    assert!(matches!(
        replace_step(&mut b, &ReplaceAttempt::Locked, "p", 10_000),
        ReplaceNext::Done(RewriteResult::Locked(_))
    ));
    match replace_step(&mut b, &ReplaceAttempt::Failed("denied".into()), "p", 0) {
        ReplaceNext::Done(RewriteResult::Error(m)) => {
            assert_eq!(m, "can't write p \u{2014} check permissions (denied)")
        }
        _ => panic!("expected an error"),
    }
}
