use time_tracker::csv_file::csv_data_rows;
use time_tracker::dates::Stamp;
use time_tracker::workstream::add_workstream;
use time_tracker::workstream::derive_id;
use time_tracker::workstream::id_of_hash;
use time_tracker::workstream::resolve_workstream;
use time_tracker::workstream::synthesize;
use time_tracker::workstream::Workstream;
use time_tracker::workstream::WorkstreamRegistry;

fn at(secs: i64) -> Stamp {
    Stamp { secs, nanos: 0 }
}

#[test]
fn derive_id_is_stable_and_distinct() {
    assert_eq!(derive_id("Halden & Roe", "Q1 Review"), derive_id("Halden & Roe", "Q1 Review"));
    assert_eq!(derive_id(" Halden & Roe ", "Q1 Review"), derive_id("Halden & Roe", "Q1 Review"));
    assert_ne!(derive_id("ab", "c"), derive_id("a", "bc"));
    assert!(derive_id("X", "Y").starts_with("ws-"));
}

#[test]
fn ids_are_sixteen_hex_digits() {
    assert_eq!(id_of_hash(0), "ws-0000000000000000");
    assert_eq!(id_of_hash(0x0123_4567_89ab_cdef), "ws-0123456789abcdef");
    assert_eq!(id_of_hash(u64::MAX), "ws-ffffffffffffffff");
    assert_eq!(derive_id("X", "Y").len(), 19);
    assert!(derive_id("X", "Y")[3..].chars().all(|c| matches!(c, '0'..='9' | 'a'..='f')));
}

#[test]
fn touch_or_create_inserts_then_touches() {
    let mut reg = WorkstreamRegistry { version: 1, workstreams: vec![] };
    let (id1, created1) = reg.touch_or_create("Acme", "Audit", true, at(10));
    assert!(created1);
    assert_eq!(reg.workstreams.len(), 1);
    let first_used = reg.workstreams[0].last_used_at;
    let (id2, created2) = reg.touch_or_create("Acme", "Audit", true, at(12));
    assert!(!created2);
    assert_eq!(id1, id2);
    assert_eq!(reg.workstreams.len(), 1);
    assert!(first_used.le(&reg.workstreams[0].last_used_at));
    assert_eq!(reg.workstreams[0].last_used_at, at(12));
    assert_eq!(reg.workstreams[0].created_at, at(10));
}

#[test]
fn pin_then_ordered_puts_pinned_first() {
    let mut reg = WorkstreamRegistry { version: 1, workstreams: vec![] };
    let (a, _) = reg.touch_or_create("A", "x", true, at(1));
    let (_b, _) = reg.touch_or_create("B", "y", true, at(2)); // newer
    assert!(reg.set_pinned(&a, true));
    let order = reg.ordered();
    assert_eq!(order[0].id, a, "pinned A should come before newer B");
}

#[test]
fn without_pins_the_last_used_is_first() {
    let mut reg = WorkstreamRegistry { version: 1, workstreams: vec![] };
    for (i, c) in ["A", "B", "C"].iter().enumerate() {
        let _ = reg.touch_or_create(c, "x", true, at(i as i64));
    }
    let _ = reg.touch_or_create("A", "x", true, at(9));
    let names: Vec<String> = reg.ordered().into_iter().map(|w| w.client).collect();
    assert_eq!(names, ["A", "C", "B"]);
    assert!(!reg.set_pinned("ws-none", true));
}

#[test]
fn csv_data_rows_skips_bom_comment_and_header() {
    let csv = "\u{feff}# time-tracker v0.2\r\ntimestamp_iso,staff,client,engagement,narrative,minutes,hours_decimal,billable,entry_method,workstream_id\r\n2026-05-11T09:00:00-07:00,RyanJ,Acme,Audit,work,30,0.50,true,timer,ws-deadbeef\r\n";
    let rows = csv_data_rows(csv);
    assert_eq!(rows.len(), 1);
    assert_eq!(rows[0][2], "Acme");
    assert_eq!(rows[0][3], "Audit");
    assert_eq!(rows[0].len(), 10);
}

#[test]
fn csv_data_rows_handles_v01_without_comment_line() {
    let csv = "\u{feff}timestamp_iso,staff,client,engagement,narrative,minutes,hours_decimal,billable,entry_method\r\n2026-05-11T09:00:00-07:00,RyanJ,Acme,Audit,\"work, more\",30,0.50,true,timer\r\n";
    let rows = csv_data_rows(csv);
    assert_eq!(rows.len(), 1);
    assert_eq!(rows[0][4], "work, more");
    assert_eq!(rows[0].len(), 9);
}

#[test]
fn a_page_adds_and_names_workstreams() {
    let mut reg = WorkstreamRegistry { version: 1, workstreams: vec![] };
    let refused = add_workstream(&mut reg, "Acme", "  ", true, at(1)).err().unwrap();
    assert_eq!((refused.status, refused.message.as_str()), (400, "client and engagement are required"));
    let (w, created) = add_workstream(&mut reg, " Acme ", " Audit ", false, at(1)).ok().unwrap();
    assert!(created);
    assert_eq!((w.client.as_str(), w.engagement.as_str(), w.billable_default), ("Acme", "Audit", false));
    let (again, created) = add_workstream(&mut reg, "Acme", "Audit", true, at(5)).ok().unwrap();
    assert!(!created);
    assert_eq!(again.id, w.id);
    assert!(!again.billable_default);
    assert_eq!(again.last_used_at, at(5));
    assert_eq!(resolve_workstream(&reg, &w.id).ok().unwrap().client, "Acme");
    let unknown = resolve_workstream(&reg, "ws-none").err().unwrap();
    assert_eq!((unknown.status, unknown.message.as_str()), (404, "unknown workstream"));
    assert_eq!(reg.find("Acme", "Audit").unwrap().id, w.id);
    assert!(reg.find("Acme", "Tax").is_none());
}

#[test]
fn a_registry_without_a_version_gets_one() {
    let none: Vec<Workstream> = vec![];
    assert_eq!(WorkstreamRegistry::loaded(0, none).version, 1);
}

#[test]
fn a_registry_is_put_together_from_files() {
    let old = "\u{feff}timestamp_iso,staff,client,engagement,narrative,minutes,hours_decimal,billable,entry_method\r\n\
2026-05-11T09:00:00-07:00,R,Acme,Audit,w,30,0.50,true,timer\r\n\
2026-05-12T09:00:00-07:00,R,Acme,Audit,w,30,0.50,false,timer\r\n\
2026-05-13T09:00:00-07:00,R, ,Audit,w,30,0.50,false,timer\r\n";
    let new = "\u{feff}# time-tracker v0.3\r\nh\r\n2026-06-01,R,Beta,Tax,w,30,0.50,true,timer,ws-x\r\n";
    let reg = synthesize(&vec![old.to_string(), new.to_string()], at(99));
    assert_eq!(reg.version, 1);
    let names: Vec<(String, String)> =
        reg.workstreams.iter().map(|w| (w.client.clone(), w.engagement.clone())).collect();
    assert_eq!(names, [("Beta".to_string(), "Tax".to_string()), ("Acme".to_string(), "Audit".to_string())]);
    assert_eq!(reg.workstreams[1].id, derive_id("Acme", "Audit"));
    assert_eq!(reg.workstreams[1].last_used_at, at(1_778_544_000));
}
