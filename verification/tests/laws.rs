use time_tracker::autocomplete::Cache;
use time_tracker::billing::build_rollup;
use time_tracker::billing::plan_export;
use time_tracker::bulk::bulk_content;
use time_tracker::bulk::dedupe_content;
use time_tracker::bulk::plan_bulk;
use time_tracker::bulk::rows_to_drop;
use time_tracker::bulk::rows_to_flip;
use time_tracker::bulk::shift_after_drops;
use time_tracker::bulk::BulkBillableBody;
use time_tracker::crash::url_escape;
use time_tracker::csv_file::CsvFile;
use time_tracker::csv_writer::append_entry;
use time_tracker::csv_writer::queue_file_name;
use time_tracker::csv_writer::Entry;
use time_tracker::csv_writer::EntryMethod;
use time_tracker::csv_writer::LocalTime;
use time_tracker::dates::Date;
use time_tracker::dates::Stamp;
use time_tracker::edits::create_content;
use time_tracker::edits::delete_content;
use time_tracker::edits::moved_content;
use time_tracker::edits::plan_create;
use time_tracker::edits::row_to_move;
use time_tracker::edits::CreateEntryBody;
use time_tracker::entries::locate_rows;
use time_tracker::entries::PatchEntryBody;
use time_tracker::exports::ExportManifest;
use time_tracker::exports::ExportRun;
use time_tracker::exports::ExportTotals;
use time_tracker::notify::xml_escape;
use time_tracker::popup::Command;
use time_tracker::popup::Popup;
use time_tracker::retry::queue_files;
use time_tracker::timer::Timer;
use time_tracker::workstream::WorkstreamRegistry;

const HEAD: &str = "\u{feff}# time-tracker v0.3\r\n\
date,staff,client,engagement,narrative,minutes,hours_decimal,billable,entry_method,workstream_id\r\n";

fn moment(day: u32, hour: u32, micros: u32) -> LocalTime {
    LocalTime {
        date: Date { year: 2026, month: 5, day },
        hour,
        minute: 7,
        second: 9,
        micros,
    }
}

fn entry() -> Entry {
    Entry {
        timestamp: moment(8, 9, 0),
        staff: "R".to_string(),
        client: "Acme, Inc".to_string(),
        engagement: "=cmd".to_string(),
        narrative: "said \"hi\"".to_string(),
        minutes: 95,
        billable: false,
        entry_method: EntryMethod::Timer,
        workstream_id: Some("ws".to_string()),
    }
}

fn file(content: &[u8]) -> CsvFile {
    CsvFile::parse(std::str::from_utf8(content).unwrap())
}

fn month(rows: &[&str]) -> Vec<u8> {
    let mut s = HEAD.to_string();
    for r in rows {
        s.push_str(r);
        s.push_str("\r\n");
    }
    s.into_bytes()
}

fn run(id: &str, ids: &[&str]) -> ExportRun {
    ExportRun {
        run_id: id.to_string(),
        created_at: String::new(),
        range: String::new(),
        range_label: String::new(),
        entry_ids: ids.iter().map(|s| s.to_string()).collect(),
        rollup: Vec::new(),
        totals: ExportTotals { entries: 0, minutes: 0, billable_minutes: 0, clients: 0, engagements: 0 },
        clients: Vec::new(),
        voided: false,
        voided_at: None,
    }
}

#[test]
fn queue_names_follow_the_clock() {
    let a = queue_file_name(&moment(8, 9, 999_999));
    let b = queue_file_name(&moment(8, 10, 0));
    let c = queue_file_name(&moment(10, 0, 5));
    assert_eq!(a, "20260508-090709-999999.json");
    let names = vec![c.clone(), ".keep".to_string(), a.clone(), b.clone()];
    assert_eq!(queue_files(&names), vec![a, b, c]);
    assert!(queue_files(&vec!["x.tmp".to_string()]).is_empty());
}

#[test]
fn what_is_logged_is_listed() {
    let (first, _) = append_entry(None, &entry());
    let (both, _) = append_entry(Some(first.clone()), &entry());
    let rows = locate_rows("2026-05", &file(&both));
    assert_eq!(rows.len(), 2);
    assert_eq!(rows[1].n, 2);
    assert_eq!(rows[1].date, Date { year: 2026, month: 5, day: 8 });
    assert_eq!(rows[1].client, "Acme, Inc");
    assert_eq!(rows[1].engagement, "'=cmd");
    assert_eq!(rows[1].narrative, "said \"hi\"");
    assert_eq!(rows[1].minutes, 95);
    assert!(!rows[1].billable);
    assert_eq!(file(&both).rows[1][9], "ws");

    let legacy = "date,staff,client,engagement,narrative,minutes,hours_decimal,billable,entry_method\r\n";
    let (old, _) = append_entry(Some(legacy.as_bytes().to_vec()), &entry());
    assert_eq!(file(&old).rows[0].len(), 9);
    assert_eq!(locate_rows("2026-05", &file(&old)).len(), 1);
}

#[test]
fn what_is_created_is_listed() {
    let body = CreateEntryBody {
        date: "2026-05-09".to_string(),
        dur: "1:30".to_string(),
        client: " Beta ".to_string(),
        engagement: "Tax".to_string(),
        narrative: "-call".to_string(),
        billable: true,
    };
    let e = plan_create(&body).ok().unwrap();
    let before = month(&["2026-05-01,R,Acme,Audit,first,30,0.50,true,quick,ws-1"]);
    let after = create_content(&Some(before), &e, "R").unwrap();
    let rows = locate_rows("2026-05", &file(&after));
    assert_eq!(rows.len(), 2);
    assert_eq!(rows[0].narrative, "first");
    assert_eq!((rows[1].client.as_str(), rows[1].minutes, rows[1].billable), ("Beta", 90, true));
    assert_eq!(rows[1].narrative, "'-call");
    assert_eq!(rows[1].date, Date { year: 2026, month: 5, day: 9 });
}

#[test]
fn a_moved_entry_is_in_one_month() {
    let may = month(&[
        "2026-05-01,R,Acme,Audit,first,30,0.50,true,quick,ws-1",
        "2026-05-02,R,Beta,Tax,second,60,1.00,false,timer,ws-2",
    ]);
    let patch = PatchEntryBody {
        date: Some("2026-06-03".to_string()),
        dur: None,
        client: None,
        engagement: None,
        narrative: None,
        billable: None,
    };
    let row = row_to_move(&Some(file(&may)), 1, &patch).ok().unwrap();
    let june = moved_content(&None, &row).unwrap();
    let left = delete_content(&Some(may), 1).unwrap();
    assert_eq!(
        file(&june).rows,
        vec![vec!["2026-06-03", "R", "Acme", "Audit", "first", "30", "0.50", "true", "quick", "ws-1"]]
    );
    assert_eq!(file(&left).rows.len(), 1);
    assert_eq!(file(&left).rows[0][4], "second");
}

#[test]
fn a_flag_that_is_set_stays_set() {
    let may = month(&[
        "2026-05-01,R,Acme,Audit,a,30,0.50,true,quick,",
        "2026-05-02,R,Acme,Audit,b,30,0.50,false,quick,",
        "2026-05-03,R,Acme,Audit,c,30",
    ]);
    let body = BulkBillableBody {
        client: "Acme".to_string(),
        engagement: None,
        billable: false,
        range: None,
    };
    let ask = plan_bulk(&body).ok().unwrap();
    let none = ExportManifest::empty().locked_ids();
    let (flips, skipped) = rows_to_flip("2026-05", &file(&may), &ask, &None, &none);
    assert_eq!((flips.clone(), skipped), (vec![1, 3], 0));
    let after = bulk_content(&Some(may), &flips, false).unwrap();
    let (again, _) = rows_to_flip("2026-05", &file(&after), &ask, &None, &none);
    assert!(again.is_empty());
}

#[test]
fn a_clean_up_leaves_no_doubles_and_keeps_the_locks() {
    let may = month(&[
        "2026-05-01,R,Acme,Audit,a,30,0.50,true,quick,",
        "2026-05-02,R,Beta,Tax,b,30,0.50,true,quick,",
        "2026-05-01,R,Acme,Audit,a,30,0.50,TRUE,timer,ws",
        "2026-05-04,R,Beta,Tax,d,30,0.50,true,quick,",
        "2026-05-04,R,Beta,Tax,d,30,0.50,true,quick,",
        "2026-05-06,R,Beta,Tax,f,30,0.50,true,quick,",
    ]);
    let mut manifest = ExportManifest { runs: vec![run("EXP-1", &["2026-05:2", "2026-05:6"])] };
    let drop = rows_to_drop("2026-05", &file(&may), &manifest.locked_ids());
    assert_eq!(drop, vec![0, 3]);
    let after = dedupe_content(&Some(may), &drop).unwrap();
    assert!(shift_after_drops(&mut manifest, "2026-05", &drop));
    assert_eq!(manifest.runs[0].entry_ids, vec!["2026-05:1", "2026-05:4"]);
    assert_eq!(manifest.run_id_for_entry("2026-05:4").as_deref(), Some("EXP-1"));
    let rows = file(&after).rows;
    assert_eq!((rows[0][4].as_str(), rows[3][4].as_str()), ("b", "f"));
    assert!(rows_to_drop("2026-05", &file(&after), &manifest.locked_ids()).is_empty());
}

#[test]
fn a_second_clean_up_drops_nothing() {
    let row = "2026-05-01,R,Acme,Audit,a,30,0.50,true,quick,";
    let other = "2026-05-02,R,Beta,Tax,b,30,0.50,true,quick,";
    let may = month(&[other, row, row, other, other, row]);
    // the work of the first row is locked, and stays as often as it is there
    let mut manifest = ExportManifest {
        runs: vec![run("EXP-1", &["2026-05:4"]), run("EXP-2", &["2026-05:2", "2026-05:3"])],
    };
    manifest.runs[1].voided = true;
    let drop = rows_to_drop("2026-05", &file(&may), &manifest.locked_ids());
    assert_eq!(drop, vec![1, 2]);
    let after = dedupe_content(&Some(may), &drop).unwrap();
    assert!(shift_after_drops(&mut manifest, "2026-05", &drop));
    assert_eq!(manifest.runs[0].entry_ids, vec!["2026-05:2"]);
    assert!(manifest.runs[1].entry_ids.is_empty());
    assert!(rows_to_drop("2026-05", &file(&after), &manifest.locked_ids()).is_empty());
}

#[test]
fn the_same_export_again_is_refused() {
    let today = Date { year: 2026, month: 5, day: 8 };
    let may = month(&[
        "2026-05-01,R,Acme,Audit,a,30,0.50,true,quick,",
        "2026-05-02,R,Beta,Tax,b,30,0.50,true,quick,",
    ]);
    let rows = || locate_rows("2026-05", &file(&may));
    let filter = vec!["Acme".to_string()];
    let mut manifest = ExportManifest::empty();
    let first = plan_export(rows(), &manifest, &filter, "all", today, "t").ok().unwrap();
    assert_eq!(first.entry_ids, vec!["2026-05:1"]);
    manifest.runs.push(first);
    let again = plan_export(rows(), &manifest, &filter, "all", today, "t").err().unwrap();
    assert_eq!(again.status, 422);
}

#[test]
fn a_released_entry_is_free() {
    let mut m = ExportManifest { runs: vec![run("EXP-1", &["2026-05:1", "2026-05:2"]), run("EXP-2", &["2026-05:3"])] };
    assert!(m.unlock_entry("EXP-1", "2026-05:2").is_ok());
    assert_eq!(m.run_id_for_entry("2026-05:2"), None);
    assert_eq!(m.run_id_for_entry("2026-05:1").as_deref(), Some("EXP-1"));
    assert!(m.shift_after_delete("2026-05", 2));
    assert_eq!(m.run_id_for_entry("2026-05:2").as_deref(), Some("EXP-2"));
    assert_eq!(m.run_id_for_entry("2026-05:3"), None);
}

#[test]
fn sums_of_lines_are_the_sums() {
    let rows = locate_rows(
        "2026-05",
        &file(&month(&[
            "2026-05-01,R,Acme,Audit,a,30,0.50,true,quick,",
            "2026-05-02,R,Beta,Tax,b,45,0.75,false,quick,",
            "2026-05-03,R,Acme,Audit,c,15,0.25,false,quick,",
        ])),
    );
    let (lines, totals) = build_rollup(&rows);
    assert_eq!(lines.len(), 2);
    assert_eq!(lines.iter().map(|l| l.entries).sum::<usize>(), totals.entries);
    assert_eq!(lines.iter().map(|l| l.minutes).sum::<i128>(), 90);
    assert_eq!((totals.minutes, totals.billable_minutes), (90, 30));
    assert_eq!(lines.iter().map(|l| l.billable_minutes).sum::<i128>(), 30);
}

#[test]
fn a_pair_has_one_workstream() {
    let mut r = WorkstreamRegistry::loaded(1, Vec::new());
    let now = Stamp { secs: 60, nanos: 0 };
    for (c, e) in [("Acme", "Audit"), ("Beta", ""), (" Acme ", "Audit"), ("Beta", "")] {
        let _ = r.touch_or_create(c, e, true, now);
    }
    assert_eq!(r.workstreams.len(), 2);
    assert!(r.workstreams[0].id != r.workstreams[1].id);
    let id = r.workstreams[1].id.clone();
    assert!(r.set_pinned(&id, true));
    assert!(!r.workstreams[0].pinned && r.workstreams[1].pinned);
    assert!(!r.set_pinned("none", true));
}

#[test]
fn suggestions_hold_what_was_typed() {
    let mut c = Cache::empty();
    for name in ["Acme", "Beta", "ACME", "Macme", " acme "] {
        c.observe(name, "");
    }
    assert_eq!(c.clients, vec!["Acme", "Beta", "Macme"]);
    assert_eq!(c.rank_clients("aCM"), vec!["Acme", "Macme"]);
    assert!(c.rank_clients("zz").is_empty());
}

#[test]
fn escaped_texts_are_harmless() {
    let x = xml_escape("<a & \"b\">");
    assert_eq!(x, "&lt;a &amp; &quot;b&quot;&gt;");
    assert_eq!(url_escape("a b&\u{e9}~"), "a%20b%26%C3%A9~");
}

#[test]
fn a_started_timer_is_what_is_logged() {
    let mut r = WorkstreamRegistry::loaded(1, Vec::new());
    let mut p = Popup::new(Cache::empty(), Timer { current: None }, "R".to_string(), true);
    let start = Stamp { secs: 600, nanos: 0 };
    assert!(matches!(p.cmd_timer_start(&mut r, " Acme ", "Audit", false, start), Command::Started(_)));
    let now = Stamp { secs: 600 + 47 * 60 + 59, nanos: 0 };
    let e = p.cmd_timer_stop(&mut r, &now, moment(8, 9, 0)).unwrap();
    assert_eq!((e.client.as_str(), e.engagement.as_str(), e.minutes, e.billable), ("Acme", "Audit", 47, false));
    let at_once = p.cmd_timer_stop(&mut r, &start, moment(8, 9, 0)).unwrap();
    assert_eq!(at_once.minutes, 1);
    let late = Stamp { secs: 600 + 13 * 3600, nanos: 0 };
    assert_eq!(p.cmd_timer_stop(&mut r, &late, moment(8, 9, 0)).unwrap().minutes, 720);
}
