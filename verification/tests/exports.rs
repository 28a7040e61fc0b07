use time_tracker::billing::build_rollup;
use time_tracker::billing::client_filter;
use time_tracker::billing::content_type;
use time_tracker::billing::export_csv_text;
use time_tracker::billing::export_name_ok;
use time_tracker::billing::newest_first;
use time_tracker::billing::plan_export;
use time_tracker::billing::trunc;
use time_tracker::csv_file::CsvFile;
use time_tracker::dates::Date;
use time_tracker::entries::entries_in_range;
use time_tracker::entries::LocatedRow;
use time_tracker::entries::MonthFile;
use time_tracker::export_pdf::lay_out;
use time_tracker::exports::make_id;
use time_tracker::exports::rsplit_colon;
use time_tracker::exports::ExportManifest;
use time_tracker::exports::ExportRun;
use time_tracker::exports::ExportTotals;
use time_tracker::exports::RollupLine;
use time_tracker::exports::RunError;
use time_tracker::guard::guard;
use time_tracker::guard::host_ok;
use time_tracker::guard::origin_ok;
use time_tracker::guard::Turned;

fn run_with_ids(ids: &[&str]) -> ExportRun {
    ExportRun {
        run_id: "EXP-20260511-0001".into(),
        created_at: "2026-05-11 09:00:00".into(),
        range: "this_month".into(),
        range_label: "May 2026".into(),
        entry_ids: ids.iter().map(|s| s.to_string()).collect(),
        rollup: Vec::new(),
        totals: ExportTotals { entries: 0, minutes: 0, billable_minutes: 0, clients: 0, engagements: 0 },
        clients: Vec::new(),
        voided: false,
        voided_at: None,
    }
}

#[test]
fn shift_after_delete_decrements_later_rows_in_same_stem() {
    // Locked rows 5 and 7 in 2026-05; delete row 3 -> they become 4 and 6.
    // A row in a different stem and an earlier row are untouched.
    let mut m = ExportManifest {
        runs: vec![run_with_ids(&["2026-05:5", "2026-05:7", "2026-04:5", "2026-05:2"])],
    };
    let changed = m.shift_after_delete("2026-05", 3);
    assert!(changed);
    let ids: Vec<_> = m.runs[0].entry_ids.clone();
    assert_eq!(ids, vec!["2026-05:4", "2026-05:6", "2026-04:5", "2026-05:2"]);
}

#[test]
fn shift_after_delete_noop_when_nothing_later() {
    let mut m = ExportManifest { runs: vec![run_with_ids(&["2026-05:1", "2026-05:2"])] };
    // Delete row 5 (after both locked rows) -> no change.
    assert!(!m.shift_after_delete("2026-05", 5));
    assert_eq!(m.runs[0].entry_ids, vec!["2026-05:1".to_string(), "2026-05:2".to_string()]);
}

#[test]
fn the_id_of_a_deleted_row_is_dropped() {
    let mut m = ExportManifest {
        runs: vec![
            run_with_ids(&["2026-05:3", "2026-05:5"]),
            run_with_ids(&["2026-05:3"]),
            run_with_ids(&["2026-04:3", "2026-05:2"]),
        ],
    };
    m.runs[0].voided = true;
    assert!(m.shift_after_delete("2026-05", 3));
    assert_eq!(m.runs[0].entry_ids, ["2026-05:4"]);
    assert!(m.runs[1].entry_ids.is_empty());
    assert_eq!(m.runs[2].entry_ids, ["2026-04:3", "2026-05:2"]);
    // nothing later, and nothing of that row: no change
    assert!(!m.shift_after_delete("2026-05", 6));
    // only the row's own id: that is a change too
    let mut own = ExportManifest { runs: vec![run_with_ids(&["2026-05:7"])] };
    assert!(own.shift_after_delete("2026-05", 7));
    assert!(own.runs[0].entry_ids.is_empty());
}

#[test]
fn voided_run_releases_its_locks() {
    let mut active = run_with_ids(&["2026-05:1", "2026-05:2"]);
    active.run_id = "EXP-20260511-0001".into();
    let mut aborted = run_with_ids(&["2026-05:3", "2026-05:4"]);
    aborted.run_id = "EXP-20260511-0002".into();
    aborted.voided = true;
    let m = ExportManifest { runs: vec![active, aborted] };
    // the active run still locks its entries...
    assert!(m.locked_ids().contains("2026-05:1"));
    assert_eq!(m.run_id_for_entry("2026-05:2").as_deref(), Some("EXP-20260511-0001"));
    // ...but the voided run's entries are free again.
    assert!(!m.locked_ids().contains("2026-05:3"));
    assert!(!m.locked_ids().contains("2026-05:4"));
    assert_eq!(m.run_id_for_entry("2026-05:3"), None);
}

#[test]
fn localhost_guard_logic_accepts_own_origin_rejects_foreign() {
    assert!(host_ok("localhost:17893"));
    assert!(host_ok("127.0.0.1"));
    assert!(!host_ok("evil.example.com"));
    assert!(origin_ok("http://localhost:17893"));
    assert!(origin_ok("null"));
    assert!(!origin_ok("https://evil.example.com"));
    assert!(!origin_ok("http://localhost:8080"));
}

#[test]
fn requests_from_elsewhere_are_turned_away() {
    let s = |t: &str| Some(t.to_string());
    assert_eq!(guard(&None, &None), Ok(()));
    assert_eq!(guard(&s("[::1]:17893"), &s("null")), Ok(()));
    assert_eq!(guard(&s("[::1]"), &None), Ok(()));
    assert_eq!(guard(&s("evil:80"), &s("https://evil")), Err(Turned::BadHost));
    assert_eq!(guard(&s("localhost"), &s("https://evil")), Err(Turned::CrossOrigin));
    assert_eq!(Turned::BadHost.response(), (403, "bad host"));
    assert_eq!(Turned::CrossOrigin.response(), (403, "cross-origin requests are not allowed"));
}

#[test]
fn ids_split_at_the_last_colon() {
    assert_eq!(make_id("2026-05", 12), "2026-05:12");
    assert_eq!(rsplit_colon("a:b:c"), Some(("a:b".to_string(), "c".to_string())));
    assert_eq!(rsplit_colon("abc"), None);
}

#[test]
fn run_ids_count_up_within_a_day() {
    let today = Date { year: 2026, month: 5, day: 11 };
    let mut m = ExportManifest::empty();
    assert_eq!(m.next_run_id(&today), "EXP-20260511-0001");
    m.runs.push(run_with_ids(&[]));
    assert_eq!(m.next_run_id(&today), "EXP-20260511-0002");
    m.runs[0].run_id = "EXP-20260511-0041".into();
    assert_eq!(m.next_run_id(&today), "EXP-20260511-0042");
    assert_eq!(m.next_run_id(&Date { day: 12, ..today }), "EXP-20260512-0001");
}

#[test]
fn runs_are_unlocked_and_voided() {
    let mut m = ExportManifest { runs: vec![run_with_ids(&["2026-05:1", "2026-05:2"])] };
    assert_eq!(m.unlock_entry("EXP-x", "2026-05:1"), Err(RunError::NoSuchRun));
    assert_eq!(m.unlock_entry("EXP-20260511-0001", "2026-05:9"), Err(RunError::NotInRun));
    assert_eq!(m.unlock_entry("EXP-20260511-0001", "2026-05:1"), Ok(()));
    assert_eq!(m.runs[0].entry_ids, ["2026-05:2"]);
    assert!(!m.locked_ids().contains("2026-05:1"));
    assert_eq!(m.void_run("EXP-x", "now"), Err(RunError::NoSuchRun));
    assert_eq!(m.void_run("EXP-20260511-0001", "now"), Ok(()));
    assert_eq!(m.runs[0].voided_at.as_deref(), Some("now"));
    assert!(!m.locked_ids().contains("2026-05:2"));
    assert_eq!(m.void_run("EXP-20260511-0001", "later"), Err(RunError::AlreadyVoided));
    assert_eq!(RunError::NoSuchRun.response(), (404, "no such export run"));
    assert_eq!(RunError::NotInRun.response(), (404, "that entry is not in this run"));
    assert_eq!(RunError::AlreadyVoided.response(), (409, "this export is already voided"));
}

fn may_rows() -> Vec<LocatedRow> {
    let content = "\u{feff}# time-tracker v0.3\r\nh\r\n\
2026-05-01,R,Beta,Tax,w,30,0.50,true,quick,\r\n\
2026-05-02,R,Acme,Audit,w,20,0.33,true,quick,\r\n\
2026-05-03,R,Acme,Audit,w,25,0.42,false,quick,\r\n\
2026-05-04,R,Acme,Review,w,60,1.00,true,quick,\r\n";
    entries_in_range(
        &vec![MonthFile { stem: "2026-05".to_string(), file: CsvFile::parse(content) }],
        &None,
    )
}

#[test]
fn sums_go_by_client_and_engagement() {
    let (lines, totals) = build_rollup(&may_rows());
    let got: Vec<(String, String, usize, i128, i128)> = lines
        .into_iter()
        .map(|l| (l.client, l.engagement, l.entries, l.minutes, l.billable_minutes))
        .collect();
    assert_eq!(
        got,
        [
            ("Acme".to_string(), "Audit".to_string(), 2, 45, 20),
            ("Acme".to_string(), "Review".to_string(), 1, 60, 60),
            ("Beta".to_string(), "Tax".to_string(), 1, 30, 30),
        ]
    );
    assert_eq!(
        totals,
        ExportTotals { entries: 4, minutes: 135, billable_minutes: 110, clients: 2, engagements: 3 }
    );
}

#[test]
fn an_export_takes_what_is_not_locked() {
    let today = Date { year: 2026, month: 5, day: 11 };
    let mut m = ExportManifest { runs: vec![run_with_ids(&["2026-05:2"])] };
    let run = plan_export(may_rows(), &m, &client_filter(&None), "all", today, "t").ok().unwrap();
    assert_eq!(run.run_id, "EXP-20260511-0002");
    assert_eq!(run.entry_ids, ["2026-05:4", "2026-05:3", "2026-05:1"]);
    assert_eq!(run.clients, ["Acme", "Beta"]);
    assert_eq!(run.range_label, "all recorded time");
    m.runs.push(run);
    let none = plan_export(may_rows(), &m, &client_filter(&None), "all", today, "t").err().unwrap();
    assert_eq!(none.status, 422);
    assert_eq!(none.message, "nothing to export \u{2014} no un-exported entries in that range");
    let filter = client_filter(&Some(vec![" Beta ".to_string(), "  ".to_string()]));
    assert_eq!(filter, ["Beta"]);
    let none = plan_export(may_rows(), &m, &filter, "all", today, "t").err().unwrap();
    assert_eq!(
        none.message,
        "nothing to export \u{2014} no un-exported entries for the selected client(s) in that range"
    );
    m.void_run("EXP-20260511-0002", "now").unwrap();
    let run = plan_export(may_rows(), &m, &filter, "all", today, "t").ok().unwrap();
    assert_eq!(run.entry_ids, ["2026-05:1"]);
}

#[test]
fn an_export_file_has_a_line_for_each_sum() {
    let today = Date { year: 2026, month: 5, day: 11 };
    let m = ExportManifest::empty();
    let run = plan_export(may_rows(), &m, &Vec::new(), "all", today, "t").ok().unwrap();
    assert_eq!(
        export_csv_text(&run),
        "\u{feff}Client,Engagement,Entries,Hours,Billable hours\r\n\
Acme,Audit,2,0.75,0.33\r\n\
Acme,Review,1,1.00,1.00\r\n\
Beta,Tax,1,0.50,0.50\r\n\
TOTAL,,4,2.25,1.83\r\n"
    );
}

#[test]
fn pages_hold_forty_one_lines_and_then_forty_six() {
    let mut run = run_with_ids(&[]);
    for i in 0..88usize {
        run.rollup.push(RollupLine {
            client: format!("Client {i}"),
            engagement: "E".repeat(40),
            entries: i,
            minutes: 90,
            billable_minutes: 0,
        });
    }
    let texts = lay_out(&run);
    // a title of three, column names on three pages, five texts a line, five in the sums
    assert_eq!(texts.len(), 3 + 3 * 5 + 88 * 5 + 5);
    assert_eq!((texts[0].text.as_str(), texts[0].x, texts[0].y, texts[0].size), ("Billing summary", 36, 560, 20));
    assert_eq!(texts[1].text, "May 2026 \u{2014} EXP-20260511-0001");
    assert_eq!(texts[2].text, "Generated 2026-05-11 09:00:00");
    let at = |name: &str| {
        let t = texts.iter().find(|t| t.text == name).unwrap();
        (t.page, t.y)
    };
    assert_eq!(at("Client 0"), (0, 494));
    assert_eq!(at("Client 40"), (0, 54));
    assert_eq!(at("Client 41"), (1, 548));
    assert_eq!(at("Client 86"), (1, 53));
    assert_eq!(at("Client 87"), (2, 548));
    assert_eq!(at("TOTAL"), (2, 531));
    let cut = format!("{}\u{2026}", "E".repeat(33));
    assert!(texts.iter().any(|t| t.text == cut));
    assert!(texts.iter().any(|t| t.text == "1.50"));
    assert!(texts.iter().any(|t| t.text == "0 entries \u{b7} 0 clients \u{b7} 0 engagements"));
}

#[test]
fn long_names_are_cut() {
    assert_eq!(trunc("abc", 3), "abc");
    assert_eq!(trunc("abcd", 3), "ab\u{2026}");
    assert_eq!(trunc("a", 0), "\u{2026}");
}

#[test]
fn only_plain_file_names_are_served() {
    assert!(export_name_ok("EXP-20260511-0001.csv"));
    for bad in ["", "../x", "a..b", "a/b", "a\\b", "a b", "\u{e9}.csv"] {
        assert!(!export_name_ok(bad), "{bad}");
    }
    assert!(export_name_ok(&"a".repeat(128)));
    assert!(!export_name_ok(&"a".repeat(129)));
    assert_eq!(content_type("x.pdf"), "application/pdf");
    assert_eq!(content_type("x.csv"), "text/csv; charset=utf-8");
    assert_eq!(content_type("x.exe"), "application/octet-stream");
}

#[test]
fn runs_are_listed_newest_first() {
    let mut a = run_with_ids(&[]);
    a.created_at = "2026-05-10 09:00:00".into();
    let mut b = run_with_ids(&[]);
    b.created_at = "2026-05-12 09:00:00".into();
    let m = ExportManifest { runs: vec![a, b, run_with_ids(&[])] };
    assert_eq!(newest_first(&m), [1, 2, 0]);
}
