use time_tracker::bulk::bulk_content;
use time_tracker::bulk::dedupe_content;
use time_tracker::bulk::plan_bulk;
use time_tracker::bulk::rows_to_drop;
use time_tracker::bulk::rows_to_flip;
use time_tracker::bulk::shift_after_drops;
use time_tracker::bulk::BulkBillableBody;
use time_tracker::clients::clients_among;
use time_tracker::clients::collect_clients;
use time_tracker::clients::create_client;
use time_tracker::csv_file::recent_entries;
use time_tracker::csv_file::CsvFile;
use time_tracker::csv_file::HEADER;
use time_tracker::csv_writer::RewriteResult;
use time_tracker::dates::Date;
use time_tracker::edits::create_content;
use time_tracker::edits::delete_content;
use time_tracker::edits::delete_precheck;
use time_tracker::edits::half_moved;
use time_tracker::edits::lock_record_failed;
use time_tracker::edits::moved_content;
use time_tracker::edits::patch_content;
use time_tracker::edits::patch_precheck;
use time_tracker::edits::plan_create;
use time_tracker::edits::plan_delete;
use time_tracker::edits::plan_patch;
use time_tracker::edits::rewrite_refusal;
use time_tracker::edits::row_to_move;
use time_tracker::edits::CreateEntryBody;
use time_tracker::entries::entries_in_range;
use time_tracker::entries::entry_at;
use time_tracker::entries::fmt_dur;
use time_tracker::entries::last_entry;
use time_tracker::entries::locate_rows;
use time_tracker::entries::parse_entry_id;
use time_tracker::entries::patch_target_stem;
use time_tracker::entries::MonthFile;
use time_tracker::entries::PatchEntryBody;
use time_tracker::exports::ExportManifest;
use time_tracker::exports::ExportRun;
use time_tracker::exports::ExportTotals;

const MAY: &str = "\u{feff}# time-tracker v0.3\r\n\
date,staff,client,engagement,narrative,minutes,hours_decimal,billable,entry_method,workstream_id\r\n\
2026-05-01,R,Acme,Audit,first,30,0.50,true,quick,ws-1\r\n\
no date,R,Acme,Audit,odd,30,0.50,true,quick,ws-1\r\n\
2026-05-03T09:00:00-07:00,R,Beta,Tax,\"two, three\",x,0.42,FALSE,timer,\r\n\
2026-05-03,R,Acme,Review,last,60,1.00,true,quick,\r\n";

fn bytes(s: &str) -> Option<Vec<u8>> {
    Some(s.as_bytes().to_vec())
}

fn text(b: Vec<u8>) -> String {
    String::from_utf8(b).unwrap()
}

fn locking(ids: &[&str]) -> ExportManifest {
    ExportManifest {
        runs: vec![ExportRun {
            run_id: "EXP-1".into(),
            created_at: "".into(),
            range: "".into(),
            range_label: "".into(),
            entry_ids: ids.iter().map(|s| s.to_string()).collect(),
            rollup: Vec::new(),
            totals: ExportTotals { entries: 0, minutes: 0, billable_minutes: 0, clients: 0, engagements: 0 },
            clients: Vec::new(),
            voided: false,
            voided_at: None,
        }],
    }
}

fn no_patch() -> PatchEntryBody {
    PatchEntryBody {
        date: None,
        dur: None,
        client: None,
        engagement: None,
        narrative: None,
        billable: None,
    }
}

#[test]
fn a_file_is_rendered_as_it_was() {
    assert_eq!(text(CsvFile::parse(MAY).render()), MAY);
    let fresh = CsvFile::fresh_v02();
    assert_eq!(fresh.ncols(), 10);
    assert_eq!(text(fresh.render()), format!("\u{feff}# time-tracker v0.3\r\n{HEADER}\r\n"));
    assert_eq!(CsvFile::parse("a,b\nc,d").ncols(), 9);
    assert_eq!(text(CsvFile::parse("a,b\nc,=d").render()), "\u{feff}a,b\r\nc,'=d\r\n");
}

#[test]
fn rows_are_located_by_their_number() {
    let rows = locate_rows("2026-05", &CsvFile::parse(MAY));
    let got: Vec<(usize, u32, &str, i64, bool)> =
        rows.iter().map(|r| (r.n, r.date.day, r.narrative.as_str(), r.minutes, r.billable)).collect();
    assert_eq!(
        got,
        [(1, 1, "first", 30, true), (3, 3, "two, three", 0, false), (4, 3, "last", 60, true)]
    );
    let file = CsvFile::parse(MAY);
    assert_eq!(last_entry("2026-05", &file).unwrap().n, 4);
    assert_eq!(entry_at("2026-05", &file, 3).unwrap().client, "Beta");
    assert!(entry_at("2026-05", &file, 2).is_none());
}

#[test]
fn entries_are_listed_newest_first() {
    let files = vec![MonthFile { stem: "2026-05".to_string(), file: CsvFile::parse(MAY) }];
    let ids: Vec<String> = entries_in_range(&files, &None).iter().map(|r| r.id()).collect();
    assert_eq!(ids, ["2026-05:4", "2026-05:3", "2026-05:1"]);
    let d = Date { year: 2026, month: 5, day: 1 };
    let ids: Vec<String> = entries_in_range(&files, &Some((d, d))).iter().map(|r| r.id()).collect();
    assert_eq!(ids, ["2026-05:1"]);
    let api = entries_in_range(&files, &None)[0].to_api(&locking(&["2026-05:4"]));
    assert_eq!((api.date.as_str(), api.dur.as_str(), api.locked), ("2026-05-03", "1:00", true));
    assert_eq!(api.run_id.as_deref(), Some("EXP-1"));
}

#[test]
fn ids_give_a_month_and_a_number() {
    assert_eq!(parse_entry_id("2026-05:12"), Some(("2026-05".to_string(), 12)));
    for bad in ["2026-05:0", "2026-05", "2026-5:1", "2026-05:x", "2026-05:-1", ":1", ""] {
        assert_eq!(parse_entry_id(bad), None, "{bad}");
    }
    assert_eq!(fmt_dur(75), "1:15");
    assert_eq!(fmt_dur(5), "0:05");
    assert_eq!(fmt_dur(-5), "0:00");
}

#[test]
fn recent_rows_come_newest_first() {
    let rows = recent_entries(MAY, 2);
    assert_eq!(rows.len(), 2);
    assert_eq!(rows[0].narrative, "last");
    assert_eq!(rows[0].workstream_id, None);
    assert_eq!(rows[1].narrative, "two, three");
    assert_eq!(recent_entries(MAY, 50).len(), 4);
    assert_eq!(recent_entries(MAY, 50)[3].workstream_id.as_deref(), Some("ws-1"));
}

#[test]
fn a_patch_changes_only_its_row() {
    let mut body = no_patch();
    body.dur = Some("1:15".to_string());
    body.narrative = Some("=new".to_string());
    body.billable = Some(false);
    let out = text(patch_content(&bytes(MAY), 1, &body).unwrap());
    assert_eq!(
        out,
        MAY.replace(
            "2026-05-01,R,Acme,Audit,first,30,0.50,true,quick,ws-1",
            "2026-05-01,R,Acme,Audit,'=new,75,1.25,false,quick,ws-1"
        )
    );
    assert_eq!(patch_content(&None, 1, &body), Err("no CSV file for that entry".to_string()));
    assert_eq!(patch_content(&bytes(MAY), 9, &body), Err("no such entry".to_string()));
    body.dur = Some("bananas".to_string());
    assert_eq!(
        patch_content(&bytes(MAY), 1, &body),
        Err("could not parse the duration (try \"1:30\" or \"90\")".to_string())
    );
    body.date = Some("tomorrow".to_string());
    assert_eq!(
        patch_content(&bytes(MAY), 1, &body),
        Err("could not parse the date (want YYYY-MM-DD)".to_string())
    );
}

#[test]
fn a_change_of_month_moves_the_entry() {
    let mut body = no_patch();
    assert_eq!(patch_target_stem("2026-05", &body), Ok(None));
    body.date = Some("2026-05-31".to_string());
    assert_eq!(patch_target_stem("2026-05", &body), Ok(None));
    body.date = Some("2026-06-01".to_string());
    assert_eq!(patch_target_stem("2026-05", &body), Ok(Some("2026-06".to_string())));
    let plan = plan_patch("2026-05:1", &ExportManifest::empty(), &body).ok().unwrap();
    assert_eq!((plan.stem.as_str(), plan.n, plan.dest.as_deref()), ("2026-05", 1, Some("2026-06")));
    let row = row_to_move(&Some(CsvFile::parse(MAY)), 1, &body).ok().unwrap();
    assert_eq!(row[0], "2026-06-01");
    let moved = text(moved_content(&None, &row).unwrap());
    assert_eq!(
        moved,
        format!("\u{feff}# time-tracker v0.3\r\n{HEADER}\r\n2026-06-01,R,Acme,Audit,first,30,0.50,true,quick,ws-1\r\n")
    );
    assert_eq!(row_to_move(&None, 1, &body).err().unwrap().status, 404);
    assert_eq!(row_to_move(&Some(CsvFile::parse(MAY)), 9, &body).err().unwrap().message, "no such entry");
    let half = half_moved("2026-05", "2026-06", &RewriteResult::Locked("locked".to_string()));
    assert_eq!(half.status, 500);
    assert!(half.message.starts_with("the entry was copied into 2026-06, but couldn't be removed from 2026-05"));
}

#[test]
fn locked_entries_are_refused() {
    let m = locking(&["2026-05:1"]);
    let words = "this entry is locked \u{2014} it's included in a completed export. Unlock it first.";
    let f = plan_patch("2026-05:1", &m, &no_patch()).err().unwrap();
    assert_eq!((f.status, f.message.as_str()), (409, words));
    let f = plan_delete("2026-05:1", &m).err().unwrap();
    assert_eq!((f.status, f.message.as_str()), (409, words));
    assert_eq!(plan_delete("2026-05:2", &m).ok().unwrap(), ("2026-05".to_string(), 2));
    assert_eq!(plan_delete("x", &m).err().unwrap().message, "bad entry id");
    let mut body = no_patch();
    body.date = Some("x".to_string());
    assert_eq!(plan_patch("2026-05:2", &m, &body).err().unwrap().status, 422);
    assert_eq!(plan_patch("bad", &m, &body).err().unwrap().status, 400);
}

#[test]
fn requests_for_missing_rows_are_refused() {
    let file = CsvFile::parse(MAY);
    assert_eq!(patch_precheck(&file, 9, &no_patch()).unwrap().status, 404);
    assert!(patch_precheck(&file, 4, &no_patch()).is_none());
    assert_eq!(delete_precheck(&file, 9).unwrap().message, "no such entry");
    assert!(delete_precheck(&file, 4).is_none());
    let mut body = no_patch();
    body.dur = Some("?".to_string());
    assert_eq!(patch_precheck(&file, 4, &body).unwrap().status, 422);
    assert_eq!(rewrite_refusal(&RewriteResult::Locked("l".into())).status, 503);
    assert_eq!(rewrite_refusal(&RewriteResult::Error("e".into())).status, 500);
    for missing in ["no such entry", "no CSV file for that entry"] {
        let f = rewrite_refusal(&RewriteResult::Error(missing.into()));
        assert_eq!((f.status, f.message.as_str()), (404, missing));
    }
    let month = "no CSV file for that month";
    assert_eq!(rewrite_refusal(&RewriteResult::Error(month.into())).status, 500);
    assert_eq!(
        lock_record_failed("disk").message,
        "entry deleted, but updating the export lock record failed: disk"
    );
}

#[test]
fn deleting_takes_one_row_out() {
    let out = text(delete_content(&bytes(MAY), 2).unwrap());
    assert_eq!(out, MAY.replace("no date,R,Acme,Audit,odd,30,0.50,true,quick,ws-1\r\n", ""));
    assert_eq!(delete_content(&bytes(MAY), 5), Err("no such entry".to_string()));
    assert_eq!(delete_content(&None, 1), Err("no CSV file for that entry".to_string()));
}

#[test]
fn new_entries_are_checked() {
    let body = |date: &str, dur: &str, client: &str, engagement: &str| CreateEntryBody {
        date: date.to_string(),
        dur: dur.to_string(),
        client: client.to_string(),
        engagement: engagement.to_string(),
        narrative: " n ".to_string(),
        billable: true,
    };
    let refused = |b: &CreateEntryBody| plan_create(b).err().unwrap().message;
    assert_eq!(refused(&body("x", "90", "A", "E")), "bad date (want YYYY-MM-DD)");
    assert_eq!(
        refused(&body("2026-05-01", "x", "A", "E")),
        "could not parse the duration (try \"1:30\" or \"90\")"
    );
    assert_eq!(refused(&body("2026-05-01", "0", "A", "E")), "duration must be greater than zero");
    assert_eq!(refused(&body("2026-05-01", "90", " ", "E")), "client and engagement are required");
    assert_eq!(refused(&body("2026-05-01", "90", "A", " ")), "client and engagement are required");
    let e = plan_create(&body(" 2026-05-01 ", "1.5", " A ", " E ")).ok().unwrap();
    assert_eq!((e.minutes, e.client.as_str(), e.engagement.as_str()), (90, "A", "E"));
    let out = text(create_content(&None, &e, "R").unwrap());
    assert!(out.starts_with("\u{feff}# time-tracker v0.3\r\n"));
    assert!(out.ends_with("\r\n2026-05-01,R,A,E, n ,90,1.50,true,quick,\r\n"), "{out}");
    let legacy = text(create_content(&bytes("h\r\n"), &e, "R").unwrap());
    assert_eq!(legacy, "\u{feff}h\r\n2026-05-01,R,A,E, n ,90,1.50,true,quick\r\n");
}

#[test]
fn flags_are_flipped_in_bulk() {
    let ask = plan_bulk(&BulkBillableBody {
        client: " Acme ".to_string(),
        engagement: Some(" ".to_string()),
        billable: false,
        range: None,
    })
    .ok()
    .unwrap();
    assert_eq!((ask.client.as_str(), ask.engagement.is_none(), ask.range.as_str()), ("Acme", true, "all"));
    let file = CsvFile::parse(MAY);
    let locked = locking(&["2026-05:1"]);
    let (flips, skipped) = rows_to_flip("2026-05", &file, &ask, &None, &locked.locked_ids());
    assert_eq!((flips.clone(), skipped), (vec![2, 4], 1));
    let out = text(bulk_content(&bytes(MAY), &flips, false).unwrap());
    assert_eq!(
        out,
        MAY.replace("last,60,1.00,true", "last,60,1.00,false").replace("odd,30,0.50,true", "odd,30,0.50,false")
    );
    assert_eq!(bulk_content(&None, &flips, false), Err("no CSV file for that month".to_string()));
    let none = plan_bulk(&BulkBillableBody {
        client: " ".to_string(),
        engagement: None,
        billable: true,
        range: None,
    });
    let none = none.err().unwrap();
    assert_eq!((none.status, none.message.as_str()), (422, "client is required"));
}

#[test]
fn repeated_work_is_dropped_but_once() {
    let row = "2026-05-01,R,Acme,Audit,x,30,0.50,true,quick,\r\n";
    let content = format!("h\r\n{row}{row}2026-05-02,R,Acme,Audit,x,30,0.50,true,quick,\r\n{row}");
    let file = CsvFile::parse(&content);
    let drop = rows_to_drop("2026-05", &file, &ExportManifest::empty().locked_ids());
    assert_eq!(drop.len(), 2);
    let out = text(dedupe_content(&bytes(&content), &drop).unwrap());
    assert_eq!(out.matches("2026-05-01").count(), 1);
    assert_eq!(out.matches("2026-05-02").count(), 1);
    assert_eq!(
        dedupe_content(&None, &drop),
        Err("the month's CSV vanished mid-dedupe".to_string())
    );
    // work that is locked once is left alone, and locks follow their rows
    let m = locking(&["2026-05:2"]);
    assert!(rows_to_drop("2026-05", &file, &m.locked_ids()).is_empty());
    let mut m = locking(&["2026-05:3", "2026-04:3"]);
    let drop = rows_to_drop("2026-05", &file, &m.locked_ids());
    assert_eq!(drop, [0, 1]);
    assert!(shift_after_drops(&mut m, "2026-05", &drop));
    assert_eq!(m.runs[0].entry_ids, ["2026-05:1", "2026-04:3"]);
    // the ids of the dropped rows go, in a voided run too
    let mut m = locking(&["2026-05:1", "2026-05:2", "2026-05:4", "2026-04:1"]);
    m.runs[0].voided = true;
    assert!(shift_after_drops(&mut m, "2026-05", &vec![0, 1]));
    assert_eq!(m.runs[0].entry_ids, ["2026-05:2", "2026-04:1"]);
    assert!(!shift_after_drops(&mut m, "2026-05", &Vec::new()));
    assert!(!shift_after_drops(&mut m, "2026-03", &vec![0]));
}

#[test]
fn clients_are_collected_with_their_last_day() {
    let files = vec![MonthFile { stem: "2026-05".to_string(), file: CsvFile::parse(MAY) }];
    let items = collect_clients(&files, &vec!["zeta".to_string(), " alpha ".to_string(), "Acme".to_string(), " ".to_string()]);
    let got: Vec<(&str, &str)> = items.iter().map(|c| (c.name.as_str(), c.hint.as_str())).collect();
    assert_eq!(got, [("Acme", "May 3"), ("alpha", ""), ("Beta", "May 3"), ("zeta", "")]);
    assert!(clients_among(&Vec::new(), &Vec::new()).is_empty());
}

#[test]
fn clients_are_added_by_name_once() {
    let mut list = vec!["beta".to_string()];
    assert_eq!(create_client(&mut list, " Alpha ").ok(), Some(true));
    assert_eq!(create_client(&mut list, "BETA").ok(), Some(false));
    assert_eq!(list, ["Alpha", "beta"]);
    let f = create_client(&mut list, " ").err().unwrap();
    assert_eq!((f.status, f.message.as_str()), (422, "name is required"));
}
