use time_tracker::datefmt::parse_entry_date;
use time_tracker::datefmt::parse_hm_dur;
use time_tracker::datefmt::MAX_ENTRY_MINUTES;
use time_tracker::dates::date_text;
use time_tracker::dates::month_stem;
use time_tracker::dates::Date;
use time_tracker::logging::expired;
use time_tracker::logging::retention_cutoff;
use time_tracker::ranges::existing_stems;
use time_tracker::ranges::in_window;
use time_tracker::ranges::known_range;
use time_tracker::ranges::range_label;
use time_tracker::ranges::range_window;
use time_tracker::ranges::stems_for_window;

fn day(year: i32, month: u32, day: u32) -> Date {
    Date { year, month, day }
}

#[test]
fn parse_entry_date_accepts_v03_plain_date() {
    let d = parse_entry_date("2026-05-09").unwrap();
    assert_eq!((d.year, d.month, d.day), (2026, 5, 9));
    assert_eq!(parse_entry_date("  2026-12-31 ").unwrap().day, 31);
}

#[test]
fn parse_entry_date_accepts_legacy_iso_timestamp() {
    // The older column-0 form must still read, taking the date part.
    let d = parse_entry_date("2026-05-09T14:03:00-07:00").unwrap();
    assert_eq!((d.year, d.month, d.day), (2026, 5, 9));
    let d = parse_entry_date("2026-01-02T09:00:00.123456-08:00").unwrap();
    assert_eq!((d.year, d.month, d.day), (2026, 1, 2));
}

#[test]
fn a_timestamp_keeps_the_date_that_is_written() {
    for s in ["2026-05-09T23:59:59-12:00", "2026-05-09T00:00:00+14:00", "2026-05-09T12:00:00Z"] {
        assert_eq!(parse_entry_date(s), Some(day(2026, 5, 9)), "{s}");
    }
}

#[test]
fn parse_entry_date_rejects_garbage() {
    assert_eq!(parse_entry_date(""), None);
    assert_eq!(parse_entry_date("not a date"), None);
    assert_eq!(parse_entry_date("2026-13-40"), None);
    assert_eq!(parse_entry_date("05/09/2026"), None);
}

#[test]
fn parse_hm_dur_forms() {
    assert_eq!(parse_hm_dur("1:30"), Some(90));
    assert_eq!(parse_hm_dur("1:5"), Some(65));
    assert_eq!(parse_hm_dur("0:45"), Some(45));
    assert_eq!(parse_hm_dur("90"), Some(90));
    assert_eq!(parse_hm_dur("1.5"), Some(90));
    assert_eq!(parse_hm_dur("1.5h"), Some(90));
    assert_eq!(parse_hm_dur("2h"), Some(120));
    assert_eq!(parse_hm_dur(" 2 H "), Some(120));
    assert_eq!(parse_hm_dur("0"), Some(0));
    assert_eq!(parse_hm_dur("0:00"), Some(0));
}

#[test]
fn parse_hm_dur_rejects_and_clamps() {
    assert_eq!(parse_hm_dur("99:99"), None); // minutes out of range
    assert_eq!(parse_hm_dur("-5"), None);
    assert_eq!(parse_hm_dur("-1:30"), None);
    assert_eq!(parse_hm_dur("bananas"), None);
    assert_eq!(parse_hm_dur("1.5 hrs"), None);
    assert_eq!(parse_hm_dur(""), None);
    assert_eq!(parse_hm_dur("h"), None);
    assert_eq!(parse_hm_dur("100:00"), Some(MAX_ENTRY_MINUTES)); // clamp
    assert_eq!(parse_hm_dur("3000"), Some(MAX_ENTRY_MINUTES));
    assert_eq!(parse_hm_dur("50h"), Some(MAX_ENTRY_MINUTES));
}

#[test]
fn dates_are_written_with_leading_zeros() {
    assert_eq!(date_text(&day(2026, 5, 9)), "2026-05-09");
    assert_eq!(date_text(&day(33, 12, 31)), "0033-12-31");
    assert_eq!(month_stem(&day(2026, 5, 9)), "2026-05");
}

#[test]
fn ranges_end_at_their_days() {
    // 2026-05-13 is a Wednesday.
    let today = day(2026, 5, 13);
    assert_eq!(range_window("today", today), Some((today, today)));
    assert_eq!(range_window("yesterday", today), Some((day(2026, 5, 12), day(2026, 5, 12))));
    assert_eq!(range_window("this_week", today), Some((day(2026, 5, 11), today)));
    assert_eq!(range_window("last_week", today), Some((day(2026, 5, 4), day(2026, 5, 10))));
    assert_eq!(range_window("this_month", today), Some((day(2026, 5, 1), today)));
    assert_eq!(range_window("last_month", today), Some((day(2026, 4, 1), day(2026, 4, 30))));
    assert_eq!(range_window("all", today), None);
    assert_eq!(
        range_window("last_month", day(2024, 3, 31)),
        Some((day(2024, 2, 1), day(2024, 2, 29)))
    );
    assert_eq!(
        range_window("yesterday", day(2026, 1, 1)),
        Some((day(2025, 12, 31), day(2025, 12, 31)))
    );
}

#[test]
fn ranges_reach_back_to_the_first_year() {
    let today = day(-262142, 1, 1);
    let before = day(-262143, 12, 31);
    assert_eq!(range_window("yesterday", today), Some((before, before)));
    assert_eq!(range_window("last_month", today), Some((day(-262143, 12, 1), before)));
    let (from, to) = range_window("last_week", today).unwrap();
    assert_eq!((from.year, from.month, to.year, to.month), (-262143, 12, -262143, 12));
    assert_eq!(to.day, from.day + 6);
}

#[test]
fn weeks_begin_on_monday() {
    // 2026-05-11 is a Monday, 2026-05-17 a Sunday.
    for d in 11..=17 {
        assert_eq!(
            range_window("this_week", day(2026, 5, d)),
            Some((day(2026, 5, 11), day(2026, 5, d)))
        );
    }
}

#[test]
fn ranges_are_put_in_words() {
    let today = day(2026, 5, 13);
    assert_eq!(range_label("today", today), "May 13, 2026");
    assert_eq!(range_label("this_month", today), "May 1 \u{2013} 13, 2026");
    assert_eq!(range_label("this_week", day(2026, 5, 2)), "Apr 27 \u{2013} May 2, 2026");
    assert_eq!(
        range_label("this_week", day(2026, 1, 2)),
        "Dec 29, 2025 \u{2013} Jan 2, 2026"
    );
    assert_eq!(range_label("all", today), "all recorded time");
}

#[test]
fn unknown_ranges_fall_back() {
    assert_eq!(known_range(&None, "today"), "today");
    assert_eq!(known_range(&Some("last_week".into()), "today"), "last_week");
    assert_eq!(known_range(&Some("Last_Week".into()), "this_month"), "this_month");
}

#[test]
fn windows_hold_their_ends() {
    let w = Some((day(2026, 4, 30), day(2026, 5, 2)));
    assert!(!in_window(&day(2026, 4, 29), &w));
    assert!(in_window(&day(2026, 4, 30), &w));
    assert!(in_window(&day(2026, 5, 2), &w));
    assert!(!in_window(&day(2026, 5, 3), &w));
    assert!(in_window(&day(1, 1, 1), &None));
}

#[test]
fn stems_are_those_of_monthly_files() {
    let names: Vec<String> = [
        "2026-05.csv", "2025-12.csv", "notes.txt", ".2026-05.csv.tmp", "2026-1.csv", "2026_05.csv",
        "2026-04.csv", "abcd-ef.csv",
    ]
    .iter()
    .map(|s| s.to_string())
    .collect();
    let all = existing_stems(&names);
    assert_eq!(all, ["2025-12", "2026-04", "2026-05", "abcd-ef"]);
    let w = Some((day(2025, 12, 31), day(2026, 4, 1)));
    assert_eq!(stems_for_window(&all, &w), ["2025-12", "2026-04"]);
    let many: Vec<String> = (1..=14).map(|m| format!("{:04}-{:02}", 2020 + m / 13, 1 + (m - 1) % 12)).collect();
    assert_eq!(stems_for_window(&many, &None), many[2..]);
}

#[test]
fn logs_expire_after_thirty_days() {
    let cutoff = retention_cutoff(day(2026, 3, 1));
    assert_eq!(cutoff, day(2026, 1, 30));
    assert!(expired("time-tracker.2026-01-29", &cutoff));
    assert!(!expired("time-tracker.2026-01-30", &cutoff));
    assert!(!expired("time-tracker.garbage", &cutoff));
    assert!(!expired("other.2020-01-01", &cutoff));
}
