use time_tracker::csv::csv_escape;
use time_tracker::csv::split_csv_line;
use time_tracker::csv_file::csv_data_rows;
use time_tracker::csv_file::HEADER;
use time_tracker::csv_file::VERSION_COMMENT;
use time_tracker::csv_writer::append_entry;
use time_tracker::csv_writer::format_row;
use time_tracker::csv_writer::format_row_legacy;
use time_tracker::csv_writer::monthly_csv_name;
use time_tracker::csv_writer::queue_file_name;
use time_tracker::csv_writer::signed_hours;
use time_tracker::csv_writer::temp_name;
use time_tracker::csv_writer::verify_last_line;
use time_tracker::csv_writer::Entry;
use time_tracker::csv_writer::EntryMethod;
use time_tracker::csv_writer::LocalTime;
use time_tracker::dates::Date;

const UTF8_BOM: [u8; 3] = [0xEF, 0xBB, 0xBF];
const HEADER_V01: &str =
    "timestamp_iso,staff,client,engagement,narrative,minutes,hours_decimal,billable,entry_method\r\n";

fn fake_entry() -> Entry {
    Entry {
        timestamp: LocalTime {
            date: Date { year: 2026, month: 5, day: 8 },
            hour: 15,
            minute: 23,
            second: 11,
            micros: 0,
        },
        staff: "Ryan".to_string(),
        client: "ClientCo".to_string(),
        engagement: "K-1 questions".to_string(),
        narrative: "phone call".to_string(),
        minutes: 18,
        billable: true,
        entry_method: EntryMethod::Quick,
        workstream_id: Some("ws-0123456789abcdef".to_string()),
    }
}

#[test]
fn row_basic_shape() {
    let row = format_row(&fake_entry());
    let s = std::str::from_utf8(&row).unwrap();
    assert!(s.ends_with("\r\n"));
    // 10 columns -> 9 commas (then CRLF).
    let comma_count = s[..s.len() - 2].chars().filter(|c| *c == ',').count();
    assert_eq!(comma_count, 9, "expected 9 commas, got {comma_count} in {s:?}");
    assert!(
        s.contains(",timer,ws-0123456789abcdef\r\n") || s.contains(",quick,ws-0123456789abcdef\r\n"),
        "workstream_id should be the trailing column in {s:?}"
    );
}

#[test]
fn a_row_is_just_this() {
    assert_eq!(
        format_row(&fake_entry()),
        b"2026-05-08,Ryan,ClientCo,K-1 questions,phone call,18,0.30,true,quick,ws-0123456789abcdef\r\n"
    );
    let mut e = fake_entry();
    e.workstream_id = None;
    assert_eq!(
        format_row(&e),
        b"2026-05-08,Ryan,ClientCo,K-1 questions,phone call,18,0.30,true,quick,\r\n"
    );
}

#[test]
fn legacy_row_has_nine_columns_no_workstream_id() {
    let row = format_row_legacy(&fake_entry());
    let s = std::str::from_utf8(&row).unwrap();
    let comma_count = s[..s.len() - 2].chars().filter(|c| *c == ',').count();
    assert_eq!(comma_count, 8, "v0.1 row is 9 columns");
    assert!(!s.contains("ws-0123456789abcdef"), "no workstream_id in legacy row");
}

#[test]
fn row_decimal_rounding_to_two_places() {
    let mut e = fake_entry();
    e.minutes = 18; // 18/60 = 0.3
    let s = String::from_utf8(format_row(&e)).unwrap();
    assert!(s.contains(",18,0.30,"), "expected 0.30 in {s:?}");

    e.minutes = 17; // 17/60 = 0.2833... -> 0.28
    let s = String::from_utf8(format_row(&e)).unwrap();
    assert!(s.contains(",17,0.28,"), "expected 0.28 in {s:?}");

    e.minutes = 90; // 1.5
    let s = String::from_utf8(format_row(&e)).unwrap();
    assert!(s.contains(",90,1.50,"), "expected 1.50 in {s:?}");
}

#[test]
fn hours_are_rounded_like_the_machine_does() {
    for m in -5000i32..100_000 {
        if m != 0 {
            assert_eq!(signed_hours(i128::from(m)), format!("{:.2}", f64::from(m) / 60.0), "{m}");
        }
    }
    assert_eq!(signed_hours(0), "0.00");
}

#[test]
fn row_ends_with_crlf() {
    let row = format_row(&fake_entry());
    assert_eq!(&row[row.len() - 2..], b"\r\n");
}

#[test]
fn row_billable_true_false_strings() {
    let mut e = fake_entry();
    e.billable = true;
    assert!(String::from_utf8_lossy(&format_row(&e)).contains(",true,"));
    e.billable = false;
    assert!(String::from_utf8_lossy(&format_row(&e)).contains(",false,"));
}

#[test]
fn row_entry_method_lowercase() {
    let mut e = fake_entry();
    e.entry_method = EntryMethod::Quick;
    assert!(String::from_utf8_lossy(&format_row(&e)).contains(",quick"));
    e.entry_method = EntryMethod::Timer;
    assert!(String::from_utf8_lossy(&format_row(&e)).contains(",timer"));
}

#[test]
fn csv_escape_no_quoting_for_plain() {
    assert_eq!(csv_escape("hello"), "hello");
    assert_eq!(csv_escape(""), "");
}

#[test]
fn csv_escape_quotes_when_comma() {
    assert_eq!(csv_escape("a, b"), "\"a, b\"");
}

#[test]
fn csv_escape_doubles_quote_inside_quoted() {
    assert_eq!(csv_escape("she said \"hi\""), "\"she said \"\"hi\"\"\"");
}

#[test]
fn csv_escape_quotes_when_newline() {
    assert_eq!(csv_escape("line1\nline2"), "\"line1\nline2\"");
}

#[test]
fn csv_escape_neutralizes_formula_leads() {
    // Spreadsheets run a leading =,+,-,@,tab,CR: it gets a ' prefix.
    assert_eq!(csv_escape("=HYPERLINK(\"x\")"), "\"'=HYPERLINK(\"\"x\"\")\"");
    assert_eq!(csv_escape("=1+1"), "'=1+1");
    assert_eq!(csv_escape("+SUM(A1)"), "'+SUM(A1)");
    assert_eq!(csv_escape("@cmd"), "'@cmd");
    assert_eq!(csv_escape("- bullet point"), "'- bullet point");
    assert_eq!(csv_escape("\tTabLed"), "'\tTabLed");
    // ...but normal text and ordinary leading digits/letters are untouched.
    assert_eq!(csv_escape("Acme Corp"), "Acme Corp");
    assert_eq!(csv_escape("2026-05-09"), "2026-05-09");
    assert_eq!(csv_escape("60"), "60");
    assert_eq!(csv_escape(""), "");
}

#[test]
fn a_guarded_field_is_not_guarded_again() {
    assert_eq!(csv_escape("'=1+1"), "'=1+1");
}

#[test]
fn row_with_formula_client_is_neutralized() {
    let mut e = fake_entry();
    e.client = "=WEBSERVICE(\"http://evil\")".to_string();
    let s = String::from_utf8(format_row(&e)).unwrap();
    assert!(s.contains(",\"'=WEBSERVICE("), "client formula should be quoted + ' prefixed in {s:?}");
}

#[test]
fn row_narrative_with_comma_is_quoted() {
    let mut e = fake_entry();
    e.narrative = "phone re K-1, asked re depreciation".to_string();
    let s = String::from_utf8(format_row(&e)).unwrap();
    assert!(
        s.contains("\"phone re K-1, asked re depreciation\""),
        "expected quoted narrative in {s:?}"
    );
}

#[test]
fn fields_read_back_from_their_line() {
    let fields = ["a", "", "b, c", "she said \"hi\"", "'=1", "\u{20ac}\u{1f600}"];
    let line = fields.iter().map(|f| csv_escape(f)).collect::<Vec<_>>().join(",");
    assert_eq!(split_csv_line(&line), fields);
    assert_eq!(split_csv_line("\u{feff}a,b"), ["a", "b"]);
    assert_eq!(split_csv_line("\"open, quote"), ["open, quote"]);
    assert_eq!(split_csv_line(""), [""]);
}

#[test]
fn append_atomic_writes_bom_banner_header_on_create() {
    let (content, row) = append_entry(None, &fake_entry());
    assert_eq!(&content[..3], &UTF8_BOM, "BOM at file start");
    let banner = format!("{VERSION_COMMENT}\r\n");
    let header = format!("{HEADER}\r\n");
    assert!(content[3..].starts_with(banner.as_bytes()), "version banner after BOM");
    assert!(content[3 + banner.len()..].starts_with(header.as_bytes()), "header after banner");
    assert!(content.ends_with(&row), "row at the end");
    assert_eq!(&row, &format_row(&fake_entry()), "returned row is the ten-column row");
}

#[test]
fn append_atomic_no_duplicate_header_on_existing() {
    let (content, row1) = append_entry(None, &fake_entry());
    let (content, row2) = append_entry(Some(content), &fake_entry());
    let count_of = |needle: &[u8]| {
        let (mut count, mut idx) = (0usize, 0usize);
        while let Some(pos) = content[idx..].windows(needle.len()).position(|w| w == needle) {
            count += 1;
            idx += pos + 1;
        }
        count
    };
    assert_eq!(count_of(HEADER.as_bytes()), 1, "header exactly once");
    assert_eq!(count_of(VERSION_COMMENT.as_bytes()), 1, "version banner exactly once");
    assert!(content.windows(row1.len()).any(|w| w == row1.as_slice()));
    assert!(content.ends_with(&row2));
}

#[test]
fn append_to_existing_v01_file_stays_nine_columns() {
    let mut seed = Vec::new();
    seed.extend_from_slice(&UTF8_BOM);
    seed.extend_from_slice(HEADER_V01.as_bytes());
    let (content, row) = append_entry(Some(seed), &fake_entry());
    assert_eq!(&row, &format_row_legacy(&fake_entry()), "appended a 9-col row to a v0.1 file");
    assert!(
        !content.windows(VERSION_COMMENT.len()).any(|w| w == VERSION_COMMENT.as_bytes()),
        "no banner injected into a v0.1 file"
    );
    assert!(content.ends_with(&row));
}

#[test]
fn verify_last_line_round_trip() {
    let (content, row) = append_entry(None, &fake_entry());
    assert!(verify_last_line(&content, &row));
    let other = b"different,row,bytes\r\n".to_vec();
    assert!(!verify_last_line(&content, &other));
}

#[test]
fn appended_rows_are_data_rows() {
    let mut e = fake_entry();
    e.client = "=evil".to_string();
    let (content, _) = append_entry(None, &e);
    let (content, _) = append_entry(Some(content), &fake_entry());
    let rows = csv_data_rows(std::str::from_utf8(&content).unwrap());
    assert_eq!(rows.len(), 2);
    assert_eq!(rows[0][2], "'=evil");
    assert_eq!(
        rows[1],
        [
            "2026-05-08", "Ryan", "ClientCo", "K-1 questions", "phone call", "18", "0.30", "true",
            "quick", "ws-0123456789abcdef",
        ]
    );
}

#[test]
fn files_are_named_by_their_time() {
    let mut t = fake_entry().timestamp;
    t.micros = 4096;
    assert_eq!(monthly_csv_name(&t), "2026-05.csv");
    assert_eq!(temp_name("2026-05.csv"), ".2026-05.csv.tmp");
    assert_eq!(queue_file_name(&t), "20260508-152311-004096.json");
}
