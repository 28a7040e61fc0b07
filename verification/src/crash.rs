//! Crash reports: their names and contents, how one is brought to the user, and the
//! check of the log folder on a first launch.

use crate::csv_writer::LocalTime;
use crate::dates;
use crate::dates::Stamp;
use crate::text;
use vstd::prelude::*;
use vstd::utf8::encode_utf8;

verus! {

/// The name of a crash report.
pub open spec fn is_report_name(name: Seq<char>) -> bool {
    text::has_prefix(name, "panic-"@) && text::has_suffix(name, ".log"@)
}

/// The name is that of a crash report.
pub fn report_name_ok(name: &str) -> (r: bool)
    ensures
        r == is_report_name(name@),
{
    text::text_starts_with(name, "panic-") && text::text_ends_with(name, ".log")
}

/// The name of the report of a crash at some moment.
pub open spec fn report_name(t: LocalTime) -> Seq<char> {
    "panic-"@ + dates::year_text(t.date.year as int) + text::dec_padded(t.date.month as nat, 2)
        + text::dec_padded(t.date.day as nat, 2) + seq!['-'] + text::dec_padded(t.hour as nat, 2)
        + text::dec_padded(t.minute as nat, 2) + text::dec_padded(t.second as nat, 2) + ".log"@
}

/// The name of the report of a crash at some moment.
pub fn report_file_name(t: &LocalTime) -> (r: String)
    ensures
        r@ == report_name(*t),
{
    let mut out = text::copy("panic-");
    let year: i32 = t.date.year;
    if 0 <= year && year <= 9999 {
        text::push_padded(&mut out, year as u64, 4);
    } else if year > 9999 {
        out.push('+');
        text::push_padded(&mut out, year as u64, 4);
    } else {
        out.push('-');
        text::push_padded(&mut out, (-(year as i64)) as u64, 4);
    }
    text::push_padded(&mut out, t.date.month as u64, 2);
    text::push_padded(&mut out, t.date.day as u64, 2);
    out.push('-');
    text::push_padded(&mut out, t.hour as u64, 2);
    text::push_padded(&mut out, t.minute as u64, 2);
    text::push_padded(&mut out, t.second as u64, 2);
    text::push_text(&mut out, ".log");
    assert(out@ =~= report_name(*t));
    out
}

/// The content of a report.
pub fn report_text(timestamp: &str, version: &str, platform: &str, info: &str, backtrace: &str) -> (r:
    String)
    ensures
        r@ == "Time Tracker panic\n===========================\ntimestamp:  "@ + timestamp@
            + "\nversion:    "@ + version@ + "\nplatform:   "@ + platform@ + "\n\npanic info:\n"@
            + info@ + "\n\nbacktrace:\n"@ + backtrace@ + "\n"@,
{
    let mut out = text::copy("Time Tracker panic\n===========================\ntimestamp:  ");
    text::push_text(&mut out, timestamp);
    text::push_text(&mut out, "\nversion:    ");
    text::push_text(&mut out, version);
    text::push_text(&mut out, "\nplatform:   ");
    text::push_text(&mut out, platform);
    text::push_text(&mut out, "\n\npanic info:\n");
    text::push_text(&mut out, info);
    text::push_text(&mut out, "\n\nbacktrace:\n");
    text::push_text(&mut out, backtrace);
    text::push_text(&mut out, "\n");
    out
}

/// A file in the folder of reports, and when it was last written if that is known.
pub struct Candidate {
    pub name: String,
    pub modified: Option<Stamp>,
}

/// Not known is before everything.
pub open spec fn no_later(a: Option<Stamp>, b: Option<Stamp>) -> bool {
    match (a, b) {
        (None, _) => true,
        (Some(_), None) => false,
        (Some(x), Some(y)) => x.not_after(y),
    }
}

/// The latest report; of those written at once, the last in the list.
pub open spec fn latest(files: Seq<Candidate>) -> Option<int>
    decreases files.len(),
{
    if files.len() == 0 {
        None
    } else {
        let init = latest(files.drop_last());
        let f = files.last();
        if !is_report_name(f.name@) {
            init
        } else {
            match init {
                Some(i) => if no_later(files[i].modified, f.modified) {
                    Some(files.len() - 1)
                } else {
                    Some(i)
                },
                None => Some(files.len() - 1),
            }
        }
    }
}

fn not_later(a: &Option<Stamp>, b: &Option<Stamp>) -> (r: bool)
    ensures
        r == no_later(*a, *b),
{
    match (a, b) {
        (None, _) => true,
        (Some(_), None) => false,
        (Some(x), Some(y)) => x.le(y),
    }
}

/// The place of the latest report among some files.
pub fn find_recent_crash(files: &Vec<Candidate>) -> (r: Option<usize>)
    ensures
        match r {
            Some(i) => latest(files@) == Some(i as int) && i < files@.len() && is_report_name(
                files@[i as int].name@,
            ),
            None => latest(files@) is None,
        },
{
    let mut best: Option<usize> = None;
    let mut i: usize = 0;
    while i < files.len()
        invariant
            i <= files@.len(),
            match best {
                Some(b) => latest(files@.take(i as int)) == Some(b as int) && b < i
                    && is_report_name(files@[b as int].name@),
                None => latest(files@.take(i as int)) is None,
            },
        decreases files@.len() - i,
    {
        assert(files@.take(i + 1).drop_last() =~= files@.take(i as int));
        assert(files@.take(i + 1).last() == files@[i as int]);
        if report_name_ok(files[i].name.as_str()) {
            match best {
                Some(b) => {
                    assert(files@.take(i + 1)[b as int] == files@[b as int]);
                    if not_later(&files[b].modified, &files[i].modified) {
                        best = Some(i);
                    }
                },
                None => {
                    best = Some(i);
                },
            }
        }
        i += 1;
    }
    assert(files@.take(files@.len() as int) =~= files@);
    best
}

// ---- telling the user -----------------------------------------------------

pub open spec fn is_unreserved(b: u8) -> bool {
    (0x41 <= b <= 0x5a) || (0x61 <= b <= 0x7a) || (0x30 <= b <= 0x39) || b == 0x2d || b == 0x5f || b
        == 0x2e || b == 0x7e
}

pub open spec fn hex_upper(n: nat) -> char {
    if n < 10 {
        (n + 48) as char
    } else {
        (n + 55) as char
    }
}

/// A byte in a query: as it is, or by its number.
pub open spec fn url_byte(b: u8) -> Seq<char> {
    if is_unreserved(b) {
        seq![b as char]
    } else {
        seq!['%', hex_upper((b / 16) as nat), hex_upper((b % 16) as nat)]
    }
}

pub open spec fn url_bytes(bytes: Seq<u8>) -> Seq<char>
    decreases bytes.len(),
{
    if bytes.len() == 0 {
        Seq::empty()
    } else {
        url_bytes(bytes.drop_last()) + url_byte(bytes.last())
    }
}

fn hex_digit(n: u8) -> (c: char)
    requires
        n < 16,
    ensures
        c == hex_upper(n as nat),
{
    if n < 10 {
        (n + 48) as char
    } else {
        (n + 55) as char
    }
}

/// A text in the query of a link: letters, digits and four marks as they are, every
/// other byte by its number.
pub fn url_escape(s: &str) -> (r: String)
    ensures
        r@ == url_bytes(encode_utf8(s@)),
{
    let bytes = s.as_bytes_vec();
    let mut out = String::new();
    let mut i: usize = 0;
    while i < bytes.len()
        invariant
            i <= bytes@.len(),
            out@ == url_bytes(bytes@.take(i as int)),
        decreases bytes@.len() - i,
    {
        let b: u8 = bytes[i];
        let ghost before = out@;
        assert(bytes@.take(i + 1).drop_last() =~= bytes@.take(i as int));
        assert(bytes@.take(i + 1).last() == b);
        if (0x41 <= b && b <= 0x5a) || (0x61 <= b && b <= 0x7a) || (0x30 <= b && b <= 0x39) || b
            == 0x2d || b == 0x5f || b == 0x2e || b == 0x7e {
            out.push(b as char);
        } else {
            out.push('%');
            out.push(hex_digit(b / 16));
            out.push(hex_digit(b % 16));
        }
        assert(out@ =~= before + url_byte(b));
        i += 1;
    }
    assert(bytes@.take(bytes@.len() as int) =~= bytes@);
    out
}

/// What is shown of a crash: a question, the mail that a yes opens, and the name
/// that the report gets so that it is not asked about again.
pub struct CrashNotice {
    pub title: String,
    pub text: String,
    pub mailto: String,
    pub seen_name: String,
}

pub open spec fn mail_body(path: Seq<char>) -> Seq<char> {
    "Time Tracker crashed in the previous session.\\n\\nPlease attach this file:\\n"@ + path
        + "\\n\\n(No data was uploaded automatically.)"@
}

pub open spec fn is_notice(n: CrashNotice, path: Seq<char>, name: Seq<char>) -> bool {
    &&& n.title@ == "Time Tracker \u{2014} crash recovered"@
    &&& n.text@
        == "Time Tracker closed unexpectedly during the previous session.\n\nA diagnostic was saved to:\n"@
        + path
        + "\n\nSend it to the developer? (Yes opens a pre-filled email \u{2014} attach the file above. No just dismisses; nothing is uploaded either way.)"@
    &&& n.mailto@ == "mailto:?subject="@ + url_bytes(encode_utf8("Time Tracker crash report"@))
        + "&body="@ + url_bytes(encode_utf8(mail_body(path)))
    &&& n.seen_name@ == name + ".seen"@
}

/// What is shown of the latest crash report: its path, and its file name where it
/// has a readable one. Nothing without a report.
pub fn surface_recent_crash(found: &Option<(String, Option<String>)>) -> (r: Option<CrashNotice>)
    ensures
        match *found {
            None => r is None,
            Some((path, name)) => r matches Some(n) && is_notice(
                n,
                path@,
                match name {
                    Some(s) => s@,
                    None => "panic.log"@,
                },
            ),
        },
{
    match found {
        None => None,
        Some((path, name)) => {
            let mut body = text::copy(
                "Time Tracker crashed in the previous session.\\n\\nPlease attach this file:\\n",
            );
            text::push_text(&mut body, path.as_str());
            text::push_text(&mut body, "\\n\\n(No data was uploaded automatically.)");
            let mut mailto = text::copy("mailto:?subject=");
            let subject = url_escape("Time Tracker crash report");
            text::push_text(&mut mailto, subject.as_str());
            text::push_text(&mut mailto, "&body=");
            let escaped = url_escape(body.as_str());
            text::push_text(&mut mailto, escaped.as_str());
            let mut message = text::copy(
                "Time Tracker closed unexpectedly during the previous session.\n\nA diagnostic was saved to:\n",
            );
            text::push_text(&mut message, path.as_str());
            text::push_text(
                &mut message,
                "\n\nSend it to the developer? (Yes opens a pre-filled email \u{2014} attach the file above. No just dismisses; nothing is uploaded either way.)",
            );
            let mut seen_name = match name {
                Some(s) => s.clone(),
                None => text::copy("panic.log"),
            };
            text::push_text(&mut seen_name, ".seen");
            Some(
                CrashNotice {
                    title: text::copy("Time Tracker \u{2014} crash recovered"),
                    text: message,
                    mailto,
                    seen_name,
                },
            )
        },
    }
}

// ---- the first launch -----------------------------------------------------

/// The row that is written to the log folder and read again.
pub open spec fn probe_text() -> Seq<char> {
    "timestamp_iso,staff,client\r\n2026-01-01T00:00:00-00:00,self-test,probe\r\n"@
}

/// The row that is written to the log folder and read again.
pub fn probe_payload() -> (r: Vec<u8>)
    ensures
        r@ == encode_utf8(probe_text()),
{
    "timestamp_iso,staff,client\r\n2026-01-01T00:00:00-00:00,self-test,probe\r\n".as_bytes_vec()
}

fn same_bytes(a: &Vec<u8>, b: &Vec<u8>) -> (r: bool)
    ensures
        r == (a@ == b@),
{
    if a.len() != b.len() {
        return false;
    }
    let mut i: usize = 0;
    while i < a.len()
        invariant
            a@.len() == b@.len(),
            i <= a@.len(),
            forall|k: int| 0 <= k < i ==> a@[k] == b@[k],
        decreases a@.len() - i,
    {
        if a[i] != b[i] {
            return false;
        }
        i += 1;
    }
    assert(a@ =~= b@);
    true
}

pub open spec fn probe_passed(dir: Seq<char>) -> Seq<char> {
    "Setup check passed: the time-log folder is writable.\n\n"@ + dir
}

pub open spec fn probe_failed(dir: Seq<char>, detail: Seq<char>) -> Seq<char> {
    "Setup check FAILED: couldn't write to the time-log folder.\n\n"@ + dir + "\n\n"@ + detail
        + "\n\nEntries will queue to disk until this is fixed \u{2014} check the folder's permissions."@
}

/// What the check says after the row was read again, or could not be: passed, or
/// why not.
pub fn first_launch_self_test(read_back: &Result<Vec<u8>, String>, dir: &str) -> (r: String)
    ensures
        r@ == match *read_back {
            Ok(b) => if b@ == encode_utf8(probe_text()) {
                probe_passed(dir@)
            } else {
                probe_failed(dir@, "the file was written but read back wrong"@)
            },
            Err(e) => probe_failed(dir@, e@),
        },
{
    let detail: String = match read_back {
        Ok(b) => {
            let want = probe_payload();
            if same_bytes(b, &want) {
                let mut out = text::copy("Setup check passed: the time-log folder is writable.\n\n");
                text::push_text(&mut out, dir);
                return out;
            }
            text::copy("the file was written but read back wrong")
        },
        Err(e) => e.clone(),
    };
    let mut out = text::copy("Setup check FAILED: couldn't write to the time-log folder.\n\n");
    text::push_text(&mut out, dir);
    text::push_text(&mut out, "\n\n");
    text::push_text(&mut out, detail.as_str());
    text::push_text(
        &mut out,
        "\n\nEntries will queue to disk until this is fixed \u{2014} check the folder's permissions.",
    );
    out
}

// ---- laws -----------------------------------------------------------------

/// A character that may stand in the query of a link.
pub open spec fn is_query_char(c: char) -> bool {
    text::is_digit(c) || text::is_upper(c) || text::is_lower(c) || c == '-' || c == '_' || c == '.'
        || c == '~' || c == '%'
}

/// A text in the query of a link holds only characters that may stand there.
pub proof fn escaped_queries_are_plain(bytes: Seq<u8>, k: int)
    requires
        0 <= k < url_bytes(bytes).len(),
    ensures
        is_query_char(url_bytes(bytes)[k]),
    decreases bytes.len(),
{
    let a = url_bytes(bytes.drop_last());
    let b = url_byte(bytes.last());
    if k < a.len() {
        escaped_queries_are_plain(bytes.drop_last(), k);
        assert(url_bytes(bytes)[k] == a[k]);
    } else {
        assert(url_bytes(bytes)[k] == b[k - a.len()]);
    }
}

/// The last report is one that was not changed before any other; of several such it is
/// the one listed last. It is found wherever there is a report.
pub proof fn the_last_report_is_found(files: Seq<Candidate>)
    ensures
        match latest(files) {
            Some(i) => {
                &&& 0 <= i < files.len()
                &&& is_report_name(files[i].name@)
                &&& forall|j: int|
                    0 <= j < files.len() && is_report_name((#[trigger] files[j]).name@) ==> no_later(
                        files[j].modified,
                        files[i].modified,
                    ) && (j > i ==> !no_later(files[i].modified, files[j].modified))
            },
            None => forall|j: int|
                0 <= j < files.len() ==> !is_report_name((#[trigger] files[j]).name@),
        },
    decreases files.len(),
{
    if files.len() > 0 {
        let init = files.drop_last();
        let last = files.len() - 1;
        the_last_report_is_found(init);
        assert(forall|j: int| 0 <= j < last ==> files[j] == #[trigger] init[j]);
        match latest(files) {
            Some(i) => {
                assert forall|j: int|
                    0 <= j < files.len() && is_report_name(
                        (#[trigger] files[j]).name@,
                    ) implies no_later(files[j].modified, files[i].modified) && (j > i ==> !no_later(
                    files[i].modified,
                    files[j].modified,
                )) by {
                    if j < last {
                        assert(init[j] == files[j]);
                        if i < last {
                            assert(init[i] == files[i]);
                        } else if latest(init) is Some {
                            let k = latest(init)->0;
                            assert(init[k] == files[k]);
                        }
                    }
                }
            },
            None => {
                assert forall|j: int| 0 <= j < files.len() implies !is_report_name(
                    (#[trigger] files[j]).name@,
                ) by {
                    if j < last {
                        assert(init[j] == files[j]);
                    }
                }
            },
        }
    }
}

/// A time that is not known is before any that is known, and known times are in the
/// order of their seconds, then of what is below them.
pub proof fn unknown_times_come_first(a: Option<Stamp>, b: Option<Stamp>)
    ensures
        no_later(None, b),
        a is Some ==> !no_later(a, None),
        match (a, b) {
            (Some(x), Some(y)) => no_later(a, b) == (x.secs < y.secs || x.secs == y.secs && x.nanos
                <= y.nanos),
            _ => true,
        },
{
}

/// A report is a file whose name begins with `panic-` and ends in `.log`; what is
/// written as one is found again.
pub proof fn reports_are_found_by_their_names(name: Seq<char>, t: LocalTime)
    ensures
        is_report_name(name) == (name.len() >= 6 && name.take(6) == seq![
            'p',
            'a',
            'n',
            'i',
            'c',
            '-',
        ] && name.skip(name.len() - 4) == seq!['.', 'l', 'o', 'g']),
        is_report_name(report_name(t)),
{
    reveal_strlit("panic-");
    reveal_strlit(".log");
    let head = seq!['p', 'a', 'n', 'i', 'c', '-'];
    let tail = seq!['.', 'l', 'o', 'g'];
    assert("panic-"@ =~= head);
    assert(".log"@ =~= tail);
    let n = report_name(t);
    assert(n.take(6) =~= head);
    assert(n.skip(n.len() - 4) =~= tail);
}

/// A text is escaped byte by byte: letters, digits and four marks stand for themselves,
/// and any other byte is a per cent sign and its two digits in sixteens.
pub proof fn bytes_are_escaped_one_by_one(bytes: Seq<u8>, b: u8)
    ensures
        ({
            let c = b as char;
            let plain = 'A' <= c <= 'Z' || 'a' <= c <= 'z' || '0' <= c <= '9' || c == '-' || c == '_'
                || c == '.' || c == '~';
            let digit = |n: int| (if n < 10 {
                n + 48
            } else {
                n + 55
            }) as char;
            &&& url_bytes(Seq::empty()) == Seq::<char>::empty()
            &&& plain ==> url_bytes(bytes.push(b)) == url_bytes(bytes) + seq![c]
            &&& !plain ==> url_bytes(bytes.push(b)) == url_bytes(bytes) + seq![
                '%',
                digit(b as int / 16),
                digit(b as int % 16),
            ]
        }),
{
    assert(bytes.push(b).drop_last() =~= bytes);
}

/// A notice of a crash tells where the report is, its letter names that place too, and
/// the report is then marked as seen by its name.
pub proof fn notices_tell_where_the_report_is(n: CrashNotice, path: Seq<char>, name: Seq<char>)
    requires
        is_notice(n, path, name),
    ensures
        n.seen_name@ == name + seq!['.', 's', 'e', 'e', 'n'],
        exists|a: Seq<char>, b: Seq<char>| n.text@ == #[trigger] (a + path + b),
        exists|a: Seq<char>, b: Seq<char>|
            mail_body(path) == #[trigger] (a + path + b) && n.mailto@ == "mailto:?subject="@
                + url_bytes(encode_utf8("Time Tracker crash report"@)) + "&body="@ + url_bytes(
                encode_utf8(a + path + b),
            ),
{
    reveal_strlit(".seen");
    assert(".seen"@ =~= seq!['.', 's', 'e', 'e', 'n']);
}

} // verus!
