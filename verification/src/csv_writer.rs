//! One entry of the log: its row, what appending it makes of the monthly file,
//! and what to do when the file is locked.

use crate::csv;
use crate::csv_file;
use crate::dates;
use crate::dates::Date;
use crate::sorting;
use crate::text;
use vstd::prelude::*;
use vstd::utf8::encode_utf8;

verus! {

/// How an entry came to be.
#[derive(Debug, Clone, Copy, PartialEq, Eq, Structural)]
pub enum EntryMethod {
    Quick,
    Timer,
}

/// A moment on the local clock.
#[derive(Debug, Clone, Copy, PartialEq, Eq, Structural)]
pub struct LocalTime {
    pub date: Date,
    pub hour: u32,
    pub minute: u32,
    pub second: u32,
    pub micros: u32,
}

/// Work done: on a date, for a client, so many minutes.
#[derive(Debug, Clone)]
pub struct Entry {
    pub timestamp: LocalTime,
    pub staff: String,
    pub client: String,
    pub engagement: String,
    pub narrative: String,
    pub minutes: u32,
    pub billable: bool,
    pub entry_method: EntryMethod,
    /// The workstream that the entry belongs to, where it is known.
    pub workstream_id: Option<String>,
}

/// What became of a write.
#[derive(Debug, Clone)]
pub enum WriteResult {
    /// Wrote successfully, and the row was seen at the end of the file.
    Written,
    /// The file stayed locked; the entry is queued on disk and drains later.
    Queued,
    /// The entry is neither written nor queued.
    Error(String),
}

/// What became of a rewrite of a whole file.
#[derive(Debug, Clone)]
pub enum RewriteResult {
    /// The new content is in place.
    Written,
    /// The file stayed locked past the retry window.
    Locked(String),
    /// The change was refused, or the file cannot be read or written.
    Error(String),
}

// ---- rows -----------------------------------------------------------------

pub open spec fn method_text(m: EntryMethod) -> Seq<char> {
    match m {
        EntryMethod::Quick => "quick"@,
        EntryMethod::Timer => "timer"@,
    }
}

/// Minutes as hours with two decimals, rounded to the nearest.
pub open spec fn hours_text(minutes: nat) -> Seq<char> {
    text::dec(minutes / 60) + seq!['.'] + text::low_digits(((minutes % 60) * 10 + 3) / 6, 2)
}

/// Minutes as hours with two decimals, with a sign below zero.
pub open spec fn signed_hours_text(minutes: int) -> Seq<char> {
    if minutes < 0 {
        seq!['-'] + hours_text((-minutes) as nat)
    } else {
        hours_text(minutes as nat)
    }
}

/// The nine columns that every row has.
pub open spec fn nine_columns(e: Entry) -> Seq<char> {
    let comma = seq![','];
    e.timestamp.date.text() + comma + csv::escaped(e.staff@) + comma + csv::escaped(e.client@)
        + comma + csv::escaped(e.engagement@) + comma + csv::escaped(e.narrative@) + comma
        + text::dec(e.minutes as nat) + comma + hours_text(e.minutes as nat) + comma
        + text::bool_text(e.billable) + comma + method_text(e.entry_method)
}

pub open spec fn line_end() -> Seq<char> {
    seq!['\r', '\n']
}

/// The row of a file without a workstream column.
pub open spec fn legacy_row(e: Entry) -> Seq<char> {
    nine_columns(e) + line_end()
}

pub open spec fn workstream_text(e: Entry) -> Seq<char> {
    match e.workstream_id {
        Some(w) => w@,
        None => Seq::empty(),
    }
}

/// The row of a file with one: the date, not the clock time, then the rest.
pub open spec fn row(e: Entry) -> Seq<char> {
    nine_columns(e) + seq![','] + csv::escaped(workstream_text(e)) + line_end()
}

/// Adds minutes as hours with two decimals.
pub fn push_hours(out: &mut String, minutes: u128)
    ensures
        final(out)@ == old(out)@ + hours_text(minutes as nat),
{
    let ghost before = out@;
    text::push_dec(out, minutes / 60);
    out.push('.');
    text::push_low_digits(out, (((minutes % 60) * 10 + 3) / 6) as u64, 2);
    assert(out@ =~= before + hours_text(minutes as nat));
}

/// Minutes as hours with two decimals, with a sign below zero.
pub fn signed_hours(minutes: i128) -> (r: String)
    requires
        minutes > i128::MIN,
    ensures
        r@ == signed_hours_text(minutes as int),
{
    let mut out = String::new();
    if minutes < 0 {
        out.push('-');
        push_hours(&mut out, (-minutes) as u128);
    } else {
        push_hours(&mut out, minutes as u128);
    }
    assert(out@ =~= signed_hours_text(minutes as int));
    out
}

fn push_escaped(out: &mut String, s: &str)
    ensures
        final(out)@ == old(out)@ + csv::escaped(s@),
{
    let e = csv::csv_escape(s);
    text::push_text(out, e.as_str());
}

fn push_nine_columns(e: &Entry) -> (r: String)
    ensures
        r@ == nine_columns(*e),
{
    let mut out = dates::date_text(&e.timestamp.date);
    out.push(',');
    push_escaped(&mut out, e.staff.as_str());
    out.push(',');
    push_escaped(&mut out, e.client.as_str());
    out.push(',');
    push_escaped(&mut out, e.engagement.as_str());
    out.push(',');
    push_escaped(&mut out, e.narrative.as_str());
    out.push(',');
    text::push_dec(&mut out, e.minutes as u128);
    out.push(',');
    push_hours(&mut out, e.minutes as u128);
    out.push(',');
    let flag = text::flag_text(e.billable);
    text::push_text(&mut out, flag.as_str());
    out.push(',');
    match e.entry_method {
        EntryMethod::Quick => text::push_text(&mut out, "quick"),
        EntryMethod::Timer => text::push_text(&mut out, "timer"),
    }
    assert(out@ =~= nine_columns(*e));
    out
}

fn row_string(e: &Entry) -> (r: String)
    ensures
        r@ == row(*e),
{
    let mut out = push_nine_columns(e);
    out.push(',');
    match &e.workstream_id {
        Some(w) => push_escaped(&mut out, w.as_str()),
        None => push_escaped(&mut out, ""),
    }
    out.push('\r');
    out.push('\n');
    proof {
        reveal_strlit("");
        assert(""@ =~= Seq::<char>::empty());
        assert(out@ =~= row(*e));
    }
    out
}

fn legacy_row_string(e: &Entry) -> (r: String)
    ensures
        r@ == legacy_row(*e),
{
    let mut out = push_nine_columns(e);
    out.push('\r');
    out.push('\n');
    assert(out@ =~= legacy_row(*e));
    out
}

/// The row of an entry: ten columns, the last the workstream.
pub fn format_row(e: &Entry) -> (r: Vec<u8>)
    ensures
        r@ == encode_utf8(row(*e)),
{
    row_string(e).as_str().as_bytes_vec()
}

/// The row of an entry in a file of nine columns.
pub fn format_row_legacy(e: &Entry) -> (r: Vec<u8>)
    ensures
        r@ == encode_utf8(legacy_row(*e)),
{
    legacy_row_string(e).as_str().as_bytes_vec()
}

// ---- appending ------------------------------------------------------------

pub open spec fn after_bom(bytes: Seq<u8>) -> Seq<u8> {
    if bytes.len() >= 3 && bytes[0] == 0xef && bytes[1] == 0xbb && bytes[2] == 0xbf {
        bytes.skip(3)
    } else {
        bytes
    }
}

/// The file opens with a `#` banner, behind its byte order mark if it has one.
pub open spec fn has_banner(bytes: Seq<u8>) -> bool {
    after_bom(bytes).len() > 0 && after_bom(bytes)[0] == 0x23
}

/// What a new file begins with.
pub open spec fn new_file_head() -> Seq<char> {
    seq![csv::BOM] + csv_file::VERSION_COMMENT@ + line_end() + csv_file::HEADER@ + line_end()
}

/// The file that an entry is added to: the one on disk, or a new one.
pub open spec fn before_append(existing: Option<Seq<u8>>) -> Seq<u8> {
    match existing {
        Some(b) => b,
        None => encode_utf8(new_file_head()),
    }
}

/// The row that is added: in the shape of the file.
pub open spec fn appended_row(existing: Option<Seq<u8>>, e: Entry) -> Seq<u8> {
    match existing {
        Some(b) => if has_banner(b) {
            encode_utf8(row(e))
        } else {
            encode_utf8(legacy_row(e))
        },
        None => encode_utf8(row(e)),
    }
}

pub open spec fn bytes_view(b: Option<Vec<u8>>) -> Option<Seq<u8>> {
    match b {
        Some(v) => Some(v@),
        None => None,
    }
}

fn banner(bytes: &Vec<u8>) -> (r: bool)
    ensures
        r == has_banner(bytes@),
{
    if bytes.len() >= 3 && bytes[0] == 0xef && bytes[1] == 0xbb && bytes[2] == 0xbf {
        bytes.len() > 3 && bytes[3] == 0x23
    } else {
        bytes.len() > 0 && bytes[0] == 0x23
    }
}

fn push_bytes(out: &mut Vec<u8>, more: &Vec<u8>)
    ensures
        final(out)@ == old(out)@ + more@,
{
    let ghost before = out@;
    let mut i: usize = 0;
    while i < more.len()
        invariant
            i <= more@.len(),
            out@ == before + more@.take(i as int),
        decreases more@.len() - i,
    {
        out.push(more[i]);
        i += 1;
        assert(more@.take(i as int) =~= more@.take(i - 1).push(more@[i - 1]));
        assert(out@ =~= before + more@.take(i as int));
    }
    assert(more@.take(more@.len() as int) =~= more@);
}

/// The content of the monthly file with an entry added, and the row that was added.
/// `None` stands for a file that does not exist.
pub fn append_entry(existing: Option<Vec<u8>>, e: &Entry) -> (r: (Vec<u8>, Vec<u8>))
    ensures
        r.0@ == before_append(bytes_view(existing)) + r.1@,
        r.1@ == appended_row(bytes_view(existing), *e),
{
    match existing {
        Some(content) => {
            let row = if banner(&content) {
                format_row(e)
            } else {
                format_row_legacy(e)
            };
            let mut out = content;
            push_bytes(&mut out, &row);
            (out, row)
        },
        None => {
            let mut head = String::new();
            head.push(csv::BOM);
            text::push_text(&mut head, csv_file::VERSION_COMMENT);
            text::push_text(&mut head, "\r\n");
            text::push_text(&mut head, csv_file::HEADER);
            text::push_text(&mut head, "\r\n");
            proof {
                reveal_strlit("\r\n");
                assert("\r\n"@ =~= line_end());
                assert(head@ =~= new_file_head());
            }
            let mut out = head.as_str().as_bytes_vec();
            let row = format_row(e);
            push_bytes(&mut out, &row);
            (out, row)
        },
    }
}

/// The bytes end with those of `p`.
pub open spec fn ends_with_bytes(content: Seq<u8>, p: Seq<u8>) -> bool {
    p.len() <= content.len() && content.skip(content.len() - p.len()) == p
}

/// The row that was written is the last thing in the file.
pub fn verify_last_line(content: &Vec<u8>, expected_row: &Vec<u8>) -> (r: bool)
    ensures
        r == ends_with_bytes(content@, expected_row@),
{
    if expected_row.len() > content.len() {
        return false;
    }
    let from: usize = content.len() - expected_row.len();
    let ghost tail = content@.skip(from as int);
    let mut i: usize = 0;
    while i < expected_row.len()
        invariant
            i <= expected_row@.len(),
            from == content@.len() - expected_row@.len(),
            tail == content@.skip(from as int),
            content@.len() <= usize::MAX,
            forall|j: int| 0 <= j < i ==> tail[j] == expected_row@[j],
        decreases expected_row@.len() - i,
    {
        assert(tail[i as int] == content@[from + i]);
        if content[from + i] != expected_row[i] {
            return false;
        }
        i += 1;
    }
    assert(tail =~= expected_row@);
    true
}

// ---- names ----------------------------------------------------------------

/// The name of the monthly file of a moment.
pub open spec fn monthly_name(t: LocalTime) -> Seq<char> {
    dates::year_text(t.date.year as int) + seq!['-'] + text::dec_padded(t.date.month as nat, 2)
        + ".csv"@
}

/// The name of the monthly file of a moment.
pub fn monthly_csv_name(t: &LocalTime) -> (r: String)
    ensures
        r@ == monthly_name(*t),
{
    let mut out = year_string(t.date.year);
    out.push('-');
    text::push_padded(&mut out, t.date.month as u64, 2);
    text::push_text(&mut out, ".csv");
    assert(out@ =~= monthly_name(*t));
    out
}

fn year_string(year: i32) -> (r: String)
    ensures
        r@ == dates::year_text(year as int),
{
    let mut out = String::new();
    if 0 <= year && year <= 9999 {
        text::push_padded(&mut out, year as u64, 4);
    } else if year > 9999 {
        out.push('+');
        text::push_padded(&mut out, year as u64, 4);
    } else {
        out.push('-');
        text::push_padded(&mut out, (-(year as i64)) as u64, 4);
    }
    assert(out@ =~= dates::year_text(year as int));
    out
}

/// The name of the file that an entry is queued in: its moment to the microsecond.
pub open spec fn queue_name(t: LocalTime) -> Seq<char> {
    dates::year_text(t.date.year as int) + text::dec_padded(t.date.month as nat, 2)
        + text::dec_padded(t.date.day as nat, 2) + seq!['-'] + text::dec_padded(t.hour as nat, 2)
        + text::dec_padded(t.minute as nat, 2) + text::dec_padded(t.second as nat, 2) + seq!['-']
        + text::dec_padded(t.micros as nat, 6) + ".json"@
}

/// The name of the file that an entry is queued in.
pub fn queue_file_name(t: &LocalTime) -> (r: String)
    ensures
        r@ == queue_name(*t),
{
    let mut out = year_string(t.date.year);
    text::push_padded(&mut out, t.date.month as u64, 2);
    text::push_padded(&mut out, t.date.day as u64, 2);
    out.push('-');
    text::push_padded(&mut out, t.hour as u64, 2);
    text::push_padded(&mut out, t.minute as u64, 2);
    text::push_padded(&mut out, t.second as u64, 2);
    out.push('-');
    text::push_padded(&mut out, t.micros as u64, 6);
    text::push_text(&mut out, ".json");
    assert(out@ =~= queue_name(*t));
    out
}

/// The name of the file beside `name` that new content is written to first.
pub fn temp_name(name: &str) -> (r: String)
    ensures
        r@ == seq!['.'] + name@ + ".tmp"@,
{
    let mut out = String::new();
    out.push('.');
    text::push_text(&mut out, name);
    text::push_text(&mut out, ".tmp");
    assert(out@ =~= seq!['.'] + name@ + ".tmp"@);
    out
}

// ---- laws -----------------------------------------------------------------

/// Appending keeps every byte that was there, and the row is the last thing in
/// the file: the self-check after a write succeeds unless something else wrote.
pub proof fn append_keeps_and_ends_with_row(existing: Option<Seq<u8>>, e: Entry)
    ensures
        ({
            let content = before_append(existing) + appended_row(existing, e);
            &&& content.take(before_append(existing).len() as int) == before_append(existing)
            &&& ends_with_bytes(content, appended_row(existing, e))
        }),
{
    let a = before_append(existing);
    let b = appended_row(existing, e);
    assert((a + b).take(a.len() as int) =~= a);
    assert((a + b).skip((a + b).len() - b.len()) =~= b);
}

/// A file of nine columns stays one: its rows get no workstream column and no
/// banner is put in front of them.
pub proof fn nine_column_files_stay_so(existing: Seq<u8>, e: Entry)
    requires
        existing.len() >= 4,
        !has_banner(existing),
    ensures
        appended_row(Some(existing), e) == encode_utf8(legacy_row(e)),
        !has_banner(before_append(Some(existing)) + appended_row(Some(existing), e)),
{
    let content = existing + appended_row(Some(existing), e);
    assert(content[0] == existing[0] && content[1] == existing[1] && content[2] == existing[2]
        && content[3] == existing[3]);
    if after_bom(existing) != existing {
        assert(after_bom(content)[0] == content[3]);
        assert(after_bom(existing)[0] == existing[3]);
    }
}

spec fn calm_char(c: char) -> bool {
    text::is_digit(c) || text::is_lower(c) || c == '-' || c == '.'
}

spec fn calm(s: Seq<char>) -> bool {
    forall|i: int| 0 <= i < s.len() ==> calm_char(#[trigger] s[i])
}

/// The text is written as it is, on one line.
pub open spec fn stays(s: Seq<char>) -> bool {
    &&& csv::escaped(s) == s
    &&& csv::guarded(s) == s
    &&& !s.contains('\n')
}

/// Digits, letters, points and dashes are written as they are, but for a dash in front.
proof fn lemma_calm(s: Seq<char>)
    requires
        calm(s),
        s.len() > 0 ==> s[0] != '-',
    ensures
        stays(s),
{
    if s.contains('\n') {
        let k = choose|k: int| 0 <= k < s.len() && s[k] == '\n';
        assert(calm_char(s[k]));
    }
    if s.len() > 0 {
        assert(calm_char(s[0]));
    }
    assert(!csv::needs_quotes(s));
}

/// A line of fields with one more.
proof fn lemma_one_more(fields: Seq<Seq<char>>, f: Seq<char>)
    requires
        fields.len() >= 1,
    ensures
        csv::line_of(fields.push(f)) == csv::line_of(fields) + seq![','] + csv::escaped(f),
{
    assert(fields.push(f).drop_last() =~= fields);
}

/// The fields of an entry's row, before they are escaped.
pub open spec fn entry_fields(e: Entry) -> Seq<Seq<char>> {
    seq![e.timestamp.date.text()].push(e.staff@).push(e.client@).push(e.engagement@).push(
        e.narrative@,
    ).push(text::dec(e.minutes as nat)).push(hours_text(e.minutes as nat)).push(
        text::bool_text(e.billable),
    ).push(method_text(e.entry_method)).push(workstream_text(e))
}

/// The columns of a row that hold no free text are written as they are.
pub proof fn plain_columns_stay(d: Date, n: nat, billable: bool, method: EntryMethod)
    requires
        d.valid(),
        0 <= d.year <= 9999,
    ensures
        stays(d.text()),
        stays(text::dec(n)),
        stays(hours_text(n)),
        stays(text::bool_text(billable)),
        stays(method_text(method)),
        d.text().len() > 0,
        text::is_digit(d.text()[0]),
{
    let y = text::dec_padded(d.year as nat, 4);
    let m = text::dec_padded(d.month as nat, 2);
    let k = text::dec_padded(d.day as nat, 2);
    text::padded_is_digits(d.year as nat, 4);
    text::padded_is_digits(d.month as nat, 2);
    text::padded_is_digits(d.day as nat, 2);
    let t = d.text();
    assert(t[0] == y[0]);
    assert(text::is_digit(y[0]));
    assert forall|i: int| 0 <= i < t.len() implies calm_char(#[trigger] t[i]) by {
        if i < y.len() {
            assert(t[i] == y[i]);
        } else if y.len() < i < y.len() + 1 + m.len() {
            assert(t[i] == m[i - y.len() - 1]);
        } else if i > y.len() + 1 + m.len() {
            assert(t[i] == k[i - y.len() - m.len() - 2]);
        }
    }
    lemma_calm(t);
    text::dec_is_digits(n);
    let dn = text::dec(n);
    assert(text::is_digit(dn[0]));
    assert forall|i: int| 0 <= i < dn.len() implies calm_char(#[trigger] dn[i]) by {
        assert(text::is_digit(dn[i]));
    }
    lemma_calm(dn);
    let a = text::dec(n / 60);
    let b = text::low_digits(((n % 60) * 10 + 3) / 6, 2);
    text::dec_is_digits(n / 60);
    text::low_digits_are_digits(((n % 60) * 10 + 3) / 6, 2);
    let h = hours_text(n);
    assert(h[0] == a[0]);
    assert(text::is_digit(a[0]));
    assert forall|i: int| 0 <= i < h.len() implies calm_char(#[trigger] h[i]) by {
        if i < a.len() {
            assert(h[i] == a[i]);
        } else if i > a.len() {
            assert(h[i] == b[i - a.len() - 1]);
        }
    }
    lemma_calm(h);
    reveal_strlit("true");
    reveal_strlit("false");
    reveal_strlit("quick");
    reveal_strlit("timer");
    lemma_calm(text::bool_text(billable));
    lemma_calm(method_text(method));
}

/// The row of an entry is read back column by column, each text with its guard.
pub proof fn rows_read_back(e: Entry)
    requires
        e.timestamp.date.valid(),
        0 <= e.timestamp.date.year <= 9999,
    ensures
        row(e) == csv::line_of(entry_fields(e)) + line_end(),
        csv::fields_of(csv::line_of(entry_fields(e))) == entry_fields(e).map_values(
            |f: Seq<char>| csv::guarded(f),
        ),
{
    plain_columns_stay(e.timestamp.date, e.minutes as nat, e.billable, e.entry_method);
    let f1 = seq![e.timestamp.date.text()];
    let f2 = f1.push(e.staff@);
    let f3 = f2.push(e.client@);
    let f4 = f3.push(e.engagement@);
    let f5 = f4.push(e.narrative@);
    let f6 = f5.push(text::dec(e.minutes as nat));
    let f7 = f6.push(hours_text(e.minutes as nat));
    let f8 = f7.push(text::bool_text(e.billable));
    let f9 = f8.push(method_text(e.entry_method));
    lemma_one_more(f1, e.staff@);
    lemma_one_more(f2, e.client@);
    lemma_one_more(f3, e.engagement@);
    lemma_one_more(f4, e.narrative@);
    lemma_one_more(f5, text::dec(e.minutes as nat));
    lemma_one_more(f6, hours_text(e.minutes as nat));
    lemma_one_more(f7, text::bool_text(e.billable));
    lemma_one_more(f8, method_text(e.entry_method));
    lemma_one_more(f9, workstream_text(e));
    assert(csv::line_of(f1) == csv::escaped(f1[0]));
    assert(row(e) =~= csv::line_of(entry_fields(e)) + line_end());
    assert(entry_fields(e)[0] == e.timestamp.date.text());
    csv::fields_read_back(entry_fields(e));
}

/// The row of an entry in a file without a workstream column is read back column by
/// column, each text with its guard.
pub proof fn legacy_rows_read_back(e: Entry)
    requires
        e.timestamp.date.valid(),
        0 <= e.timestamp.date.year <= 9999,
    ensures
        legacy_row(e) == csv::line_of(entry_fields(e).take(9)) + line_end(),
{
    rows_read_back(e);
    let all = entry_fields(e);
    assert(all.drop_last() =~= all.take(9));
    assert(all.last() == workstream_text(e));
    let a = csv::line_of(all.take(9));
    assert(csv::line_of(all) == a + seq![','] + csv::escaped(workstream_text(e)));
    let t = seq![','] + csv::escaped(workstream_text(e)) + line_end();
    assert(row(e) =~= nine_columns(e) + t);
    assert(row(e) =~= a + t);
    assert(row(e).take(row(e).len() - t.len()) =~= nine_columns(e));
    assert(row(e).take(row(e).len() - t.len()) =~= a);
}

proof fn lemma_encoded_concat(a: Seq<char>, b: Seq<char>)
    ensures
        encode_utf8(a + b) == encode_utf8(a) + encode_utf8(b),
    decreases a.len(),
{
    if a.len() == 0 {
        assert(a + b =~= b);
        assert(encode_utf8(a) + encode_utf8(b) =~= encode_utf8(b));
    } else {
        lemma_encoded_concat(a.drop_first(), b);
        assert((a + b).drop_first() =~= a.drop_first() + b);
        assert(encode_utf8(a + b) =~= encode_utf8(a) + encode_utf8(b));
    }
}

/// The fields of the row that is added to a file: all ten, or nine in a file
/// without a workstream column.
pub open spec fn added_fields(existing: Option<Seq<char>>, e: Entry) -> Seq<Seq<char>> {
    match existing {
        Some(t) => if has_banner(encode_utf8(t)) {
            entry_fields(e)
        } else {
            entry_fields(e).take(9)
        },
        None => entry_fields(e),
    }
}

/// The text of the file that an entry is added to.
pub open spec fn text_before(existing: Option<Seq<char>>) -> Seq<char> {
    match existing {
        Some(t) => t,
        None => new_file_head(),
    }
}

/// The text of the file with the entry added.
pub open spec fn text_after(existing: Option<Seq<char>>, e: Entry) -> Seq<char> {
    text_before(existing) + csv::line_of(added_fields(existing, e)) + line_end()
}

/// The bytes of a text.
pub open spec fn encoded(t: Option<Seq<char>>) -> Option<Seq<u8>> {
    match t {
        Some(t) => Some(encode_utf8(t)),
        None => None,
    }
}

/// The texts of an entry stand on one line.
pub open spec fn on_one_line(e: Entry) -> bool {
    &&& !e.staff@.contains('\n')
    &&& !e.client@.contains('\n')
    &&& !e.engagement@.contains('\n')
    &&& !e.narrative@.contains('\n')
    &&& !workstream_text(e).contains('\n')
}

proof fn lemma_fields_on_one_line(e: Entry)
    requires
        e.timestamp.date.valid(),
        0 <= e.timestamp.date.year <= 9999,
        on_one_line(e),
    ensures
        csv_file::row_well_formed(entry_fields(e)),
        csv_file::row_well_formed(entry_fields(e).take(9)),
{
    let f = entry_fields(e);
    plain_columns_stay(e.timestamp.date, e.minutes as nat, e.billable, e.entry_method);
    assert forall|i: int| 0 <= i < f.len() implies !(#[trigger] f[i]).contains('\n') by {
        assert(i == 0 || i == 1 || i == 2 || i == 3 || i == 4 || i == 5 || i == 6 || i == 7 || i == 8
            || i == 9);
    }
    let g = f.take(9);
    assert forall|i: int| 0 <= i < g.len() implies !(#[trigger] g[i]).contains('\n') by {
        assert(g[i] == f[i]);
    }
    assert(g[0] == f[0]);
}

proof fn lemma_new_file_head()
    ensures
        new_file_head().len() > 0,
        new_file_head().last() == '\n',
        csv_file::read_lines(csv_file::lines_of(new_file_head())).header,
{
    csv_file::new_files_read_back();
    csv_file::files_are_lines(csv_file::fresh().prefix);
    let p = csv_file::fresh().prefix;
    assert(p.drop_last().drop_last() =~= Seq::empty());
    assert(csv_file::with_line_ends(Seq::<Seq<char>>::empty()) =~= Seq::empty());
    assert(csv_file::with_line_ends(p.drop_last()) =~= p[0] + line_end());
    assert(csv_file::with_line_ends(p) =~= new_file_head());
    let l = p.push(Seq::<char>::empty());
    assert(l.drop_last() =~= p);
}

/// What is logged is read: the new content is the file as it was and one row more,
/// and a file that begins with its column names and ends with a line end is read as
/// before, with the entry in its last row.
pub proof fn logged_entries_are_read(existing: Option<Seq<char>>, e: Entry)
    requires
        e.timestamp.date.valid(),
        0 <= e.timestamp.date.year <= 9999,
        on_one_line(e),
        existing matches Some(t) ==> t.len() > 0 && t.last() == '\n' && csv_file::read_lines(
            csv_file::lines_of(t),
        ).header,
    ensures
        ({
            let before = text_before(existing);
            let after = text_after(existing, e);
            &&& before_append(encoded(existing)) + appended_row(encoded(existing), e)
                == encode_utf8(after)
            &&& csv_file::parsed(after) == csv_file::CsvModel {
                rows: csv_file::parsed(before).rows.push(
                    csv_file::guarded_row(added_fields(existing, e)),
                ),
                ..csv_file::parsed(before)
            }
        }),
{
    let before = text_before(existing);
    let fields = added_fields(existing, e);
    let line = csv::line_of(fields);
    rows_read_back(e);
    legacy_rows_read_back(e);
    lemma_fields_on_one_line(e);
    lemma_encoded_concat(before, line + line_end());
    assert(before + line + line_end() =~= before + (line + line_end()));
    if existing is None {
        lemma_new_file_head();
    }
    csv_file::added_rows_are_read(before, fields);
}

/// A moment of a year of four digits, outside a leap second.
pub open spec fn is_moment(t: LocalTime) -> bool {
    &&& t.date.valid()
    &&& 0 <= t.date.year <= 9999
    &&& t.hour < 24
    &&& t.minute < 60
    &&& t.second < 60
    &&& t.micros < 1_000_000
}

/// The first moment is before the second on the clock.
pub open spec fn is_earlier(a: LocalTime, b: LocalTime) -> bool {
    if a.date != b.date {
        a.date.not_after(b.date)
    } else if a.hour != b.hour {
        a.hour < b.hour
    } else if a.minute != b.minute {
        a.minute < b.minute
    } else if a.second != b.second {
        a.second < b.second
    } else {
        a.micros < b.micros
    }
}

proof fn lemma_number_first(m: nat, n: nat, width: nat, x: Seq<char>, y: Seq<char>)
    requires
        width >= 1,
        m < text::ten_to(width),
        n < text::ten_to(width),
        m < n || m == n && sorting::precedes(x, y),
    ensures
        sorting::precedes(text::dec_padded(m, width) + x, text::dec_padded(n, width) + y),
{
    text::padded_fits(m, width);
    text::padded_fits(n, width);
    if m < n {
        sorting::padded_numbers_are_ordered(m, n, width);
    }
    sorting::heads_decide(text::dec_padded(m, width), text::dec_padded(n, width), x, y);
}

proof fn lemma_tens()
    ensures
        text::ten_to(2) == 100,
        text::ten_to(4) == 10_000,
        text::ten_to(6) == 1_000_000,
{
    reveal_with_fuel(text::ten_to, 7);
}

/// The clock time in the name of a queue file, and what follows it.
spec fn clock_part(t: LocalTime) -> Seq<char> {
    text::dec_padded(t.hour as nat, 2) + (text::dec_padded(t.minute as nat, 2) + (
    text::dec_padded(t.second as nat, 2) + (seq!['-'] + (text::dec_padded(t.micros as nat, 6)
        + ".json"@))))
}

proof fn lemma_queue_name(t: LocalTime)
    requires
        is_moment(t),
    ensures
        queue_name(t) == text::dec_padded(t.date.year as nat, 4) + (text::dec_padded(
            t.date.month as nat,
            2,
        ) + (text::dec_padded(t.date.day as nat, 2) + (seq!['-'] + clock_part(t)))),
{
    assert(queue_name(t) =~= text::dec_padded(t.date.year as nat, 4) + (text::dec_padded(
        t.date.month as nat,
        2,
    ) + (text::dec_padded(t.date.day as nat, 2) + (seq!['-'] + clock_part(t)))));
}

proof fn lemma_clock_order(a: LocalTime, b: LocalTime)
    requires
        is_moment(a),
        is_moment(b),
        a.date == b.date,
        is_earlier(a, b),
    ensures
        sorting::precedes(clock_part(a), clock_part(b)),
{
    lemma_tens();
    let dash = seq!['-'];
    let x7 = text::dec_padded(a.micros as nat, 6) + ".json"@;
    let y7 = text::dec_padded(b.micros as nat, 6) + ".json"@;
    let x6 = text::dec_padded(a.second as nat, 2) + (dash + x7);
    let y6 = text::dec_padded(b.second as nat, 2) + (dash + y7);
    let x5 = text::dec_padded(a.minute as nat, 2) + x6;
    let y5 = text::dec_padded(b.minute as nat, 2) + y6;
    if a.hour == b.hour {
        if a.minute == b.minute {
            if a.second == b.second {
                lemma_number_first(a.micros as nat, b.micros as nat, 6, ".json"@, ".json"@);
                sorting::heads_decide(dash, dash, x7, y7);
            }
            lemma_number_first(a.second as nat, b.second as nat, 2, dash + x7, dash + y7);
        }
        lemma_number_first(a.minute as nat, b.minute as nat, 2, x6, y6);
    }
    lemma_number_first(a.hour as nat, b.hour as nat, 2, x5, y5);
}

/// Queued entries are named in the order of their moments: the names of the queue,
/// sorted, are in the order in which the entries were made.
pub proof fn queue_names_are_chronological(a: LocalTime, b: LocalTime)
    requires
        is_moment(a),
        is_moment(b),
        is_earlier(a, b),
    ensures
        sorting::precedes(queue_name(a), queue_name(b)),
{
    lemma_tens();
    lemma_queue_name(a);
    lemma_queue_name(b);
    let dash = seq!['-'];
    let x4 = dash + clock_part(a);
    let y4 = dash + clock_part(b);
    let x3 = text::dec_padded(a.date.day as nat, 2) + x4;
    let y3 = text::dec_padded(b.date.day as nat, 2) + y4;
    let x2 = text::dec_padded(a.date.month as nat, 2) + x3;
    let y2 = text::dec_padded(b.date.month as nat, 2) + y3;
    if a.date == b.date {
        lemma_clock_order(a, b);
        sorting::heads_decide(dash, dash, clock_part(a), clock_part(b));
    }
    if a.date.year == b.date.year {
        if a.date.month == b.date.month {
            lemma_number_first(a.date.day as nat, b.date.day as nat, 2, x4, y4);
        }
        lemma_number_first(a.date.month as nat, b.date.month as nat, 2, x3, y3);
    }
    lemma_number_first(a.date.year as nat, b.date.year as nat, 4, x2, y2);
}

/// Hours are the minutes to the nearest hundredth of an hour, with two digits behind
/// the point; a half is rounded up. Below zero they are the same with a minus in front.
pub proof fn hours_are_to_the_nearest_hundredth(minutes: nat) -> (c: nat)
    ensures
        hours_text(minutes) == text::dec(c / 100) + seq!['.'] + text::low_digits(c % 100, 2),
        -30 < 60 * c - 100 * minutes <= 30,
        signed_hours_text(minutes as int) == hours_text(minutes),
        minutes > 0 ==> signed_hours_text(-(minutes as int)) == seq!['-'] + hours_text(minutes),
{
    let part = ((minutes % 60) * 10 + 3) / 6;
    let c = (minutes / 60) * 100 + part;
    assert(part < 100);
    assert(c / 100 == minutes / 60 && c % 100 == part);
    c
}

/// The columns of an entry: its date, the staff, the client, the engagement, the
/// narrative, the minutes, the hours, the flag, the method, and the workstream.
pub proof fn entries_are_written_in_ten_columns(e: Entry)
    ensures
        ({
            let f = entry_fields(e);
            &&& f.len() == 10
            &&& f[0] == e.timestamp.date.text()
            &&& f[1] == e.staff@
            &&& f[2] == e.client@
            &&& f[3] == e.engagement@
            &&& f[4] == e.narrative@
            &&& f[5] == text::dec(e.minutes as nat)
            &&& f[6] == hours_text(e.minutes as nat)
            &&& e.billable ==> f[7] == seq!['t', 'r', 'u', 'e']
            &&& !e.billable ==> f[7] == seq!['f', 'a', 'l', 's', 'e']
            &&& e.entry_method is Quick ==> f[8] == seq!['q', 'u', 'i', 'c', 'k']
            &&& e.entry_method is Timer ==> f[8] == seq!['t', 'i', 'm', 'e', 'r']
            &&& match e.workstream_id {
                Some(w) => f[9] == w@,
                None => f[9].len() == 0,
            }
        }),
{
    text::flags_are_words();
    reveal_strlit("quick");
    reveal_strlit("timer");
    assert("quick"@ =~= seq!['q', 'u', 'i', 'c', 'k']);
    assert("timer"@ =~= seq!['t', 'i', 'm', 'e', 'r']);
}

/// An entry goes to the file of the month of its date.
pub proof fn entries_go_to_the_file_of_their_month(t: LocalTime)
    requires
        0 <= t.date.year <= 9999,
    ensures
        monthly_name(t) == t.date.stem() + seq!['.', 'c', 's', 'v'],
        t.date.stem() == text::dec_padded(t.date.year as nat, 4) + seq!['-'] + text::dec_padded(
            t.date.month as nat,
            2,
        ),
{
    reveal_strlit(".csv");
    assert(".csv"@ =~= seq!['.', 'c', 's', 'v']);
}

/// What is appended follows what was there, or the head of a new file: ten columns
/// where the file begins with `#`, behind a byte order mark or without, and nine where
/// it does not.
pub proof fn entries_are_appended(existing: Seq<u8>, e: Entry)
    ensures
        before_append(Some(existing)) == existing,
        before_append(None) == encode_utf8(new_file_head()),
        appended_row(None, e) == encode_utf8(row(e)),
        existing.len() > 0 && existing[0] == 0x23 ==> appended_row(Some(existing), e)
            == encode_utf8(row(e)),
        appended_row(Some(seq![0xef, 0xbb, 0xbf, 0x23] + existing), e) == encode_utf8(row(e)),
        existing.len() > 0 && existing[0] != 0x23 && existing[0] != 0xef ==> appended_row(
            Some(existing),
            e,
        ) == encode_utf8(legacy_row(e)),
        existing.len() == 0 || existing[0] != 0x23 ==> appended_row(
            Some(seq![0xef, 0xbb, 0xbf] + existing),
            e,
        ) == encode_utf8(legacy_row(e)),
{
    let marked = seq![0xef, 0xbb, 0xbf, 0x23] + existing;
    assert(marked.skip(3)[0] == 0x23);
    assert((seq![0xefu8, 0xbbu8, 0xbfu8] + existing).skip(3) =~= existing);
}

/// A file ends with a row exactly if it is something with the row behind it.
pub proof fn rows_at_the_end_are_seen(head: Seq<u8>, row: Seq<u8>, content: Seq<u8>)
    ensures
        ends_with_bytes(head + row, row),
        ends_with_bytes(content, row) ==> content == content.take(content.len() - row.len()) + row,
{
    assert((head + row).skip(head.len() as int) =~= row);
    if ends_with_bytes(content, row) {
        assert(content =~= content.take(content.len() - row.len()) + content.skip(
            content.len() - row.len(),
        ));
    }
}

} // verus!
