//! A monthly log file in memory: the lines in front of the data, then the rows.

use crate::csv;
use crate::text;
use vstd::prelude::*;
use vstd::utf8::encode_utf8;

verus! {

/// The first line of a new file.
pub const VERSION_COMMENT: &'static str = "# time-tracker v0.3";

/// The column names of a new file.
pub const HEADER: &'static str =
    "date,staff,client,engagement,narrative,minutes,hours_decimal,billable,entry_method,workstream_id";

/// The fields of some rows.
pub open spec fn rows_view(rows: Seq<Vec<String>>) -> Seq<Seq<Seq<char>>> {
    Seq::new(rows.len(), |i: int| text::texts(rows[i]@))
}

/// What a log file holds.
#[verifier::ext_equal]
pub struct CsvModel {
    pub prefix: Seq<Seq<char>>,
    pub rows: Seq<Seq<Seq<char>>>,
    pub v02: bool,
}

/// A log file: the lines before the first data row as they stand, without line
/// ends, and the fields of each data row. A file with a `#` banner has ten
/// columns, one without has nine.
pub struct CsvFile {
    pub prefix_lines: Vec<String>,
    pub rows: Vec<Vec<String>>,
    pub v02: bool,
}

impl View for CsvFile {
    type V = CsvModel;

    open spec fn view(&self) -> CsvModel {
        CsvModel {
            prefix: text::texts(self.prefix_lines@),
            rows: rows_view(self.rows@),
            v02: self.v02,
        }
    }
}

pub open spec fn without_cr(l: Seq<char>) -> Seq<char> {
    if l.len() > 0 && l.last() == '\r' {
        l.drop_last()
    } else {
        l
    }
}

/// The lines of a text, ended by `\n` or `\r\n`.
pub open spec fn lines_of(s: Seq<char>) -> Seq<Seq<char>> {
    let p = text::split_on(s, '\n');
    Seq::new(
        p.len(),
        |i: int|
            if i < p.len() - 1 {
                without_cr(p[i])
            } else {
                p[i]
            },
    )
}

pub open spec fn is_comment(line: Seq<char>) -> bool {
    let l = csv::without_bom(line);
    l.len() > 0 && l[0] == '#'
}

/// A file read up to some line, and whether its column names have been.
#[verifier::ext_equal]
pub struct Loading {
    pub file: CsvModel,
    pub header: bool,
}

/// One line read: empty lines are dropped, comments and the first other line go
/// in front, every later line is a data row.
pub open spec fn read_line(m: Loading, line: Seq<char>) -> Loading {
    if line.len() == 0 {
        m
    } else if is_comment(line) {
        Loading { file: CsvModel { prefix: m.file.prefix.push(line), v02: true, ..m.file }, ..m }
    } else if !m.header {
        Loading { file: CsvModel { prefix: m.file.prefix.push(line), ..m.file }, header: true }
    } else {
        Loading {
            file: CsvModel { rows: m.file.rows.push(csv::fields_of(line)), ..m.file },
            ..m
        }
    }
}

pub open spec fn read_lines(lines: Seq<Seq<char>>) -> Loading
    decreases lines.len(),
{
    if lines.len() == 0 {
        Loading {
            file: CsvModel { prefix: Seq::empty(), rows: Seq::empty(), v02: false },
            header: false,
        }
    } else {
        read_line(read_lines(lines.drop_last()), lines.last())
    }
}

/// What a file with this content holds.
pub open spec fn parsed(content: Seq<char>) -> CsvModel {
    read_lines(lines_of(content)).file
}

/// Each line with its line end.
pub open spec fn with_line_ends(lines: Seq<Seq<char>>) -> Seq<char>
    decreases lines.len(),
{
    if lines.len() == 0 {
        Seq::empty()
    } else {
        with_line_ends(lines.drop_last()) + lines.last() + seq!['\r', '\n']
    }
}

pub open spec fn prefix_out(prefix: Seq<Seq<char>>) -> Seq<Seq<char>> {
    Seq::new(prefix.len(), |i: int| csv::without_bom(prefix[i]))
}

pub open spec fn rows_out(rows: Seq<Seq<Seq<char>>>) -> Seq<Seq<char>> {
    Seq::new(rows.len(), |i: int| csv::line_of(rows[i]))
}

/// The content of a file: one byte order mark, then the lines.
pub open spec fn rendered(m: CsvModel) -> Seq<char> {
    let body = with_line_ends(prefix_out(m.prefix)) + with_line_ends(rows_out(m.rows));
    if body.len() > 0 && body[0] == csv::BOM {
        body
    } else {
        seq![csv::BOM] + body
    }
}

pub open spec fn columns(m: CsvModel) -> nat {
    if m.v02 {
        10
    } else {
        9
    }
}

pub open spec fn fresh() -> CsvModel {
    CsvModel {
        prefix: seq![seq![csv::BOM] + VERSION_COMMENT@, HEADER@],
        rows: Seq::empty(),
        v02: true,
    }
}

// ---- executable -----------------------------------------------------------

/// The lines of a text, ended by `\n` or `\r\n`.
pub fn split_lines(content: &str) -> (r: Vec<String>)
    ensures
        text::texts(r@) == lines_of(content@),
{
    let v = text::chars_of(content);
    let pieces = text::split(v.as_slice(), '\n');
    let ghost p = text::split_on(content@, '\n');
    let n: usize = pieces.len();
    let mut out: Vec<String> = Vec::new();
    let mut i: usize = 0;
    while i < n
        invariant
            n == pieces@.len(),
            i <= n,
            p == text::texts(pieces@),
            p == text::split_on(content@, '\n'),
            text::texts(out@) == lines_of(content@).take(i as int),
        decreases n - i,
    {
        assert(p[i as int] == pieces@[i as int]@);
        let ghost outs = text::texts(out@);
        let l = text::chars_of(pieces[i].as_str());
        let k: usize = l.len();
        let line = if i < n - 1 && k > 0 && l[k - 1] == '\r' {
            let t = text::piece(l.as_slice(), 0, k - 1);
            assert(t@ =~= l@.drop_last());
            text::text_of(t.as_slice())
        } else {
            pieces[i].clone()
        };
        let ghost ls = line@;
        out.push(line);
        assert(text::texts(out@) =~= outs.push(ls));
        assert(ls == lines_of(content@)[i as int]);
        assert(lines_of(content@).take(i + 1) =~= lines_of(content@).take(i as int).push(ls));
        i += 1;
    }
    assert(lines_of(content@).take(n as int) =~= lines_of(content@));
    out
}

/// The line is a comment.
pub fn comment(line: &str) -> (r: bool)
    ensures
        r == is_comment(line@),
{
    let l = text::chars_of(csv::strip_bom(line).as_str());
    l.len() > 0 && l[0] == '#'
}

/// Copies of texts.
pub fn copy_texts(v: &Vec<String>) -> (r: Vec<String>)
    ensures
        text::texts(r@) == text::texts(v@),
{
    let mut out: Vec<String> = Vec::new();
    let mut i: usize = 0;
    while i < v.len()
        invariant
            i <= v@.len(),
            out@.len() == i,
            forall|j: int| 0 <= j < i ==> out@[j]@ == v@[j]@,
        decreases v@.len() - i,
    {
        out.push(v[i].clone());
        i += 1;
    }
    assert(text::texts(out@) =~= text::texts(v@));
    out
}

impl CsvFile {
    /// Reads a file's content.
    pub fn parse(content: &str) -> (r: CsvFile)
        ensures
            r@ == parsed(content@),
    {
        let lines = split_lines(content);
        let mut prefix_lines: Vec<String> = Vec::new();
        let mut rows: Vec<Vec<String>> = Vec::new();
        let mut header_seen = false;
        let mut v02 = false;
        let ghost ls = lines_of(content@);
        let mut i: usize = 0;
        proof {
            assert(ls.take(0) =~= Seq::empty());
            assert(text::texts(prefix_lines@) =~= Seq::<Seq<char>>::empty());
            assert(rows_view(rows@) =~= Seq::<Seq<Seq<char>>>::empty());
        }
        while i < lines.len()
            invariant
                i <= lines@.len(),
                ls == text::texts(lines@),
                ({
                    let m = read_lines(ls.take(i as int));
                    &&& m.header == header_seen
                    &&& m.file.v02 == v02
                    &&& m.file.prefix == text::texts(prefix_lines@)
                    &&& m.file.rows == rows_view(rows@)
                }),
            decreases lines@.len() - i,
        {
            proof {
                assert(ls.take(i + 1).drop_last() =~= ls.take(i as int));
                assert(ls.take(i + 1).last() == lines@[i as int]@);
            }
            let ghost prefix0 = text::texts(prefix_lines@);
            let ghost rows0 = rows_view(rows@);
            let line = lines[i].clone();
            let ghost l = line@;
            let empty = text::chars_of(line.as_str()).len() == 0;
            if !empty {
                if comment(line.as_str()) {
                    v02 = true;
                    prefix_lines.push(line);
                    assert(text::texts(prefix_lines@) =~= prefix0.push(l));
                } else if !header_seen {
                    header_seen = true;
                    prefix_lines.push(line);
                    assert(text::texts(prefix_lines@) =~= prefix0.push(l));
                } else {
                    let fields = csv::split_csv_line(line.as_str());
                    rows.push(fields);
                    assert(rows_view(rows@) =~= rows0.push(csv::fields_of(l)));
                }
            }
            i += 1;
        }
        assert(ls.take(ls.len() as int) =~= ls);
        CsvFile { prefix_lines, rows, v02 }
    }

    /// A new empty file: banner and column names.
    pub fn fresh_v02() -> (r: CsvFile)
        ensures
            r@ == fresh(),
    {
        let mut banner = String::new();
        banner.push(csv::BOM);
        text::push_text(&mut banner, VERSION_COMMENT);
        let mut prefix_lines: Vec<String> = Vec::new();
        prefix_lines.push(banner);
        prefix_lines.push(text::copy(HEADER));
        let r = CsvFile { prefix_lines, rows: Vec::new(), v02: true };
        assert(r@.prefix[0] =~= seq![csv::BOM] + VERSION_COMMENT@);
        assert(r@.prefix =~= fresh().prefix);
        assert(r@.rows =~= fresh().rows);
        r
    }

    /// The file's content, as it is written.
    pub fn render(&self) -> (r: Vec<u8>)
        ensures
            r@ == encode_utf8(rendered(self@)),
    {
        let mut body = String::new();
        let ghost px = prefix_out(self@.prefix);
        let mut i: usize = 0;
        assert(px.take(0) =~= Seq::empty());
        while i < self.prefix_lines.len()
            invariant
                i <= self.prefix_lines@.len(),
                px == prefix_out(self@.prefix),
                body@ == with_line_ends(px.take(i as int)),
            decreases self.prefix_lines@.len() - i,
        {
            let l = csv::strip_bom(self.prefix_lines[i].as_str());
            assert(px[i as int] == l@);
            assert(px.take(i + 1).drop_last() =~= px.take(i as int));
            let ghost b0 = body@;
            text::push_text(&mut body, l.as_str());
            body.push('\r');
            body.push('\n');
            assert(body@ =~= b0 + l@ + seq!['\r', '\n']);
            i += 1;
        }
        assert(px.take(px.len() as int) =~= px);
        let ghost head = body@;
        let ghost rx = rows_out(self@.rows);
        let mut j: usize = 0;
        assert(rx.take(0) =~= Seq::empty());
        assert(body@ =~= head + with_line_ends(rx.take(0)));
        while j < self.rows.len()
            invariant
                j <= self.rows@.len(),
                rx == rows_out(self@.rows),
                body@ == head + with_line_ends(rx.take(j as int)),
            decreases self.rows@.len() - j,
        {
            let l = csv::join_fields(&self.rows[j]);
            assert(rx[j as int] == l@);
            assert(rx.take(j + 1).drop_last() =~= rx.take(j as int));
            let ghost b0 = body@;
            text::push_text(&mut body, l.as_str());
            body.push('\r');
            body.push('\n');
            assert(body@ =~= head + (with_line_ends(rx.take(j as int)) + l@ + seq!['\r', '\n']));
            j += 1;
        }
        assert(rx.take(rx.len() as int) =~= rx);
        let v = text::chars_of(body.as_str());
        if v.len() > 0 && v[0] == csv::BOM {
            body.as_str().as_bytes_vec()
        } else {
            let mut out = String::new();
            out.push(csv::BOM);
            text::push_text(&mut out, body.as_str());
            assert(out@ =~= seq![csv::BOM] + body@);
            out.as_str().as_bytes_vec()
        }
    }

    /// Number of columns a row in this file should have.
    pub fn ncols(&self) -> (r: usize)
        ensures
            r == columns(self@),
    {
        if self.v02 {
            10
        } else {
            9
        }
    }
}

// ---- data rows alone ------------------------------------------------------

/// Data rows read up to some line, and whether the column names have been.
#[verifier::ext_equal]
pub struct RowsRead {
    pub rows: Seq<Seq<Seq<char>>>,
    pub header: bool,
}

/// The data rows among some lines: what is neither empty nor a comment, behind the
/// first such line, which holds the column names.
pub open spec fn read_rows(lines: Seq<Seq<char>>) -> RowsRead
    decreases lines.len(),
{
    if lines.len() == 0 {
        RowsRead { rows: Seq::empty(), header: false }
    } else {
        let m = read_rows(lines.drop_last());
        let l = csv::without_bom(lines.last());
        if l.len() == 0 || l[0] == '#' {
            m
        } else if !m.header {
            RowsRead { header: true, ..m }
        } else {
            RowsRead { rows: m.rows.push(csv::fields_of(lines.last())), ..m }
        }
    }
}

/// The data rows of a file with this content.
pub open spec fn data_rows(content: Seq<char>) -> Seq<Seq<Seq<char>>> {
    read_rows(lines_of(content)).rows
}

/// The fields of the data rows of a file.
pub fn csv_data_rows(content: &str) -> (r: Vec<Vec<String>>)
    ensures
        rows_view(r@) == data_rows(content@),
{
    let lines = split_lines(content);
    let ghost ls = lines_of(content@);
    let mut rows: Vec<Vec<String>> = Vec::new();
    let mut header_seen = false;
    let mut i: usize = 0;
    assert(ls.take(0) =~= Seq::empty());
    assert(rows_view(rows@) =~= Seq::<Seq<Seq<char>>>::empty());
    while i < lines.len()
        invariant
            i <= lines@.len(),
            ls == text::texts(lines@),
            read_rows(ls.take(i as int)).header == header_seen,
            read_rows(ls.take(i as int)).rows == rows_view(rows@),
        decreases lines@.len() - i,
    {
        proof {
            assert(ls.take(i + 1).drop_last() =~= ls.take(i as int));
            assert(ls.take(i + 1).last() == lines@[i as int]@);
        }
        let ghost before = rows_view(rows@);
        let bare = csv::strip_bom(lines[i].as_str());
        let l = text::chars_of(bare.as_str());
        if !(l.len() == 0 || l[0] == '#') {
            if !header_seen {
                header_seen = true;
            } else {
                let fields = csv::split_csv_line(lines[i].as_str());
                rows.push(fields);
                assert(rows_view(rows@) =~= before.push(csv::fields_of(lines@[i as int]@)));
            }
        }
        i += 1;
    }
    assert(ls.take(ls.len() as int) =~= ls);
    rows
}

/// A recorded row as the live page lists it; the hours stay as they are written.
pub struct HistoryRow {
    pub timestamp: String,
    pub staff: String,
    pub client: String,
    pub engagement: String,
    pub narrative: String,
    pub minutes: i64,
    pub hours: String,
    pub billable: bool,
    pub method: String,
    pub workstream_id: Option<String>,
}

/// What the live page lists of a row.
pub open spec fn is_history(h: HistoryRow, f: Seq<Seq<char>>) -> bool {
    &&& h.timestamp@ == f[0]
    &&& h.staff@ == f[1]
    &&& h.client@ == f[2]
    &&& h.engagement@ == f[3]
    &&& h.narrative@ == f[4]
    &&& h.minutes == match text::parse_int(f[5]) {
        Some(n) => if i64::MIN <= n <= i64::MAX {
            n
        } else {
            0
        },
        None => 0,
    }
    &&& h.hours@ == f[6]
    &&& h.billable == text::same_but_case(f[7], "true"@)
    &&& h.method@ == f[8]
    &&& match h.workstream_id {
        Some(w) => f.len() > 9 && f[9].len() > 0 && w@ == f[9],
        None => f.len() <= 9 || f[9].len() == 0,
    }
}

/// The last rows of a file that have all columns, the latest first, at most `limit`.
pub open spec fn recent(rows: Seq<Seq<Seq<char>>>, limit: nat) -> Seq<Seq<Seq<char>>>
    decreases rows.len(),
{
    if rows.len() == 0 || limit == 0 {
        Seq::empty()
    } else if rows.last().len() < 9 {
        recent(rows.drop_last(), limit)
    } else {
        seq![rows.last()] + recent(rows.drop_last(), (limit - 1) as nat)
    }
}

fn history_row(fields: &Vec<String>) -> (h: HistoryRow)
    requires
        fields@.len() >= 9,
    ensures
        is_history(h, text::texts(fields@)),
{
    let ghost f = text::texts(fields@);
    proof {
        assert(f[0] == fields@[0]@ && f[1] == fields@[1]@ && f[2] == fields@[2]@ && f[3]
            == fields@[3]@ && f[4] == fields@[4]@ && f[5] == fields@[5]@ && f[6] == fields@[6]@
            && f[7] == fields@[7]@ && f[8] == fields@[8]@);
        if f.len() > 9 {
            assert(f[9] == fields@[9]@);
        }
    }
    let minutes: i64 = match text::parse_i64(fields[5].as_str()) {
        Some(n) => n,
        None => 0,
    };
    let workstream_id: Option<String> = if fields.len() > 9 && text::chars_of(
        fields[9].as_str(),
    ).len() > 0 {
        Some(fields[9].clone())
    } else {
        None
    };
    HistoryRow {
        timestamp: fields[0].clone(),
        staff: fields[1].clone(),
        client: fields[2].clone(),
        engagement: fields[3].clone(),
        narrative: fields[4].clone(),
        minutes,
        hours: fields[6].clone(),
        billable: text::eq_ignore_case(fields[7].as_str(), "true"),
        method: fields[8].clone(),
        workstream_id,
    }
}

/// The last rows of a month's file, the latest first, at most `limit`.
pub fn recent_entries(content: &str, limit: usize) -> (r: Vec<HistoryRow>)
    ensures
        r@.len() == recent(data_rows(content@), limit as nat).len(),
        forall|i: int|
            0 <= i < r@.len() ==> is_history(
                #[trigger] r@[i],
                recent(data_rows(content@), limit as nat)[i],
            ),
{
    let rows = csv_data_rows(content);
    let ghost all = data_rows(content@);
    let mut out: Vec<HistoryRow> = Vec::new();
    let mut k: usize = rows.len();
    let ghost want = recent(all, limit as nat);
    assert(all.take(k as int) =~= all);
    let ghost mut done: Seq<Seq<Seq<char>>> = Seq::empty();
    assert(want =~= done + want);
    while k > 0 && out.len() < limit
        invariant
            k <= rows@.len(),
            out@.len() <= limit,
            all == rows_view(rows@),
            done.len() == out@.len(),
            want == done + recent(all.take(k as int), (limit - out@.len()) as nat),
            forall|i: int| 0 <= i < out@.len() ==> is_history(#[trigger] out@[i], done[i]),
        decreases k,
    {
        proof {
            assert(all.take(k as int).drop_last() =~= all.take(k - 1));
            assert(all.take(k as int).last() == text::texts(rows@[k - 1]@));
        }
        if rows[k - 1].len() >= 9 {
            let ghost f = text::texts(rows@[k - 1]@);
            let ghost left = (limit - out@.len() - 1) as nat;
            out.push(history_row(&rows[k - 1]));
            proof {
                assert(want =~= done.push(f) + recent(all.take(k - 1), left));
                done = done.push(f);
            }
        }
        k -= 1;
    }
    assert(recent(all.take(k as int), (limit - out@.len()) as nat) =~= Seq::empty());
    assert(want =~= done);
    out
}

// ---- laws -----------------------------------------------------------------

/// The lines in front are comments and one line of column names, and one byte
/// order mark stands at their start.
pub open spec fn prefix_well_formed(m: CsvModel) -> bool {
    &&& m.prefix.len() >= 1
    &&& m.prefix[0] == seq![csv::BOM] + csv::without_bom(m.prefix[0])
    &&& forall|i: int| 1 <= i < m.prefix.len() ==> csv::without_bom(#[trigger] m.prefix[i]) == m.prefix[i]
    &&& forall|i: int| 0 <= i < m.prefix.len() ==> !(#[trigger] m.prefix[i]).contains('\n')
    &&& read_lines(m.prefix).header
    &&& read_lines(m.prefix).file == CsvModel { rows: Seq::empty(), ..m }
}

/// A row that stands on one line of its own: no line feed in it, more than one
/// empty field, and nothing at its start that marks a comment or a file's start.
pub open spec fn row_well_formed(row: Seq<Seq<char>>) -> bool {
    &&& row.len() >= 1
    &&& row.len() >= 2 || row[0].len() > 0
    &&& forall|i: int| 0 <= i < row.len() ==> !(#[trigger] row[i]).contains('\n')
    &&& !(row[0].len() > 0 && (row[0][0] == '#' || row[0][0] == csv::BOM))
}

pub open spec fn rows_well_formed(m: CsvModel) -> bool {
    forall|i: int| 0 <= i < m.rows.len() ==> row_well_formed(#[trigger] m.rows[i])
}

pub open spec fn guarded_row(row: Seq<Seq<char>>) -> Seq<Seq<char>> {
    row.map_values(|f: Seq<char>| csv::guarded(f))
}

pub open spec fn guarded_rows(rows: Seq<Seq<Seq<char>>>) -> Seq<Seq<Seq<char>>> {
    rows.map_values(|r: Seq<Seq<char>>| guarded_row(r))
}

proof fn lemma_lines_split(lines: Seq<Seq<char>>)
    requires
        forall|i: int| 0 <= i < lines.len() ==> !(#[trigger] lines[i]).contains('\n'),
    ensures
        text::split_on(with_line_ends(lines), '\n') == lines.map_values(
            |l: Seq<char>| l.push('\r'),
        ).push(Seq::empty()),
    decreases lines.len(),
{
    let f = |l: Seq<char>| l.push('\r');
    if lines.len() == 0 {
        assert(lines.map_values(f).push(Seq::empty()) =~= seq![Seq::<char>::empty()]);
    } else {
        let init = lines.drop_last();
        let l = lines.last();
        lemma_lines_split(init);
        let t = with_line_ends(init);
        let b = l.push('\r');
        assert(!l.contains('\n'));
        assert(!b.contains('\n')) by {
            if b.contains('\n') {
                let i = choose|i: int| 0 <= i < b.len() && b[i] == '\n';
                assert(l[i] == '\n');
            }
        }
        text::split_extend(t, b, '\n');
        assert(with_line_ends(lines) =~= (t + b).push('\n'));
        assert((t + b).push('\n').drop_last() =~= t + b);
        let p = text::split_on(t, '\n');
        assert(p.last() + b =~= b);
        assert(p.drop_last() =~= init.map_values(f));
        assert(lines.map_values(f) =~= init.map_values(f).push(b));
    }
}

/// The lines of a text are those it was put together from, and an empty one.
pub proof fn files_are_lines(lines: Seq<Seq<char>>)
    requires
        forall|i: int| 0 <= i < lines.len() ==> !(#[trigger] lines[i]).contains('\n'),
    ensures
        lines_of(with_line_ends(lines)) == lines.push(Seq::empty()),
{
    lemma_lines_split(lines);
    let p = text::split_on(with_line_ends(lines), '\n');
    assert forall|i: int| 0 <= i < lines.len() implies without_cr(#[trigger] p[i]) == lines[i] by {
        assert(p[i] == lines[i].push('\r'));
        assert(lines[i].push('\r').drop_last() =~= lines[i]);
    }
    assert(lines_of(with_line_ends(lines)) =~= lines.push(Seq::empty()));
}

proof fn lemma_ends_concat(a: Seq<Seq<char>>, b: Seq<Seq<char>>)
    ensures
        with_line_ends(a + b) == with_line_ends(a) + with_line_ends(b),
    decreases b.len(),
{
    if b.len() == 0 {
        assert(a + b =~= a);
        assert(with_line_ends(a) + with_line_ends(b) =~= with_line_ends(a));
    } else {
        lemma_ends_concat(a, b.drop_last());
        assert((a + b).drop_last() =~= a + b.drop_last());
        assert(with_line_ends(a + b) =~= with_line_ends(a) + with_line_ends(b));
    }
}

proof fn lemma_first_line(prefix: Seq<Seq<char>>)
    requires
        prefix.len() >= 1,
    ensures
        with_line_ends(prefix) == prefix[0] + seq!['\r', '\n'] + with_line_ends(prefix.skip(1)),
{
    let a = seq![prefix[0]];
    assert(prefix =~= a + prefix.skip(1));
    lemma_ends_concat(a, prefix.skip(1));
    assert(a.drop_last() =~= Seq::empty());
    assert(with_line_ends(a.drop_last()) =~= Seq::empty());
    assert(with_line_ends(a) =~= prefix[0] + seq!['\r', '\n']);
}

proof fn lemma_doubled_no_newline(s: Seq<char>)
    requires
        !s.contains('\n'),
    ensures
        !doubled_has_newline(s),
    decreases s.len(),
{
    if s.len() > 0 {
        let s0 = s.drop_last();
        assert(s[s.len() - 1] != '\n');
        assert forall|x: char| s0.contains(x) implies s.contains(x) by {
            let k = choose|k: int| 0 <= k < s0.len() && s0[k] == x;
            assert(s[k] == x);
        }
        lemma_doubled_no_newline(s0);
        let d = csv::doubled(s);
        let d0 = csv::doubled(s0);
        if d.contains('\n') {
            let k = choose|k: int| 0 <= k < d.len() && d[k] == '\n';
            assert(k < d0.len());
            assert(d0[k] == '\n');
            assert(d0.contains('\n'));
        }
    }
}

spec fn doubled_has_newline(s: Seq<char>) -> bool {
    csv::doubled(s).contains('\n')
}

proof fn lemma_escaped_no_newline(s: Seq<char>)
    requires
        !s.contains('\n'),
    ensures
        !csv::escaped(s).contains('\n'),
{
    let g = csv::guarded(s);
    assert(!g.contains('\n')) by {
        if g.contains('\n') {
            let k = choose|k: int| 0 <= k < g.len() && g[k] == '\n';
            if csv::is_dangerous(s) {
                assert(s[k - 1] == '\n');
            }
        }
    }
    lemma_doubled_no_newline(g);
    let d = csv::doubled(g);
    let e = csv::escaped(s);
    if e.contains('\n') {
        let k = choose|k: int| 0 <= k < e.len() && e[k] == '\n';
        if csv::needs_quotes(g) {
            assert(0 < k < e.len() - 1);
            assert(d[k - 1] == '\n');
            assert(d.contains('\n'));
        }
    }
}

proof fn lemma_line(row: Seq<Seq<char>>)
    requires
        row_well_formed(row),
    ensures
        !csv::line_of(row).contains('\n'),
        csv::line_of(row).len() > 0,
        csv::line_of(row)[0] != '#',
        csv::line_of(row)[0] != csv::BOM,
    decreases row.len(),
{
    lemma_escaped_no_newline(row[0]);
    if row.len() > 1 {
        let init = row.drop_last();
        let e = csv::escaped(row.last());
        assert(!row[row.len() - 1].contains('\n'));
        lemma_escaped_no_newline(row.last());
        if init.len() >= 2 || init[0].len() > 0 {
            assert forall|i: int| 0 <= i < init.len() implies !(#[trigger] init[i]).contains(
                '\n',
            ) by {
                assert(init[i] == row[i]);
            }
            lemma_line(init);
        } else {
            assert(csv::line_of(init) =~= Seq::<char>::empty());
        }
        let l = csv::line_of(row);
        if l.contains('\n') {
            let k = choose|k: int| 0 <= k < l.len() && l[k] == '\n';
            let a = csv::line_of(init);
            if k < a.len() {
                assert(a[k] == '\n');
                assert(a.contains('\n'));
            } else {
                assert(k > a.len());
                assert(e[k - a.len() - 1] == '\n');
                assert(e.contains('\n'));
            }
        }
    }
}

proof fn lemma_read_rows(prefix: Seq<Seq<char>>, rows: Seq<Seq<Seq<char>>>)
    requires
        read_lines(prefix).header,
        forall|i: int| 0 <= i < rows.len() ==> row_well_formed(#[trigger] rows[i]),
    ensures
        ({
            let m = read_lines(prefix);
            read_lines(prefix + rows_out(rows)) == Loading {
                file: CsvModel { rows: m.file.rows + guarded_rows(rows), ..m.file },
                ..m
            }
        }),
    decreases rows.len(),
{
    let m = read_lines(prefix);
    let all = prefix + rows_out(rows);
    if rows.len() == 0 {
        assert(all =~= prefix);
        assert(m.file.rows + guarded_rows(rows) =~= m.file.rows);
    } else {
        let init = rows.drop_last();
        let row = rows.last();
        assert(row_well_formed(rows[rows.len() - 1]));
        assert forall|i: int| 0 <= i < init.len() implies row_well_formed(#[trigger] init[i]) by {
            assert(init[i] == rows[i]);
        }
        lemma_read_rows(prefix, init);
        assert(all.drop_last() =~= prefix + rows_out(init));
        let l = csv::line_of(row);
        assert(all.last() == l);
        lemma_line(row);
        assert(csv::without_bom(l) == l);
        csv::fields_read_back(row);
        assert(csv::fields_of(l) =~= guarded_row(row));
        assert((m.file.rows + guarded_rows(init)).push(guarded_row(row)) =~= m.file.rows
            + guarded_rows(rows));
    }
}

/// A file is read back as it was written, each field with its guard.
pub proof fn files_read_back(m: CsvModel)
    requires
        prefix_well_formed(m),
        rows_well_formed(m),
    ensures
        parsed(rendered(m)) == (CsvModel { rows: guarded_rows(m.rows), ..m }),
{
    let px = prefix_out(m.prefix);
    let rx = rows_out(m.rows);
    let all = m.prefix + rx;
    let body = with_line_ends(px) + with_line_ends(rx);
    lemma_first_line(px);
    lemma_first_line(m.prefix);
    assert(px.skip(1) =~= m.prefix.skip(1));
    let rest = with_line_ends(px.skip(1)) + with_line_ends(rx);
    lemma_no_bom_front(m.prefix[0]);
    assert(body =~= px[0] + seq!['\r', '\n'] + rest);
    assert(!(body.len() > 0 && body[0] == csv::BOM)) by {
        if px[0].len() > 0 {
            assert(body[0] == px[0][0]);
        } else {
            assert(body[0] == '\r');
        }
    }
    lemma_ends_concat(m.prefix, rx);
    assert(rendered(m) =~= with_line_ends(all)) by {
        assert(rendered(m) == seq![csv::BOM] + body);
        assert(with_line_ends(m.prefix) == m.prefix[0] + seq!['\r', '\n'] + with_line_ends(
            m.prefix.skip(1),
        ));
    }
    assert forall|i: int| 0 <= i < all.len() implies !(#[trigger] all[i]).contains('\n') by {
        if i < m.prefix.len() {
            assert(all[i] == m.prefix[i]);
        } else {
            assert(row_well_formed(m.rows[i - m.prefix.len()]));
            lemma_line(m.rows[i - m.prefix.len()]);
        }
    }
    files_are_lines(all);
    assert(all.push(Seq::empty()).drop_last() =~= all);
    lemma_read_rows(m.prefix, m.rows);
    assert(Seq::<Seq<Seq<char>>>::empty() + guarded_rows(m.rows) =~= guarded_rows(m.rows));
}

proof fn lemma_no_bom_front(s: Seq<char>)
    ensures
        !(csv::without_bom(s).len() > 0 && csv::without_bom(s)[0] == csv::BOM),
    decreases s.len(),
{
    if s.len() > 0 && s[0] == csv::BOM {
        lemma_no_bom_front(s.skip(1));
    }
}

proof fn lemma_bom_once(s: Seq<char>)
    ensures
        csv::without_bom(csv::without_bom(s)) == csv::without_bom(s),
        csv::without_bom(seq![csv::BOM] + csv::without_bom(s)) == csv::without_bom(s),
{
    lemma_no_bom_front(s);
    let t = seq![csv::BOM] + csv::without_bom(s);
    assert(t.skip(1) =~= csv::without_bom(s));
}

/// A new file is read back as it is.
pub proof fn new_files_read_back()
    ensures
        prefix_well_formed(fresh()),
        parsed(rendered(fresh())) == fresh(),
{
    let m = fresh();
    reveal_strlit("# time-tracker v0.3");
    reveal_strlit(
        "date,staff,client,engagement,narrative,minutes,hours_decimal,billable,entry_method,workstream_id",
    );
    let banner = seq![csv::BOM] + VERSION_COMMENT@;
    assert(banner.skip(1) =~= VERSION_COMMENT@);
    assert(csv::without_bom(VERSION_COMMENT@) == VERSION_COMMENT@);
    assert(csv::without_bom(banner) == VERSION_COMMENT@);
    assert(csv::without_bom(HEADER@) == HEADER@);
    assert(VERSION_COMMENT@[0] == '#');
    assert(HEADER@[0] == 'd');
    assert(!banner.contains('\n'));
    assert(!HEADER@.contains('\n'));
    let one = seq![banner];
    assert(m.prefix.drop_last() =~= one);
    assert(one.drop_last() =~= Seq::empty());
    assert(read_lines(Seq::empty()).file.prefix.push(banner) =~= one);
    assert(read_lines(one).file.prefix == one && !read_lines(one).header);
    assert(one.push(HEADER@) =~= m.prefix);
    assert(read_lines(m.prefix).file =~= m);
    files_read_back(m);
    assert(guarded_rows(m.rows) =~= m.rows);
}

/// The lines in front as they are written: one byte order mark, at the start.
spec fn normal(prefix: Seq<Seq<char>>) -> Seq<Seq<char>> {
    Seq::new(
        prefix.len(),
        |i: int|
            if i == 0 {
                seq![csv::BOM] + csv::without_bom(prefix[i])
            } else {
                csv::without_bom(prefix[i])
            },
    )
}

proof fn lemma_normal(lines: Seq<Seq<char>>)
    requires
        ({
            let p = read_lines(lines).file.prefix;
            forall|i: int| 0 <= i < p.len() ==> csv::without_bom(#[trigger] p[i]).len() > 0
        }),
    ensures
        ({
            let m = read_lines(lines);
            read_lines(normal(m.file.prefix)) == (Loading {
                file: CsvModel {
                    prefix: normal(m.file.prefix),
                    rows: Seq::empty(),
                    v02: m.file.v02,
                },
                header: m.header,
            })
        }),
    decreases lines.len(),
{
    let m = read_lines(lines);
    let p = m.file.prefix;
    if lines.len() == 0 {
        assert(normal(p) =~= Seq::empty());
    } else {
        let m0 = read_lines(lines.drop_last());
        let p0 = m0.file.prefix;
        let line = lines.last();
        assert forall|i: int| 0 <= i < p0.len() implies csv::without_bom(#[trigger] p0[i]).len()
            > 0 by {
            assert(p0[i] == p[i]);
        }
        lemma_normal(lines.drop_last());
        if p.len() > p0.len() {
            assert(p =~= p0.push(line));
            assert(p[p0.len() as int] == line);
            lemma_bom_once(line);
            let n = normal(p).last();
            assert(normal(p).drop_last() =~= normal(p0));
            assert(normal(p0).push(n) =~= normal(p));
            assert(csv::without_bom(n) == csv::without_bom(line));
            assert(n.len() > 0);
        }
    }
}

proof fn lemma_pieces_hold_none(s: Seq<char>, c: char)
    ensures
        forall|i: int|
            0 <= i < text::split_on(s, c).len() ==> !(#[trigger] text::split_on(s, c)[i]).contains(
                c,
            ),
    decreases s.len(),
{
    if s.len() > 0 {
        let s0 = s.drop_last();
        lemma_pieces_hold_none(s0, c);
        text::split_extend(s0, Seq::empty(), c);
        let p0 = text::split_on(s0, c);
        let p = text::split_on(s, c);
        assert forall|i: int| 0 <= i < p.len() implies !(#[trigger] p[i]).contains(c) by {
            if i < p0.len() - 1 {
                assert(p[i] == p0[i]);
            } else if s.last() != c {
                let l = p0.last();
                assert(!p0[p0.len() - 1].contains(c));
                if p[i].contains(c) {
                    let k = choose|k: int| 0 <= k < p[i].len() && p[i][k] == c;
                    assert(l[k] == c);
                }
            } else if i == p0.len() - 1 {
                assert(p[i] == p0[i]);
            }
        }
    }
}

proof fn lemma_lines_are_lines(content: Seq<char>)
    ensures
        forall|i: int|
            0 <= i < lines_of(content).len() ==> !(#[trigger] lines_of(content)[i]).contains('\n'),
{
    lemma_pieces_hold_none(content, '\n');
    let p = text::split_on(content, '\n');
    let l = lines_of(content);
    assert forall|i: int| 0 <= i < l.len() implies !(#[trigger] l[i]).contains('\n') by {
        assert(!p[i].contains('\n'));
        if l[i].contains('\n') {
            let k = choose|k: int| 0 <= k < l[i].len() && l[i][k] == '\n';
            assert(p[i][k] == '\n');
        }
    }
}

spec fn holds_no_newline(r: csv::Reading) -> bool {
    &&& !r.field.contains('\n')
    &&& forall|i: int| 0 <= i < r.done.len() ==> !(#[trigger] r.done[i]).contains('\n')
}

proof fn lemma_fields_hold_none(r: csv::Reading, s: Seq<char>)
    requires
        holds_no_newline(r),
        !s.contains('\n'),
    ensures
        holds_no_newline(csv::read_chars(r, s)),
    decreases s.len(),
{
    if s.len() > 0 {
        let s0 = s.drop_last();
        assert forall|x: char| s0.contains(x) implies s.contains(x) by {
            let k = choose|k: int| 0 <= k < s0.len() && s0[k] == x;
            assert(s[k] == x);
        }
        lemma_fields_hold_none(r, s0);
        let m = csv::read_chars(r, s0);
        let c = s.last();
        assert(s[s.len() - 1] == c);
        let f = m.field.push(c);
        assert(!f.contains('\n')) by {
            if f.contains('\n') {
                let k = choose|k: int| 0 <= k < f.len() && f[k] == '\n';
                assert(m.field[k] == '\n');
            }
        }
        assert(!Seq::<char>::empty().contains('\n'));
        let n = csv::read_char(m, c);
        assert forall|i: int| 0 <= i < n.done.len() implies !(#[trigger] n.done[i]).contains('\n') by {
            if i < m.done.len() {
                assert(n.done[i] == m.done[i]);
            }
        }
    }
}

proof fn lemma_without_bom_holds_none(s: Seq<char>)
    requires
        !s.contains('\n'),
    ensures
        !csv::without_bom(s).contains('\n'),
    decreases s.len(),
{
    if s.len() > 0 && s[0] == csv::BOM {
        let t = s.skip(1);
        assert forall|x: char| t.contains(x) implies s.contains(x) by {
            let k = choose|k: int| 0 <= k < t.len() && t[k] == x;
            assert(s[k + 1] == x);
        }
        lemma_without_bom_holds_none(t);
    }
}

proof fn lemma_row_of_line(line: Seq<char>)
    requires
        !line.contains('\n'),
    ensures
        csv::fields_of(line).len() >= 1,
        forall|i: int|
            0 <= i < csv::fields_of(line).len() ==> !(#[trigger] csv::fields_of(line)[i]).contains(
                '\n',
            ),
{
    lemma_without_bom_holds_none(line);
    assert(!Seq::<char>::empty().contains('\n'));
    lemma_fields_hold_none(csv::nothing_read(), csv::without_bom(line));
}

/// The row is written on a line that is read as a row again: it is not one empty
/// field, and nothing at its start marks a comment or a file's start.
pub open spec fn row_stays(row: Seq<Seq<char>>) -> bool {
    &&& row.len() >= 2 || row[0].len() > 0
    &&& !(row[0].len() > 0 && (row[0][0] == '#' || row[0][0] == csv::BOM))
}

proof fn lemma_parsed_lines(lines: Seq<Seq<char>>)
    requires
        forall|i: int| 0 <= i < lines.len() ==> !(#[trigger] lines[i]).contains('\n'),
    ensures
        ({
            let m = read_lines(lines);
            &&& forall|i: int|
                0 <= i < m.file.prefix.len() ==> !(#[trigger] m.file.prefix[i]).contains('\n')
            &&& forall|i: int|
                0 <= i < m.file.rows.len() ==> row_stays(#[trigger] m.file.rows[i])
                    ==> row_well_formed(m.file.rows[i])
            &&& m.file.rows.len() > 0 ==> m.header
            &&& m.header ==> m.file.prefix.len() > 0
        }),
    decreases lines.len(),
{
    if lines.len() > 0 {
        let init = lines.drop_last();
        assert forall|i: int| 0 <= i < init.len() implies !(#[trigger] init[i]).contains('\n') by {
            assert(init[i] == lines[i]);
        }
        lemma_parsed_lines(init);
        assert(!lines[lines.len() - 1].contains('\n'));
        lemma_row_of_line(lines.last());
        let m0 = read_lines(init).file;
        let m = read_lines(lines).file;
        assert forall|i: int| 0 <= i < m.prefix.len() implies !(#[trigger] m.prefix[i]).contains(
            '\n',
        ) by {
            if i < m0.prefix.len() {
                assert(m.prefix[i] == m0.prefix[i]);
            }
        }
        assert forall|i: int| 0 <= i < m.rows.len() && row_stays(#[trigger] m.rows[i]) implies
            row_well_formed(m.rows[i]) by {
            if i < m0.rows.len() {
                assert(m.rows[i] == m0.rows[i]);
            }
        }
    }
}

/// Reading a file that holds some rows and writing it again keeps all of them, each
/// field with its guard, and the number of columns.
pub proof fn rewriting_keeps_the_rows(content: Seq<char>)
    requires
        parsed(content).rows.len() > 0,
        forall|i: int|
            0 <= i < parsed(content).rows.len() ==> row_stays(#[trigger] parsed(content).rows[i]),
        forall|i: int|
            0 <= i < parsed(content).prefix.len() ==> csv::without_bom(
                #[trigger] parsed(content).prefix[i],
            ).len() > 0,
    ensures
        parsed(rendered(parsed(content))).rows == guarded_rows(parsed(content).rows),
        parsed(rendered(parsed(content))).v02 == parsed(content).v02,
{
    let m = parsed(content);
    let lines = lines_of(content);
    lemma_lines_are_lines(content);
    lemma_parsed_lines(lines);
    lemma_normal(lines);
    let n = CsvModel { prefix: normal(m.prefix), ..m };
    assert forall|i: int| 0 <= i < m.prefix.len() implies csv::without_bom(
        #[trigger] n.prefix[i],
    ) == csv::without_bom(m.prefix[i]) && !n.prefix[i].contains('\n') by {
        lemma_bom_once(m.prefix[i]);
        lemma_without_bom_holds_none(m.prefix[i]);
        let w = csv::without_bom(m.prefix[i]);
        if i == 0 && n.prefix[i].contains('\n') {
            let k = choose|k: int| 0 <= k < n.prefix[i].len() && n.prefix[i][k] == '\n';
            assert(w[k - 1] == '\n');
        }
    }
    assert(prefix_out(n.prefix) =~= prefix_out(m.prefix));
    assert(rendered(n) == rendered(m));
    assert(prefix_well_formed(n));
    assert forall|i: int| 0 <= i < n.rows.len() implies row_well_formed(#[trigger] n.rows[i]) by {
        assert(row_stays(m.rows[i]));
    }
    files_read_back(n);
}

/// A row added at the end of a file is read as its last one, each field with its
/// guard, and everything before it as it was.
pub proof fn added_rows_are_read(content: Seq<char>, row: Seq<Seq<char>>)
    requires
        content.len() > 0,
        content.last() == '\n',
        read_lines(lines_of(content)).header,
        row_well_formed(row),
    ensures
        ({
            let m = parsed(content);
            parsed(content + csv::line_of(row) + seq!['\r', '\n']) == CsvModel {
                rows: m.rows.push(guarded_row(row)),
                ..m
            }
        }),
        read_lines(lines_of(content + csv::line_of(row) + seq!['\r', '\n'])).header,
{
    let line = csv::line_of(row);
    let b = line.push('\r');
    lemma_line(row);
    assert(!b.contains('\n')) by {
        if b.contains('\n') {
            let k = choose|k: int| 0 <= k < b.len() && b[k] == '\n';
            assert(line[k] == '\n');
        }
    }
    let p = text::split_on(content, '\n');
    let empty = Seq::<char>::empty();
    text::split_extend(content, b, '\n');
    assert(p.last() == empty);
    assert(p.last() + b =~= b);
    let all = content + line + seq!['\r', '\n'];
    assert(all =~= (content + b).push('\n'));
    assert(all.drop_last() =~= content + b);
    let q = text::split_on(all, '\n');
    assert(q == p.drop_last().push(b).push(empty));
    let old = lines_of(content);
    let new = lines_of(all);
    assert(without_cr(b) =~= line);
    assert(new =~= old.drop_last().push(line).push(empty)) by {
        assert forall|i: int| 0 <= i < p.len() - 1 implies new[i] == #[trigger] old[i] by {
            assert(q[i] == p[i]);
        }
    }
    assert(new.drop_last() =~= old.drop_last().push(line));
    assert(old.drop_last().push(line).drop_last() =~= old.drop_last());
    assert(read_lines(old) == read_lines(old.drop_last()));
    assert(read_lines(new) == read_lines(new.drop_last()));
    assert(read_lines(old.drop_last().push(line)) == read_line(read_lines(old), line));
    assert(csv::without_bom(line) == line);
    csv::fields_read_back(row);
    assert(csv::fields_of(line) =~= guarded_row(row));
}

/// How a file is read, line by line: lines that begin with `#` and the first of the
/// others are kept as they stand, empty lines are passed over, and each of the rest is
/// a row. A line that begins with `#` makes it a file of ten columns.
pub proof fn files_are_read_line_by_line(lines: Seq<Seq<char>>)
    ensures
        ({
            let marked = |l: Seq<char>|
                csv::without_bom(l).len() > 0 && csv::without_bom(l)[0] == '#';
            let plain = lines.filter(|l: Seq<char>| l.len() > 0 && !marked(l));
            let m = read_lines(lines);
            &&& m.header == (plain.len() > 0)
            &&& m.file.rows.len() == if plain.len() > 0 {
                plain.len() - 1
            } else {
                0
            }
            &&& forall|i: int|
                0 <= i < m.file.rows.len() ==> #[trigger] m.file.rows[i] == csv::fields_of(
                    plain[i + 1],
                )
            &&& m.file.v02 == exists|i: int|
                0 <= i < lines.len() && (#[trigger] lines[i]).len() > 0 && marked(lines[i])
        }),
    decreases lines.len(),
{
    reveal(Seq::filter);
    let marked = |l: Seq<char>| csv::without_bom(l).len() > 0 && csv::without_bom(l)[0] == '#';
    let keep = |l: Seq<char>| l.len() > 0 && !marked(l);
    if lines.len() > 0 {
        let init = lines.drop_last();
        let l = lines.last();
        files_are_read_line_by_line(init);
        let before = read_lines(init);
        let now = read_lines(lines);
        let plain = lines.filter(keep);
        assert(init.filter(keep) == init.filter(|l: Seq<char>| l.len() > 0 && !marked(l)));
        assert(is_comment(l) == marked(l));
        assert forall|i: int| 0 <= i < now.file.rows.len() implies #[trigger] now.file.rows[i]
            == csv::fields_of(plain[i + 1]) by {
            if i < before.file.rows.len() {
                assert(now.file.rows[i] == before.file.rows[i]);
                assert(plain[i + 1] == init.filter(keep)[i + 1]);
            }
        }
        if before.file.v02 {
            let i = choose|i: int|
                0 <= i < init.len() && (#[trigger] init[i]).len() > 0 && marked(init[i]);
            assert(lines[i] == init[i]);
        }
        if l.len() > 0 && marked(l) {
            assert(lines[lines.len() - 1].len() > 0 && marked(lines[lines.len() - 1]));
        }
        if exists|i: int|
            0 <= i < lines.len() && (#[trigger] lines[i]).len() > 0 && marked(lines[i]) {
            let i = choose|i: int|
                0 <= i < lines.len() && (#[trigger] lines[i]).len() > 0 && marked(lines[i]);
            if i < init.len() {
                assert(init[i].len() > 0 && marked(init[i]));
            }
        }
    }
}

/// What is kept in front of the rows of a file: its lines that begin with `#`, and the
/// first of the others, in their order.
pub proof fn heads_of_files_are_kept(lines: Seq<Seq<char>>, line: Seq<char>)
    ensures
        ({
            let marked = csv::without_bom(line).len() > 0 && csv::without_bom(line)[0] == '#';
            let before = read_lines(lines);
            let after = read_lines(lines.push(line));
            &&& read_lines(Seq::empty()).file.prefix.len() == 0
            &&& after.file.prefix == if line.len() > 0 && (marked || !before.header) {
                before.file.prefix.push(line)
            } else {
                before.file.prefix
            }
        }),
{
    assert(lines.push(line).drop_last() =~= lines);
}

/// The rows of a file as they are taken for a listing: of its lines that are not empty
/// and do not begin with `#`, all but the first.
pub proof fn data_rows_are_the_lines_behind_the_head(lines: Seq<Seq<char>>)
    ensures
        ({
            let plain = lines.filter(
                |l: Seq<char>|
                    csv::without_bom(l).len() > 0 && csv::without_bom(l)[0] != '#',
            );
            let m = read_rows(lines);
            &&& m.header == (plain.len() > 0)
            &&& m.rows.len() == if plain.len() > 0 {
                plain.len() - 1
            } else {
                0
            }
            &&& forall|i: int|
                0 <= i < m.rows.len() ==> #[trigger] m.rows[i] == csv::fields_of(plain[i + 1])
        }),
    decreases lines.len(),
{
    reveal(Seq::filter);
    if lines.len() > 0 {
        let keep = |l: Seq<char>| csv::without_bom(l).len() > 0 && csv::without_bom(l)[0] != '#';
        let init = lines.drop_last();
        data_rows_are_the_lines_behind_the_head(init);
        let before = read_rows(init);
        let now = read_rows(lines);
        let plain = lines.filter(keep);
        assert forall|i: int| 0 <= i < now.rows.len() implies #[trigger] now.rows[i]
            == csv::fields_of(plain[i + 1]) by {
            if i < before.rows.len() {
                assert(now.rows[i] == before.rows[i]);
                assert(plain[i + 1] == init.filter(keep)[i + 1]);
            }
        }
    }
}

/// Lines end at a line feed, with a carriage return in front of it or without.
pub proof fn lines_end_at_line_feeds(s: Seq<char>, t: Seq<char>)
    requires
        !t.contains('\n'),
    ensures
        lines_of(t) == seq![t],
        ({
            let before = lines_of(s);
            let last = before.last();
            &&& before.len() > 0
            &&& lines_of(s.push('\n') + t) == before.drop_last().push(
                if last.len() > 0 && last.last() == '\r' {
                    last.drop_last()
                } else {
                    last
                },
            ).push(t)
        }),
{
    text::split_none(t, '\n');
    text::split_last(s, t, '\n');
    text::split_extend(s, Seq::empty(), '\n');
    assert(lines_of(t) =~= seq![t]);
    let before = lines_of(s);
    let last = before.last();
    assert(lines_of(s.push('\n') + t) =~= before.drop_last().push(
        if last.len() > 0 && last.last() == '\r' {
            last.drop_last()
        } else {
            last
        },
    ).push(t));
}

/// The latest rows are the last ones of nine columns, the very last first, as many as
/// are asked for or as there are.
pub proof fn latest_rows_come_first(rows: Seq<Seq<Seq<char>>>, limit: nat)
    ensures
        ({
            let full = rows.filter(|r: Seq<Seq<char>>| r.len() >= 9);
            let latest = recent(rows, limit);
            &&& latest.len() == if full.len() < limit {
                full.len()
            } else {
                limit
            }
            &&& forall|i: int|
                0 <= i < latest.len() ==> #[trigger] latest[i] == full[full.len() - 1 - i]
        }),
    decreases rows.len(),
{
    reveal(Seq::filter);
    if rows.len() > 0 && limit > 0 {
        let keep = |r: Seq<Seq<char>>| r.len() >= 9;
        let init = rows.drop_last();
        if rows.last().len() < 9 {
            latest_rows_come_first(init, limit);
        } else {
            latest_rows_come_first(init, (limit - 1) as nat);
            let full = rows.filter(keep);
            let latest = recent(rows, limit);
            let rest = recent(init, (limit - 1) as nat);
            assert forall|i: int| 0 <= i < latest.len() implies #[trigger] latest[i]
                == full[full.len() - 1 - i] by {
                if i > 0 {
                    assert(latest[i] == rest[i - 1]);
                }
            }
        }
    }
}

/// A row of the history shows the columns of its line: date, staff, client, engagement,
/// narrative, minutes, hours, flag, method, and the workstream where there is one.
pub proof fn history_shows_the_columns(h: HistoryRow, f: Seq<Seq<char>>)
    requires
        is_history(h, f),
    ensures
        h.timestamp@ == f[0],
        h.staff@ == f[1],
        h.client@ == f[2],
        h.engagement@ == f[3],
        h.narrative@ == f[4],
        match text::parse_int(f[5]) {
            Some(m) => i64::MIN <= m <= i64::MAX ==> h.minutes == m,
            None => h.minutes == 0,
        },
        h.hours@ == f[6],
        h.billable == (text::lower(f[7]) == seq!['t', 'r', 'u', 'e']),
        h.method@ == f[8],
        h.workstream_id matches Some(w) ==> f.len() > 9 && w@ == f[9] && w@.len() > 0,
        h.workstream_id is None ==> f.len() <= 9 || f[9].len() == 0,
{
    reveal_strlit("true");
    assert("true"@ =~= seq!['t', 'r', 'u', 'e']);
    assert(text::lower("true"@) =~= seq!['t', 'r', 'u', 'e']);
}

/// A file is written with a byte order mark in front, then the lines kept and the rows,
/// each with a carriage return and a line feed behind it: one row more is one line more.
pub proof fn rows_are_written_line_by_line(m: CsvModel, row: Seq<Seq<char>>)
    ensures
        rendered(m).len() > 0,
        rendered(m)[0] as u32 == 0xfeff,
        m.prefix.len() > 0 ==> rendered(CsvModel { rows: m.rows.push(row), ..m }) == rendered(m)
            + csv::line_of(row) + seq!['\r', '\n'],
{
    let more = CsvModel { rows: m.rows.push(row), ..m };
    let head = with_line_ends(prefix_out(m.prefix));
    let lines = rows_out(m.rows);
    assert(rows_out(more.rows) =~= lines.push(csv::line_of(row)));
    assert(rows_out(more.rows).drop_last() =~= lines);
    let tail = with_line_ends(lines);
    assert(with_line_ends(rows_out(more.rows)) == tail + csv::line_of(row) + seq!['\r', '\n']);
    if m.prefix.len() > 0 {
        let p = prefix_out(m.prefix);
        assert(head.len() >= 2) by {
            assert(head == with_line_ends(p.drop_last()) + p.last() + seq!['\r', '\n']);
        }
        let body = head + tail;
        assert(head + (tail + csv::line_of(row) + seq!['\r', '\n']) =~= body + csv::line_of(row)
            + seq!['\r', '\n']);
        assert((body + csv::line_of(row) + seq!['\r', '\n'])[0] == body[0]);
        assert(rendered(more) =~= rendered(m) + csv::line_of(row) + seq!['\r', '\n']);
    }
}

/// A line holds its fields in their order, with a comma between two.
pub proof fn fields_are_written_with_commas(row: Seq<Seq<char>>, f: Seq<char>)
    ensures
        csv::line_of(seq![f]) == csv::escaped(f),
        row.len() > 0 ==> csv::line_of(row.push(f)) == csv::line_of(row) + seq![','] + csv::escaped(
            f,
        ),
{
    assert(row.push(f).drop_last() =~= row);
}

/// A file with a line that begins with `#` has ten columns, and any other has nine.
pub proof fn files_have_nine_columns_or_ten(m: CsvModel)
    ensures
        m.v02 ==> columns(m) == 10,
        !m.v02 ==> columns(m) == 9,
{
}

} // verus!
