//! Recorded entries as they are listed, and the change of one row.

use crate::csv;
use crate::csv_file;
use crate::csv_file::CsvFile;
use crate::csv_file::CsvModel;
use crate::csv_writer;
use crate::csv_writer::Entry;
use crate::datefmt;
use crate::dates;
use crate::dates::Date;
use crate::exports;
use crate::exports::ExportManifest;
use crate::exports::ExportRun;
use crate::ranges;
use crate::ranges::Window;
use crate::sorting;
use crate::text;
use vstd::prelude::*;
use vstd::utf8::encode_utf8;

verus! {

// ---- rows in place --------------------------------------------------------

/// A data row with its place and what it records.
#[verifier::ext_equal]
pub struct RowView {
    pub stem: Seq<char>,
    pub n: nat,
    pub date: Date,
    pub client: Seq<char>,
    pub engagement: Seq<char>,
    pub narrative: Seq<char>,
    pub minutes: int,
    pub billable: bool,
}

/// A data row with its place: the stem of its file and its number, from 1.
pub struct LocatedRow {
    pub stem: String,
    pub n: usize,
    pub date: Date,
    pub client: String,
    pub engagement: String,
    pub narrative: String,
    pub minutes: i64,
    pub billable: bool,
}

impl View for LocatedRow {
    type V = RowView;

    open spec fn view(&self) -> RowView {
        RowView {
            stem: self.stem@,
            n: self.n as nat,
            date: self.date,
            client: self.client@,
            engagement: self.engagement@,
            narrative: self.narrative@,
            minutes: self.minutes as int,
            billable: self.billable,
        }
    }
}

pub open spec fn row_views(rows: Seq<LocatedRow>) -> Seq<RowView> {
    Seq::new(rows.len(), |i: int| rows[i]@)
}

/// The date with these parts.
pub open spec fn date_from(parts: (int, int, int)) -> Date {
    let (y, m, d) = parts;
    Date { year: y as i32, month: m as u32, day: d as u32 }
}

/// The minutes in a field; none where it holds no number.
pub open spec fn field_minutes(f: Seq<char>) -> int {
    match datefmt::as_i64(text::parse_int(f)) {
        Some(n) => n,
        None => 0,
    }
}

/// The field says that the entry is billable.
pub open spec fn field_billable(f: Seq<char>) -> bool {
    text::same_but_case(f, "true"@)
}

/// The fields are those of an entry: enough of them, and a date in the first.
pub open spec fn is_entry(f: Seq<Seq<char>>) -> bool {
    f.len() >= 8 && datefmt::entry_date(f[0]) is Some
}

/// The usual text of a date of four-digit year in the first field is read as that
/// date.
pub open spec fn date_is_read(f: Seq<Seq<char>>) -> bool {
    forall|d: Date|
        d.valid() && 0 <= d.year <= 9999 && text::trim(f[0]) == #[trigger] d.text()
            ==> datefmt::entry_date(f[0]) == dates::ymd(Some(d))
}

/// The usual text of a date in the first field of an entry is read as that date.
pub open spec fn dates_are_read(rows: Seq<Seq<Seq<char>>>) -> bool {
    forall|i: int| 0 <= i < rows.len() && rows[i].len() >= 8 ==> date_is_read(#[trigger] rows[i])
}

pub open spec fn located_row(stem: Seq<char>, n: nat, f: Seq<Seq<char>>) -> RowView {
    RowView {
        stem,
        n,
        date: date_from(datefmt::entry_date(f[0])->0),
        client: f[2],
        engagement: f[3],
        narrative: f[4],
        minutes: field_minutes(f[5]),
        billable: field_billable(f[7]),
    }
}

/// The entries among the rows of a file.
pub open spec fn located(stem: Seq<char>, rows: Seq<Seq<Seq<char>>>) -> Seq<RowView>
    decreases rows.len(),
{
    if rows.len() == 0 {
        Seq::empty()
    } else {
        let init = located(stem, rows.drop_last());
        if is_entry(rows.last()) {
            init.push(located_row(stem, rows.len(), rows.last()))
        } else {
            init
        }
    }
}

fn minutes_in(f: &str) -> (r: i64)
    ensures
        r == field_minutes(f@),
{
    match text::parse_i64(f) {
        Some(n) => n,
        None => 0,
    }
}

/// The entries among the rows of a file. A row whose first column is no date is
/// passed over.
pub fn locate_rows(stem: &str, file: &CsvFile) -> (r: Vec<LocatedRow>)
    ensures
        row_views(r@) == located(stem@, file@.rows),
        dates_are_read(file@.rows),
{
    let mut out: Vec<LocatedRow> = Vec::new();
    let ghost all = file@.rows;
    let mut i: usize = 0;
    assert(all.take(0) =~= Seq::empty());
    assert(row_views(out@) =~= Seq::<RowView>::empty());
    while i < file.rows.len()
        invariant
            i <= file.rows@.len(),
            all == csv_file::rows_view(file.rows@),
            row_views(out@) == located(stem@, all.take(i as int)),
            forall|k: int| 0 <= k < i && all[k].len() >= 8 ==> date_is_read(#[trigger] all[k]),
        decreases file.rows@.len() - i,
    {
        let fields = &file.rows[i];
        let ghost f = text::texts(fields@);
        proof {
            assert(all[i as int] == f);
            assert(all.take(i + 1).drop_last() =~= all.take(i as int));
            assert(all.take(i + 1).last() == f);
        }
        let ghost outs = row_views(out@);
        if fields.len() >= 8 {
            assert(f[0] == fields@[0]@);
            match datefmt::parse_entry_date(fields[0].as_str()) {
                Some(date) => {
                    let row = LocatedRow {
                        stem: text::copy(stem),
                        n: i + 1,
                        date,
                        client: fields[2].clone(),
                        engagement: fields[3].clone(),
                        narrative: fields[4].clone(),
                        minutes: minutes_in(fields[5].as_str()),
                        billable: text::eq_ignore_case(fields[7].as_str(), "true"),
                    };
                    let ghost rv = row@;
                    assert(f[0] == fields@[0]@ && f[2] == fields@[2]@ && f[3] == fields@[3]@ && f[4]
                        == fields@[4]@ && f[5] == fields@[5]@ && f[7] == fields@[7]@);
                    assert(rv =~= located_row(stem@, (i + 1) as nat, f));
                    out.push(row);
                    assert(row_views(out@) =~= outs.push(rv));
                },
                None => {},
            }
        }
        i += 1;
    }
    assert(all.take(all.len() as int) =~= all);
    out
}

// ---- listing --------------------------------------------------------------

/// A monthly file that was read.
pub struct MonthFile {
    pub stem: String,
    pub file: CsvFile,
}

/// Newer dates first; on one day the later row first.
pub open spec fn newer() -> spec_fn(RowView, RowView) -> bool {
    |a: RowView, b: RowView|
        !a.date.not_after(b.date) || (a.date == b.date && a.n > b.n)
}

/// The entries of some files that lie in a window, file by file.
pub open spec fn kept(files: Seq<MonthFile>, w: Window) -> Seq<RowView>
    decreases files.len(),
{
    if files.len() == 0 {
        Seq::empty()
    } else {
        kept(files.drop_last(), w) + located(files.last().stem@, files.last().file@.rows).filter(
            |r: RowView| ranges::inside(r.date, w),
        )
    }
}

fn insert_newest(rows: &mut Vec<LocatedRow>, row: LocatedRow)
    ensures
        row_views(final(rows)@) == sorting::insert_by(row_views(old(rows)@), row@, newer()),
{
    let ghost views = row_views(rows@);
    let ghost x = row@;
    let mut at: usize = rows.len();
    while at > 0 && (!row.date.le(&rows[at - 1].date) || (row.date == rows[at - 1].date && row.n
        > rows[at - 1].n))
        invariant
            at <= rows@.len(),
            views == row_views(rows@),
            x == row@,
            forall|k: int| at <= k < rows@.len() ==> newer()(x, #[trigger] views[k]),
        decreases at,
    {
        assert(views[at - 1] == rows@[at - 1]@);
        at -= 1;
    }
    proof {
        if at > 0 {
            assert(views[at - 1] == rows@[at - 1]@);
        }
        sorting::insert_at(views, x, newer(), at as int);
    }
    rows.insert(at, row);
    assert(row_views(rows@) =~= views.insert(at as int, x));
}

/// All entries of some files that lie in a window, the newest first.
pub fn entries_in_range(files: &Vec<MonthFile>, w: &Window) -> (r: Vec<LocatedRow>)
    ensures
        row_views(r@) == sorting::sort_by(kept(files@, *w), newer()),
        forall|i: int| 0 <= i < files@.len() ==> dates_are_read((#[trigger] files@[i]).file@.rows),
{
    let mut out: Vec<LocatedRow> = Vec::new();
    let ghost keep = |r: RowView| ranges::inside(r.date, *w);
    let ghost mut sofar: Seq<RowView> = Seq::empty();
    let mut i: usize = 0;
    assert(files@.take(0) =~= Seq::empty());
    assert(row_views(out@) =~= Seq::<RowView>::empty());
    while i < files.len()
        invariant
            i <= files@.len(),
            keep == (|r: RowView| ranges::inside(r.date, *w)),
            sofar == kept(files@.take(i as int), *w),
            row_views(out@) == sorting::sort_by(sofar, newer()),
            forall|k: int| 0 <= k < i ==> dates_are_read((#[trigger] files@[k]).file@.rows),
        decreases files@.len() - i,
    {
        proof {
            assert(files@.take(i + 1).drop_last() =~= files@.take(i as int));
            assert(files@.take(i + 1).last() == files@[i as int]);
        }
        let mut rows = locate_rows(files[i].stem.as_str(), &files[i].file);
        let ghost these = row_views(rows@);
        let ghost base = sofar;
        let n: usize = rows.len();
        let mut j: usize = 0;
        proof {
            reveal(Seq::filter);
            assert(these.take(0).filter(keep) =~= Seq::empty());
            assert(base + these.take(0).filter(keep) =~= base);
        }
        while j < n
            invariant
                j <= n,
                n == these.len(),
                keep == (|r: RowView| ranges::inside(r.date, *w)),
                rows@.len() == n - j,
                row_views(rows@) == these.skip(j as int),
                sofar == base + these.take(j as int).filter(keep),
                row_views(out@) == sorting::sort_by(sofar, newer()),
            decreases n - j,
        {
            proof {
                assert(these.skip(j as int)[0] == these[j as int]);
                assert(row_views(rows@)[0] == rows@[0]@);
            }
            let ghost before = row_views(rows@);
            let row = rows.remove(0);
            let ghost x = row@;
            proof {
                reveal(Seq::filter);
                assert forall|k: int| 0 <= k < rows@.len() implies row_views(rows@)[k]
                    == #[trigger] these.skip(j + 1)[k] by {
                    assert(row_views(rows@)[k] == before[k + 1]);
                }
                assert(row_views(rows@) =~= these.skip(j + 1));
                assert(these.take(j + 1).drop_last() =~= these.take(j as int));
                assert(these.take(j + 1).last() == x);
            }
            if ranges::in_window(&row.date, w) {
                insert_newest(&mut out, row);
                proof {
                    let more = sofar.push(x);
                    assert(more.drop_last() =~= sofar);
                    assert(more =~= base + these.take(j + 1).filter(keep));
                    sofar = more;
                }
            }
            j += 1;
        }
        assert(these.take(n as int) =~= these);
        i += 1;
    }
    assert(files@.take(files@.len() as int) =~= files@);
    out
}

// ---- ids and durations ----------------------------------------------------

/// The month and the number that an id gives.
pub open spec fn id_parts(id: Seq<char>) -> Option<(Seq<char>, nat)> {
    match exports::rsplit(id) {
        Some((stem, t)) => match text::parse_nat(t) {
            Some(n) => if n <= usize::MAX && n != 0 && encode_utf8(stem).len() == 7 {
                Some((stem, n))
            } else {
                None
            },
            None => None,
        },
        None => None,
    }
}

/// The month and the number that an id gives.
pub fn parse_entry_id(id: &str) -> (r: Option<(String, usize)>)
    ensures
        match r {
            Some((stem, n)) => id_parts(id@) == Some((stem@, n as nat)) && n > 0,
            None => id_parts(id@) is None,
        },
{
    match exports::rsplit_colon(id) {
        Some((stem, t)) => match text::parse_u64(t.as_str(), usize::MAX as u64) {
            Some(n) => {
                let b = stem.as_str().as_bytes_vec();
                if n == 0 || b.len() != 7 {
                    None
                } else {
                    Some((stem, n as usize))
                }
            },
            None => None,
        },
        None => None,
    }
}

/// Minutes as `H:MM`; none below zero.
pub open spec fn dur_text(minutes: int) -> Seq<char> {
    let m = if minutes < 0 { 0nat } else { minutes as nat };
    text::dec(m / 60) + seq![':'] + text::dec_padded(m % 60, 2)
}

/// Minutes as `H:MM`.
pub fn fmt_dur(minutes: i64) -> (r: String)
    ensures
        r@ == dur_text(minutes as int),
{
    let m: u64 = if minutes < 0 {
        0
    } else {
        minutes as u64
    };
    let mut out = text::u64_text(m / 60);
    out.push(':');
    text::push_padded(&mut out, m % 60, 2);
    assert(out@ =~= dur_text(minutes as int));
    out
}

/// An entry as the pages get it.
pub struct ApiEntry {
    pub id: String,
    pub date: String,
    pub dur: String,
    pub minutes: i64,
    pub client: String,
    pub engagement: String,
    pub billable: bool,
    pub narrative: String,
    pub locked: bool,
    pub run_id: Option<String>,
}

/// What the pages get of a row.
pub open spec fn shown(a: ApiEntry, r: RowView, runs: Seq<ExportRun>) -> bool {
    let id = exports::entry_id(r.stem, r.n);
    &&& a.id@ == id
    &&& a.date@ == r.date.text()
    &&& a.dur@ == dur_text(r.minutes)
    &&& a.minutes == r.minutes
    &&& a.client@ == r.client
    &&& a.engagement@ == r.engagement
    &&& a.billable == r.billable
    &&& a.narrative@ == r.narrative
    &&& a.locked == exports::locks(runs, id)
    &&& match a.run_id {
        Some(t) => exports::locking_run(runs, id) == Some(t@),
        None => exports::locking_run(runs, id) is None,
    }
}

impl LocatedRow {
    /// The id of the row.
    pub fn id(&self) -> (r: String)
        ensures
            r@ == exports::entry_id(self@.stem, self@.n),
    {
        exports::make_id(self.stem.as_str(), self.n)
    }

    /// What the pages get of the row.
    pub fn to_api(&self, manifest: &ExportManifest) -> (r: ApiEntry)
        ensures
            shown(r, self@, manifest.runs@),
    {
        let id = self.id();
        let run_id = manifest.run_id_for_entry(id.as_str());
        ApiEntry {
            date: dates::date_text(&self.date),
            dur: fmt_dur(self.minutes),
            minutes: self.minutes,
            client: self.client.clone(),
            engagement: self.engagement.clone(),
            billable: self.billable,
            narrative: self.narrative.clone(),
            locked: run_id.is_some(),
            run_id,
            id,
        }
    }
}

/// The last entry of a file, where its last row is one: what creating or moving
/// an entry shows.
pub fn last_entry(stem: &str, file: &CsvFile) -> (r: Option<LocatedRow>)
    ensures
        match r {
            Some(x) => file@.rows.len() > 0 && is_entry(file@.rows.last()) && x@ == located_row(
                stem@,
                file@.rows.len(),
                file@.rows.last(),
            ),
            None => file@.rows.len() == 0 || !is_entry(file@.rows.last()),
        },
        file@.rows.len() > 0 && file@.rows.last().len() >= 8 ==> date_is_read(file@.rows.last()),
{
    entry_at(stem, file, file.rows.len())
}

/// The entry in row `n` of a file, where that row is one.
pub fn entry_at(stem: &str, file: &CsvFile, n: usize) -> (r: Option<LocatedRow>)
    ensures
        match r {
            Some(x) => 0 < n <= file@.rows.len() && is_entry(file@.rows[n - 1]) && x@
                == located_row(stem@, n as nat, file@.rows[n - 1]),
            None => !(0 < n <= file@.rows.len()) || !is_entry(file@.rows[n - 1]),
        },
        0 < n <= file@.rows.len() && file@.rows[n - 1].len() >= 8 ==> date_is_read(
            file@.rows[n - 1],
        ),
{
    if n == 0 || n > file.rows.len() {
        return None;
    }
    let fields = &file.rows[n - 1];
    let ghost f = text::texts(fields@);
    assert(file@.rows[n - 1] == f);
    if fields.len() < 8 {
        return None;
    }
    assert(f[0] == fields@[0]@ && f[2] == fields@[2]@ && f[3] == fields@[3]@ && f[4] == fields@[4]@
        && f[5] == fields@[5]@ && f[7] == fields@[7]@);
    match datefmt::parse_entry_date(fields[0].as_str()) {
        Some(date) => {
            let row = LocatedRow {
                stem: text::copy(stem),
                n,
                date,
                client: fields[2].clone(),
                engagement: fields[3].clone(),
                narrative: fields[4].clone(),
                minutes: minutes_in(fields[5].as_str()),
                billable: text::eq_ignore_case(fields[7].as_str(), "true"),
            };
            assert(row@ =~= located_row(stem@, n as nat, f));
            Some(row)
        },
        None => None,
    }
}

// ---- changing one entry ---------------------------------------------------

/// What is to change in an entry.
pub struct PatchEntryBody {
    pub date: Option<String>,
    pub dur: Option<String>,
    pub client: Option<String>,
    pub engagement: Option<String>,
    pub narrative: Option<String>,
    pub billable: Option<bool>,
}

pub open spec fn bad_date() -> Seq<char> {
    "could not parse the date (want YYYY-MM-DD)"@
}

pub open spec fn bad_duration() -> Seq<char> {
    "could not parse the duration (try \"1:30\" or \"90\")"@
}

/// The row with empty fields up to `ncols`.
pub open spec fn padded(row: Seq<Seq<char>>, ncols: nat) -> Seq<Seq<char>> {
    if row.len() < ncols {
        row + Seq::new((ncols - row.len()) as nat, |i: int| Seq::<char>::empty())
    } else {
        row
    }
}

pub open spec fn with_date(row: Seq<Seq<char>>, date: Option<String>) -> Seq<Seq<char>> {
    match date {
        Some(d) => row.update(0, date_from(dates::written_date(text::trim(d@))->0).text()),
        None => row,
    }
}

pub open spec fn with_duration(row: Seq<Seq<char>>, dur: Option<String>) -> Seq<Seq<char>> {
    match dur {
        Some(d) => {
            let m = datefmt::hm_dur(d@)->0;
            row.update(5, text::dec_int(m)).update(6, csv_writer::signed_hours_text(m))
        },
        None => row,
    }
}

pub open spec fn with_trimmed(row: Seq<Seq<char>>, i: int, t: Option<String>) -> Seq<Seq<char>> {
    match t {
        Some(s) => row.update(i, text::trim(s@)),
        None => row,
    }
}

pub open spec fn with_text(row: Seq<Seq<char>>, i: int, t: Option<String>) -> Seq<Seq<char>> {
    match t {
        Some(s) => row.update(i, s@),
        None => row,
    }
}

pub open spec fn with_flag(row: Seq<Seq<char>>, i: int, b: Option<bool>) -> Seq<Seq<char>> {
    match b {
        Some(v) => row.update(i, text::bool_text(v)),
        None => row,
    }
}

/// The row with a change made, or why it cannot be.
pub open spec fn patched(row: Seq<Seq<char>>, ncols: nat, b: PatchEntryBody) -> Result<
    Seq<Seq<char>>,
    Seq<char>,
> {
    if b.date matches Some(d) && dates::written_date(text::trim(d@)) is None {
        Err(bad_date())
    } else if b.dur matches Some(d) && datefmt::hm_dur(d@) is None {
        Err(bad_duration())
    } else {
        let r = with_duration(with_date(padded(row, ncols), b.date), b.dur);
        let r = with_trimmed(with_trimmed(r, 2, b.client), 3, b.engagement);
        Ok(with_flag(with_text(r, 4, b.narrative), 7, b.billable))
    }
}

fn pad_row(row: &mut Vec<String>, ncols: usize)
    ensures
        text::texts(final(row)@) == padded(text::texts(old(row)@), ncols as nat),
        final(row)@.len() >= ncols,
{
    let ghost start = text::texts(row@);
    let ghost e = Seq::<char>::empty();
    assert(start =~= start + Seq::new(0, |i: int| e));
    while row.len() < ncols
        invariant
            start.len() <= row@.len(),
            start.len() < row@.len() ==> row@.len() <= ncols,
            e == Seq::<char>::empty(),
            text::texts(row@) == start + Seq::new(
                (row@.len() - start.len()) as nat,
                |i: int| e,
            ),
        decreases ncols - row@.len(),
    {
        let ghost now = text::texts(row@);
        row.push(String::new());
        assert(text::texts(row@) =~= now.push(e));
        assert(text::texts(row@) =~= start + Seq::new(
            (row@.len() - start.len()) as nat,
            |i: int| e,
        ));
    }
    assert(text::texts(row@) =~= padded(start, ncols as nat));
}

fn set_field(row: &mut Vec<String>, i: usize, value: String)
    requires
        i < old(row)@.len(),
    ensures
        text::texts(final(row)@) == text::texts(old(row)@).update(i as int, value@),
        final(row)@.len() == old(row)@.len(),
{
    let ghost before = text::texts(row@);
    let ghost v = value@;
    row.set(i, value);
    assert(text::texts(row@) =~= before.update(i as int, v));
}

/// Makes a change in a row. On an error the row is as it was.
pub fn apply_patch_fields(row: &mut Vec<String>, ncols: usize, body: &PatchEntryBody) -> (r: Result<
    (),
    String,
>)
    requires
        ncols >= 8,
    ensures
        match r {
            Ok(_) => patched(text::texts(old(row)@), ncols as nat, *body) == Ok::<
                Seq<Seq<char>>,
                Seq<char>,
            >(text::texts(final(row)@)),
            Err(e) => patched(text::texts(old(row)@), ncols as nat, *body) == Err::<
                Seq<Seq<char>>,
                Seq<char>,
            >(e@) && final(row)@ == old(row)@,
        },
{
    let date: Option<Date> = match &body.date {
        Some(d) => {
            let t = text::trim_text(d.as_str());
            match dates::parse_date(t.as_str()) {
                Some(x) => Some(x),
                None => return Err(text::copy("could not parse the date (want YYYY-MM-DD)")),
            }
        },
        None => None,
    };
    let minutes: Option<i64> = match &body.dur {
        Some(d) => match datefmt::parse_hm_dur(d.as_str()) {
            Some(m) => Some(m),
            None => return Err(
                text::copy("could not parse the duration (try \"1:30\" or \"90\")"),
            ),
        },
        None => None,
    };
    pad_row(row, ncols);
    match date {
        Some(d) => set_field(row, 0, dates::date_text(&d)),
        None => {},
    }
    match minutes {
        Some(m) => {
            set_field(row, 5, text::i64_text(m));
            set_field(row, 6, csv_writer::signed_hours(m as i128));
        },
        None => {},
    }
    match &body.client {
        Some(c) => set_field(row, 2, text::trim_text(c.as_str())),
        None => {},
    }
    match &body.engagement {
        Some(c) => set_field(row, 3, text::trim_text(c.as_str())),
        None => {},
    }
    match &body.narrative {
        Some(c) => set_field(row, 4, c.clone()),
        None => {},
    }
    match body.billable {
        Some(b) => set_field(row, 7, text::flag_text(b)),
        None => {},
    }
    Ok(())
}

pub open spec fn no_such_entry() -> Seq<char> {
    "no such entry"@
}

/// The file with a change made in row `n`, or why it cannot be.
pub open spec fn file_patched(m: CsvModel, n: nat, b: PatchEntryBody) -> Result<
    CsvModel,
    Seq<char>,
> {
    if n == 0 || n > m.rows.len() {
        Err(no_such_entry())
    } else {
        match patched(m.rows[n - 1], csv_file::columns(m), b) {
            Ok(row) => Ok(CsvModel { rows: m.rows.update(n - 1, row), ..m }),
            Err(e) => Err(e),
        }
    }
}

/// Makes a change in row `n` of a file. On an error the file is as it was.
pub fn apply_patch_to_row(file: &mut CsvFile, n: usize, body: &PatchEntryBody) -> (r: Result<
    (),
    String,
>)
    ensures
        match r {
            Ok(_) => file_patched(old(file)@, n as nat, *body) == Ok::<CsvModel, Seq<char>>(
                final(file)@,
            ),
            Err(e) => file_patched(old(file)@, n as nat, *body) == Err::<CsvModel, Seq<char>>(e@)
                && final(file)@ == old(file)@,
        },
{
    if n == 0 || n > file.rows.len() {
        return Err(text::copy("no such entry"));
    }
    let ghost before = file@;
    let ncols: usize = file.ncols();
    let mut row = csv_file::copy_texts(&file.rows[n - 1]);
    assert(before.rows[n - 1] == text::texts(file.rows@[n - 1]@));
    match apply_patch_fields(&mut row, ncols, body) {
        Ok(_) => {
            let ghost new = text::texts(row@);
            file.rows.set(n - 1, row);
            assert(file@.rows =~= before.rows.update(n - 1, new));
            Ok(())
        },
        Err(e) => Err(e),
    }
}

/// The month that a changed entry belongs to, where that is another one.
pub open spec fn target_stem(cur: Seq<char>, b: PatchEntryBody) -> Result<Option<Seq<char>>, ()> {
    match b.date {
        Some(d) => match dates::written_date(text::trim(d@)) {
            Some(p) => if date_from(p).stem() != cur {
                Ok(Some(date_from(p).stem()))
            } else {
                Ok(None)
            },
            None => Err(()),
        },
        None => Ok(None),
    }
}

/// The month that a changed entry belongs to, where that is another one; an error
/// where the date cannot be read.
pub fn patch_target_stem(cur_stem: &str, body: &PatchEntryBody) -> (r: Result<Option<String>, ()>)
    ensures
        match r {
            Ok(Some(s)) => target_stem(cur_stem@, *body) == Ok::<Option<Seq<char>>, ()>(Some(s@)),
            Ok(None) => target_stem(cur_stem@, *body) == Ok::<Option<Seq<char>>, ()>(None),
            Err(_) => target_stem(cur_stem@, *body) is Err,
        },
{
    match &body.date {
        Some(d) => {
            let t = text::trim_text(d.as_str());
            match dates::parse_date(t.as_str()) {
                Some(x) => {
                    let s = dates::month_stem(&x);
                    if text::same_text(s.as_str(), cur_stem) {
                        Ok(None)
                    } else {
                        Ok(Some(s))
                    }
                },
                None => Err(()),
            }
        },
        None => Ok(None),
    }
}

/// The fields record this entry.
pub open spec fn records(
    f: Seq<Seq<char>>,
    date: Date,
    client: Seq<char>,
    engagement: Seq<char>,
    narrative: Seq<char>,
    minutes: nat,
    billable: bool,
) -> bool {
    &&& f.len() >= 8
    &&& f[0] == date.text()
    &&& f[2] == client
    &&& f[3] == engagement
    &&& f[4] == narrative
    &&& f[5] == text::dec(minutes)
    &&& f[7] == text::bool_text(billable)
}

/// What is recorded is listed: a file with one row more, which records an entry,
/// lists that entry behind all that it listed before. That its date is read is what
/// `locate_rows` ensures of the rows that it lists.
pub proof fn recorded_entries_are_listed(
    stem: Seq<char>,
    rows: Seq<Seq<Seq<char>>>,
    f: Seq<Seq<char>>,
    date: Date,
    client: Seq<char>,
    engagement: Seq<char>,
    narrative: Seq<char>,
    minutes: nat,
    billable: bool,
)
    requires
        dates_are_read(rows.push(f)),
        records(f, date, client, engagement, narrative, minutes, billable),
        date.valid(),
        0 <= date.year <= 9999,
        minutes <= i64::MAX,
    ensures
        located(stem, rows.push(f)) == located(stem, rows).push(
            RowView {
                stem,
                n: rows.len() + 1,
                date,
                client,
                engagement,
                narrative,
                minutes: minutes as int,
                billable,
            },
        ),
{
    let all = rows.push(f);
    assert(all.drop_last() =~= rows);
    assert(all[rows.len() as int] == f);
    lemma_date_text(date);
    text::trim_leaves(date.text());
    assert(date_is_read(f));
    text::dec_reads_back(minutes);
    reveal_strlit("true");
    reveal_strlit("false");
    assert(text::same_but_case("true"@, "true"@));
    assert("false"@.len() == 5 && "true"@.len() == 4);
    assert(text::lower("false"@).len() == 5 && text::lower("true"@).len() == 4);
}

proof fn lemma_date_text(d: Date)
    requires
        d.valid(),
        0 <= d.year <= 9999,
    ensures
        d.text().len() > 0,
        text::is_digit(d.text()[0]),
        text::is_digit(d.text().last()),
{
    text::padded_is_digits(d.year as nat, 4);
    text::padded_is_digits(d.day as nat, 2);
    let y = text::dec_padded(d.year as nat, 4);
    let k = text::dec_padded(d.day as nat, 2);
    assert(d.text()[0] == y[0]);
    assert(text::is_digit(y[0]));
    assert(d.text().last() == k.last());
    assert(text::is_digit(k[k.len() - 1]));
}

/// What is logged is listed: a file that an entry is added to lists that entry, each
/// text with its guard, behind all that it listed before. That its date is read is
/// what `locate_rows` ensures of the rows that it lists.
pub proof fn logged_entries_are_listed(stem: Seq<char>, existing: Option<Seq<char>>, e: Entry)
    requires
        e.timestamp.date.valid(),
        0 <= e.timestamp.date.year <= 9999,
        csv_writer::on_one_line(e),
        existing matches Some(t) ==> t.len() > 0 && t.last() == '\n' && csv_file::read_lines(
            csv_file::lines_of(t),
        ).header,
        dates_are_read(csv_file::parsed(csv_writer::text_after(existing, e)).rows),
    ensures
        ({
            let before = csv_file::parsed(csv_writer::text_before(existing)).rows;
            let after = csv_file::parsed(csv_writer::text_after(existing, e)).rows;
            located(stem, after) == located(stem, before).push(
                RowView {
                    stem,
                    n: before.len() + 1,
                    date: e.timestamp.date,
                    client: csv::guarded(e.client@),
                    engagement: csv::guarded(e.engagement@),
                    narrative: csv::guarded(e.narrative@),
                    minutes: e.minutes as int,
                    billable: e.billable,
                },
            )
        }),
{
    let before = csv_file::parsed(csv_writer::text_before(existing)).rows;
    let fields = csv_writer::added_fields(existing, e);
    csv_writer::logged_entries_are_read(existing, e);
    csv_writer::plain_columns_stay(
        e.timestamp.date,
        e.minutes as nat,
        e.billable,
        e.entry_method,
    );
    let f = csv_file::guarded_row(fields);
    assert(f[0] == csv::guarded(fields[0]) && f[2] == csv::guarded(fields[2]) && f[3]
        == csv::guarded(fields[3]) && f[4] == csv::guarded(fields[4]) && f[5] == csv::guarded(
        fields[5],
    ) && f[7] == csv::guarded(fields[7]));
    recorded_entries_are_listed(
        stem,
        before,
        f,
        e.timestamp.date,
        csv::guarded(e.client@),
        csv::guarded(e.engagement@),
        csv::guarded(e.narrative@),
        e.minutes as nat,
        e.billable,
    );
}

// ---- laws on listing ------------------------------------------------------

/// The entries of a file are its rows that have eight columns and a date in the
/// first, each once and in order: the number counts all rows from one, and the
/// columns give what is recorded.
pub proof fn entries_are_rows_with_dates(stem: Seq<char>, rows: Seq<Seq<Seq<char>>>) -> (at: Seq<
    int,
>)
    ensures
        at.len() == located(stem, rows).len(),
        forall|j: int|
            0 <= j < at.len() ==> {
                let i = #[trigger] at[j];
                let e = located(stem, rows)[j];
                let (year, month, day) = datefmt::entry_date(rows[i][0])->0;
                &&& 0 <= i < rows.len()
                &&& e.stem == stem
                &&& e.n == i + 1
                &&& e.date.year == year as i32
                &&& e.date.month == month as u32
                &&& e.date.day == day as u32
                &&& e.client == rows[i][2]
                &&& e.engagement == rows[i][3]
                &&& e.narrative == rows[i][4]
                &&& e.minutes == match text::parse_int(rows[i][5]) {
                    Some(m) => if i64::MIN <= m <= i64::MAX {
                        m
                    } else {
                        0
                    },
                    None => 0,
                }
                &&& e.billable == (text::lower(rows[i][7]) == seq!['t', 'r', 'u', 'e'])
            },
        forall|i: int, j: int| 0 <= i < j < at.len() ==> #[trigger] at[i] < #[trigger] at[j],
        forall|i: int|
            0 <= i < rows.len() ==> #[trigger] at.contains(i) == (rows[i].len() >= 8
                && datefmt::entry_date(rows[i][0]) is Some),
    decreases rows.len(),
{
    reveal_strlit("true");
    assert("true"@ =~= seq!['t', 'r', 'u', 'e']);
    assert(text::lower("true"@) =~= seq!['t', 'r', 'u', 'e']);
    if rows.len() == 0 {
        Seq::empty()
    } else {
        let init = rows.drop_last();
        let before = entries_are_rows_with_dates(stem, init);
        let hit = rows.last().len() >= 8 && datefmt::entry_date(rows.last()[0]) is Some;
        let at = if hit {
            before.push(rows.len() - 1)
        } else {
            before
        };
        assert forall|j: int| 0 <= j < before.len() implies #[trigger] at[j] == before[j]
            && init[before[j]] == rows[at[j]] by {}
        assert forall|i: int| 0 <= i < rows.len() implies #[trigger] at.contains(i) == (
        rows[i].len() >= 8 && datefmt::entry_date(rows[i][0]) is Some) by {
            if i < init.len() {
                assert(init[i] == rows[i]);
                if before.contains(i) {
                    let j = choose|j: int| 0 <= j < before.len() && before[j] == i;
                    assert(at[j] == i);
                }
                if at.contains(i) {
                    let j = choose|j: int| 0 <= j < at.len() && at[j] == i;
                    assert(before[j] == i);
                }
            } else {
                if hit {
                    assert(at[before.len() as int] == i);
                }
            }
        }
        at
    }
}

proof fn lemma_newer_is_order()
    ensures
        sorting::is_weak_order(newer()),
{
}


/// A list is made of all files: what each of them has in the window, one after the
/// other, and then sorted; nothing is lost and nothing is there twice.
pub proof fn lists_hold_all_files(files: Seq<MonthFile>, w: Window)
    ensures
        sorting::sort_by(kept(files, w), newer()).to_multiset() == files.map_values(
            |f: MonthFile|
                located(f.stem@, f.file@.rows).filter(
                    |r: RowView|
                        match w {
                            Some((from, to)) => from.not_after(r.date) && r.date.not_after(to),
                            None => true,
                        },
                ),
        ).flatten_alt().to_multiset(),
{
    lemma_kept_is_flat(files, w);
    lemma_newer_is_order();
    sorting::sort_sorts(kept(files, w), newer());
}

proof fn lemma_kept_is_flat(files: Seq<MonthFile>, w: Window)
    ensures
        kept(files, w) == files.map_values(
            |f: MonthFile|
                located(f.stem@, f.file@.rows).filter(
                    |r: RowView|
                        match w {
                            Some((from, to)) => from.not_after(r.date) && r.date.not_after(to),
                            None => true,
                        },
                ),
        ).flatten_alt(),
    decreases files.len(),
{
    let keep = |r: RowView|
        match w {
            Some((from, to)) => from.not_after(r.date) && r.date.not_after(to),
            None => true,
        };
    let per_file = |f: MonthFile| located(f.stem@, f.file@.rows).filter(keep);
    let all = files.map_values(per_file);
    if files.len() > 0 {
        lemma_kept_is_flat(files.drop_last(), w);
        assert(all.drop_last() =~= files.drop_last().map_values(per_file));
        assert(keep =~= (|r: RowView| ranges::inside(r.date, w)));
        assert(all.last() == per_file(files.last()));
    }
}

/// Every row of every file that has eight columns and a date in the window is listed,
/// as its columns say, under the month of its file and its number there.
pub proof fn entries_of_the_window_are_listed(
    files: Seq<MonthFile>,
    w: Window,
    f: int,
    i: int,
    d: Date,
)
    requires
        0 <= f < files.len(),
        0 <= i < files[f].file@.rows.len(),
        files[f].file@.rows[i].len() >= 8,
        datefmt::entry_date(files[f].file@.rows[i][0]) == Some(
            (d.year as int, d.month as int, d.day as int),
        ),
        w matches Some((from, to)) ==> from.not_after(d) && d.not_after(to),
    ensures
        ({
            let row = files[f].file@.rows[i];
            sorting::sort_by(kept(files, w), newer()).contains(
                RowView {
                    stem: files[f].stem@,
                    n: (i + 1) as nat,
                    date: d,
                    client: row[2],
                    engagement: row[3],
                    narrative: row[4],
                    minutes: match text::parse_int(row[5]) {
                        Some(m) => if i64::MIN <= m <= i64::MAX {
                            m
                        } else {
                            0
                        },
                        None => 0,
                    },
                    billable: text::lower(row[7]) == seq!['t', 'r', 'u', 'e'],
                },
            )
        }),
{
    let rows = files[f].file@.rows;
    let all = located(files[f].stem@, rows);
    let at = entries_are_rows_with_dates(files[f].stem@, rows);
    assert(at.contains(i));
    let j = choose|j: int| 0 <= j < at.len() && at[j] == i;
    let e = all[j];
    assert(at[j] == i);
    assert(e.date == d);
    lemma_kept_has(files, w, f, j);
    lemma_newer_is_order();
    sorting::sort_sorts(kept(files, w), newer());
    lemma_same_members(sorting::sort_by(kept(files, w), newer()), kept(files, w), e);
}

proof fn lemma_same_members(a: Seq<RowView>, b: Seq<RowView>, x: RowView)
    requires
        a.to_multiset() == b.to_multiset(),
    ensures
        a.contains(x) == b.contains(x),
{
    broadcast use vstd::seq_lib::group_to_multiset_ensures;

    assert(a.contains(x) == (a.to_multiset().count(x) > 0));
    assert(b.contains(x) == (b.to_multiset().count(x) > 0));
}

proof fn lemma_kept_has(files: Seq<MonthFile>, w: Window, f: int, j: int)
    requires
        0 <= f < files.len(),
        0 <= j < located(files[f].stem@, files[f].file@.rows).len(),
        ranges::inside(located(files[f].stem@, files[f].file@.rows)[j].date, w),
    ensures
        kept(files, w).contains(located(files[f].stem@, files[f].file@.rows)[j]),
    decreases files.len(),
{
    let keep = |r: RowView| ranges::inside(r.date, w);
    let x = located(files[f].stem@, files[f].file@.rows)[j];
    let head = kept(files.drop_last(), w);
    let tail = located(files.last().stem@, files.last().file@.rows).filter(keep);
    if f < files.len() - 1 {
        assert(files.drop_last()[f] == files[f]);
        lemma_kept_has(files.drop_last(), w, f, j);
        let k = choose|k: int| 0 <= k < head.len() && head[k] == x;
        assert((head + tail)[k] == x);
    } else {
        assert(keep(located(files[f].stem@, files[f].file@.rows)[j]));
        located(files.last().stem@, files.last().file@.rows).lemma_filter_contains(keep, j);
        let k = choose|k: int| 0 <= k < tail.len() && tail[k] == x;
        assert((head + tail)[head.len() + k] == x);
    }
}

/// Whatever is listed is a row of one of the files, in the window: of the file whose
/// month it is listed under, and in the row that its number gives.
pub proof fn listed_entries_are_rows(files: Seq<MonthFile>, w: Window, k: int) -> (from: (int, int))
    requires
        0 <= k < sorting::sort_by(kept(files, w), newer()).len(),
    ensures
        ({
            let e = sorting::sort_by(kept(files, w), newer())[k];
            let (f, i) = from;
            let row = files[f].file@.rows[i];
            &&& 0 <= f < files.len()
            &&& 0 <= i < files[f].file@.rows.len()
            &&& row.len() >= 8
            &&& datefmt::entry_date(row[0]) is Some
            &&& e.stem == files[f].stem@
            &&& e.n == i + 1
            &&& e.client == row[2]
            &&& e.engagement == row[3]
            &&& e.narrative == row[4]
            &&& e.billable == (text::lower(row[7]) == seq!['t', 'r', 'u', 'e'])
            &&& w matches Some((first, last)) ==> first.not_after(e.date) && e.date.not_after(last)
        }),
{
    let all = sorting::sort_by(kept(files, w), newer());
    lemma_newer_is_order();
    sorting::sort_sorts(kept(files, w), newer());
    assert(all.contains(all[k]));
    lemma_same_members(all, kept(files, w), all[k]);
    let j = choose|j: int| 0 <= j < kept(files, w).len() && kept(files, w)[j] == all[k];
    lemma_kept_from(files, w, j)
}

proof fn lemma_kept_from(files: Seq<MonthFile>, w: Window, k: int) -> (from: (int, int))
    requires
        0 <= k < kept(files, w).len(),
    ensures
        ({
            let e = kept(files, w)[k];
            let (f, i) = from;
            let row = files[f].file@.rows[i];
            &&& 0 <= f < files.len()
            &&& 0 <= i < files[f].file@.rows.len()
            &&& row.len() >= 8
            &&& datefmt::entry_date(row[0]) is Some
            &&& e.stem == files[f].stem@
            &&& e.n == i + 1
            &&& e.client == row[2]
            &&& e.engagement == row[3]
            &&& e.narrative == row[4]
            &&& e.billable == (text::lower(row[7]) == seq!['t', 'r', 'u', 'e'])
            &&& w matches Some((first, last)) ==> first.not_after(e.date) && e.date.not_after(last)
        }),
    decreases files.len(),
{
    let keep = |r: RowView| ranges::inside(r.date, w);
    let init = files.drop_last();
    let head = kept(init, w);
    if k < head.len() {
        let (f, i) = lemma_kept_from(init, w, k);
        assert(init[f] == files[f]);
        (f, i)
    } else {
        let file = files.last();
        let all = located(file.stem@, file.file@.rows);
        let at = crate::selection::filter_places(all, keep);
        let rows = entries_are_rows_with_dates(file.stem@, file.file@.rows);
        let j = at[k - head.len()];
        assert(all.filter(keep)[k - head.len()] == all[j]);
        assert(rows[j] < file.file@.rows.len());
        assert(rows.contains(rows[j]));
        (files.len() - 1, rows[j])
    }
}

/// The newest day comes first, and on one day the row further down its file.
pub proof fn lists_are_newest_first(files: Seq<MonthFile>, w: Window, j: int, k: int)
    requires
        0 <= j < k < sorting::sort_by(kept(files, w), newer()).len(),
    ensures
        ({
            let a = sorting::sort_by(kept(files, w), newer())[j];
            let b = sorting::sort_by(kept(files, w), newer())[k];
            &&& a.date.year >= b.date.year
            &&& a.date.year == b.date.year ==> a.date.month >= b.date.month
            &&& a.date.year == b.date.year && a.date.month == b.date.month ==> a.date.day
                >= b.date.day
            &&& a.date == b.date ==> a.n >= b.n
        }),
{
    lemma_newer_is_order();
    sorting::sort_sorts(kept(files, w), newer());
    let all = sorting::sort_by(kept(files, w), newer());
    assert(!newer()(all[k], all[j]));
}

// ---- laws on changes ------------------------------------------------------

/// A change that is made puts in place what it names, and leaves every other column:
/// the client and the engagement are trimmed, the narrative stays as it is typed, the
/// date is written out, the duration in minutes and in hours, the flag in a word. A
/// row that is too short is filled up with empty columns.
pub proof fn changes_put_what_they_name(row: Seq<Seq<char>>, ncols: nat, b: PatchEntryBody)
    requires
        ncols >= 8,
        patched(row, ncols, b) is Ok,
    ensures
        ({
            let now = patched(row, ncols, b)->Ok_0;
            let was = |i: int|
                if i < row.len() {
                    row[i]
                } else {
                    Seq::<char>::empty()
                };
            &&& now.len() == if row.len() < ncols {
                ncols
            } else {
                row.len()
            }
            &&& match b.client {
                Some(c) => now[2] == text::trim(c@),
                None => now[2] == was(2),
            }
            &&& match b.engagement {
                Some(e) => now[3] == text::trim(e@),
                None => now[3] == was(3),
            }
            &&& match b.narrative {
                Some(t) => now[4] == t@,
                None => now[4] == was(4),
            }
            &&& match b.billable {
                Some(true) => now[7] == seq!['t', 'r', 'u', 'e'],
                Some(false) => now[7] == seq!['f', 'a', 'l', 's', 'e'],
                None => now[7] == was(7),
            }
            &&& match b.date {
                Some(t) => dates::written_date(text::trim(t@)) matches Some((y, m, d)) && now[0]
                    == (Date { year: y as i32, month: m as u32, day: d as u32 }).text(),
                None => now[0] == was(0),
            }
            &&& match b.dur {
                Some(t) => datefmt::hm_dur(t@) matches Some(minutes) && now[5] == text::dec_int(
                    minutes,
                ) && now[6] == csv_writer::signed_hours_text(minutes),
                None => now[5] == was(5) && now[6] == was(6),
            }
            &&& now[1] == was(1)
            &&& forall|i: int| 8 <= i < now.len() ==> #[trigger] now[i] == was(i)
        }),
{
    reveal_strlit("true");
    reveal_strlit("false");
    assert("true"@ =~= seq!['t', 'r', 'u', 'e']);
    assert("false"@ =~= seq!['f', 'a', 'l', 's', 'e']);
}

/// A change is refused exactly where its date or its duration cannot be read, and
/// the date is looked at first.
pub proof fn changes_are_refused_for_what_cannot_be_read(
    row: Seq<Seq<char>>,
    ncols: nat,
    b: PatchEntryBody,
)
    ensures
        ({
            let bad_d = b.date matches Some(d) && dates::written_date(text::trim(d@)) is None;
            let bad_t = b.dur matches Some(d) && datefmt::hm_dur(d@) is None;
            &&& patched(row, ncols, b) is Err == (bad_d || bad_t)
            &&& bad_d ==> patched(row, ncols, b) == Err::<Seq<Seq<char>>, Seq<char>>(
                "could not parse the date (want YYYY-MM-DD)"@,
            )
            &&& !bad_d && bad_t ==> patched(row, ncols, b) == Err::<Seq<Seq<char>>, Seq<char>>(
                "could not parse the duration (try \"1:30\" or \"90\")"@,
            )
        }),
{
}

/// A change of a file changes one row: the one with the number. It is refused where
/// there is no such row.
pub proof fn changes_of_files_change_one_row(m: CsvModel, n: nat, b: PatchEntryBody)
    ensures
        (n == 0 || n > m.rows.len()) ==> file_patched(m, n, b) == Err::<CsvModel, Seq<char>>(
            "no such entry"@,
        ),
        file_patched(m, n, b) matches Ok(after) ==> {
            &&& 0 < n <= m.rows.len()
            &&& after.prefix == m.prefix
            &&& after.v02 == m.v02
            &&& after.rows.len() == m.rows.len()
            &&& forall|i: int|
                0 <= i < m.rows.len() && i != n - 1 ==> #[trigger] after.rows[i] == m.rows[i]
            &&& patched(
                m.rows[n - 1],
                if m.v02 {
                    10
                } else {
                    9
                },
                b,
            ) == Ok::<Seq<Seq<char>>, Seq<char>>(after.rows[n - 1])
        },
        0 < n <= m.rows.len() && file_patched(m, n, b) is Err ==> patched(
            m.rows[n - 1],
            if m.v02 {
                10
            } else {
                9
            },
            b,
        ) is Err,
{
}

/// An entry moves exactly where its new date is in another month, to that month.
pub proof fn entries_move_to_the_month_of_their_date(cur: Seq<char>, b: PatchEntryBody)
    ensures
        b.date is None ==> target_stem(cur, b) == Ok::<Option<Seq<char>>, ()>(None),
        b.date matches Some(t) ==> match dates::written_date(text::trim(t@)) {
            None => target_stem(cur, b) is Err,
            Some((y, m, d)) => {
                let stem = (Date { year: y as i32, month: m as u32, day: d as u32 }).stem();
                target_stem(cur, b) == Ok::<Option<Seq<char>>, ()>(
                    if stem == cur {
                        None
                    } else {
                        Some(stem)
                    },
                )
            },
        },
{
}

/// An id is read as the month in front of its last colon and the number behind it:
/// a month of seven bytes, and a number that is not zero.
pub proof fn ids_give_month_and_number(stem: Seq<char>, n: nat)
    requires
        n <= usize::MAX,
    ensures
        id_parts(stem + seq![':'] + text::dec(n)) == if n > 0 && encode_utf8(stem).len() == 7 {
            Some((stem, n))
        } else {
            None
        },
{
    exports::ids_read_back(stem, n);
    text::dec_reads_back(n);
}

/// A duration is shown in hours and minutes: the minutes in two digits, below sixty.
pub proof fn durations_are_shown_in_hours(hours: nat, minutes: nat)
    requires
        minutes < 60,
    ensures
        dur_text((hours * 60 + minutes) as int) == text::dec(hours) + seq![':'] + text::low_digits(
            minutes,
            2,
        ),
        dur_text(-1 - (hours * 60 + minutes)) == seq!['0', ':', '0', '0'],
{
    assert((hours * 60 + minutes) / 60 == hours && (hours * 60 + minutes) % 60 == minutes)
        by (nonlinear_arith)
        requires
            minutes < 60,
    ;
    assert(text::ten_to(2) == 100) by {
        reveal_with_fuel(text::ten_to, 3);
    }
    text::padded_fits(minutes, 2);
    text::padded_fits(0, 2);
    assert(text::low_digits(0, 2) =~= seq!['0', '0']) by {
        reveal_with_fuel(text::low_digits, 3);
    }
    assert(text::dec(0) =~= seq!['0']);
    assert(dur_text(-1 - (hours * 60 + minutes)) =~= seq!['0', ':', '0', '0']);
}

/// The pages get an entry as its row has it: by the id of its month and number, with its
/// date, its duration, and its columns; it is locked if a run that is not voided holds
/// its id, and the first such run is named.
pub proof fn pages_get_entries_as_they_are(a: ApiEntry, r: RowView, runs: Seq<ExportRun>)
    requires
        shown(a, r, runs),
    ensures
        ({
            let id = r.stem + seq![':'] + text::dec(r.n);
            &&& a.id@ == id
            &&& a.date@ == r.date.text()
            &&& a.dur@ == dur_text(r.minutes)
            &&& a.minutes == r.minutes
            &&& a.client@ == r.client
            &&& a.engagement@ == r.engagement
            &&& a.billable == r.billable
            &&& a.narrative@ == r.narrative
            &&& a.locked == exists|i: int, k: int|
                0 <= i < runs.len() && !runs[i].voided && 0 <= k < runs[i].entry_ids@.len() && (
                #[trigger] runs[i].entry_ids@[k])@ == id
            &&& a.run_id is Some == a.locked
            &&& a.run_id matches Some(t) ==> exports::locking_run(runs, id) == Some(t@)
        }),
{
    let id = exports::entry_id(r.stem, r.n);
    assert(id =~= r.stem + seq![':'] + text::dec(r.n));
    exports::locks_are_ids_of_runs(runs, id);
    exports::locking_run_is_lock(runs, id);
}

} // verus!
