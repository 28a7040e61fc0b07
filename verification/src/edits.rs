//! What the recorded-time pages ask for: the checks before a change, the change of
//! a monthly file's content, and the answers.

use crate::csv;
use crate::csv_file;
use crate::csv_file::CsvFile;
use crate::csv_file::CsvModel;
use crate::csv_writer;
use crate::csv_writer::RewriteResult;
use crate::datefmt;
use crate::dates;
use crate::dates::Date;
use crate::entries;
use crate::entries::PatchEntryBody;
use crate::entries::RowView;
use crate::exports;
use crate::exports::ExportManifest;
use crate::exports::ExportRun;
use crate::text;
use vstd::prelude::*;
use vstd::utf8::encode_utf8;

verus! {

// ---- answers --------------------------------------------------------------

/// A request that is not met: the status of the answer, and why.
pub struct Refusal {
    pub status: u16,
    pub message: String,
}

pub open spec fn refuses(r: Refusal, status: u16, message: Seq<char>) -> bool {
    r.status == status && r.message@ == message
}

fn refuse(status: u16, message: &str) -> (r: Refusal)
    ensures
        refuses(r, status, message@),
{
    Refusal { status, message: text::copy(message) }
}

pub open spec fn locked_entry() -> Seq<char> {
    "this entry is locked \u{2014} it's included in a completed export. Unlock it first."@
}

/// A rewrite failed because the entry is not there, or its month has no file.
pub open spec fn is_missing_entry(message: Seq<char>) -> bool {
    message == "no such entry"@ || message == "no CSV file for that entry"@
}

/// The answer to a rewrite that did not land: 503 while the file is locked, 404 for
/// an entry that is not there, 500 for anything else that failed.
pub fn rewrite_refusal(r: &RewriteResult) -> (f: Refusal)
    ensures
        match *r {
            RewriteResult::Written => refuses(f, 200, "ok"@),
            RewriteResult::Locked(m) => refuses(f, 503, m@),
            RewriteResult::Error(m) => refuses(
                f,
                if is_missing_entry(m@) {
                    404
                } else {
                    500
                },
                m@,
            ),
        },
{
    match r {
        RewriteResult::Written => refuse(200, "ok"),
        RewriteResult::Locked(m) => refuse(503, m.as_str()),
        RewriteResult::Error(m) => {
            let missing = text::same_text(m.as_str(), "no such entry") || text::same_text(
                m.as_str(),
                "no CSV file for that entry",
            );
            refuse(
                if missing {
                    404
                } else {
                    500
                },
                m.as_str(),
            )
        },
    }
}

// ---- content --------------------------------------------------------------

/// What a file with these bytes holds.
pub open spec fn model_of(bytes: Seq<u8>) -> CsvModel {
    csv_file::parsed(text::lossy(bytes))
}

/// The bytes of a file that holds this.
pub open spec fn bytes_of(m: CsvModel) -> Seq<u8> {
    encode_utf8(csv_file::rendered(m))
}

/// A change of a file's content: its new bytes, or why there are none.
pub open spec fn changed(r: Result<Vec<u8>, String>, to: Result<CsvModel, Seq<char>>) -> bool {
    match to {
        Ok(m) => r matches Ok(b) && b@ == bytes_of(m),
        Err(e) => r matches Err(t) && t@ == e,
    }
}

fn load(bytes: &Vec<u8>) -> (r: CsvFile)
    ensures
        r@ == model_of(bytes@),
{
    let t = text::lossy_text(bytes.as_slice());
    CsvFile::parse(t.as_str())
}

/// The file, or a new one.
pub open spec fn file_or_fresh(cur: Option<Vec<u8>>) -> CsvModel {
    match cur {
        Some(b) => model_of(b@),
        None => csv_file::fresh(),
    }
}

fn load_or_fresh(cur: &Option<Vec<u8>>) -> (r: CsvFile)
    ensures
        r@ == file_or_fresh(*cur),
{
    match cur {
        Some(b) => load(b),
        None => CsvFile::fresh_v02(),
    }
}

pub open spec fn no_file() -> Seq<char> {
    "no CSV file for that entry"@
}

/// The content with a change made in row `n`.
pub fn patch_content(cur: &Option<Vec<u8>>, n: usize, body: &PatchEntryBody) -> (r: Result<
    Vec<u8>,
    String,
>)
    ensures
        changed(
            r,
            match *cur {
                Some(b) => entries::file_patched(model_of(b@), n as nat, *body),
                None => Err(no_file()),
            },
        ),
{
    match cur {
        Some(b) => {
            let mut file = load(b);
            match entries::apply_patch_to_row(&mut file, n, body) {
                Ok(_) => Ok(file.render()),
                Err(e) => Err(e),
            }
        },
        None => Err(text::copy("no CSV file for that entry")),
    }
}

/// The file without row `n`.
pub open spec fn removed(m: CsvModel, n: nat) -> Result<CsvModel, Seq<char>> {
    if n == 0 || n > m.rows.len() {
        Err(entries::no_such_entry())
    } else {
        Ok(CsvModel { rows: m.rows.remove(n - 1), ..m })
    }
}

/// The content without row `n`.
pub fn delete_content(cur: &Option<Vec<u8>>, n: usize) -> (r: Result<Vec<u8>, String>)
    ensures
        changed(
            r,
            match *cur {
                Some(b) => removed(model_of(b@), n as nat),
                None => Err(no_file()),
            },
        ),
{
    match cur {
        Some(b) => {
            let mut file = load(b);
            if n == 0 || n > file.rows.len() {
                return Err(text::copy("no such entry"));
            }
            let ghost before = file@;
            file.rows.remove(n - 1);
            assert(file@.rows =~= before.rows.remove(n - 1));
            Ok(file.render())
        },
        None => Err(text::copy("no CSV file for that entry")),
    }
}

/// The row with as many fields as the file has columns.
pub open spec fn fitted(row: Seq<Seq<char>>, ncols: nat) -> Seq<Seq<char>> {
    if row.len() > ncols {
        row.take(ncols as int)
    } else {
        entries::padded(row, ncols)
    }
}

/// The file with one row more.
pub open spec fn with_row(m: CsvModel, row: Seq<Seq<char>>) -> CsvModel {
    CsvModel { rows: m.rows.push(row), ..m }
}

fn push_row(file: &mut CsvFile, row: Vec<String>)
    ensures
        final(file)@ == with_row(old(file)@, text::texts(row@)),
{
    let ghost before = file@;
    let ghost f = text::texts(row@);
    file.rows.push(row);
    assert(file@.rows =~= before.rows.push(f));
}

/// The content with a row that comes from another month.
pub fn moved_content(cur: &Option<Vec<u8>>, row: &Vec<String>) -> (r: Result<Vec<u8>, String>)
    ensures
        changed(
            r,
            ({
                let m = file_or_fresh(*cur);
                Ok(with_row(m, fitted(text::texts(row@), csv_file::columns(m))))
            }),
        ),
{
    let mut file = load_or_fresh(cur);
    let ncols: usize = file.ncols();
    let ghost all = text::texts(row@);
    let mut out: Vec<String> = Vec::new();
    let mut i: usize = 0;
    assert(text::texts(out@) =~= all.take(0));
    while i < row.len() && i < ncols
        invariant
            i <= row@.len(),
            i <= ncols,
            all == text::texts(row@),
            text::texts(out@) == all.take(i as int),
        decreases row@.len() - i,
    {
        let ghost outs = text::texts(out@);
        out.push(row[i].clone());
        assert(text::texts(out@) =~= outs.push(all[i as int]));
        assert(all.take(i + 1) =~= all.take(i as int).push(all[i as int]));
        i += 1;
    }
    let ghost cut = text::texts(out@);
    let ghost e = Seq::<char>::empty();
    assert(cut =~= cut + Seq::new(0, |k: int| e));
    while out.len() < ncols
        invariant
            cut.len() <= out@.len(),
            cut.len() < out@.len() ==> out@.len() <= ncols,
            e == Seq::<char>::empty(),
            text::texts(out@) == cut + Seq::new((out@.len() - cut.len()) as nat, |k: int| e),
        decreases ncols - out@.len(),
    {
        let ghost now = text::texts(out@);
        out.push(String::new());
        assert(text::texts(out@) =~= now.push(e));
        assert(text::texts(out@) =~= cut + Seq::new((out@.len() - cut.len()) as nat, |k: int| e));
    }
    assert(text::texts(out@) =~= fitted(all, ncols as nat));
    push_row(&mut file, out);
    Ok(file.render())
}

// ---- changing an entry ----------------------------------------------------

/// Where an accepted change goes: the row, and the month it moves to if any.
pub struct EditPlan {
    pub stem: String,
    pub n: usize,
    pub dest: Option<String>,
}

/// What the request to change an entry comes to before any file is read.
pub open spec fn patch_planned(
    id: Seq<char>,
    runs: Seq<ExportRun>,
    b: PatchEntryBody,
    r: Result<EditPlan, Refusal>,
) -> bool {
    match entries::id_parts(id) {
        None => r matches Err(f) && refuses(f, 400, "bad entry id"@),
        Some((stem, n)) => if exports::locks(runs, id) {
            r matches Err(f) && refuses(f, 409, locked_entry())
        } else {
            match entries::target_stem(stem, b) {
                Err(_) => r matches Err(f) && refuses(f, 422, entries::bad_date()),
                Ok(dest) => r matches Ok(p) && p.stem@ == stem && p.n == n && match dest {
                    Some(d) => p.dest matches Some(t) && t@ == d,
                    None => p.dest is None,
                },
            }
        },
    }
}

/// The checks before an entry is changed: its id, its lock, and its new month.
pub fn plan_patch(id: &str, manifest: &ExportManifest, body: &PatchEntryBody) -> (r: Result<
    EditPlan,
    Refusal,
>)
    ensures
        patch_planned(id@, manifest.runs@, *body, r),
{
    match entries::parse_entry_id(id) {
        None => Err(refuse(400, "bad entry id")),
        Some((stem, n)) => {
            if manifest.run_id_for_entry(id).is_some() {
                return Err(
                    refuse(
                        409,
                        "this entry is locked \u{2014} it's included in a completed export. Unlock it first.",
                    ),
                );
            }
            match entries::patch_target_stem(stem.as_str(), body) {
                Ok(dest) => Ok(EditPlan { stem, n, dest }),
                Err(_) => Err(refuse(422, "could not parse the date (want YYYY-MM-DD)")),
            }
        },
    }
}

/// The answer to a change that the file as it was read does not allow.
pub fn patch_precheck(file: &CsvFile, n: usize, body: &PatchEntryBody) -> (r: Option<Refusal>)
    ensures
        match entries::file_patched(file@, n as nat, *body) {
            Ok(_) => r is None,
            Err(e) => r matches Some(f) && refuses(
                f,
                if e == entries::no_such_entry() {
                    404
                } else {
                    422
                },
                e,
            ),
        },
{
    if n == 0 || n > file.rows.len() {
        return Some(refuse(404, "no such entry"));
    }
    let ncols: usize = file.ncols();
    let mut row = csv_file::copy_texts(&file.rows[n - 1]);
    assert(file@.rows[n - 1] == text::texts(file.rows@[n - 1]@));
    match entries::apply_patch_fields(&mut row, ncols, body) {
        Ok(_) => None,
        Err(e) => {
            let status: u16 = if text::same_text(e.as_str(), "no such entry") {
                404
            } else {
                422
            };
            Some(Refusal { status, message: e })
        },
    }
}

/// The row that moves to another month, with its changes.
pub fn row_to_move(file: &Option<CsvFile>, n: usize, body: &PatchEntryBody) -> (r: Result<
    Vec<String>,
    Refusal,
>)
    ensures
        match *file {
            None => r matches Err(f) && refuses(f, 404, no_file()),
            Some(file) => if n == 0 || n > file@.rows.len() {
                r matches Err(f) && refuses(f, 404, entries::no_such_entry())
            } else {
                match entries::patched(file@.rows[n - 1], csv_file::columns(file@), *body) {
                    Ok(row) => r matches Ok(v) && text::texts(v@) == row,
                    Err(e) => r matches Err(f) && refuses(f, 422, e),
                }
            },
        },
{
    match file {
        None => Err(refuse(404, "no CSV file for that entry")),
        Some(file) => {
            if n == 0 || n > file.rows.len() {
                return Err(refuse(404, "no such entry"));
            }
            let ncols: usize = file.ncols();
            let mut row = csv_file::copy_texts(&file.rows[n - 1]);
            assert(file@.rows[n - 1] == text::texts(file.rows@[n - 1]@));
            match entries::apply_patch_fields(&mut row, ncols, body) {
                Ok(_) => Ok(row),
                Err(e) => Err(Refusal { status: 422, message: e }),
            }
        },
    }
}

pub open spec fn detail_of(r: RewriteResult) -> Seq<char> {
    match r {
        RewriteResult::Written => Seq::empty(),
        RewriteResult::Locked(m) => " ("@ + m@ + ")"@,
        RewriteResult::Error(m) => " ("@ + m@ + ")"@,
    }
}

/// The answer where an entry was copied to its new month and could not be removed
/// from the old one.
pub fn half_moved(src: &str, dest: &str, r: &RewriteResult) -> (f: Refusal)
    ensures
        refuses(
            f,
            500,
            "the entry was copied into "@ + dest@ + ", but couldn't be removed from "@ + src@
                + " \u{2014} close any program holding that month's CSV, then delete the leftover copy"@
                + detail_of(*r),
        ),
{
    let mut m = text::copy("the entry was copied into ");
    text::push_text(&mut m, dest);
    text::push_text(&mut m, ", but couldn't be removed from ");
    text::push_text(&mut m, src);
    text::push_text(
        &mut m,
        " \u{2014} close any program holding that month's CSV, then delete the leftover copy",
    );
    let ghost head = m@;
    match r {
        RewriteResult::Written => {
            assert(head + Seq::<char>::empty() =~= head);
        },
        RewriteResult::Locked(t) => {
            text::push_text(&mut m, " (");
            text::push_text(&mut m, t.as_str());
            text::push_text(&mut m, ")");
            assert(m@ =~= head + detail_of(*r));
        },
        RewriteResult::Error(t) => {
            text::push_text(&mut m, " (");
            text::push_text(&mut m, t.as_str());
            text::push_text(&mut m, ")");
            assert(m@ =~= head + detail_of(*r));
        },
    }
    Refusal { status: 500, message: m }
}

/// The checks before an entry is removed.
pub fn plan_delete(id: &str, manifest: &ExportManifest) -> (r: Result<(String, usize), Refusal>)
    ensures
        match entries::id_parts(id@) {
            None => r matches Err(f) && refuses(f, 400, "bad entry id"@),
            Some((stem, n)) => if exports::locks(manifest.runs@, id@) {
                r matches Err(f) && refuses(f, 409, locked_entry())
            } else {
                r matches Ok(p) && p.0@ == stem && p.1 == n
            },
        },
{
    match entries::parse_entry_id(id) {
        None => Err(refuse(400, "bad entry id")),
        Some((stem, n)) => {
            if manifest.run_id_for_entry(id).is_some() {
                return Err(
                    refuse(
                        409,
                        "this entry is locked \u{2014} it's included in a completed export. Unlock it first.",
                    ),
                );
            }
            Ok((stem, n))
        },
    }
}

/// The answer to removing a row that the file as it was read does not have.
pub fn delete_precheck(file: &CsvFile, n: usize) -> (r: Option<Refusal>)
    ensures
        n > file@.rows.len() ==> (r matches Some(f) && refuses(f, 404, entries::no_such_entry())),
        n <= file@.rows.len() ==> r is None,
{
    if n > file.rows.len() {
        Some(refuse(404, "no such entry"))
    } else {
        None
    }
}

/// The answer where an entry was removed and the record of locks could not be saved.
pub fn lock_record_failed(e: &str) -> (f: Refusal)
    ensures
        refuses(f, 500, "entry deleted, but updating the export lock record failed: "@ + e@),
{
    let mut m = text::copy("entry deleted, but updating the export lock record failed: ");
    text::push_text(&mut m, e);
    Refusal { status: 500, message: m }
}

// ---- creating an entry ----------------------------------------------------

/// A new entry as it is typed.
pub struct CreateEntryBody {
    pub date: String,
    pub dur: String,
    pub client: String,
    pub engagement: String,
    pub narrative: String,
    pub billable: bool,
}

/// A new entry, checked.
pub struct NewEntry {
    pub date: Date,
    pub minutes: i64,
    pub client: String,
    pub engagement: String,
    pub narrative: String,
    pub billable: bool,
}

/// What a new entry comes to.
pub open spec fn create_planned(b: CreateEntryBody, r: Result<NewEntry, Refusal>) -> bool {
    match dates::written_date(text::trim(b.date@)) {
        None => r matches Err(f) && refuses(f, 422, "bad date (want YYYY-MM-DD)"@),
        Some(d) => match datefmt::hm_dur(b.dur@) {
            None => r matches Err(f) && refuses(f, 422, entries::bad_duration()),
            Some(m) => if m == 0 {
                r matches Err(f) && refuses(f, 422, "duration must be greater than zero"@)
            } else if text::trim(b.client@).len() == 0 || text::trim(b.engagement@).len() == 0 {
                r matches Err(f) && refuses(f, 422, "client and engagement are required"@)
            } else {
                r matches Ok(e) && e.date == entries::date_from(d) && e.minutes == m && e.client@
                    == text::trim(b.client@) && e.engagement@ == text::trim(b.engagement@)
                    && e.narrative@ == b.narrative@ && e.billable == b.billable
            },
        },
    }
}

/// The checks before an entry is created.
pub fn plan_create(body: &CreateEntryBody) -> (r: Result<NewEntry, Refusal>)
    ensures
        create_planned(*body, r),
        r matches Ok(e) ==> e.date.valid() && 0 < e.minutes <= 1440,
{
    let d = text::trim_text(body.date.as_str());
    let date = match dates::parse_date(d.as_str()) {
        Some(x) => x,
        None => return Err(refuse(422, "bad date (want YYYY-MM-DD)")),
    };
    let minutes: i64 = match datefmt::parse_hm_dur(body.dur.as_str()) {
        Some(m) => m,
        None => return Err(refuse(422, "could not parse the duration (try \"1:30\" or \"90\")")),
    };
    if minutes == 0 {
        return Err(refuse(422, "duration must be greater than zero"));
    }
    let client = text::trim_text(body.client.as_str());
    let engagement = text::trim_text(body.engagement.as_str());
    if text::chars_of(client.as_str()).len() == 0 || text::chars_of(engagement.as_str()).len()
        == 0 {
        return Err(refuse(422, "client and engagement are required"));
    }
    proof {
        datefmt::typed_durations_are_within_a_day(body.dur@);
    }
    Ok(
        NewEntry {
            date,
            minutes,
            client,
            engagement,
            narrative: body.narrative.clone(),
            billable: body.billable,
        },
    )
}

/// The row of a new entry, in the shape of the file.
pub open spec fn new_row(e: NewEntry, staff: Seq<char>, v02: bool) -> Seq<Seq<char>> {
    let nine = seq![
        e.date.text(),
        staff,
        e.client@,
        e.engagement@,
        e.narrative@,
        text::dec_int(e.minutes as int),
        csv_writer::signed_hours_text(e.minutes as int),
        text::bool_text(e.billable),
        "quick"@,
    ];
    if v02 {
        nine.push(Seq::empty())
    } else {
        nine
    }
}

/// The content with a new entry in its last row.
pub fn create_content(cur: &Option<Vec<u8>>, e: &NewEntry, staff: &str) -> (r: Result<
    Vec<u8>,
    String,
>)
    ensures
        changed(
            r,
            ({
                let m = file_or_fresh(*cur);
                Ok(with_row(m, new_row(*e, staff@, m.v02)))
            }),
        ),
{
    let mut file = load_or_fresh(cur);
    let mut row: Vec<String> = Vec::new();
    row.push(dates::date_text(&e.date));
    row.push(text::copy(staff));
    row.push(e.client.clone());
    row.push(e.engagement.clone());
    row.push(e.narrative.clone());
    row.push(text::i64_text(e.minutes));
    row.push(csv_writer::signed_hours(e.minutes as i128));
    row.push(text::flag_text(e.billable));
    row.push(text::copy("quick"));
    if file.v02 {
        row.push(String::new());
    }
    assert(text::texts(row@) =~= new_row(*e, staff@, file@.v02));
    push_row(&mut file, row);
    Ok(file.render())
}

// ---- laws -----------------------------------------------------------------

/// What is created is listed: a file with a new entry in its last row is read as it
/// was and one row more, and lists the entry, each text with its guard, behind all
/// that it listed before. That its date is read is what `locate_rows` ensures of the
/// rows that it lists.
pub proof fn created_entries_are_listed(
    stem: Seq<char>,
    m: CsvModel,
    e: NewEntry,
    staff: Seq<char>,
)
    requires
        csv_file::prefix_well_formed(m),
        csv_file::rows_well_formed(m),
        e.date.valid(),
        0 <= e.date.year <= 9999,
        e.minutes >= 0,
        !staff.contains('\n'),
        !e.client@.contains('\n'),
        !e.engagement@.contains('\n'),
        !e.narrative@.contains('\n'),
        entries::dates_are_read(
            csv_file::parsed(csv_file::rendered(with_row(m, new_row(e, staff, m.v02)))).rows,
        ),
    ensures
        ({
            let row = new_row(e, staff, m.v02);
            let before = csv_file::guarded_rows(m.rows);
            let after = csv_file::parsed(csv_file::rendered(with_row(m, row)));
            &&& after == CsvModel { rows: before.push(csv_file::guarded_row(row)), ..m }
            &&& entries::located(stem, after.rows) == entries::located(stem, before).push(
                RowView {
                    stem,
                    n: m.rows.len() + 1,
                    date: e.date,
                    client: csv::guarded(e.client@),
                    engagement: csv::guarded(e.engagement@),
                    narrative: csv::guarded(e.narrative@),
                    minutes: e.minutes as int,
                    billable: e.billable,
                },
            )
        }),
{
    let row = new_row(e, staff, m.v02);
    csv_writer::plain_columns_stay(
        e.date,
        e.minutes as nat,
        e.billable,
        csv_writer::EntryMethod::Quick,
    );
    assert(Seq::<char>::empty().len() == 0);
    assert forall|i: int| 0 <= i < row.len() implies !(#[trigger] row[i]).contains('\n') by {
        assert(i == 0 || i == 1 || i == 2 || i == 3 || i == 4 || i == 5 || i == 6 || i == 7 || i == 8
            || i == 9);
    }
    lemma_row_more(m, row);
    let f = csv_file::guarded_row(row);
    assert(f[0] == csv::guarded(row[0]) && f[2] == csv::guarded(row[2]) && f[3] == csv::guarded(
        row[3],
    ) && f[4] == csv::guarded(row[4]) && f[5] == csv::guarded(row[5]) && f[7] == csv::guarded(
        row[7],
    ));
    entries::recorded_entries_are_listed(
        stem,
        csv_file::guarded_rows(m.rows),
        f,
        e.date,
        csv::guarded(e.client@),
        csv::guarded(e.engagement@),
        csv::guarded(e.narrative@),
        e.minutes as nat,
        e.billable,
    );
}

proof fn lemma_row_more(m: CsvModel, row: Seq<Seq<char>>)
    requires
        csv_file::prefix_well_formed(m),
        csv_file::rows_well_formed(m),
        csv_file::row_well_formed(row),
    ensures
        csv_file::parsed(csv_file::rendered(with_row(m, row))) == (CsvModel {
            rows: csv_file::guarded_rows(m.rows).push(csv_file::guarded_row(row)),
            ..m
        }),
{
    let w = with_row(m, row);
    assert forall|i: int| 0 <= i < w.rows.len() implies csv_file::row_well_formed(
        #[trigger] w.rows[i],
    ) by {
        if i < m.rows.len() {
            assert(w.rows[i] == m.rows[i]);
        }
    }
    assert(CsvModel { rows: Seq::empty(), ..w } == CsvModel { rows: Seq::empty(), ..m });
    csv_file::files_read_back(w);
    assert(csv_file::guarded_rows(w.rows) =~= csv_file::guarded_rows(m.rows).push(
        csv_file::guarded_row(row),
    ));
}

/// A change touches only the columns that it names: every other field of the row
/// stays, and a row that is too short is filled up with empty fields.
pub proof fn changes_touch_what_they_name(
    row: Seq<Seq<char>>,
    ncols: nat,
    b: PatchEntryBody,
    i: int,
)
    requires
        ncols >= 8,
        entries::patched(row, ncols, b) is Ok,
        0 <= i,
        b.date is None || i != 0,
        b.client is None || i != 2,
        b.engagement is None || i != 3,
        b.narrative is None || i != 4,
        b.dur is None || i != 5 && i != 6,
        b.billable is None || i != 7,
    ensures
        entries::patched(row, ncols, b)->Ok_0.len() == entries::padded(row, ncols).len(),
        i < row.len() ==> entries::patched(row, ncols, b)->Ok_0[i] == row[i],
        row.len() <= i < ncols ==> entries::patched(row, ncols, b)->Ok_0[i].len() == 0,
{
}

/// An entry that moves to another month is there afterwards, with all that it
/// records, and no longer in its old month; no other row of either month changes.
pub proof fn moves_keep_the_entry(
    src: CsvModel,
    n: nat,
    dest: CsvModel,
    b: PatchEntryBody,
)
    requires
        csv_file::prefix_well_formed(src),
        csv_file::rows_well_formed(src),
        csv_file::prefix_well_formed(dest),
        csv_file::rows_well_formed(dest),
        0 < n <= src.rows.len(),
        entries::patched(src.rows[n - 1], csv_file::columns(src), b) is Ok,
        csv_file::row_well_formed(
            entries::patched(src.rows[n - 1], csv_file::columns(src), b)->Ok_0,
        ),
    ensures
        ({
            let row = entries::patched(src.rows[n - 1], csv_file::columns(src), b)->Ok_0;
            let moved = fitted(row, csv_file::columns(dest));
            &&& csv_file::parsed(csv_file::rendered(with_row(dest, moved))).rows
                == csv_file::guarded_rows(dest.rows).push(csv_file::guarded_row(moved))
            &&& moved.take(9) == row.take(9)
            &&& removed(src, n) is Ok
            &&& csv_file::parsed(csv_file::rendered(removed(src, n)->Ok_0)).rows
                == csv_file::guarded_rows(src.rows).remove(n - 1)
        }),
{
    let row = entries::patched(src.rows[n - 1], csv_file::columns(src), b)->Ok_0;
    let moved = fitted(row, csv_file::columns(dest));
    assert(row.len() >= 9);
    assert(moved.take(9) =~= row.take(9));
    assert forall|i: int| 0 <= i < moved.len() implies !(#[trigger] moved[i]).contains('\n') by {
        if i < row.len() {
            assert(moved[i] == row[i]);
        }
    }
    assert(moved[0] == row[0]);
    lemma_row_more(dest, moved);
    let left = removed(src, n)->Ok_0;
    assert forall|i: int| 0 <= i < left.rows.len() implies csv_file::row_well_formed(
        #[trigger] left.rows[i],
    ) by {
        if i < n - 1 {
            assert(left.rows[i] == src.rows[i]);
        } else {
            assert(left.rows[i] == src.rows[i + 1]);
        }
    }
    assert(CsvModel { rows: Seq::empty(), ..left } == CsvModel { rows: Seq::empty(), ..src });
    csv_file::files_read_back(left);
    assert(csv_file::guarded_rows(left.rows) =~= csv_file::guarded_rows(src.rows).remove(n - 1));
}

/// Removing takes one row out: those before it stay in place, those behind it move up by
/// one, and all else of the file stays. A number that no row has is refused.
pub proof fn removing_takes_one_row_out(m: CsvModel, n: nat, i: int)
    ensures
        removed(m, n) is Ok <==> 1 <= n <= m.rows.len(),
        removed(m, n) matches Ok(k) ==> {
            &&& k.prefix == m.prefix
            &&& k.v02 == m.v02
            &&& k.rows.len() + 1 == m.rows.len()
            &&& 0 <= i < n - 1 ==> k.rows[i] == m.rows[i]
            &&& n - 1 <= i < k.rows.len() ==> k.rows[i] == m.rows[i + 1]
        },
        removed(m, n) matches Err(e) ==> e == "no such entry"@,
{
}

/// A row is fitted to the columns of a file: what stands beyond them goes, and columns
/// that it lacks are empty.
pub proof fn rows_are_fitted_to_the_columns(row: Seq<Seq<char>>, ncols: nat, i: int)
    ensures
        fitted(row, ncols).len() == ncols,
        0 <= i < ncols && i < row.len() ==> fitted(row, ncols)[i] == row[i],
        row.len() <= i < ncols ==> fitted(row, ncols)[i].len() == 0,
    decreases ncols - row.len(),
{
    if row.len() < ncols {
        rows_are_fitted_to_the_columns(row.push(Seq::empty()), ncols, i);
    }
}

/// A row is added behind the others, and all else of the file stays.
pub proof fn rows_are_added_behind_the_others(m: CsvModel, row: Seq<Seq<char>>, i: int)
    ensures
        with_row(m, row).prefix == m.prefix,
        with_row(m, row).v02 == m.v02,
        with_row(m, row).rows.len() == m.rows.len() + 1,
        with_row(m, row).rows[m.rows.len() as int] == row,
        0 <= i < m.rows.len() ==> with_row(m, row).rows[i] == m.rows[i],
{
}

/// A change is planned for the entry that the id names, in its month and with its
/// number, and only if no run holds it; a run that does, and an id or a date that
/// cannot be read, refuse it, each with its own status.
pub proof fn changes_are_planned_for_the_entry_named(
    id: Seq<char>,
    runs: Seq<ExportRun>,
    b: PatchEntryBody,
    r: Result<EditPlan, Refusal>,
)
    requires
        patch_planned(id, runs, b, r),
    ensures
        ({
            let held = exists|a: int, k: int|
                0 <= a < runs.len() && !runs[a].voided && 0 <= k < runs[a].entry_ids@.len() && (
                #[trigger] runs[a].entry_ids@[k])@ == id;
            &&& entries::id_parts(id) is None ==> (r matches Err(f) && f.status == 400)
            &&& entries::id_parts(id) is Some && held ==> (r matches Err(f) && f.status == 409)
            &&& match entries::id_parts(id) {
                Some((stem, _)) => !held ==> (r is Ok <==> entries::target_stem(stem, b) is Ok) && (
                r matches Err(f) ==> f.status == 422),
                None => r is Err,
            }
            &&& r matches Ok(p) ==> !held && entries::id_parts(id) == Some(
                (p.stem@, p.n as nat),
            ) && entries::target_stem(p.stem@, b) is Ok
            &&& r matches Ok(p) ==> entries::target_stem(p.stem@, b)->Ok_0 == match p.dest {
                Some(d) => Some(d@),
                None => None,
            }
        }),
{
    exports::locks_are_ids_of_runs(runs, id);
}

/// A new entry holds what was typed for it, the client and the engagement without the
/// white space around them; it is owed wherever its date and its duration can be read,
/// the duration is not nought, and neither client nor engagement is empty.
pub proof fn new_entries_hold_what_was_typed(b: CreateEntryBody, r: Result<NewEntry, Refusal>)
    requires
        create_planned(b, r),
    ensures
        r is Ok <==> dates::written_date(text::trim(b.date@)) is Some && (datefmt::hm_dur(
            b.dur@,
        ) matches Some(m) && m > 0) && text::trim(b.client@).len() > 0 && text::trim(
            b.engagement@,
        ).len() > 0,
        r matches Ok(e) ==> {
            &&& dates::written_date(text::trim(b.date@)) matches Some((y, m, d)) && (
            i32::MIN <= y <= i32::MAX && 0 <= m <= u32::MAX && 0 <= d <= u32::MAX ==> e.date.year
                == y && e.date.month == m && e.date.day == d)
            &&& datefmt::hm_dur(b.dur@) == Some(e.minutes as int)
            &&& e.client@ == text::trim(b.client@)
            &&& e.engagement@ == text::trim(b.engagement@)
            &&& e.narrative@ == b.narrative@
            &&& e.billable == b.billable
        },
        r matches Err(f) ==> f.status == 422,
{
    datefmt::typed_durations_are_within_a_day(b.dur@);
}

/// The columns of a new entry: its date, the staff, the client, the engagement, the
/// narrative, the minutes, the hours, the flag, `quick`, and in a file of ten columns an
/// empty one behind.
pub proof fn new_entries_are_written_in_their_columns(e: NewEntry, staff: Seq<char>, v02: bool)
    requires
        e.minutes >= 0,
    ensures
        ({
            let f = new_row(e, staff, v02);
            &&& f.len() == if v02 {
                10nat
            } else {
                9nat
            }
            &&& f[0] == e.date.text()
            &&& f[1] == staff
            &&& f[2] == e.client@
            &&& f[3] == e.engagement@
            &&& f[4] == e.narrative@
            &&& f[5] == text::dec(e.minutes as nat)
            &&& f[6] == csv_writer::hours_text(e.minutes as nat)
            &&& e.billable ==> f[7] == seq!['t', 'r', 'u', 'e']
            &&& !e.billable ==> f[7] == seq!['f', 'a', 'l', 's', 'e']
            &&& f[8] == seq!['q', 'u', 'i', 'c', 'k']
            &&& v02 ==> f[9].len() == 0
        }),
{
    text::flags_are_words();
    reveal_strlit("quick");
    assert("quick"@ =~= seq!['q', 'u', 'i', 'c', 'k']);
}

/// What failed is told in brackets behind a space.
pub proof fn details_stand_in_brackets(m: String)
    ensures
        detail_of(RewriteResult::Written).len() == 0,
        detail_of(RewriteResult::Locked(m)) == seq![' ', '('] + m@ + seq![')'],
        detail_of(RewriteResult::Error(m)) == seq![' ', '('] + m@ + seq![')'],
{
    reveal_strlit(" (");
    reveal_strlit(")");
    assert(" ("@ =~= seq![' ', '(']);
    assert(")"@ =~= seq![')']);
}

/// A file is read from its bytes and written to them, and one that does not exist is a
/// new one.
pub proof fn files_are_read_and_written_whole(bytes: Vec<u8>, m: CsvModel, r: Result<Vec<u8>, String>)
    ensures
        file_or_fresh(Some(bytes)) == csv_file::parsed(text::lossy(bytes@)),
        file_or_fresh(None) == csv_file::fresh(),
        changed(r, Ok(m)) <==> (r matches Ok(b) && b@ == encode_utf8(csv_file::rendered(m))),
{
}

/// An entry is missing if its row or its file is, and on no other ground.
pub proof fn entries_are_missing_with_their_row_or_file(message: Seq<char>)
    ensures
        is_missing_entry(message) <==> message == entries::no_such_entry() || message == no_file(),
        entries::no_such_entry() == "no such entry"@,
        no_file() == "no CSV file for that entry"@,
{
}

} // verus!
