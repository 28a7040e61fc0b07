//! Changes of many entries at once: the billable flag of a client's entries, and
//! the removal of entries that were recorded more than once.

use crate::csv_file;
use crate::csv_file::CsvFile;
use crate::csv_file::CsvModel;
use crate::datefmt;
use crate::edits;
use crate::edits::Refusal;
use crate::entries;
use crate::exports;
use crate::exports::ExportManifest;
use crate::exports::ExportRun;
use crate::exports::LockedIds;
use crate::ranges;
use crate::ranges::Window;
use crate::text;
use vstd::prelude::*;

verus! {

/// A field of a row; empty where the row has no such field.
pub open spec fn field(f: Seq<Seq<char>>, i: int) -> Seq<char> {
    if 0 <= i < f.len() {
        f[i]
    } else {
        Seq::empty()
    }
}

fn get_field(row: &Vec<String>, i: usize) -> (r: String)
    ensures
        r@ == field(text::texts(row@), i as int),
{
    if i < row.len() {
        row[i].clone()
    } else {
        String::new()
    }
}

// ---- the billable flag ----------------------------------------------------

/// The request to set the billable flag, as it comes in.
pub struct BulkBillableBody {
    pub client: String,
    pub engagement: Option<String>,
    pub billable: bool,
    pub range: Option<String>,
}

/// The request, checked: one client, all of its engagements or one, a flag.
pub struct BulkAsk {
    pub client: String,
    pub engagement: Option<String>,
    pub billable: bool,
    pub range: String,
}

/// What the request asks for.
pub open spec fn bulk_planned(b: BulkBillableBody, r: Result<BulkAsk, Refusal>) -> bool {
    if text::trim(b.client@).len() == 0 {
        r matches Err(f) && edits::refuses(f, 422, "client is required"@)
    } else {
        r matches Ok(a) && {
            &&& a.client@ == text::trim(b.client@)
            &&& a.billable == b.billable
            &&& a.range@ == match b.range {
                Some(s) => s@,
                None => "all"@,
            }
            &&& match b.engagement {
                Some(e) => if text::trim(e@).len() == 0 {
                    a.engagement is None
                } else {
                    a.engagement matches Some(t) && t@ == text::trim(e@)
                },
                None => a.engagement is None,
            }
        }
    }
}

/// The checks before the flags are set.
pub fn plan_bulk(body: &BulkBillableBody) -> (r: Result<BulkAsk, Refusal>)
    ensures
        bulk_planned(*body, r),
{
    let client = text::trim_text(body.client.as_str());
    if text::chars_of(client.as_str()).len() == 0 {
        return Err(Refusal { status: 422, message: text::copy("client is required") });
    }
    let engagement: Option<String> = match &body.engagement {
        Some(e) => {
            let t = text::trim_text(e.as_str());
            if text::chars_of(t.as_str()).len() == 0 {
                None
            } else {
                Some(t)
            }
        },
        None => None,
    };
    let range = match &body.range {
        Some(s) => s.clone(),
        None => text::copy("all"),
    };
    Ok(BulkAsk { client, engagement, billable: body.billable, range })
}

/// The row is one that the request speaks of.
pub open spec fn asked(f: Seq<Seq<char>>, ask: BulkAsk, w: Window) -> bool {
    &&& w is Some ==> datefmt::entry_date(field(f, 0)) is Some && ranges::inside(
        entries::date_from(datefmt::entry_date(field(f, 0))->0),
        w,
    )
    &&& field(f, 2) == ask.client@
    &&& ask.engagement matches Some(e) ==> field(f, 3) == e@
}

/// The flag of the row; billable where it has none.
pub open spec fn flag_of(f: Seq<Seq<char>>) -> bool {
    f.len() > 7 ==> entries::field_billable(f[7])
}

/// The rows whose flag is to change: those asked for, not locked, and not as wanted.
pub open spec fn to_flip(
    rows: Seq<Seq<Seq<char>>>,
    stem: Seq<char>,
    ask: BulkAsk,
    w: Window,
    locked: Seq<Seq<char>>,
) -> Seq<usize>
    decreases rows.len(),
{
    if rows.len() == 0 {
        Seq::empty()
    } else {
        let init = to_flip(rows.drop_last(), stem, ask, w, locked);
        let f = rows.last();
        if asked(f, ask, w) && !locked.contains(exports::entry_id(stem, rows.len())) && flag_of(f)
            != ask.billable {
            init.push(rows.len() as usize)
        } else {
            init
        }
    }
}

/// How many of the rows asked for are locked.
pub open spec fn locked_out(
    rows: Seq<Seq<Seq<char>>>,
    stem: Seq<char>,
    ask: BulkAsk,
    w: Window,
    locked: Seq<Seq<char>>,
) -> nat
    decreases rows.len(),
{
    if rows.len() == 0 {
        0
    } else {
        locked_out(rows.drop_last(), stem, ask, w, locked) + if asked(rows.last(), ask, w)
            && locked.contains(exports::entry_id(stem, rows.len())) {
            1nat
        } else {
            0nat
        }
    }
}

fn is_asked(row: &Vec<String>, ask: &BulkAsk, w: &Window) -> (r: bool)
    ensures
        r == asked(text::texts(row@), *ask, *w),
{
    let ghost f = text::texts(row@);
    match w {
        Some(_) => {
            let first = get_field(row, 0);
            match datefmt::parse_entry_date(first.as_str()) {
                Some(d) => {
                    assert(entries::date_from(datefmt::entry_date(field(f, 0))->0) == d);
                    if !ranges::in_window(&d, w) {
                        return false;
                    }
                },
                None => return false,
            }
        },
        None => {},
    }
    let client = get_field(row, 2);
    if !text::same_text(client.as_str(), ask.client.as_str()) {
        return false;
    }
    match &ask.engagement {
        Some(e) => {
            let engagement = get_field(row, 3);
            text::same_text(engagement.as_str(), e.as_str())
        },
        None => true,
    }
}

/// The rows of a file whose flag is to change, and how many asked for are locked.
pub fn rows_to_flip(stem: &str, file: &CsvFile, ask: &BulkAsk, w: &Window, locked: &LockedIds) -> (r:
    (Vec<usize>, usize))
    ensures
        r.0@ == to_flip(file@.rows, stem@, *ask, *w, text::texts(locked.ids@)),
        r.1 == locked_out(file@.rows, stem@, *ask, *w, text::texts(locked.ids@)),
{
    let ghost all = file@.rows;
    let ghost ids = text::texts(locked.ids@);
    let mut flips: Vec<usize> = Vec::new();
    let mut skipped: usize = 0;
    let mut i: usize = 0;
    assert(all.take(0) =~= Seq::empty());
    while i < file.rows.len()
        invariant
            i <= file.rows@.len(),
            skipped <= i,
            all == csv_file::rows_view(file.rows@),
            ids == text::texts(locked.ids@),
            flips@ == to_flip(all.take(i as int), stem@, *ask, *w, ids),
            skipped == locked_out(all.take(i as int), stem@, *ask, *w, ids),
        decreases file.rows@.len() - i,
    {
        let row = &file.rows[i];
        let ghost f = text::texts(row@);
        proof {
            assert(all.take(i + 1).drop_last() =~= all.take(i as int));
            assert(all.take(i + 1).last() == f);
        }
        let n: usize = i + 1;
        if is_asked(row, ask, w) {
            let id = exports::make_id(stem, n);
            if locked.contains(id.as_str()) {
                skipped += 1;
            } else {
                let now = if row.len() > 7 {
                    assert(f[7] == row@[7]@);
                    text::eq_ignore_case(row[7].as_str(), "true")
                } else {
                    true
                };
                if now != ask.billable {
                    flips.push(n);
                }
            }
        }
        i += 1;
    }
    assert(all.take(all.len() as int) =~= all);
    (flips, skipped)
}

/// The file with the flag set in some rows.
pub open spec fn flipped(m: CsvModel, flips: Seq<usize>, want: bool) -> CsvModel {
    CsvModel {
        rows: Seq::new(
            m.rows.len(),
            |i: int|
                if flips.contains((i + 1) as usize) {
                    entries::padded(m.rows[i], csv_file::columns(m)).update(
                        7,
                        text::bool_text(want),
                    )
                } else {
                    m.rows[i]
                },
        ),
        ..m
    }
}

fn has_number(list: &Vec<usize>, n: usize) -> (r: bool)
    ensures
        r == list@.contains(n),
{
    let mut i: usize = 0;
    while i < list.len()
        invariant
            i <= list@.len(),
            forall|k: int| 0 <= k < i ==> list@[k] != n,
        decreases list@.len() - i,
    {
        if list[i] == n {
            return true;
        }
        i += 1;
    }
    false
}

/// The content with the flag set in some rows.
pub fn bulk_content(cur: &Option<Vec<u8>>, flips: &Vec<usize>, want: bool) -> (r: Result<
    Vec<u8>,
    String,
>)
    ensures
        edits::changed(
            r,
            match *cur {
                Some(b) => Ok(flipped(edits::model_of(b@), flips@, want)),
                None => Err("no CSV file for that month"@),
            },
        ),
{
    match cur {
        None => Err(text::copy("no CSV file for that month")),
        Some(b) => {
            let t = text::lossy_text(b.as_slice());
            let mut file = CsvFile::parse(t.as_str());
            let ncols: usize = file.ncols();
            let ghost m = file@;
            let ghost to = flipped(m, flips@, want);
            let mut i: usize = 0;
            while i < file.rows.len()
                invariant
                    i <= file.rows@.len(),
                    file.rows@.len() == m.rows.len(),
                    ncols == csv_file::columns(m),
                    file@.prefix == m.prefix,
                    file@.v02 == m.v02,
                    to == flipped(m, flips@, want),
                    forall|k: int| 0 <= k < i ==> #[trigger] file@.rows[k] == to.rows[k],
                    forall|k: int| i <= k < m.rows.len() ==> #[trigger] file@.rows[k] == m.rows[k],
                decreases file.rows@.len() - i,
            {
                assert(file@.rows[i as int] == m.rows[i as int]);
                if has_number(flips, i + 1) {
                    let mut row = csv_file::copy_texts(&file.rows[i]);
                    assert(text::texts(row@) == m.rows[i as int]);
                    pad_and_set(&mut row, ncols, want);
                    let ghost before = file@.rows;
                    let ghost f = text::texts(row@);
                    file.rows.set(i, row);
                    assert(file@.rows =~= before.update(i as int, f));
                }
                i += 1;
            }
            assert(file@.rows =~= to.rows);
            Ok(file.render())
        },
    }
}

fn pad_and_set(row: &mut Vec<String>, ncols: usize, want: bool)
    requires
        ncols >= 8,
    ensures
        text::texts(final(row)@) == entries::padded(text::texts(old(row)@), ncols as nat).update(
            7,
            text::bool_text(want),
        ),
{
    let ghost start = text::texts(row@);
    let ghost e = Seq::<char>::empty();
    assert(start =~= start + Seq::new(0, |k: int| e));
    while row.len() < ncols
        invariant
            start.len() <= row@.len(),
            start.len() < row@.len() ==> row@.len() <= ncols,
            e == Seq::<char>::empty(),
            text::texts(row@) == start + Seq::new((row@.len() - start.len()) as nat, |k: int| e),
        decreases ncols - row@.len(),
    {
        let ghost now = text::texts(row@);
        row.push(String::new());
        assert(text::texts(row@) =~= now.push(e));
        assert(text::texts(row@) =~= start + Seq::new(
            (row@.len() - start.len()) as nat,
            |k: int| e,
        ));
    }
    let ghost full = text::texts(row@);
    assert(full =~= entries::padded(start, ncols as nat));
    row.set(7, text::flag_text(want));
    assert(text::texts(row@) =~= full.update(7, text::bool_text(want)));
}

// ---- duplicates -----------------------------------------------------------

/// What a row says of its date: the date, or the text where it is none.
pub open spec fn date_key(f: Seq<Seq<char>>) -> (Option<(int, int, int)>, Seq<char>) {
    match datefmt::entry_date(field(f, 0)) {
        Some(d) => (Some(d), Seq::empty()),
        None => (None, text::trim(field(f, 0))),
    }
}

/// Two rows record the same work: the same date, client, engagement, narrative,
/// minutes and flag.
pub open spec fn same_work(f: Seq<Seq<char>>, g: Seq<Seq<char>>) -> bool {
    &&& date_key(f) == date_key(g)
    &&& text::trim(field(f, 2)) == text::trim(field(g, 2))
    &&& text::trim(field(f, 3)) == text::trim(field(g, 3))
    &&& field(f, 4) == field(g, 4)
    &&& entries::field_minutes(field(f, 5)) == entries::field_minutes(field(g, 5))
    &&& entries::field_billable(field(f, 7)) == entries::field_billable(field(g, 7))
}

/// A later row records the same work.
pub open spec fn repeated(rows: Seq<Seq<Seq<char>>>, i: int) -> bool {
    exists|j: int| i < j < rows.len() && same_work(rows[i], #[trigger] rows[j])
}

/// A row that records the same work is locked.
pub open spec fn held(
    rows: Seq<Seq<Seq<char>>>,
    stem: Seq<char>,
    locked: Seq<Seq<char>>,
    i: int,
) -> bool {
    exists|j: int|
        0 <= j < rows.len() && same_work(rows[i], #[trigger] rows[j]) && locked.contains(
            exports::entry_id(stem, (j + 1) as nat),
        )
}

/// The row is a copy to drop: a later row records the same work, and none that
/// does is locked.
pub open spec fn is_dropped(
    rows: Seq<Seq<Seq<char>>>,
    stem: Seq<char>,
    locked: Seq<Seq<char>>,
    i: int,
) -> bool {
    repeated(rows, i) && !held(rows, stem, locked, i)
}

fn same_row(a: &Vec<String>, b: &Vec<String>) -> (r: bool)
    ensures
        r == same_work(text::texts(a@), text::texts(b@)),
{
    let a0 = get_field(a, 0);
    let b0 = get_field(b, 0);
    let same_date = match (datefmt::parse_entry_date(a0.as_str()), datefmt::parse_entry_date(
        b0.as_str(),
    )) {
        (Some(x), Some(y)) => x == y,
        (None, None) => {
            let s = text::trim_text(a0.as_str());
            let t = text::trim_text(b0.as_str());
            text::same_text(s.as_str(), t.as_str())
        },
        _ => false,
    };
    if !same_date {
        return false;
    }
    let a2 = text::trim_text(get_field(a, 2).as_str());
    let b2 = text::trim_text(get_field(b, 2).as_str());
    let a3 = text::trim_text(get_field(a, 3).as_str());
    let b3 = text::trim_text(get_field(b, 3).as_str());
    let a4 = get_field(a, 4);
    let b4 = get_field(b, 4);
    text::same_text(a2.as_str(), b2.as_str()) && text::same_text(a3.as_str(), b3.as_str())
        && text::same_text(a4.as_str(), b4.as_str()) && minutes_in(get_field(a, 5).as_str())
        == minutes_in(get_field(b, 5).as_str()) && text::eq_ignore_case(
        get_field(a, 7).as_str(),
        "true",
    ) == text::eq_ignore_case(get_field(b, 7).as_str(), "true")
}

fn minutes_in(f: &str) -> (r: i64)
    ensures
        r == entries::field_minutes(f@),
{
    match text::parse_i64(f) {
        Some(n) => n,
        None => 0,
    }
}

fn drops(stem: &str, file: &CsvFile, locked: &LockedIds, i: usize) -> (r: bool)
    requires
        i < file.rows@.len(),
    ensures
        r == is_dropped(file@.rows, stem@, text::texts(locked.ids@), i as int),
{
    let ghost rows = file@.rows;
    let ghost ids = text::texts(locked.ids@);
    let mut later = false;
    let mut any_locked = false;
    let mut j: usize = 0;
    assert(rows[i as int] == text::texts(file.rows@[i as int]@));
    while j < file.rows.len()
        invariant
            j <= file.rows@.len(),
            i < file.rows@.len(),
            rows == csv_file::rows_view(file.rows@),
            ids == text::texts(locked.ids@),
            rows[i as int] == text::texts(file.rows@[i as int]@),
            later == exists|k: int|
                i < k < j && same_work(rows[i as int], #[trigger] rows[k]),
            any_locked == exists|k: int|
                0 <= k < j && same_work(rows[i as int], #[trigger] rows[k]) && ids.contains(
                    exports::entry_id(stem@, (k + 1) as nat),
                ),
        decreases file.rows@.len() - j,
    {
        assert(rows[j as int] == text::texts(file.rows@[j as int]@));
        if same_row(&file.rows[i], &file.rows[j]) {
            if j > i {
                later = true;
            }
            let id = exports::make_id(stem, j + 1);
            if locked.contains(id.as_str()) {
                any_locked = true;
            }
        }
        j += 1;
    }
    later && !any_locked
}

/// The rows of a file to drop, by their index from 0, in order.
pub fn rows_to_drop(stem: &str, file: &CsvFile, locked: &LockedIds) -> (r: Vec<usize>)
    ensures
        forall|i: int, j: int| 0 <= i < j < r@.len() ==> r@[i] < r@[j],
        forall|i: usize| #[trigger]
            r@.contains(i) == (i < file@.rows.len() && is_dropped(
                file@.rows,
                stem@,
                text::texts(locked.ids@),
                i as int,
            )),
{
    let mut out: Vec<usize> = Vec::new();
    let mut i: usize = 0;
    while i < file.rows.len()
        invariant
            i <= file.rows@.len(),
            forall|k: int| 0 <= k < out@.len() ==> out@[k] < i,
            forall|a: int, b: int| 0 <= a < b < out@.len() ==> out@[a] < out@[b],
            forall|k: usize| #[trigger]
                out@.contains(k) == (k < i && is_dropped(
                    file@.rows,
                    stem@,
                    text::texts(locked.ids@),
                    k as int,
                )),
        decreases file.rows@.len() - i,
    {
        let ghost before = out@;
        if drops(stem, file, locked, i) {
            out.push(i);
            proof {
                assert forall|k: usize| #[trigger] out@.contains(k) == (before.contains(k) || k
                    == i) by {
                    if before.contains(k) {
                        let a = choose|a: int| 0 <= a < before.len() && before[a] == k;
                        assert(out@[a] == k);
                    }
                    assert(out@[before.len() as int] == i);
                    if out@.contains(k) {
                        let a = choose|a: int| 0 <= a < out@.len() && out@[a] == k;
                        if a < before.len() {
                            assert(before[a] == k);
                        }
                    }
                }
            }
        }
        i += 1;
    }
    out
}

/// The rows that are not among those to drop.
pub open spec fn kept_rows(rows: Seq<Seq<Seq<char>>>, drop: Seq<usize>) -> Seq<Seq<Seq<char>>>
    decreases rows.len(),
{
    if rows.len() == 0 {
        Seq::empty()
    } else {
        let init = kept_rows(rows.drop_last(), drop);
        if drop.contains((rows.len() - 1) as usize) {
            init
        } else {
            init.push(rows.last())
        }
    }
}

/// The content without some rows.
pub fn dedupe_content(cur: &Option<Vec<u8>>, drop: &Vec<usize>) -> (r: Result<Vec<u8>, String>)
    ensures
        edits::changed(
            r,
            match *cur {
                Some(b) => {
                    let m = edits::model_of(b@);
                    Ok(CsvModel { rows: kept_rows(m.rows, drop@), ..m })
                },
                None => Err("the month's CSV vanished mid-dedupe"@),
            },
        ),
{
    match cur {
        None => Err(text::copy("the month's CSV vanished mid-dedupe")),
        Some(b) => {
            let t = text::lossy_text(b.as_slice());
            let file = CsvFile::parse(t.as_str());
            let ghost m = file@;
            let mut rows: Vec<Vec<String>> = Vec::new();
            let mut i: usize = 0;
            assert(m.rows.take(0) =~= Seq::empty());
            assert(csv_file::rows_view(rows@) =~= Seq::<Seq<Seq<char>>>::empty());
            while i < file.rows.len()
                invariant
                    i <= file.rows@.len(),
                    m.rows == csv_file::rows_view(file.rows@),
                    csv_file::rows_view(rows@) == kept_rows(m.rows.take(i as int), drop@),
                decreases file.rows@.len() - i,
            {
                proof {
                    assert(m.rows.take(i + 1).drop_last() =~= m.rows.take(i as int));
                    assert(m.rows.take(i + 1).last() == text::texts(file.rows@[i as int]@));
                }
                let ghost outs = csv_file::rows_view(rows@);
                if !has_number(drop, i) {
                    rows.push(csv_file::copy_texts(&file.rows[i]));
                    assert(csv_file::rows_view(rows@) =~= outs.push(m.rows[i as int]));
                }
                i += 1;
            }
            assert(m.rows.take(m.rows.len() as int) =~= m.rows);
            let out = CsvFile { prefix_lines: file.prefix_lines, rows, v02: file.v02 };
            Ok(out.render())
        },
    }
}

/// The id of the same row after some rows of the month were dropped.
pub open spec fn shifted_by(id: Seq<char>, stem: Seq<char>, drop: Seq<usize>) -> Seq<char>
    decreases drop.len(),
{
    if drop.len() == 0 {
        id
    } else {
        shifted_by(exports::shifted(id, stem, drop.last() as nat + 1), stem, drop.drop_last())
    }
}

/// The row of the id is among those of the month that were dropped.
pub open spec fn lost(id: Seq<char>, stem: Seq<char>, drop: Seq<usize>) -> bool
    decreases drop.len(),
{
    drop.len() > 0 && {
        let n = drop.last() as nat + 1;
        exports::names(id, stem, n) || lost(
            exports::shifted(id, stem, n),
            stem,
            drop.drop_last(),
        )
    }
}

/// The ids after some rows of the month were dropped: those of the dropped rows are
/// gone, and the others follow their rows.
pub open spec fn ids_after(ids: Seq<Seq<char>>, stem: Seq<char>, drop: Seq<usize>) -> Seq<
    Seq<char>,
> {
    ids.filter(|id: Seq<char>| !lost(id, stem, drop)).map_values(
        |id: Seq<char>| shifted_by(id, stem, drop),
    )
}

/// The runs after some rows of the month were dropped.
pub open spec fn runs_follow(
    before: Seq<ExportRun>,
    after: Seq<ExportRun>,
    stem: Seq<char>,
    drop: Seq<usize>,
) -> bool {
    &&& before.len() == after.len()
    &&& forall|i: int| #![trigger before[i]]
        0 <= i < before.len() ==> {
            &&& after[i] == (ExportRun { entry_ids: after[i].entry_ids, ..before[i] })
            &&& text::texts(after[i].entry_ids@) == ids_after(
                text::texts(before[i].entry_ids@),
                stem,
                drop,
            )
        }
}

/// Dropping some rows of the month moves the row of the id.
pub open spec fn moved_by(id: Seq<char>, stem: Seq<char>, drop: Seq<usize>) -> bool
    decreases drop.len(),
{
    drop.len() > 0 && {
        let n = drop.last() as nat + 1;
        exports::moves(id, stem, n) || moved_by(
            exports::shifted(id, stem, n),
            stem,
            drop.drop_last(),
        )
    }
}

/// Dropping some rows of the month moves the row of some id, or drops it.
pub open spec fn ids_change_by(ids: Seq<Seq<char>>, stem: Seq<char>, drop: Seq<usize>) -> bool {
    exists|j: int|
        0 <= j < ids.len() && (moved_by(#[trigger] ids[j], stem, drop) || lost(ids[j], stem, drop))
}

proof fn lemma_shift_first(id: Seq<char>, stem: Seq<char>, d: Seq<usize>)
    requires
        d.len() > 0,
    ensures
        shifted_by(id, stem, d) == exports::shifted(
            shifted_by(id, stem, d.skip(1)),
            stem,
            d[0] as nat + 1,
        ),
        moved_by(id, stem, d) == (moved_by(id, stem, d.skip(1)) || exports::moves(
            shifted_by(id, stem, d.skip(1)),
            stem,
            d[0] as nat + 1,
        )),
        lost(id, stem, d) == (lost(id, stem, d.skip(1)) || exports::names(
            shifted_by(id, stem, d.skip(1)),
            stem,
            d[0] as nat + 1,
        )),
    decreases d.len(),
{
    if d.len() == 1 {
        assert(d.drop_last() =~= Seq::empty());
        assert(d.skip(1) =~= Seq::empty());
        let next = exports::shifted(id, stem, d[0] as nat + 1);
        assert(shifted_by(next, stem, d.drop_last()) == next);
        assert(!moved_by(next, stem, d.drop_last()));
        assert(!lost(next, stem, d.drop_last()));
    } else {
        let next = exports::shifted(id, stem, d.last() as nat + 1);
        lemma_shift_first(next, stem, d.drop_last());
        assert(d.drop_last().skip(1) =~= d.skip(1).drop_last());
        assert(d.skip(1).last() == d.last());
    }
}

proof fn lemma_after_one_more(
    ids: Seq<Seq<char>>,
    id: Seq<char>,
    stem: Seq<char>,
    drop: Seq<usize>,
)
    ensures
        ids_after(ids.push(id), stem, drop) == if lost(id, stem, drop) {
            ids_after(ids, stem, drop)
        } else {
            ids_after(ids, stem, drop).push(shifted_by(id, stem, drop))
        },
{
    reveal(Seq::filter);
    assert(ids.push(id).drop_last() =~= ids);
    assert(ids_after(ids.push(id), stem, drop) =~= if lost(id, stem, drop) {
        ids_after(ids, stem, drop)
    } else {
        ids_after(ids, stem, drop).push(shifted_by(id, stem, drop))
    });
}

proof fn lemma_after_none(ids: Seq<Seq<char>>, stem: Seq<char>, drop: Seq<usize>)
    requires
        drop.len() == 0,
    ensures
        ids_after(ids, stem, drop) == ids,
        !ids_change_by(ids, stem, drop),
    decreases ids.len(),
{
    if ids.len() == 0 {
        reveal(Seq::filter);
        assert(ids_after(ids, stem, drop) =~= ids);
    } else {
        assert(ids =~= ids.drop_last().push(ids.last()));
        lemma_after_none(ids.drop_last(), stem, drop);
        lemma_after_one_more(ids.drop_last(), ids.last(), stem, drop);
    }
}

proof fn lemma_after_first(ids: Seq<Seq<char>>, stem: Seq<char>, d: Seq<usize>)
    requires
        d.len() > 0,
    ensures
        exports::shifted_ids(ids_after(ids, stem, d.skip(1)), stem, d[0] as nat + 1) == ids_after(
            ids,
            stem,
            d,
        ),
    decreases ids.len(),
{
    let n = d[0] as nat + 1;
    if ids.len() == 0 {
        reveal(Seq::filter);
        assert(ids_after(ids, stem, d) =~= ids);
        assert(ids_after(ids, stem, d.skip(1)) =~= ids);
        assert(exports::shifted_ids(ids, stem, n) =~= ids);
    } else {
        let init = ids.drop_last();
        let id = ids.last();
        assert(ids =~= init.push(id));
        lemma_after_first(init, stem, d);
        lemma_after_one_more(init, id, stem, d);
        lemma_after_one_more(init, id, stem, d.skip(1));
        lemma_shift_first(id, stem, d);
        exports::lemma_shift_one_more(
            ids_after(init, stem, d.skip(1)),
            shifted_by(id, stem, d.skip(1)),
            stem,
            n,
        );
    }
}

/// The ids after some rows were dropped are the shifted ones of the others.
proof fn lemma_after_contains(
    ids: Seq<Seq<char>>,
    stem: Seq<char>,
    drop: Seq<usize>,
    want: Seq<char>,
)
    ensures
        ids_after(ids, stem, drop).contains(want) == exists|id: Seq<char>| #[trigger]
            ids.contains(id) && !lost(id, stem, drop) && shifted_by(id, stem, drop) == want,
{
    let keep = |id: Seq<char>| !lost(id, stem, drop);
    let kept = ids.filter(keep);
    let all = ids_after(ids, stem, drop);
    broadcast use vstd::seq_lib::group_filter_ensures;

    if all.contains(want) {
        let j = choose|j: int| 0 <= j < all.len() && all[j] == want;
        assert(keep(kept[j]));
        assert(kept.contains(kept[j]));
        ids.lemma_filter_contains_rev(keep, kept[j]);
        assert(shifted_by(kept[j], stem, drop) == want);
    }
    if exists|id: Seq<char>| #[trigger]
        ids.contains(id) && !lost(id, stem, drop) && shifted_by(id, stem, drop) == want {
        let id = choose|id: Seq<char>| #[trigger]
            ids.contains(id) && !lost(id, stem, drop) && shifted_by(id, stem, drop) == want;
        let i = choose|i: int| 0 <= i < ids.len() && ids[i] == id;
        assert(keep(ids[i]));
        ids.lemma_filter_contains(keep, i);
        let j = choose|j: int| 0 <= j < kept.len() && kept[j] == id;
        assert(all[j] == want);
    }
}

proof fn lemma_change_first(ids: Seq<Seq<char>>, stem: Seq<char>, d: Seq<usize>)
    requires
        d.len() > 0,
    ensures
        ids_change_by(ids, stem, d) == (ids_change_by(ids, stem, d.skip(1)) || exports::ids_change(
            ids_after(ids, stem, d.skip(1)),
            stem,
            d[0] as nat + 1,
        )),
{
    let n = d[0] as nat + 1;
    let rest = d.skip(1);
    let mid = ids_after(ids, stem, rest);
    if ids_change_by(ids, stem, d) {
        let j = choose|j: int|
            0 <= j < ids.len() && (moved_by(#[trigger] ids[j], stem, d) || lost(ids[j], stem, d));
        lemma_shift_first(ids[j], stem, d);
        if !moved_by(ids[j], stem, rest) && !lost(ids[j], stem, rest) {
            let y = shifted_by(ids[j], stem, rest);
            lemma_after_contains(ids, stem, rest, y);
            assert(ids.contains(ids[j]));
            let k = choose|k: int| 0 <= k < mid.len() && mid[k] == y;
            assert(exports::moves(mid[k], stem, n) || exports::names(mid[k], stem, n));
        }
    }
    if ids_change_by(ids, stem, rest) {
        let j = choose|j: int|
            0 <= j < ids.len() && (moved_by(#[trigger] ids[j], stem, rest) || lost(
                ids[j],
                stem,
                rest,
            ));
        lemma_shift_first(ids[j], stem, d);
        assert(moved_by(ids[j], stem, d) || lost(ids[j], stem, d));
    }
    if exports::ids_change(mid, stem, n) {
        let k = choose|k: int|
            0 <= k < mid.len() && (exports::moves(#[trigger] mid[k], stem, n) || exports::names(
                mid[k],
                stem,
                n,
            ));
        lemma_after_contains(ids, stem, rest, mid[k]);
        assert(mid.contains(mid[k]));
        let id = choose|id: Seq<char>| #[trigger]
            ids.contains(id) && !lost(id, stem, rest) && shifted_by(id, stem, rest) == mid[k];
        let j = choose|j: int| 0 <= j < ids.len() && ids[j] == id;
        lemma_shift_first(ids[j], stem, d);
        assert(moved_by(ids[j], stem, d) || lost(ids[j], stem, d));
    }
}

/// Some rows of a month are gone: the ids of those rows are dropped from every run,
/// and every other id follows its row. Whether any id changed.
pub fn shift_after_drops(manifest: &mut ExportManifest, stem: &str, drop: &Vec<usize>) -> (changed:
    bool)
    requires
        forall|i: int| 0 <= i < drop@.len() ==> drop@[i] < usize::MAX,
    ensures
        runs_follow(old(manifest).runs@, final(manifest).runs@, stem@, drop@),
        changed == exists|i: int|
            0 <= i < old(manifest).runs@.len() && ids_change_by(
                text::texts((#[trigger] old(manifest).runs@[i]).entry_ids@),
                stem@,
                drop@,
            ),
{
    let ghost start = manifest.runs@;
    let mut changed = false;
    let mut k: usize = drop.len();
    proof {
        assert forall|i: int| #![trigger start[i]] 0 <= i < start.len() implies {
            &&& ids_after(text::texts(start[i].entry_ids@), stem@, drop@.skip(k as int))
                == text::texts(start[i].entry_ids@)
            &&& !ids_change_by(text::texts(start[i].entry_ids@), stem@, drop@.skip(k as int))
        } by {
            lemma_after_none(text::texts(start[i].entry_ids@), stem@, drop@.skip(k as int));
        }
    }
    while k > 0
        invariant
            k <= drop@.len(),
            forall|i: int| 0 <= i < drop@.len() ==> drop@[i] < usize::MAX,
            runs_follow(start, manifest.runs@, stem@, drop@.skip(k as int)),
            changed == exists|i: int|
                0 <= i < start.len() && ids_change_by(
                    text::texts((#[trigger] start[i]).entry_ids@),
                    stem@,
                    drop@.skip(k as int),
                ),
        decreases k,
    {
        let ghost before = manifest.runs@;
        let n: usize = drop[k - 1] + 1;
        let c = manifest.shift_after_delete(stem, n);
        proof {
            assert(drop@.skip(k - 1).skip(1) =~= drop@.skip(k as int));
            lemma_follow_step(start, before, manifest.runs@, stem@, drop@.skip(k - 1), c);
        }
        if c {
            changed = true;
        }
        k -= 1;
    }
    assert(drop@.skip(0) =~= drop@);
    changed
}

proof fn lemma_follow_step(
    start: Seq<ExportRun>,
    before: Seq<ExportRun>,
    after: Seq<ExportRun>,
    stem: Seq<char>,
    d: Seq<usize>,
    c: bool,
)
    requires
        d.len() > 0,
        runs_follow(start, before, stem, d.skip(1)),
        before.len() == after.len(),
        forall|i: int|
            0 <= i < before.len() ==> exports::run_shifted(
                #[trigger] before[i],
                after[i],
                stem,
                d[0] as nat + 1,
            ),
        c == exists|i: int|
            0 <= i < before.len() && exports::ids_change(
                text::texts((#[trigger] before[i]).entry_ids@),
                stem,
                d[0] as nat + 1,
            ),
    ensures
        runs_follow(start, after, stem, d),
        (exists|i: int|
            0 <= i < start.len() && ids_change_by(
                text::texts((#[trigger] start[i]).entry_ids@),
                stem,
                d,
            )) == (c || exists|i: int|
            0 <= i < start.len() && ids_change_by(
                text::texts((#[trigger] start[i]).entry_ids@),
                stem,
                d.skip(1),
            )),
{
    let n = d[0] as nat + 1;
    assert forall|i: int| #![trigger start[i]] 0 <= i < start.len() implies {
        let x = text::texts(start[i].entry_ids@);
        &&& after[i] == (ExportRun { entry_ids: after[i].entry_ids, ..start[i] })
        &&& text::texts(after[i].entry_ids@) == ids_after(x, stem, d)
        &&& ids_change_by(x, stem, d) == (ids_change_by(x, stem, d.skip(1)) || exports::ids_change(
            text::texts(before[i].entry_ids@),
            stem,
            n,
        ))
    } by {
        assert(exports::run_shifted(before[i], after[i], stem, n));
        lemma_after_first(text::texts(start[i].entry_ids@), stem, d);
        lemma_change_first(text::texts(start[i].entry_ids@), stem, d);
    }
    if c {
        let i = choose|i: int|
            0 <= i < before.len() && exports::ids_change(
                text::texts((#[trigger] before[i]).entry_ids@),
                stem,
                n,
            );
        assert(ids_change_by(text::texts(start[i].entry_ids@), stem, d));
    }
    if exists|i: int|
        0 <= i < start.len() && ids_change_by(
            text::texts((#[trigger] start[i]).entry_ids@),
            stem,
            d,
        ) {
        let i = choose|i: int|
            0 <= i < start.len() && ids_change_by(
                text::texts((#[trigger] start[i]).entry_ids@),
                stem,
                d,
            );
        if !ids_change_by(text::texts(start[i].entry_ids@), stem, d.skip(1)) {
            assert(exports::ids_change(text::texts(before[i].entry_ids@), stem, n));
        }
    }
}

// ---- laws -----------------------------------------------------------------

/// The rows whose flag changes are rows asked for, and none of them is locked.
pub proof fn flips_spare_locked_rows(
    rows: Seq<Seq<Seq<char>>>,
    stem: Seq<char>,
    ask: BulkAsk,
    w: Window,
    locked: Seq<Seq<char>>,
    n: usize,
)
    requires
        rows.len() <= usize::MAX,
        to_flip(rows, stem, ask, w, locked).contains(n),
    ensures
        1 <= n <= rows.len(),
        asked(rows[n - 1], ask, w),
        flag_of(rows[n - 1]) != ask.billable,
        !locked.contains(exports::entry_id(stem, n as nat)),
    decreases rows.len(),
{
    if rows.len() > 0 {
        let init = to_flip(rows.drop_last(), stem, ask, w, locked);
        let all = to_flip(rows, stem, ask, w, locked);
        let k = choose|k: int| 0 <= k < all.len() && all[k] == n;
        if k < init.len() {
            assert(init[k] == n);
            flips_spare_locked_rows(rows.drop_last(), stem, ask, w, locked, n);
        }
    }
}

/// A row that is asked for, not locked, and flagged otherwise, changes.
pub proof fn asked_rows_flip(
    rows: Seq<Seq<Seq<char>>>,
    stem: Seq<char>,
    ask: BulkAsk,
    w: Window,
    locked: Seq<Seq<char>>,
    n: usize,
)
    requires
        rows.len() <= usize::MAX,
        1 <= n <= rows.len(),
        asked(rows[n - 1], ask, w),
        flag_of(rows[n - 1]) != ask.billable,
        !locked.contains(exports::entry_id(stem, n as nat)),
    ensures
        to_flip(rows, stem, ask, w, locked).contains(n),
    decreases rows.len(),
{
    let init = to_flip(rows.drop_last(), stem, ask, w, locked);
    let all = to_flip(rows, stem, ask, w, locked);
    if n < rows.len() {
        asked_rows_flip(rows.drop_last(), stem, ask, w, locked, n);
        let k = choose|k: int| 0 <= k < init.len() && init[k] == n;
        assert(all[k] == n);
    } else {
        assert(all.last() == n);
        assert(all[all.len() - 1] == n);
    }
}

/// Once the flag is set, asking for it again changes nothing.
pub proof fn flips_settle(
    m: CsvModel,
    stem: Seq<char>,
    ask: BulkAsk,
    w: Window,
    locked: Seq<Seq<char>>,
    n: usize,
)
    requires
        m.rows.len() < usize::MAX,
    ensures
        ({
            let now = flipped(m, to_flip(m.rows, stem, ask, w, locked), ask.billable);
            !to_flip(now.rows, stem, ask, w, locked).contains(n)
        }),
{
    let flips = to_flip(m.rows, stem, ask, w, locked);
    let now = flipped(m, flips, ask.billable);
    if to_flip(now.rows, stem, ask, w, locked).contains(n) {
        flips_spare_locked_rows(now.rows, stem, ask, w, locked, n);
        let f = m.rows[n - 1];
        let g = now.rows[n - 1];
        if flips.contains(n) {
            let p = entries::padded(f, csv_file::columns(m));
            assert(g == p.update(7, text::bool_text(ask.billable)));
            reveal_strlit("true");
            reveal_strlit("false");
            assert(text::lower("false"@).len() == 5 && text::lower("true"@).len() == 4);
            assert(entries::field_billable(g[7]) == ask.billable);
        } else {
            assert(g == f);
            asked_rows_flip(m.rows, stem, ask, w, locked, n);
        }
    }
}

/// Recording the same work is an equivalence.
pub proof fn same_work_is_equivalence(f: Seq<Seq<char>>, g: Seq<Seq<char>>, h: Seq<Seq<char>>)
    ensures
        same_work(f, f),
        same_work(f, g) == same_work(g, f),
        same_work(f, g) && same_work(g, h) ==> same_work(f, h),
{
}

/// Nothing recorded is lost: a row that is dropped is not locked, and a later row
/// that records the same work stays.
pub proof fn dropped_work_is_kept(
    rows: Seq<Seq<Seq<char>>>,
    stem: Seq<char>,
    locked: Seq<Seq<char>>,
    i: int,
)
    requires
        0 <= i < rows.len(),
        is_dropped(rows, stem, locked, i),
    ensures
        !locked.contains(exports::entry_id(stem, (i + 1) as nat)),
        exists|j: int|
            i < j < rows.len() && same_work(rows[i], #[trigger] rows[j]) && !is_dropped(
                rows,
                stem,
                locked,
                j,
            ),
    decreases rows.len() - i,
{
    assert(same_work(rows[i], rows[i]));
    let j = choose|j: int| i < j < rows.len() && same_work(rows[i], #[trigger] rows[j]);
    if is_dropped(rows, stem, locked, j) {
        dropped_work_is_kept(rows, stem, locked, j);
        let k = choose|k: int|
            j < k < rows.len() && same_work(rows[j], #[trigger] rows[k]) && !is_dropped(
                rows,
                stem,
                locked,
                k,
            );
        assert(same_work(rows[i], rows[k]));
    }
}

/// Nothing is left twice: two rows that record the same work both stay only where a
/// row that records it is locked.
pub proof fn no_doubles_are_left(
    rows: Seq<Seq<Seq<char>>>,
    stem: Seq<char>,
    locked: Seq<Seq<char>>,
    i: int,
    j: int,
)
    requires
        0 <= i < j < rows.len(),
        same_work(rows[i], rows[j]),
        !is_dropped(rows, stem, locked, i),
    ensures
        held(rows, stem, locked, i),
{
}

/// Row numbers in rising order.
pub open spec fn rising(drop: Seq<usize>) -> bool {
    forall|i: int, j: int| 0 <= i < j < drop.len() ==> drop[i] < drop[j]
}

/// How many of the dropped rows stood in front of row `i`.
pub open spec fn dropped_before(drop: Seq<usize>, i: nat) -> nat
    decreases drop.len(),
{
    if drop.len() == 0 {
        0
    } else {
        dropped_before(drop.drop_last(), i) + if drop.last() < i {
            1nat
        } else {
            0nat
        }
    }
}

proof fn lemma_all_before(drop: Seq<usize>, i: nat)
    requires
        forall|k: int| 0 <= k < drop.len() ==> drop[k] < i,
    ensures
        dropped_before(drop, i) == drop.len(),
    decreases drop.len(),
{
    if drop.len() > 0 {
        assert(drop[drop.len() - 1] < i);
        assert forall|k: int| 0 <= k < drop.drop_last().len() implies drop.drop_last()[k] < i by {
            assert(drop.drop_last()[k] == drop[k]);
        }
        lemma_all_before(drop.drop_last(), i);
    }
}

/// The id of a row that stays, after some rows are dropped, has the number of the
/// rows that stay up to it.
pub proof fn kept_ids_shift(stem: Seq<char>, drop: Seq<usize>, i: nat)
    requires
        rising(drop),
        forall|k: int| 0 <= k < drop.len() ==> drop[k] != i,
        i < usize::MAX,
    ensures
        dropped_before(drop, i) <= i,
        !lost(exports::entry_id(stem, i + 1), stem, drop),
        shifted_by(exports::entry_id(stem, i + 1), stem, drop) == exports::entry_id(
            stem,
            (i + 1 - dropped_before(drop, i)) as nat,
        ),
    decreases drop.len(),
{
    if drop.len() > 0 {
        let init = drop.drop_last();
        let last = drop.last();
        assert(drop[drop.len() - 1] == last);
        assert forall|k: int| 0 <= k < init.len() implies init[k] < last by {
            assert(init[k] == drop[k]);
        }
        exports::later_ids_shift(stem, i + 1, stem, last as nat + 1);
        if last < i {
            lemma_all_before(init, i);
            lemma_all_before(init, (i - 1) as nat);
            kept_ids_shift(stem, init, (i - 1) as nat);
        } else {
            kept_ids_shift(stem, init, i);
        }
    }
}

/// The id of a row that is dropped is dropped from the runs.
pub proof fn dropped_ids_go(stem: Seq<char>, drop: Seq<usize>, i: usize)
    requires
        rising(drop),
        drop.contains(i),
        i < usize::MAX,
    ensures
        lost(exports::entry_id(stem, i as nat + 1), stem, drop),
    decreases drop.len(),
{
    let init = drop.drop_last();
    let last = drop.last();
    exports::later_ids_shift(stem, i as nat + 1, stem, last as nat + 1);
    if last != i {
        let k = choose|k: int| 0 <= k < drop.len() && drop[k] == i;
        assert(drop[k] < drop[drop.len() - 1]);
        assert(init[k] == i);
        dropped_ids_go(stem, init, i);
    }
}

proof fn lemma_other_ids_stay(s: Seq<char>, k: nat, stem: Seq<char>, drop: Seq<usize>)
    requires
        k <= usize::MAX,
        s != stem || k == 0,
    ensures
        !lost(exports::entry_id(s, k), stem, drop),
        shifted_by(exports::entry_id(s, k), stem, drop) == exports::entry_id(s, k),
    decreases drop.len(),
{
    if drop.len() > 0 {
        exports::later_ids_shift(s, k, stem, drop.last() as nat + 1);
        lemma_other_ids_stay(s, k, stem, drop.drop_last());
    }
}

proof fn lemma_one_further(drop: Seq<usize>, i: nat)
    requires
        rising(drop),
        i < usize::MAX,
    ensures
        dropped_before(drop, i + 1) == dropped_before(drop, i) + if drop.contains(i as usize) {
            1nat
        } else {
            0nat
        },
    decreases drop.len(),
{
    if drop.len() > 0 {
        let init = drop.drop_last();
        assert(drop[drop.len() - 1] == drop.last());
        assert forall|a: int, b: int| 0 <= a < b < init.len() implies init[a] < init[b] by {
            assert(init[a] == drop[a] && init[b] == drop[b]);
        }
        lemma_one_further(init, i);
        if init.contains(i as usize) {
            let k = choose|k: int| 0 <= k < init.len() && init[k] == i;
            assert(drop[k] == i && drop[k] < drop.last());
        }
        if drop.contains(i as usize) && drop.last() != i {
            let k = choose|k: int| 0 <= k < drop.len() && drop[k] == i;
            assert(init[k] == i);
        }
    }
}

proof fn lemma_places_rise(drop: Seq<usize>, a: nat, b: nat)
    requires
        rising(drop),
        a < b < usize::MAX,
        !drop.contains(a as usize),
    ensures
        a - dropped_before(drop, a) < b - dropped_before(drop, b),
    decreases b,
{
    let c = (b - 1) as nat;
    lemma_one_further(drop, c);
    if a < c {
        lemma_places_rise(drop, a, c);
    }
}

proof fn lemma_kept_ids_differ(
    s: Seq<char>,
    k: nat,
    t: Seq<char>,
    m: nat,
    stem: Seq<char>,
    drop: Seq<usize>,
)
    requires
        rising(drop),
        k <= usize::MAX,
        m <= usize::MAX,
        !lost(exports::entry_id(s, k), stem, drop),
        !lost(exports::entry_id(t, m), stem, drop),
        shifted_by(exports::entry_id(s, k), stem, drop) == shifted_by(
            exports::entry_id(t, m),
            stem,
            drop,
        ),
    ensures
        s == t,
        k == m,
{
    lemma_kept_id(s, k, stem, drop);
    lemma_kept_id(t, m, stem, drop);
    if s == stem && k > 0 {
        let a = (k - 1) as nat;
        if t == stem && m > 0 {
            let b = (m - 1) as nat;
            exports::ids_name_one_row(
                stem,
                (a + 1 - dropped_before(drop, a)) as nat,
                stem,
                (b + 1 - dropped_before(drop, b)) as nat,
            );
            if a < b {
                lemma_places_rise(drop, a, b);
            } else if b < a {
                lemma_places_rise(drop, b, a);
            }
        } else {
            exports::ids_name_one_row(stem, (a + 1 - dropped_before(drop, a)) as nat, t, m);
        }
    } else if t == stem && m > 0 {
        let b = (m - 1) as nat;
        exports::ids_name_one_row(s, k, stem, (b + 1 - dropped_before(drop, b)) as nat);
    } else {
        exports::ids_name_one_row(s, k, t, m);
    }
}

proof fn lemma_kept_id(s: Seq<char>, k: nat, stem: Seq<char>, drop: Seq<usize>)
    requires
        rising(drop),
        k <= usize::MAX,
        !lost(exports::entry_id(s, k), stem, drop),
    ensures
        s == stem && k > 0 ==> {
            let a = (k - 1) as nat;
            &&& !drop.contains(a as usize)
            &&& dropped_before(drop, a) <= a
            &&& shifted_by(exports::entry_id(s, k), stem, drop) == exports::entry_id(
                stem,
                (a + 1 - dropped_before(drop, a)) as nat,
            )
        },
        s != stem || k == 0 ==> shifted_by(exports::entry_id(s, k), stem, drop)
            == exports::entry_id(s, k),
{
    if s == stem && k > 0 {
        let a = (k - 1) as nat;
        if drop.contains(a as usize) {
            dropped_ids_go(stem, drop, a as usize);
        }
        assert forall|m: int| 0 <= m < drop.len() implies drop[m] != a by {
            if drop[m] == a {
                assert(drop.contains(a as usize));
            }
        }
        kept_ids_shift(stem, drop, a);
    } else {
        lemma_other_ids_stay(s, k, stem, drop);
    }
}

proof fn lemma_kept_place(rows: Seq<Seq<Seq<char>>>, drop: Seq<usize>, i: nat)
    requires
        rising(drop),
        rows.len() < usize::MAX,
    ensures
        kept_rows(rows, drop).len() == rows.len() - dropped_before(drop, rows.len()),
        i < rows.len() && !drop.contains(i as usize) ==> 0 <= i - dropped_before(drop, i)
            < kept_rows(rows, drop).len() && kept_rows(rows, drop)[i - dropped_before(drop, i)]
            == rows[i as int],
    decreases rows.len(),
{
    if rows.len() > 0 {
        let init = rows.drop_last();
        lemma_kept_place(init, drop, i);
        lemma_one_further(drop, init.len());
        lemma_kept_place(init, drop, init.len());
    } else {
        lemma_none_before(drop);
    }
}

proof fn lemma_none_before(drop: Seq<usize>)
    ensures
        dropped_before(drop, 0) == 0,
    decreases drop.len(),
{
    if drop.len() > 0 {
        lemma_none_before(drop.drop_last());
    }
}

/// Locks follow their rows through a clean-up: every row that stays is found under
/// the number of the rows that stay up to it, and is locked under that exactly if it
/// was under its old one.
pub proof fn locks_follow_the_kept_rows(
    before: Seq<ExportRun>,
    after: Seq<ExportRun>,
    stem: Seq<char>,
    drop: Seq<usize>,
    rows: Seq<Seq<Seq<char>>>,
    i: nat,
)
    requires
        exports::ids_well_formed(before),
        runs_follow(before, after, stem, drop),
        rising(drop),
        i < rows.len() < usize::MAX,
        !drop.contains(i as usize),
    ensures
        ({
            let place = i - dropped_before(drop, i);
            &&& 0 <= place < kept_rows(rows, drop).len()
            &&& kept_rows(rows, drop)[place] == rows[i as int]
            &&& exports::locks(after, exports::entry_id(stem, (place + 1) as nat))
                == exports::locks(before, exports::entry_id(stem, i + 1))
        }),
{
    lemma_kept_place(rows, drop, i);
    let place = (i - dropped_before(drop, i)) as nat;
    let from = exports::entry_id(stem, i + 1);
    let want = exports::entry_id(stem, place + 1);
    assert forall|r: int| 0 <= r < before.len() implies exports::run_locks(#[trigger] after[r], want)
        == exports::run_locks(before[r], from) by {
        lemma_run_follows_drops(before, after, stem, drop, i, r);
    }
    if exports::locks(before, from) {
        let r = choose|r: int| 0 <= r < before.len() && exports::run_locks(#[trigger] before[r], from);
        assert(exports::run_locks(after[r], want));
    }
    if exports::locks(after, want) {
        let r = choose|r: int| 0 <= r < after.len() && exports::run_locks(#[trigger] after[r], want);
        assert(exports::run_locks(before[r], from));
    }
}

proof fn lemma_run_follows_drops(
    before: Seq<ExportRun>,
    after: Seq<ExportRun>,
    stem: Seq<char>,
    drop: Seq<usize>,
    i: nat,
    r: int,
)
    requires
        exports::ids_well_formed(before),
        runs_follow(before, after, stem, drop),
        rising(drop),
        i < usize::MAX - 1,
        !drop.contains(i as usize),
        0 <= r < before.len(),
    ensures
        exports::run_locks(
            after[r],
            exports::entry_id(stem, (i - dropped_before(drop, i) + 1) as nat),
        ) == exports::run_locks(before[r], exports::entry_id(stem, i + 1)),
{
    let place = (i - dropped_before(drop, i)) as nat;
    let from = exports::entry_id(stem, i + 1);
    let want = exports::entry_id(stem, place + 1);
    let x = text::texts(before[r].entry_ids@);
    let y = text::texts(after[r].entry_ids@);
    assert(before[r].voided == after[r].voided);
    lemma_after_contains(x, stem, drop, want);
    assert forall|k: int| 0 <= k < drop.len() implies drop[k] != i by {
        if drop[k] == i {
            assert(drop.contains(i as usize));
        }
    }
    kept_ids_shift(stem, drop, i);
    if y.contains(want) {
        let id = choose|id: Seq<char>| #[trigger]
            x.contains(id) && !lost(id, stem, drop) && shifted_by(id, stem, drop) == want;
        let j = choose|j: int| 0 <= j < x.len() && x[j] == id;
        assert(exports::is_entry_id(x[j]));
        let (s, k) = choose|s: Seq<char>, k: nat|
            k <= usize::MAX && x[j] == #[trigger] exports::entry_id(s, k);
        lemma_kept_ids_differ(s, k, stem, i + 1, stem, drop);
    }
}

/// A clean-up leaves no entry locked twice.
pub proof fn clean_ups_lock_nothing_twice(
    before: Seq<ExportRun>,
    after: Seq<ExportRun>,
    stem: Seq<char>,
    drop: Seq<usize>,
)
    requires
        exports::ids_well_formed(before),
        exports::locked_once(before),
        runs_follow(before, after, stem, drop),
        rising(drop),
    ensures
        exports::locked_once(after),
{
    assert forall|a: int, b: int, id: Seq<char>|
        0 <= a < after.len() && 0 <= b < after.len() && #[trigger] exports::run_locks(after[a], id)
            && #[trigger] exports::run_locks(after[b], id) implies a == b by {
        let (s, k) = lemma_kept_lock(before, after, stem, drop, a, id);
        let (t, m) = lemma_kept_lock(before, after, stem, drop, b, id);
        lemma_kept_ids_differ(s, k, t, m, stem, drop);
        assert(exports::run_locks(before[a], exports::entry_id(s, k)));
        assert(exports::run_locks(before[b], exports::entry_id(s, k)));
    }
}

proof fn lemma_kept_lock(
    before: Seq<ExportRun>,
    after: Seq<ExportRun>,
    stem: Seq<char>,
    drop: Seq<usize>,
    a: int,
    id: Seq<char>,
) -> (r: (Seq<char>, nat))
    requires
        exports::ids_well_formed(before),
        runs_follow(before, after, stem, drop),
        0 <= a < before.len(),
        exports::run_locks(after[a], id),
    ensures
        r.1 <= usize::MAX,
        exports::run_locks(before[a], exports::entry_id(r.0, r.1)),
        !lost(exports::entry_id(r.0, r.1), stem, drop),
        shifted_by(exports::entry_id(r.0, r.1), stem, drop) == id,
{
    assert(before[a].voided == after[a].voided);
    let x = text::texts(before[a].entry_ids@);
    lemma_after_contains(x, stem, drop, id);
    let was = choose|was: Seq<char>| #[trigger]
        x.contains(was) && !lost(was, stem, drop) && shifted_by(was, stem, drop) == id;
    let j = choose|j: int| 0 <= j < x.len() && x[j] == was;
    assert(exports::is_entry_id(x[j]));
    let (s, k) = choose|s: Seq<char>, k: nat|
        k <= usize::MAX && x[j] == #[trigger] exports::entry_id(s, k);
    (s, k)
}

/// A clean-up leaves only ids of rows.
pub proof fn clean_ups_keep_ids_well_formed(
    before: Seq<ExportRun>,
    after: Seq<ExportRun>,
    stem: Seq<char>,
    drop: Seq<usize>,
)
    requires
        exports::ids_well_formed(before),
        runs_follow(before, after, stem, drop),
        rising(drop),
    ensures
        exports::ids_well_formed(after),
{
    assert forall|i: int, j: int|
        0 <= i < after.len() && 0 <= j < after[i].entry_ids@.len() implies exports::is_entry_id(
        #[trigger] text::texts(after[i].entry_ids@)[j],
    ) by {
        assert(before[i].voided == after[i].voided);
        let x = text::texts(before[i].entry_ids@);
        let id = text::texts(after[i].entry_ids@)[j];
        assert(text::texts(after[i].entry_ids@).contains(id));
        lemma_after_contains(x, stem, drop, id);
        let was = choose|was: Seq<char>| #[trigger]
            x.contains(was) && !lost(was, stem, drop) && shifted_by(was, stem, drop) == id;
        let l = choose|l: int| 0 <= l < x.len() && x[l] == was;
        assert(exports::is_entry_id(x[l]));
        let (s, k) = choose|s: Seq<char>, k: nat|
            k <= usize::MAX && x[l] == #[trigger] exports::entry_id(s, k);
        lemma_kept_id(s, k, stem, drop);
        if s == stem && k > 0 {
            let a = (k - 1) as nat;
            assert(id == exports::entry_id(stem, (a + 1 - dropped_before(drop, a)) as nat));
        } else {
            assert(id == exports::entry_id(s, k));
        }
    }
}

/// These are the ids that the runs lock.
pub open spec fn lock_list(locked: Seq<Seq<char>>, runs: Seq<ExportRun>) -> bool {
    forall|id: Seq<char>| #[trigger] locked.contains(id) == exports::locks(runs, id)
}

/// One clean-up is enough: once the copies are dropped and the locks have followed
/// the rows that stay, no row is a copy to drop.
pub proof fn second_clean_up_drops_nothing(
    rows: Seq<Seq<Seq<char>>>,
    before: Seq<ExportRun>,
    after: Seq<ExportRun>,
    stem: Seq<char>,
    drop: Seq<usize>,
    locked: Seq<Seq<char>>,
    relocked: Seq<Seq<char>>,
    j: int,
)
    requires
        rows.len() < usize::MAX,
        exports::ids_well_formed(before),
        lock_list(locked, before),
        rising(drop),
        forall|i: usize| #[trigger]
            drop.contains(i) == (i < rows.len() && is_dropped(rows, stem, locked, i as int)),
        runs_follow(before, after, stem, drop),
        lock_list(relocked, after),
    ensures
        0 <= j < kept_rows(rows, drop).len() ==> !is_dropped(
            kept_rows(rows, drop),
            stem,
            relocked,
            j,
        ),
{
    let kept = kept_rows(rows, drop);
    if 0 <= j < kept.len() && repeated(kept, j) {
        let l = choose|l: int| j < l < kept.len() && same_work(kept[j], #[trigger] kept[l]);
        let a = lemma_row_of_place(rows, drop, j as nat);
        let b = lemma_row_of_place(rows, drop, l as nat);
        if b < a {
            lemma_places_rise(drop, b, a);
        }
        assert(a < b && same_work(rows[a as int], rows[b as int]));
        assert(!drop.contains(a as usize));
        assert(held(rows, stem, locked, a as int));
        let h = choose|h: int|
            0 <= h < rows.len() && same_work(rows[a as int], #[trigger] rows[h]) && locked.contains(
                exports::entry_id(stem, (h + 1) as nat),
            );
        assert(same_work(rows[h], rows[h]));
        assert(held(rows, stem, locked, h));
        assert(!drop.contains(h as usize));
        locks_follow_the_kept_rows(before, after, stem, drop, rows, h as nat);
        let p = h - dropped_before(drop, h as nat);
        assert(same_work(kept[j], kept[p]));
        assert(relocked.contains(exports::entry_id(stem, (p + 1) as nat)));
    }
}

proof fn lemma_row_of_place(rows: Seq<Seq<Seq<char>>>, drop: Seq<usize>, j: nat) -> (i: nat)
    requires
        rising(drop),
        rows.len() < usize::MAX,
        j < kept_rows(rows, drop).len(),
    ensures
        i < rows.len(),
        !drop.contains(i as usize),
        i - dropped_before(drop, i) == j,
        kept_rows(rows, drop)[j as int] == rows[i as int],
    decreases rows.len(),
{
    let init = rows.drop_last();
    lemma_kept_place(init, drop, 0);
    if j < kept_rows(init, drop).len() {
        lemma_row_of_place(init, drop, j)
    } else {
        init.len()
    }
}

/// The rows that change are those of the client, of the engagement where one is asked
/// for, and of the window where there is one, that no run locks and that are flagged
/// otherwise; they are given by their numbers, from one, in order.
pub proof fn flips_are_of_the_rows_asked_for(
    rows: Seq<Seq<Seq<char>>>,
    stem: Seq<char>,
    ask: BulkAsk,
    w: Window,
    locked: Seq<Seq<char>>,
    i: int,
)
    requires
        rows.len() <= usize::MAX,
        0 <= i < rows.len(),
    ensures
        to_flip(rows, stem, ask, w, locked).contains((i + 1) as usize) == {
            let row = rows[i];
            let column = |k: int|
                if k < row.len() {
                    row[k]
                } else {
                    Seq::<char>::empty()
                };
            &&& column(2) == ask.client@
            &&& ask.engagement matches Some(e) ==> column(3) == e@
            &&& w matches Some((from, to)) ==> {
                &&& datefmt::entry_date(column(0)) matches Some((y, m, d))
                &&& from.not_after(
                    crate::dates::Date { year: y as i32, month: m as u32, day: d as u32 },
                )
                &&& (crate::dates::Date {
                    year: y as i32,
                    month: m as u32,
                    day: d as u32,
                }).not_after(to)
            }
            &&& !locked.contains(stem + seq![':'] + text::dec((i + 1) as nat))
            &&& ask.billable != (row.len() <= 7 || text::lower(row[7]) == seq!['t', 'r', 'u', 'e'])
        },
{
    let n = (i + 1) as usize;
    reveal_strlit("true");
    assert("true"@ =~= seq!['t', 'r', 'u', 'e']);
    assert(text::lower("true"@) =~= seq!['t', 'r', 'u', 'e']);
    if to_flip(rows, stem, ask, w, locked).contains(n) {
        flips_spare_locked_rows(rows, stem, ask, w, locked, n);
    }
    if asked(rows[i], ask, w) && flag_of(rows[i]) != ask.billable && !locked.contains(
        exports::entry_id(stem, n as nat),
    ) {
        asked_rows_flip(rows, stem, ask, w, locked, n);
    }
}

/// The numbers of the rows that change rise, from one to the number of rows.
pub proof fn flips_are_in_order(
    rows: Seq<Seq<Seq<char>>>,
    stem: Seq<char>,
    ask: BulkAsk,
    w: Window,
    locked: Seq<Seq<char>>,
)
    requires
        rows.len() <= usize::MAX,
    ensures
        ({
            let flips = to_flip(rows, stem, ask, w, locked);
            &&& forall|j: int| 0 <= j < flips.len() ==> 1 <= #[trigger] flips[j] <= rows.len()
            &&& forall|j: int, k: int|
                0 <= j < k < flips.len() ==> #[trigger] flips[j] < #[trigger] flips[k]
        }),
    decreases rows.len(),
{
    if rows.len() > 0 {
        let init = to_flip(rows.drop_last(), stem, ask, w, locked);
        let flips = to_flip(rows, stem, ask, w, locked);
        flips_are_in_order(rows.drop_last(), stem, ask, w, locked);
        assert forall|j: int| 0 <= j < init.len() implies #[trigger] flips[j] == init[j] by {}
        if flips.len() > init.len() {
            assert(flips[init.len() as int] == rows.len());
        }
        assert forall|j: int, k: int| 0 <= j < k < flips.len() implies #[trigger] flips[j]
            < #[trigger] flips[k] by {
            assert(flips[j] == init[j]);
            if k < init.len() {
                assert(flips[k] == init[k]);
            }
        }
    }
}

/// A row that is passed over for its lock counts once, whatever rows are in front of
/// it: it is of the client, of the engagement where one is asked for and of the window
/// where there is one, and a run locks it. Any other row counts for nothing.
pub proof fn locked_rows_are_counted(
    rows: Seq<Seq<Seq<char>>>,
    row: Seq<Seq<char>>,
    stem: Seq<char>,
    ask: BulkAsk,
    w: Window,
    locked: Seq<Seq<char>>,
)
    ensures
        locked_out(Seq::empty(), stem, ask, w, locked) == 0,
        ({
            let column = |k: int|
                if k < row.len() {
                    row[k]
                } else {
                    Seq::<char>::empty()
                };
            let counts = {
                &&& column(2) == ask.client@
                &&& ask.engagement matches Some(e) ==> column(3) == e@
                &&& w matches Some((from, to)) ==> {
                    &&& datefmt::entry_date(column(0)) matches Some((y, m, d))
                    &&& from.not_after(
                        crate::dates::Date { year: y as i32, month: m as u32, day: d as u32 },
                    )
                    &&& (crate::dates::Date {
                        year: y as i32,
                        month: m as u32,
                        day: d as u32,
                    }).not_after(to)
                }
                &&& locked.contains(stem + seq![':'] + text::dec((rows.len() + 1) as nat))
            };
            locked_out(rows.push(row), stem, ask, w, locked) == locked_out(
                rows,
                stem,
                ask,
                w,
                locked,
            ) + if counts {
                1nat
            } else {
                0nat
            }
        }),
{
    assert(rows.push(row).drop_last() =~= rows);
}

/// Setting the flag in some rows sets it in those, and changes nothing else: not their
/// other columns, and no other row.
pub proof fn flags_are_set_in_the_rows_named(
    m: CsvModel,
    flips: Seq<usize>,
    want: bool,
    i: int,
)
    requires
        m.rows.len() < usize::MAX,
        0 <= i < m.rows.len(),
    ensures
        flipped(m, flips, want).prefix == m.prefix,
        flipped(m, flips, want).v02 == m.v02,
        flipped(m, flips, want).rows.len() == m.rows.len(),
        !flips.contains((i + 1) as usize) ==> flipped(m, flips, want).rows[i] == m.rows[i],
        flips.contains((i + 1) as usize) ==> {
            let now = flipped(m, flips, want).rows[i];
            let was = m.rows[i];
            &&& now[7] == if want {
                seq!['t', 'r', 'u', 'e']
            } else {
                seq!['f', 'a', 'l', 's', 'e']
            }
            &&& now.len() >= was.len()
            &&& forall|k: int|
                0 <= k < now.len() && k != 7 ==> #[trigger] now[k] == if k < was.len() {
                    was[k]
                } else {
                    Seq::<char>::empty()
                }
        },
{
    reveal_strlit("true");
    reveal_strlit("false");
    assert("true"@ =~= seq!['t', 'r', 'u', 'e']);
    assert("false"@ =~= seq!['f', 'a', 'l', 's', 'e']);
}

/// A row is dropped exactly if a later row has the same date, client, engagement,
/// narrative, minutes and flag, and no row that has them is locked. Names and dates
/// are taken without the white space around them, and a date as the day it is read as.
pub proof fn dropped_rows_are_earlier_copies(
    rows: Seq<Seq<Seq<char>>>,
    stem: Seq<char>,
    locked: Seq<Seq<char>>,
    i: int,
)
    requires
        0 <= i < rows.len(),
    ensures
        ({
            let column = |r: int, k: int|
                if k < rows[r].len() {
                    rows[r][k]
                } else {
                    Seq::<char>::empty()
                };
            let minutes = |r: int|
                match text::parse_int(column(r, 5)) {
                    Some(m) => if i64::MIN <= m <= i64::MAX {
                        m
                    } else {
                        0
                    },
                    None => 0,
                };
            let copies = |r: int|
                {
                    &&& datefmt::entry_date(column(i, 0)) == datefmt::entry_date(column(r, 0))
                    &&& datefmt::entry_date(column(i, 0)) is None ==> text::trim(column(i, 0))
                        == text::trim(column(r, 0))
                    &&& text::trim(column(i, 2)) == text::trim(column(r, 2))
                    &&& text::trim(column(i, 3)) == text::trim(column(r, 3))
                    &&& column(i, 4) == column(r, 4)
                    &&& minutes(i) == minutes(r)
                    &&& (text::lower(column(i, 7)) == seq!['t', 'r', 'u', 'e']) == (text::lower(
                        column(r, 7),
                    ) == seq!['t', 'r', 'u', 'e'])
                };
            is_dropped(rows, stem, locked, i) == {
                &&& exists|r: int| i < r < rows.len() && #[trigger] copies(r)
                &&& !exists|r: int|
                    0 <= r < rows.len() && #[trigger] copies(r) && locked.contains(
                        stem + seq![':'] + text::dec((r + 1) as nat),
                    )
            }
        }),
{
    reveal_strlit("true");
    assert("true"@ =~= seq!['t', 'r', 'u', 'e']);
    assert(text::lower("true"@) =~= seq!['t', 'r', 'u', 'e']);
    let column = |r: int, k: int|
        if k < rows[r].len() {
            rows[r][k]
        } else {
            Seq::<char>::empty()
        };
    let minutes = |r: int|
        match text::parse_int(column(r, 5)) {
            Some(m) => if i64::MIN <= m <= i64::MAX {
                m
            } else {
                0
            },
            None => 0,
        };
    let copies = |r: int|
        {
            &&& datefmt::entry_date(column(i, 0)) == datefmt::entry_date(column(r, 0))
            &&& datefmt::entry_date(column(i, 0)) is None ==> text::trim(column(i, 0))
                == text::trim(column(r, 0))
            &&& text::trim(column(i, 2)) == text::trim(column(r, 2))
            &&& text::trim(column(i, 3)) == text::trim(column(r, 3))
            &&& column(i, 4) == column(r, 4)
            &&& minutes(i) == minutes(r)
            &&& (text::lower(column(i, 7)) == seq!['t', 'r', 'u', 'e']) == (text::lower(
                column(r, 7),
            ) == seq!['t', 'r', 'u', 'e'])
        };
    assert forall|r: int| 0 <= r < rows.len() implies #[trigger] copies(r) == same_work(
        rows[i],
        rows[r],
    ) by {
        assert(forall|k: int| 0 <= k ==> column(r, k) == field(rows[r], k));
        assert(forall|k: int| 0 <= k ==> column(i, k) == field(rows[i], k));
    }
    if repeated(rows, i) {
        let r = choose|r: int| i < r < rows.len() && same_work(rows[i], #[trigger] rows[r]);
        assert(copies(r));
    }
    if exists|r: int| i < r < rows.len() && #[trigger] copies(r) {
        let r = choose|r: int| i < r < rows.len() && #[trigger] copies(r);
        assert(same_work(rows[i], rows[r]));
    }
    if held(rows, stem, locked, i) {
        let r = choose|r: int|
            0 <= r < rows.len() && same_work(rows[i], #[trigger] rows[r]) && locked.contains(
                exports::entry_id(stem, (r + 1) as nat),
            );
        assert(copies(r));
    }
    if exists|r: int|
        0 <= r < rows.len() && #[trigger] copies(r) && locked.contains(
            stem + seq![':'] + text::dec((r + 1) as nat),
        ) {
        let r = choose|r: int|
            0 <= r < rows.len() && #[trigger] copies(r) && locked.contains(
                stem + seq![':'] + text::dec((r + 1) as nat),
            );
        assert(same_work(rows[i], rows[r]));
    }
}

/// The rows that are kept are those whose place is not among the dropped ones, in
/// their order.
pub proof fn kept_rows_are_the_others(rows: Seq<Seq<Seq<char>>>, drop: Seq<usize>) -> (at: Seq<int>)
    requires
        rows.len() <= usize::MAX,
    ensures
        at.len() == kept_rows(rows, drop).len(),
        forall|j: int|
            0 <= j < at.len() ==> 0 <= #[trigger] at[j] < rows.len() && kept_rows(rows, drop)[j]
                == rows[at[j]],
        forall|i: int, j: int| 0 <= i < j < at.len() ==> #[trigger] at[i] < #[trigger] at[j],
        forall|i: int|
            0 <= i < rows.len() ==> #[trigger] at.contains(i) == !drop.contains(i as usize),
    decreases rows.len(),
{
    if rows.len() == 0 {
        Seq::empty()
    } else {
        let init = rows.drop_last();
        let before = kept_rows_are_the_others(init, drop);
        let gone = drop.contains((rows.len() - 1) as usize);
        let at = if gone {
            before
        } else {
            before.push(rows.len() - 1)
        };
        assert forall|j: int| 0 <= j < before.len() implies #[trigger] at[j] == before[j]
            && init[before[j]] == rows[at[j]] by {}
        assert forall|i: int| 0 <= i < rows.len() implies #[trigger] at.contains(i)
            == !drop.contains(i as usize) by {
            if i < init.len() {
                if before.contains(i) {
                    let j = choose|j: int| 0 <= j < before.len() && before[j] == i;
                    assert(at[j] == i);
                }
                if at.contains(i) {
                    let j = choose|j: int| 0 <= j < at.len() && at[j] == i;
                    assert(before[j] == i);
                }
            } else if !gone {
                assert(at[before.len() as int] == i);
            }
        }
        at
    }
}

/// What a request to set the flag asks for: the client without the white space around
/// it, which must be something; the engagement in the same way, where it is something;
/// the flag and the range as they are, and all of time where no range is named.
pub proof fn requests_are_taken_as_they_are(b: BulkBillableBody, r: Result<BulkAsk, Refusal>)
    requires
        bulk_planned(b, r),
    ensures
        r is Err == (text::trim(b.client@).len() == 0),
        r matches Err(f) ==> f.status == 422 && f.message@ == "client is required"@,
        r matches Ok(a) ==> {
            &&& a.client@ == text::trim(b.client@)
            &&& a.billable == b.billable
            &&& a.engagement matches Some(e) ==> e@.len() > 0 && (b.engagement matches Some(t)
                && e@ == text::trim(t@))
            &&& a.engagement is None ==> (b.engagement matches Some(t) ==> text::trim(t@).len()
                == 0)
            &&& b.range matches Some(t) ==> a.range@ == t@
            &&& b.range is None ==> a.range@ == seq!['a', 'l', 'l']
        },
{
    reveal_strlit("all");
    assert("all"@ =~= seq!['a', 'l', 'l']);
}

/// Where nothing is said to change, the ids of a run stay as they are.
pub proof fn unchanged_ids_stay(ids: Seq<Seq<char>>, stem: Seq<char>, drop: Seq<usize>)
    requires
        !ids_change_by(ids, stem, drop),
    ensures
        ids_after(ids, stem, drop) == ids,
    decreases ids.len(),
{
    reveal(Seq::filter);
    if ids.len() > 0 {
        let init = ids.drop_last();
        assert forall|j: int| 0 <= j < init.len() implies !(moved_by(#[trigger] init[j], stem, drop)
            || lost(init[j], stem, drop)) by {
            assert(ids[j] == init[j]);
        }
        unchanged_ids_stay(init, stem, drop);
        let last = ids[ids.len() - 1];
        assert(!moved_by(last, stem, drop) && !lost(last, stem, drop));
        lemma_unmoved(last, stem, drop);
        let keep = |id: Seq<char>| !lost(id, stem, drop);
        let shift = |id: Seq<char>| shifted_by(id, stem, drop);
        assert(ids.filter(keep) == init.filter(keep).push(last));
        assert(init.filter(keep).push(last).map_values(shift) =~= init.filter(keep).map_values(
            shift,
        ).push(last));
        assert(init.push(last) =~= ids);
    } else {
        assert(ids_after(ids, stem, drop) =~= ids);
    }
}

proof fn lemma_unmoved(id: Seq<char>, stem: Seq<char>, drop: Seq<usize>)
    requires
        !moved_by(id, stem, drop),
    ensures
        shifted_by(id, stem, drop) == id,
    decreases drop.len(),
{
    if drop.len() > 0 {
        lemma_unmoved(id, stem, drop.drop_last());
    }
}

} // verus!
