//! Export runs and the entries that they lock.
//!
//! An entry is named by its place: the stem of its monthly file, a colon, and its
//! number among the data rows. An entry in a completed run is locked until it is
//! released from the run, or the run is voided.

use crate::dates;
use crate::dates::Date;
use crate::selection;
use crate::text;
use vstd::prelude::*;

verus! {

/// The work for one client and engagement in a run.
#[derive(Debug, Clone)]
pub struct RollupLine {
    pub client: String,
    pub engagement: String,
    pub entries: usize,
    pub minutes: i128,
    pub billable_minutes: i128,
}

/// The sums of a run.
#[derive(Debug, Clone, Copy, PartialEq, Eq, Structural)]
pub struct ExportTotals {
    pub entries: usize,
    pub minutes: i128,
    pub billable_minutes: i128,
    pub clients: usize,
    pub engagements: usize,
}

/// One completed export.
#[derive(Debug, Clone)]
pub struct ExportRun {
    pub run_id: String,
    pub created_at: String,
    pub range: String,
    pub range_label: String,
    pub entry_ids: Vec<String>,
    pub rollup: Vec<RollupLine>,
    pub totals: ExportTotals,
    /// The clients that the run covers.
    pub clients: Vec<String>,
    /// A voided run stays on record and locks nothing.
    pub voided: bool,
    pub voided_at: Option<String>,
}

/// All export runs, the oldest first.
#[derive(Debug, Clone)]
pub struct ExportManifest {
    pub runs: Vec<ExportRun>,
}

// ---- entry ids ------------------------------------------------------------

/// What stands before the last colon, and what behind it.
pub open spec fn rsplit(s: Seq<char>) -> Option<(Seq<char>, Seq<char>)>
    decreases s.len(),
{
    if s.len() == 0 {
        None
    } else if s.last() == ':' {
        Some((s.drop_last(), Seq::empty()))
    } else {
        match rsplit(s.drop_last()) {
            Some((a, b)) => Some((a, b.push(s.last()))),
            None => None,
        }
    }
}

/// What stands before the last colon, and what behind it.
pub fn rsplit_colon(s: &str) -> (r: Option<(String, String)>)
    ensures
        match r {
            Some((a, b)) => rsplit(s@) == Some((a@, b@)),
            None => rsplit(s@) is None,
        },
{
    let v = text::chars_of(s);
    let mut found = false;
    let mut at: usize = 0;
    let mut i: usize = 0;
    while i < v.len()
        invariant
            i <= v@.len(),
            found ==> at < i,
            rsplit(v@.take(i as int)) == if found {
                Some((v@.take(at as int), v@.subrange(at + 1, i as int)))
            } else {
                None
            },
        decreases v@.len() - i,
    {
        assert(v@.take(i + 1).drop_last() =~= v@.take(i as int));
        assert(v@.take(i + 1).last() == v@[i as int]);
        if v[i] == ':' {
            found = true;
            at = i;
            assert(v@.subrange(at + 1, i + 1) =~= Seq::<char>::empty());
        } else if found {
            assert(v@.subrange(at + 1, i as int).push(v@[i as int]) =~= v@.subrange(
                at + 1,
                i + 1,
            ));
        }
        i += 1;
    }
    assert(v@.take(v@.len() as int) =~= v@);
    if found {
        let a = text::piece(v.as_slice(), 0, at);
        let b = text::piece(v.as_slice(), at + 1, v.len());
        assert(a@ =~= v@.take(at as int));
        Some((text::text_of(a.as_slice()), text::text_of(b.as_slice())))
    } else {
        None
    }
}

/// The id of the `n`th row of a monthly file.
pub open spec fn entry_id(stem: Seq<char>, n: nat) -> Seq<char> {
    stem + seq![':'] + text::dec(n)
}

/// The id of the `n`th row of a monthly file.
pub fn make_id(stem: &str, n: usize) -> (r: String)
    ensures
        r@ == entry_id(stem@, n as nat),
{
    let mut out = text::copy(stem);
    out.push(':');
    text::push_dec(&mut out, n as u128);
    assert(out@ =~= entry_id(stem@, n as nat));
    out
}

// ---- locks ----------------------------------------------------------------

/// The run locks the entry.
pub open spec fn run_locks(r: ExportRun, id: Seq<char>) -> bool {
    !r.voided && text::texts(r.entry_ids@).contains(id)
}

/// Some run locks the entry.
pub open spec fn locks(runs: Seq<ExportRun>, id: Seq<char>) -> bool {
    exists|i: int| 0 <= i < runs.len() && run_locks(#[trigger] runs[i], id)
}

/// The id of the first run that locks the entry.
pub open spec fn locking_run(runs: Seq<ExportRun>, id: Seq<char>) -> Option<Seq<char>>
    decreases runs.len(),
{
    if runs.len() == 0 {
        None
    } else {
        match locking_run(runs.drop_last(), id) {
            Some(r) => Some(r),
            None => if run_locks(runs.last(), id) {
                Some(runs.last().run_id@)
            } else {
                None
            },
        }
    }
}

/// The entries that are locked.
pub struct LockedIds {
    pub ids: Vec<String>,
}

impl LockedIds {
    /// The entry is among them.
    pub fn contains(&self, id: &str) -> (r: bool)
        ensures
            r == text::texts(self.ids@).contains(id@),
    {
        has_text(&self.ids, id)
    }
}

/// The text is in the list.
pub fn has_text(list: &Vec<String>, x: &str) -> (r: bool)
    ensures
        r == text::texts(list@).contains(x@),
{
    let ghost all = text::texts(list@);
    let mut i: usize = 0;
    while i < list.len()
        invariant
            i <= list@.len(),
            all == text::texts(list@),
            forall|k: int| 0 <= k < i ==> #[trigger] all[k] != x@,
        decreases list@.len() - i,
    {
        if text::same_text(list[i].as_str(), x) {
            assert(all[i as int] == x@);
            return true;
        }
        i += 1;
    }
    false
}

// ---- positions ------------------------------------------------------------

/// The number that an id gives in a month, where it gives one.
pub open spec fn row_number(id: Seq<char>, stem: Seq<char>) -> Option<nat> {
    match rsplit(id) {
        Some((s, t)) => if s == stem && text::parse_nat(t) is Some && text::parse_nat(t)->0
            <= usize::MAX {
            text::parse_nat(t)
        } else {
            None
        },
        None => None,
    }
}

/// The id is that of row `n` of the month.
pub open spec fn names(id: Seq<char>, stem: Seq<char>, n: nat) -> bool {
    row_number(id, stem) == Some(n)
}

/// The row moves up when row `n` of the month is removed.
pub open spec fn moves(id: Seq<char>, stem: Seq<char>, n: nat) -> bool {
    row_number(id, stem) matches Some(k) && k > n
}

/// The id of the same row after row `n` of the month was removed.
pub open spec fn shifted(id: Seq<char>, stem: Seq<char>, n: nat) -> Seq<char> {
    if moves(id, stem, n) {
        entry_id(stem, (row_number(id, stem)->0 - 1) as nat)
    } else {
        id
    }
}

/// What removing a row does to an id.
enum Shift {
    Stays,
    Moves(String),
    Goes,
}

fn shift_id(id: &str, stem: &str, n: usize) -> (r: Shift)
    ensures
        match r {
            Shift::Stays => !names(id@, stem@, n as nat) && !moves(id@, stem@, n as nat),
            Shift::Moves(t) => moves(id@, stem@, n as nat) && t@ == shifted(
                id@,
                stem@,
                n as nat,
            ),
            Shift::Goes => names(id@, stem@, n as nat),
        },
{
    match rsplit_colon(id) {
        Some((s, t)) => {
            if !text::same_text(s.as_str(), stem) {
                return Shift::Stays;
            }
            match text::parse_u64(t.as_str(), usize::MAX as u64) {
                Some(k) => if k > n as u64 {
                    Shift::Moves(make_id(stem, (k - 1) as usize))
                } else if k == n as u64 {
                    Shift::Goes
                } else {
                    Shift::Stays
                },
                None => Shift::Stays,
            }
        },
        None => Shift::Stays,
    }
}

/// The ids after row `n` of the month was removed: its own is dropped, those of the
/// later rows move up.
pub open spec fn shifted_ids(ids: Seq<Seq<char>>, stem: Seq<char>, n: nat) -> Seq<Seq<char>> {
    ids.filter(|id: Seq<char>| !names(id, stem, n)).map_values(
        |id: Seq<char>| shifted(id, stem, n),
    )
}

pub(crate) proof fn lemma_shift_one_more(ids: Seq<Seq<char>>, id: Seq<char>, stem: Seq<char>, n: nat)
    ensures
        shifted_ids(ids.push(id), stem, n) == if names(id, stem, n) {
            shifted_ids(ids, stem, n)
        } else {
            shifted_ids(ids, stem, n).push(shifted(id, stem, n))
        },
{
    reveal(Seq::filter);
    assert(ids.push(id).drop_last() =~= ids);
    assert(shifted_ids(ids.push(id), stem, n) =~= if names(id, stem, n) {
        shifted_ids(ids, stem, n)
    } else {
        shifted_ids(ids, stem, n).push(shifted(id, stem, n))
    });
}

fn shift_ids(ids: &Vec<String>, stem: &str, n: usize) -> (r: (Vec<String>, bool))
    ensures
        text::texts(r.0@) == shifted_ids(text::texts(ids@), stem@, n as nat),
        r.1 == ids_change(text::texts(ids@), stem@, n as nat),
{
    let ghost all = text::texts(ids@);
    let mut out: Vec<String> = Vec::new();
    let mut changed = false;
    let mut i: usize = 0;
    proof {
        reveal(Seq::filter);
        assert(text::texts(out@) =~= shifted_ids(all.take(0), stem@, n as nat));
    }
    while i < ids.len()
        invariant
            i <= ids@.len(),
            all == text::texts(ids@),
            text::texts(out@) == shifted_ids(all.take(i as int), stem@, n as nat),
            changed == exists|k: int|
                0 <= k < i && (moves(#[trigger] all[k], stem@, n as nat) || names(
                    all[k],
                    stem@,
                    n as nat,
                )),
        decreases ids@.len() - i,
    {
        let ghost outs = text::texts(out@);
        let ghost id = ids@[i as int]@;
        assert(all[i as int] == id);
        proof {
            assert(all.take(i + 1) =~= all.take(i as int).push(id));
            lemma_shift_one_more(all.take(i as int), id, stem@, n as nat);
        }
        match shift_id(ids[i].as_str(), stem, n) {
            Shift::Stays => {
                out.push(ids[i].clone());
                assert(text::texts(out@) =~= outs.push(id));
            },
            Shift::Moves(t) => {
                changed = true;
                out.push(t);
                assert(text::texts(out@) =~= outs.push(shifted(id, stem@, n as nat)));
            },
            Shift::Goes => {
                changed = true;
            },
        }
        i += 1;
    }
    assert(all.take(all.len() as int) =~= all);
    (out, changed)
}

/// The run after row `n` of the month was removed.
pub open spec fn run_shifted(a: ExportRun, b: ExportRun, stem: Seq<char>, n: nat) -> bool {
    &&& b == (ExportRun { entry_ids: b.entry_ids, ..a })
    &&& text::texts(b.entry_ids@) == shifted_ids(text::texts(a.entry_ids@), stem, n)
}

/// Some id moves or goes when row `n` of the month is removed.
pub open spec fn ids_change(ids: Seq<Seq<char>>, stem: Seq<char>, n: nat) -> bool {
    exists|i: int|
        0 <= i < ids.len() && (moves(#[trigger] ids[i], stem, n) || names(ids[i], stem, n))
}

// ---- run ids --------------------------------------------------------------

/// `EXP-YYYYMMDD-`.
pub open spec fn run_prefix(d: Date) -> Seq<char> {
    "EXP-"@ + dates::stem_year(d.year as int) + text::dec_padded(d.month as nat, 2)
        + text::dec_padded(d.day as nat, 2) + seq!['-']
}

/// The number of a run of the day, where its id has one.
pub open spec fn run_number(id: Seq<char>, prefix: Seq<char>) -> Option<nat> {
    if text::has_prefix(id, prefix) {
        match text::parse_nat(id.skip(prefix.len() as int)) {
            Some(n) => if n <= u32::MAX {
                Some(n)
            } else {
                None
            },
            None => None,
        }
    } else {
        None
    }
}

/// The highest number of the runs of the day; 0 where there is none.
pub open spec fn highest(runs: Seq<ExportRun>, prefix: Seq<char>) -> nat
    decreases runs.len(),
{
    if runs.len() == 0 {
        0
    } else {
        let h = highest(runs.drop_last(), prefix);
        match run_number(runs.last().run_id@, prefix) {
            Some(n) => if n > h {
                n
            } else {
                h
            },
            None => h,
        }
    }
}

/// The first run with this id.
pub open spec fn find_run(runs: Seq<ExportRun>, id: Seq<char>) -> Option<int>
    decreases runs.len(),
{
    if runs.len() == 0 {
        None
    } else {
        match find_run(runs.drop_last(), id) {
            Some(i) => Some(i),
            None => if runs.last().run_id@ == id {
                Some(runs.len() - 1)
            } else {
                None
            },
        }
    }
}

/// Why a run was not voided, or an entry not released.
#[derive(Debug, Clone, Copy, PartialEq, Eq, Structural)]
pub enum RunError {
    /// No run has this id.
    NoSuchRun,
    /// The run is voided already.
    AlreadyVoided,
    /// The entry is not in the run.
    NotInRun,
}

impl RunError {
    /// The status and the words of the answer.
    pub fn response(&self) -> (r: (u16, &'static str))
        ensures
            match *self {
                RunError::NoSuchRun => r.0 == 404 && r.1@ == "no such export run"@,
                RunError::AlreadyVoided => r.0 == 409 && r.1@ == "this export is already voided"@,
                RunError::NotInRun => r.0 == 404 && r.1@ == "that entry is not in this run"@,
            },
    {
        match self {
            RunError::NoSuchRun => (404, "no such export run"),
            RunError::AlreadyVoided => (409, "this export is already voided"),
            RunError::NotInRun => (404, "that entry is not in this run"),
        }
    }
}

fn without(list: &Vec<String>, x: &str) -> (r: Vec<String>)
    ensures
        text::texts(r@) == text::texts(list@).filter(|t: Seq<char>| t != x@),
{
    let ghost all = text::texts(list@);
    let ghost keep = |t: Seq<char>| t != x@;
    let mut out: Vec<String> = Vec::new();
    let mut i: usize = 0;
    reveal(Seq::filter);
    assert(text::texts(out@) =~= all.take(0).filter(keep));
    while i < list.len()
        invariant
            i <= list@.len(),
            all == text::texts(list@),
            keep == (|t: Seq<char>| t != x@),
            text::texts(out@) == all.take(i as int).filter(keep),
        decreases list@.len() - i,
    {
        proof {
            reveal(Seq::filter);
            assert(all.take(i + 1).drop_last() =~= all.take(i as int));
            assert(all.take(i + 1).last() == list@[i as int]@);
        }
        let ghost outs = text::texts(out@);
        if !text::same_text(list[i].as_str(), x) {
            out.push(list[i].clone());
            assert(text::texts(out@) =~= outs.push(all[i as int]));
        }
        i += 1;
    }
    assert(all.take(all.len() as int) =~= all);
    out
}

impl ExportManifest {
    /// No run yet.
    pub fn empty() -> (r: ExportManifest)
        ensures
            r.runs@ == Seq::<ExportRun>::empty(),
    {
        ExportManifest { runs: Vec::new() }
    }

    /// The id of the run that locks an entry.
    pub fn run_id_for_entry(&self, id: &str) -> (r: Option<String>)
        ensures
            match r {
                Some(t) => locking_run(self.runs@, id@) == Some(t@),
                None => locking_run(self.runs@, id@) is None,
            },
            r is Some == locks(self.runs@, id@),
    {
        let mut i: usize = 0;
        while i < self.runs.len()
            invariant
                i <= self.runs@.len(),
                locking_run(self.runs@.take(i as int), id@) is None,
                forall|k: int| 0 <= k < i ==> !run_locks(#[trigger] self.runs@[k], id@),
            decreases self.runs@.len() - i,
        {
            assert(self.runs@.take(i + 1).drop_last() =~= self.runs@.take(i as int));
            assert(self.runs@.take(i + 1).last() == self.runs@[i as int]);
            let run = &self.runs[i];
            if !run.voided && has_text(&run.entry_ids, id) {
                proof {
                    assert(run_locks(self.runs@[i as int], id@));
                    lemma_locking_prefix(self.runs@, i + 1, id@);
                }
                return Some(run.run_id.clone());
            }
            i += 1;
        }
        assert(self.runs@.take(self.runs@.len() as int) =~= self.runs@);
        None
    }

    /// The entries that are locked.
    pub fn locked_ids(&self) -> (r: LockedIds)
        ensures
            forall|id: Seq<char>| #[trigger]
                text::texts(r.ids@).contains(id) == locks(self.runs@, id),
    {
        let mut ids: Vec<String> = Vec::new();
        let mut i: usize = 0;
        while i < self.runs.len()
            invariant
                i <= self.runs@.len(),
                forall|id: Seq<char>| #[trigger]
                    text::texts(ids@).contains(id) == locks(self.runs@.take(i as int), id),
            decreases self.runs@.len() - i,
        {
            let ghost before = text::texts(ids@);
            let run = &self.runs[i];
            if !run.voided {
                let mut more = crate::csv_file::copy_texts(&run.entry_ids);
                let ghost added = text::texts(more@);
                ids.append(&mut more);
                assert(text::texts(ids@) =~= before + added);
            }
            proof {
                let now = text::texts(ids@);
                let t = self.runs@.take(i as int);
                let u = self.runs@.take(i + 1);
                assert(u =~= t.push(self.runs@[i as int]));
                assert forall|id: Seq<char>| #[trigger] now.contains(id) == locks(u, id) by {
                    lemma_locks_step(t, u, self.runs@[i as int], id);
                    lemma_contains_concat(before, text::texts(run.entry_ids@), id);
                    assert(before.contains(id) == locks(t, id));
                }
            }
            i += 1;
        }
        assert(self.runs@.take(self.runs@.len() as int) =~= self.runs@);
        LockedIds { ids }
    }

    /// Row `deleted_n` of a month is gone: its own id is dropped from every run, and
    /// every id of a later row of the month is one less. Whether any id changed.
    pub fn shift_after_delete(&mut self, stem: &str, deleted_n: usize) -> (changed: bool)
        ensures
            final(self).runs@.len() == old(self).runs@.len(),
            forall|i: int|
                0 <= i < old(self).runs@.len() ==> run_shifted(
                    #[trigger] old(self).runs@[i],
                    final(self).runs@[i],
                    stem@,
                    deleted_n as nat,
                ),
            changed == exists|i: int|
                0 <= i < old(self).runs@.len() && ids_change(
                    text::texts((#[trigger] old(self).runs@[i]).entry_ids@),
                    stem@,
                    deleted_n as nat,
                ),
    {
        let ghost start = self.runs@;
        let mut changed = false;
        let mut i: usize = 0;
        while i < self.runs.len()
            invariant
                i <= self.runs@.len(),
                self.runs@.len() == start.len(),
                forall|k: int|
                    0 <= k < i ==> run_shifted(
                        #[trigger] start[k],
                        self.runs@[k],
                        stem@,
                        deleted_n as nat,
                    ),
                forall|k: int| i <= k < start.len() ==> self.runs@[k] == #[trigger] start[k],
                changed == exists|k: int|
                    0 <= k < i && ids_change(
                        text::texts((#[trigger] start[k]).entry_ids@),
                        stem@,
                        deleted_n as nat,
                    ),
            decreases self.runs@.len() - i,
        {
            let (ids, c) = shift_ids(&self.runs[i].entry_ids, stem, deleted_n);
            assert(self.runs@[i as int] == start[i as int]);
            self.runs[i].entry_ids = ids;
            if c {
                changed = true;
            }
            i += 1;
        }
        changed
    }

    /// The next run id of the day: `EXP-YYYYMMDD-NNNN`.
    pub fn next_run_id(&self, today: &Date) -> (r: String)
        ensures
            r@ == run_prefix(*today) + text::dec_padded(
                highest(self.runs@, run_prefix(*today)) + 1,
                4,
            ),
    {
        let mut prefix = text::copy("EXP-");
        if today.year >= 0 {
            text::push_padded(&mut prefix, today.year as u64, 4);
        } else {
            prefix.push('-');
            text::push_padded(&mut prefix, (-(today.year as i64)) as u64, 3);
        }
        text::push_padded(&mut prefix, today.month as u64, 2);
        text::push_padded(&mut prefix, today.day as u64, 2);
        prefix.push('-');
        assert(prefix@ =~= run_prefix(*today));
        let p = text::chars_of(prefix.as_str());
        let mut max: u64 = 0;
        let mut i: usize = 0;
        while i < self.runs.len()
            invariant
                i <= self.runs@.len(),
                p@ == run_prefix(*today),
                max == highest(self.runs@.take(i as int), p@),
                max <= u32::MAX,
            decreases self.runs@.len() - i,
        {
            assert(self.runs@.take(i + 1).drop_last() =~= self.runs@.take(i as int));
            assert(self.runs@.take(i + 1).last() == self.runs@[i as int]);
            let id = text::chars_of(self.runs[i].run_id.as_str());
            if text::starts_with(id.as_slice(), p.as_slice()) {
                let rest = text::piece(id.as_slice(), p.len(), id.len());
                assert(rest@ =~= id@.skip(p@.len() as int));
                let rest_text = text::text_of(rest.as_slice());
                match text::parse_u64(rest_text.as_str(), u32::MAX as u64) {
                    Some(n) => if n > max {
                        max = n;
                    },
                    None => {},
                }
            }
            i += 1;
        }
        assert(self.runs@.take(self.runs@.len() as int) =~= self.runs@);
        let mut out = prefix;
        text::push_padded(&mut out, max + 1, 4);
        out
    }

    /// The place of the run with this id.
    pub fn find(&self, run_id: &str) -> (r: Option<usize>)
        ensures
            match r {
                Some(i) => find_run(self.runs@, run_id@) == Some(i as int) && i < self.runs@.len()
                    && self.runs@[i as int].run_id@ == run_id@,
                None => find_run(self.runs@, run_id@) is None,
            },
    {
        let mut i: usize = 0;
        while i < self.runs.len()
            invariant
                i <= self.runs@.len(),
                find_run(self.runs@.take(i as int), run_id@) is None,
            decreases self.runs@.len() - i,
        {
            assert(self.runs@.take(i + 1).drop_last() =~= self.runs@.take(i as int));
            assert(self.runs@.take(i + 1).last() == self.runs@[i as int]);
            if text::same_text(self.runs[i].run_id.as_str(), run_id) {
                proof {
                    lemma_find_prefix(self.runs@, i + 1, run_id@);
                }
                return Some(i);
            }
            i += 1;
        }
        assert(self.runs@.take(self.runs@.len() as int) =~= self.runs@);
        None
    }

    /// Releases an entry from a run; the record of the run stays as it is.
    pub fn unlock_entry(&mut self, run_id: &str, entry_id: &str) -> (r: Result<(), RunError>)
        ensures
            match find_run(old(self).runs@, run_id@) {
                None => r == Err::<(), RunError>(RunError::NoSuchRun) && final(self).runs@ == old(
                    self,
                ).runs@,
                Some(i) => {
                    let run = old(self).runs@[i];
                    if !text::texts(run.entry_ids@).contains(entry_id@) {
                        r == Err::<(), RunError>(RunError::NotInRun) && final(self).runs@ == old(
                            self,
                        ).runs@
                    } else {
                        let now = final(self).runs@[i];
                        &&& r is Ok
                        &&& final(self).runs@ == old(self).runs@.update(i, now)
                        &&& now == (ExportRun { entry_ids: now.entry_ids, ..run })
                        &&& text::texts(now.entry_ids@) == text::texts(run.entry_ids@).filter(
                            |t: Seq<char>| t != entry_id@,
                        )
                    }
                },
            },
    {
        let ghost start = self.runs@;
        match self.find(run_id) {
            None => Err(RunError::NoSuchRun),
            Some(i) => {
                if !has_text(&self.runs[i].entry_ids, entry_id) {
                    return Err(RunError::NotInRun);
                }
                let ids = without(&self.runs[i].entry_ids, entry_id);
                self.runs[i].entry_ids = ids;
                assert(self.runs@ =~= start.update(i as int, self.runs@[i as int]));
                Ok(())
            },
        }
    }

    /// Voids a run: it stays on record and locks nothing any more.
    pub fn void_run(&mut self, run_id: &str, now: &str) -> (r: Result<(), RunError>)
        ensures
            match find_run(old(self).runs@, run_id@) {
                None => r == Err::<(), RunError>(RunError::NoSuchRun) && final(self).runs@ == old(
                    self,
                ).runs@,
                Some(i) => {
                    let run = old(self).runs@[i];
                    if run.voided {
                        r == Err::<(), RunError>(RunError::AlreadyVoided) && final(self).runs@
                            == old(self).runs@
                    } else {
                        let after = final(self).runs@[i];
                        &&& r is Ok
                        &&& final(self).runs@ == old(self).runs@.update(i, after)
                        &&& after == (ExportRun { voided: true, voided_at: after.voided_at, ..run })
                        &&& after.voided_at matches Some(t) && t@ == now@
                    }
                },
            },
    {
        let ghost start = self.runs@;
        match self.find(run_id) {
            None => Err(RunError::NoSuchRun),
            Some(i) => {
                if self.runs[i].voided {
                    return Err(RunError::AlreadyVoided);
                }
                self.runs[i].voided = true;
                self.runs[i].voided_at = Some(text::copy(now));
                assert(self.runs@ =~= start.update(i as int, self.runs@[i as int]));
                Ok(())
            },
        }
    }
}

proof fn lemma_locking_prefix(runs: Seq<ExportRun>, n: int, id: Seq<char>)
    requires
        0 <= n <= runs.len(),
        locking_run(runs.take(n), id) is Some,
    ensures
        locking_run(runs, id) == locking_run(runs.take(n), id),
    decreases runs.len(),
{
    if n < runs.len() {
        assert(runs.drop_last().take(n) =~= runs.take(n));
        lemma_locking_prefix(runs.drop_last(), n, id);
    } else {
        assert(runs.take(n) =~= runs);
    }
}

proof fn lemma_find_prefix(runs: Seq<ExportRun>, n: int, id: Seq<char>)
    requires
        0 <= n <= runs.len(),
        find_run(runs.take(n), id) is Some,
    ensures
        find_run(runs, id) == find_run(runs.take(n), id),
    decreases runs.len(),
{
    if n < runs.len() {
        assert(runs.drop_last().take(n) =~= runs.take(n));
        lemma_find_prefix(runs.drop_last(), n, id);
    } else {
        assert(runs.take(n) =~= runs);
    }
}

proof fn lemma_locks_step(t: Seq<ExportRun>, u: Seq<ExportRun>, r: ExportRun, id: Seq<char>)
    requires
        u == t.push(r),
    ensures
        locks(u, id) == (locks(t, id) || run_locks(r, id)),
{
    if locks(t, id) {
        let k = choose|k: int| 0 <= k < t.len() && run_locks(#[trigger] t[k], id);
        assert(u[k] == t[k]);
    }
    if run_locks(r, id) {
        assert(u[t.len() as int] == r);
    }
    if locks(u, id) {
        let k = choose|k: int| 0 <= k < u.len() && run_locks(#[trigger] u[k], id);
        if k < t.len() {
            assert(t[k] == u[k]);
        }
    }
}

proof fn lemma_contains_concat(a: Seq<Seq<char>>, b: Seq<Seq<char>>, x: Seq<char>)
    ensures
        (a + b).contains(x) == (a.contains(x) || b.contains(x)),
{
    if a.contains(x) {
        let k = choose|k: int| 0 <= k < a.len() && a[k] == x;
        assert((a + b)[k] == x);
    }
    if b.contains(x) {
        let k = choose|k: int| 0 <= k < b.len() && b[k] == x;
        assert((a + b)[a.len() + k] == x);
    }
}

// ---- laws -----------------------------------------------------------------

/// The month and the number are read back from an id.
pub proof fn ids_read_back(stem: Seq<char>, n: nat)
    ensures
        rsplit(entry_id(stem, n)) == Some((stem, text::dec(n))),
        n <= usize::MAX ==> row_number(entry_id(stem, n), stem) == Some(n),
{
    text::dec_is_digits(n);
    text::dec_reads_back(n);
    text::digits_hold_no_other(text::dec(n), ':');
    lemma_rsplit(stem, text::dec(n));
    assert(entry_id(stem, n) =~= stem.push(':') + text::dec(n));
}

proof fn lemma_rsplit(a: Seq<char>, b: Seq<char>)
    requires
        !b.contains(':'),
    ensures
        rsplit(a.push(':') + b) == Some((a, b)),
    decreases b.len(),
{
    let s = a.push(':') + b;
    if b.len() == 0 {
        assert(s =~= a.push(':'));
        assert(a.push(':').drop_last() =~= a);
        assert(b =~= Seq::<char>::empty());
    } else {
        let b0 = b.drop_last();
        assert(b[b.len() - 1] != ':');
        assert forall|x: char| b0.contains(x) implies b.contains(x) by {
            let i = choose|i: int| 0 <= i < b0.len() && b0[i] == x;
            assert(b[i] == x);
        }
        lemma_rsplit(a, b0);
        assert(s.drop_last() =~= a.push(':') + b0);
        assert(b0.push(b.last()) =~= b);
    }
}

/// Two ids are the same only for the same row of the same month.
pub proof fn ids_name_one_row(s: Seq<char>, a: nat, t: Seq<char>, b: nat)
    requires
        entry_id(s, a) == entry_id(t, b),
    ensures
        s == t,
        a == b,
{
    ids_read_back(s, a);
    ids_read_back(t, b);
    text::dec_reads_back(a);
    text::dec_reads_back(b);
}

/// An id of some row of some month.
pub open spec fn is_entry_id(id: Seq<char>) -> bool {
    exists|s: Seq<char>, k: nat| k <= usize::MAX && id == #[trigger] entry_id(s, k)
}

/// Every id of every run is that of a row.
pub open spec fn ids_well_formed(runs: Seq<ExportRun>) -> bool {
    forall|i: int, j: int|
        0 <= i < runs.len() && 0 <= j < runs[i].entry_ids@.len() ==> is_entry_id(
            #[trigger] text::texts(runs[i].entry_ids@)[j],
        )
}

/// The id of a later row of the month, after row `n` is removed, has the number
/// before its own, that of the row itself is dropped, and every other id stays.
pub proof fn later_ids_shift(s: Seq<char>, k: nat, stem: Seq<char>, n: nat)
    requires
        k <= usize::MAX,
    ensures
        names(entry_id(s, k), stem, n) == (s == stem && k == n),
        shifted(entry_id(s, k), stem, n) == if s == stem && k > n {
            entry_id(stem, (k - 1) as nat)
        } else {
            entry_id(s, k)
        },
{
    ids_read_back(s, k);
}

/// The ids after row `n` of the month was removed are the shifted ones of the others.
proof fn lemma_shifted_contains(
    ids: Seq<Seq<char>>,
    stem: Seq<char>,
    n: nat,
    want: Seq<char>,
)
    ensures
        shifted_ids(ids, stem, n).contains(want) == exists|id: Seq<char>| #[trigger]
            ids.contains(id) && !names(id, stem, n) && shifted(id, stem, n) == want,
{
    let keep = |id: Seq<char>| !names(id, stem, n);
    let kept = ids.filter(keep);
    let all = shifted_ids(ids, stem, n);
    broadcast use vstd::seq_lib::group_filter_ensures;

    if all.contains(want) {
        let j = choose|j: int| 0 <= j < all.len() && all[j] == want;
        assert(keep(kept[j]));
        assert(kept.contains(kept[j]));
        ids.lemma_filter_contains_rev(keep, kept[j]);
        assert(shifted(kept[j], stem, n) == want);
    }
    if exists|id: Seq<char>| #[trigger]
        ids.contains(id) && !names(id, stem, n) && shifted(id, stem, n) == want {
        let id = choose|id: Seq<char>| #[trigger]
            ids.contains(id) && !names(id, stem, n) && shifted(id, stem, n) == want;
        let i = choose|i: int| 0 <= i < ids.len() && ids[i] == id;
        assert(keep(ids[i]));
        ids.lemma_filter_contains(keep, i);
        let j = choose|j: int| 0 <= j < kept.len() && kept[j] == id;
        assert(all[j] == want);
    }
}

proof fn lemma_run_follows(a: ExportRun, b: ExportRun, stem: Seq<char>, n: nat, t: Seq<char>, k: nat)
    requires
        run_shifted(a, b, stem, n),
        forall|j: int|
            0 <= j < a.entry_ids@.len() ==> is_entry_id(#[trigger] text::texts(a.entry_ids@)[j]),
        k < usize::MAX,
    ensures
        run_locks(b, entry_id(t, k)) == run_locks(
            a,
            if t == stem && k >= n {
                entry_id(stem, k + 1)
            } else {
                entry_id(t, k)
            },
        ),
{
    let x = text::texts(a.entry_ids@);
    let y = text::texts(b.entry_ids@);
    let want = entry_id(t, k);
    let from = if t == stem && k >= n { entry_id(stem, k + 1) } else { entry_id(t, k) };
    lemma_shifted_contains(x, stem, n, want);
    if x.contains(from) {
        if t == stem && k >= n {
            later_ids_shift(stem, k + 1, stem, n);
        } else {
            later_ids_shift(t, k, stem, n);
        }
        assert(!names(from, stem, n) && shifted(from, stem, n) == want);
    }
    if y.contains(want) {
        let id = choose|id: Seq<char>| #[trigger]
            x.contains(id) && !names(id, stem, n) && shifted(id, stem, n) == want;
        let j = choose|j: int| 0 <= j < x.len() && x[j] == id;
        assert(is_entry_id(x[j]));
        let (s, m) = choose|s: Seq<char>, m: nat| m <= usize::MAX && x[j] == #[trigger] entry_id(
            s,
            m,
        );
        later_ids_shift(s, m, stem, n);
        if s == stem && m > n {
            ids_name_one_row(stem, (m - 1) as nat, t, k);
        } else {
            ids_name_one_row(s, m, t, k);
        }
        assert(x[j] == from);
    }
}

/// Locks follow their rows: when a row is removed, a later row of the month is
/// locked under its new number exactly if it was under the old one, and every other
/// row as before.
pub proof fn locks_follow_their_rows(
    before: Seq<ExportRun>,
    after: Seq<ExportRun>,
    stem: Seq<char>,
    n: nat,
    t: Seq<char>,
    k: nat,
)
    requires
        ids_well_formed(before),
        before.len() == after.len(),
        forall|i: int|
            0 <= i < before.len() ==> run_shifted(#[trigger] before[i], after[i], stem, n),
        k < usize::MAX,
    ensures
        locks(after, entry_id(t, k)) == locks(
            before,
            if t == stem && k >= n {
                entry_id(stem, k + 1)
            } else {
                entry_id(t, k)
            },
        ),
{
    let want = entry_id(t, k);
    let from = if t == stem && k >= n { entry_id(stem, k + 1) } else { entry_id(t, k) };
    assert forall|i: int| 0 <= i < before.len() implies run_locks(#[trigger] after[i], want)
        == run_locks(before[i], from) by {
        assert(run_shifted(before[i], after[i], stem, n));
        lemma_run_follows(before[i], after[i], stem, n, t, k);
    }
    if locks(before, from) {
        let i = choose|i: int| 0 <= i < before.len() && run_locks(#[trigger] before[i], from);
        assert(run_locks(after[i], want));
    }
    if locks(after, want) {
        let i = choose|i: int| 0 <= i < after.len() && run_locks(#[trigger] after[i], want);
        assert(run_locks(before[i], from));
    }
}

/// A voided run releases its entries: an entry is locked afterwards exactly if
/// another run locks it.
pub proof fn voided_runs_release(before: Seq<ExportRun>, i: int, after: ExportRun, id: Seq<char>)
    requires
        0 <= i < before.len(),
        after.voided,
    ensures
        locks(before.update(i, after), id) == exists|j: int|
            0 <= j < before.len() && j != i && run_locks(#[trigger] before[j], id),
{
    let now = before.update(i, after);
    if locks(now, id) {
        let j = choose|j: int| 0 <= j < now.len() && run_locks(#[trigger] now[j], id);
        assert(j != i);
        assert(run_locks(before[j], id));
    }
    if exists|j: int| 0 <= j < before.len() && j != i && run_locks(#[trigger] before[j], id) {
        let j = choose|j: int|
            0 <= j < before.len() && j != i && run_locks(#[trigger] before[j], id);
        assert(run_locks(now[j], id));
    }
}

/// No entry is locked by two runs.
pub open spec fn locked_once(runs: Seq<ExportRun>) -> bool {
    forall|i: int, j: int, id: Seq<char>|
        0 <= i < runs.len() && 0 <= j < runs.len() && #[trigger] run_locks(runs[i], id)
            && #[trigger] run_locks(runs[j], id) ==> i == j
}

/// A run that locks no more than before leaves no entry locked twice: so it is where
/// a run is voided, and where an entry is released from one.
pub proof fn releases_lock_nothing_twice(before: Seq<ExportRun>, i: int, after: ExportRun)
    requires
        0 <= i < before.len(),
        locked_once(before),
        forall|id: Seq<char>| #[trigger] run_locks(after, id) ==> run_locks(before[i], id),
    ensures
        locked_once(before.update(i, after)),
{
    let now = before.update(i, after);
    assert forall|a: int, b: int, id: Seq<char>|
        0 <= a < now.len() && 0 <= b < now.len() && #[trigger] run_locks(now[a], id)
            && #[trigger] run_locks(now[b], id) implies a == b by {
        assert(run_locks(before[a], id));
        assert(run_locks(before[b], id));
    }
}

/// An entry that is released from its run is locked no longer.
pub proof fn released_entries_are_free(
    before: Seq<ExportRun>,
    i: int,
    after: ExportRun,
    id: Seq<char>,
)
    requires
        0 <= i < before.len(),
        locked_once(before),
        run_locks(before[i], id),
        after == (ExportRun { entry_ids: after.entry_ids, ..before[i] }),
        text::texts(after.entry_ids@) == text::texts(before[i].entry_ids@).filter(
            |t: Seq<char>| t != id,
        ),
    ensures
        !locks(before.update(i, after), id),
        locked_once(before.update(i, after)),
{
    let other = |t: Seq<char>| t != id;
    let old_ids = text::texts(before[i].entry_ids@);
    let new_ids = text::texts(after.entry_ids@);
    broadcast use vstd::seq_lib::group_filter_ensures;

    assert forall|x: Seq<char>| #[trigger] run_locks(after, x) implies run_locks(before[i], x) by {
        assert(new_ids.contains(x));
        old_ids.lemma_filter_contains_rev(other, x);
    }
    releases_lock_nothing_twice(before, i, after);
    let now = before.update(i, after);
    if locks(now, id) {
        let j = choose|j: int| 0 <= j < now.len() && run_locks(#[trigger] now[j], id);
        if j == i {
            let k = choose|k: int| 0 <= k < new_ids.len() && new_ids[k] == id;
            assert(other(new_ids[k]));
        } else {
            assert(run_locks(before[j], id));
        }
    }
}

/// Removing a row leaves no entry locked twice.
pub proof fn removals_lock_nothing_twice(
    before: Seq<ExportRun>,
    after: Seq<ExportRun>,
    stem: Seq<char>,
    n: nat,
)
    requires
        ids_well_formed(before),
        locked_once(before),
        before.len() == after.len(),
        forall|i: int|
            0 <= i < before.len() ==> run_shifted(#[trigger] before[i], after[i], stem, n),
    ensures
        locked_once(after),
{
    assert forall|a: int, b: int, id: Seq<char>|
        0 <= a < after.len() && 0 <= b < after.len() && #[trigger] run_locks(after[a], id)
            && #[trigger] run_locks(after[b], id) implies a == b by {
        lemma_lock_comes_from(before, after, stem, n, a, id);
        lemma_lock_comes_from(before, after, stem, n, b, id);
        let (s, k) = choose|s: Seq<char>, k: nat|
            k <= usize::MAX && run_locks(before[a], #[trigger] entry_id(s, k)) && !names(
                entry_id(s, k),
                stem,
                n,
            ) && shifted(entry_id(s, k), stem, n) == id;
        let (t, m) = choose|t: Seq<char>, m: nat|
            m <= usize::MAX && run_locks(before[b], #[trigger] entry_id(t, m)) && !names(
                entry_id(t, m),
                stem,
                n,
            ) && shifted(entry_id(t, m), stem, n) == id;
        later_ids_shift(s, k, stem, n);
        later_ids_shift(t, m, stem, n);
        if s == stem && k > n {
            if t == stem && m > n {
                ids_name_one_row(stem, (k - 1) as nat, stem, (m - 1) as nat);
            } else {
                ids_name_one_row(stem, (k - 1) as nat, t, m);
            }
        } else if t == stem && m > n {
            ids_name_one_row(s, k, stem, (m - 1) as nat);
        }
        assert(entry_id(s, k) == entry_id(t, m));
    }
}

proof fn lemma_lock_comes_from(
    before: Seq<ExportRun>,
    after: Seq<ExportRun>,
    stem: Seq<char>,
    n: nat,
    a: int,
    id: Seq<char>,
)
    requires
        ids_well_formed(before),
        before.len() == after.len(),
        0 <= a < before.len(),
        run_shifted(before[a], after[a], stem, n),
        run_locks(after[a], id),
    ensures
        exists|s: Seq<char>, k: nat|
            k <= usize::MAX && run_locks(before[a], #[trigger] entry_id(s, k)) && !names(
                entry_id(s, k),
                stem,
                n,
            ) && shifted(entry_id(s, k), stem, n) == id,
{
    let x = text::texts(before[a].entry_ids@);
    let y = text::texts(after[a].entry_ids@);
    lemma_shifted_contains(x, stem, n, id);
    let was = choose|was: Seq<char>| #[trigger]
        x.contains(was) && !names(was, stem, n) && shifted(was, stem, n) == id;
    let j = choose|j: int| 0 <= j < x.len() && x[j] == was;
    assert(is_entry_id(x[j]));
    let (s, k) = choose|s: Seq<char>, k: nat| k <= usize::MAX && x[j] == #[trigger] entry_id(s, k);
    assert(x.contains(entry_id(s, k)));
    assert(run_locks(before[a], entry_id(s, k)));
}

/// Removing a row leaves only ids of rows: every id is that of a row or dropped.
pub proof fn removals_keep_ids_well_formed(
    before: Seq<ExportRun>,
    after: Seq<ExportRun>,
    stem: Seq<char>,
    n: nat,
)
    requires
        ids_well_formed(before),
        before.len() == after.len(),
        forall|i: int|
            0 <= i < before.len() ==> run_shifted(#[trigger] before[i], after[i], stem, n),
    ensures
        ids_well_formed(after),
{
    assert forall|i: int, j: int|
        0 <= i < after.len() && 0 <= j < after[i].entry_ids@.len() implies is_entry_id(
        #[trigger] text::texts(after[i].entry_ids@)[j],
    ) by {
        assert(run_shifted(before[i], after[i], stem, n));
        let x = text::texts(before[i].entry_ids@);
        let id = text::texts(after[i].entry_ids@)[j];
        assert(text::texts(after[i].entry_ids@).contains(id));
        lemma_shifted_contains(x, stem, n, id);
        let was = choose|was: Seq<char>| #[trigger]
            x.contains(was) && !names(was, stem, n) && shifted(was, stem, n) == id;
        let l = choose|l: int| 0 <= l < x.len() && x[l] == was;
        assert(is_entry_id(x[l]));
        let (s, k) = choose|s: Seq<char>, k: nat| k <= usize::MAX && x[l] == #[trigger] entry_id(
            s,
            k,
        );
        later_ids_shift(s, k, stem, n);
        if s == stem && k > n {
            assert(id == entry_id(stem, (k - 1) as nat));
        }
    }
}

/// A locked entry has a run that locks it, and only a locked entry has.
pub proof fn locking_run_is_lock(runs: Seq<ExportRun>, id: Seq<char>)
    ensures
        locking_run(runs, id) is Some == locks(runs, id),
    decreases runs.len(),
{
    if runs.len() > 0 {
        locking_run_is_lock(runs.drop_last(), id);
        assert(runs =~= runs.drop_last().push(runs.last()));
        lemma_locks_step(runs.drop_last(), runs, runs.last(), id);
    }
}

proof fn lemma_highest(runs: Seq<ExportRun>, prefix: Seq<char>, i: int)
    requires
        0 <= i < runs.len(),
    ensures
        run_number(runs[i].run_id@, prefix) matches Some(n) ==> n <= highest(runs, prefix),
    decreases runs.len(),
{
    if i < runs.len() - 1 {
        lemma_highest(runs.drop_last(), prefix, i);
    }
}

/// A new run id is that of no run before, as long as the numbers last.
pub proof fn run_ids_are_new(runs: Seq<ExportRun>, today: Date, i: int)
    requires
        0 <= i < runs.len(),
        highest(runs, run_prefix(today)) < u32::MAX,
    ensures
        runs[i].run_id@ != run_prefix(today) + text::dec_padded(
            highest(runs, run_prefix(today)) + 1,
            4,
        ),
{
    let p = run_prefix(today);
    let h = highest(runs, p);
    let d = text::dec_padded(h + 1, 4);
    let id = p + d;
    text::padded_reads_back(h + 1, 4);
    lemma_highest(runs, p, i);
    assert(id.take(p.len() as int) =~= p);
    assert(id.skip(p.len() as int) =~= d);
    assert(run_number(id, p) == Some(h + 1));
}

/// An entry is locked exactly if its id stands in a run that is not voided.
pub proof fn locks_are_ids_of_runs(runs: Seq<ExportRun>, id: Seq<char>)
    ensures
        locks(runs, id) == exists|a: int, b: int|
            0 <= a < runs.len() && !runs[a].voided && 0 <= b < runs[a].entry_ids@.len() && (
            #[trigger] runs[a].entry_ids@[b])@ == id,
{
    if locks(runs, id) {
        let a = choose|a: int| 0 <= a < runs.len() && run_locks(#[trigger] runs[a], id);
        let ids = text::texts(runs[a].entry_ids@);
        let b = choose|b: int| 0 <= b < ids.len() && ids[b] == id;
        assert(runs[a].entry_ids@[b]@ == id);
    }
    if exists|a: int, b: int|
        0 <= a < runs.len() && !runs[a].voided && 0 <= b < runs[a].entry_ids@.len() && (
        #[trigger] runs[a].entry_ids@[b])@ == id {
        let (a, b) = choose|a: int, b: int|
            0 <= a < runs.len() && !runs[a].voided && 0 <= b < runs[a].entry_ids@.len() && (
            #[trigger] runs[a].entry_ids@[b])@ == id;
        assert(text::texts(runs[a].entry_ids@)[b] == id);
        assert(run_locks(runs[a], id));
    }
}

/// An id is cut at its last colon, and one without a colon not at all.
pub proof fn ids_are_cut_at_their_last_colon(a: Seq<char>, b: Seq<char>)
    requires
        !b.contains(':'),
    ensures
        rsplit(a + seq![':'] + b) == Some((a, b)),
        rsplit(b) is None,
    decreases b.len(),
{
    let s = a + seq![':'] + b;
    if b.len() > 0 {
        let init = b.drop_last();
        assert forall|i: int| 0 <= i < init.len() implies init[i] != ':' by {
            assert(b[i] == init[i]);
            assert(b.contains(b[i]));
        }
        ids_are_cut_at_their_last_colon(a, init);
        assert(s.drop_last() =~= a + seq![':'] + init);
        assert(b.contains(b[b.len() - 1]));
        assert(init.push(b.last()) =~= b);
    } else {
        assert(s.drop_last() =~= a);
        assert(s.last() == ':');
        assert(b =~= Seq::<char>::empty());
    }
}

proof fn lemma_rsplit_parts(s: Seq<char>)
    ensures
        match rsplit(s) {
            Some((a, b)) => s == a + seq![':'] + b && !b.contains(':'),
            None => !s.contains(':'),
        },
    decreases s.len(),
{
    if s.len() > 0 {
        let init = s.drop_last();
        lemma_rsplit_parts(init);
        assert(s =~= init.push(s.last()));
        if s.last() == ':' {
            assert(s =~= init + seq![':'] + Seq::<char>::empty());
        } else {
            match rsplit(init) {
                Some((a, b)) => {
                    assert(s =~= a + seq![':'] + b.push(s.last()));
                    assert forall|i: int| 0 <= i < b.len() + 1 implies b.push(s.last())[i] != ':' by {
                        if i < b.len() {
                            assert(b.contains(b[i]));
                        }
                    }
                },
                None => {
                    assert forall|i: int| 0 <= i < s.len() implies s[i] != ':' by {
                        if i < init.len() {
                            assert(init[i] == s[i]);
                            assert(init.contains(init[i]));
                        }
                    }
                },
            }
        }
    }
}

/// An id names a row of a month if it is the month, a colon and the number of the row.
pub proof fn ids_are_month_and_row(id: Seq<char>, stem: Seq<char>, t: Seq<char>, n: nat)
    ensures
        !t.contains(':') && id == stem + seq![':'] + t && text::parse_nat(t) == Some(n) && n
            <= usize::MAX ==> row_number(id, stem) == Some(n),
        row_number(id, stem) == Some(n) ==> n <= usize::MAX && id.len() > stem.len() && id.take(
            stem.len() as int,
        ) == stem && id[stem.len() as int] == ':' && text::parse_nat(id.skip(stem.len() as int + 1)) == Some(
            n,
        ),
{
    if !t.contains(':') {
        ids_are_cut_at_their_last_colon(stem, t);
    }
    lemma_rsplit_parts(id);
    if row_number(id, stem) is Some {
        let (a, b) = rsplit(id)->0;
        assert(id.take(stem.len() as int) =~= stem);
        assert(id.skip(stem.len() as int + 1) =~= b);
    }
}

/// An entry is locked by the first run that is not voided and holds its id.
pub proof fn the_first_run_that_holds_an_entry_locks_it(runs: Seq<ExportRun>, id: Seq<char>) -> (at:
    int)
    ensures
        match locking_run(runs, id) {
            Some(name) => 0 <= at < runs.len() && runs[at].run_id@ == name && !runs[at].voided
                && text::texts(runs[at].entry_ids@).contains(id),
            None => at == runs.len(),
        },
        forall|j: int|
            0 <= j < at ==> (#[trigger] runs[j]).voided || !text::texts(
                runs[j].entry_ids@,
            ).contains(id),
    decreases runs.len(),
{
    if runs.len() == 0 {
        0
    } else {
        let init = runs.drop_last();
        let before = the_first_run_that_holds_an_entry_locks_it(init, id);
        assert(forall|j: int| 0 <= j < init.len() ==> runs[j] == #[trigger] init[j]);
        if locking_run(init, id) is Some {
            assert(runs[before] == init[before]);
            assert forall|j: int| 0 <= j < before implies (#[trigger] runs[j]).voided
                || !text::texts(runs[j].entry_ids@).contains(id) by {
                assert(runs[j] == init[j]);
            }
            before
        } else {
            let last = runs.len() - 1;
            assert forall|j: int| 0 <= j < last implies (#[trigger] runs[j]).voided || !text::texts(
                runs[j].entry_ids@,
            ).contains(id) by {
                assert(runs[j] == init[j]);
            }
            if run_locks(runs.last(), id) {
                last
            } else {
                last + 1
            }
        }
    }
}

/// A run is found by its id: the first that has it, and none if no run has it.
pub proof fn runs_are_found_by_their_ids(runs: Seq<ExportRun>, id: Seq<char>)
    ensures
        match find_run(runs, id) {
            Some(i) => 0 <= i < runs.len() && runs[i].run_id@ == id && forall|j: int|
                0 <= j < i ==> (#[trigger] runs[j]).run_id@ != id,
            None => forall|j: int| 0 <= j < runs.len() ==> (#[trigger] runs[j]).run_id@ != id,
        },
    decreases runs.len(),
{
    if runs.len() > 0 {
        let init = runs.drop_last();
        runs_are_found_by_their_ids(init, id);
        assert(forall|j: int| 0 <= j < init.len() ==> runs[j] == #[trigger] init[j]);
        assert forall|j: int| 0 <= j < init.len() && init[j].run_id@ != id implies (
        #[trigger] runs[j]).run_id@ != id by {
            assert(runs[j] == init[j]);
        }
    }
}

/// A new run is numbered behind all runs of its day: the highest number is that of one
/// of them, or nought where there is none, and none is higher.
pub proof fn the_highest_number_is_the_greatest(runs: Seq<ExportRun>, prefix: Seq<char>)
    ensures
        forall|i: int|
            0 <= i < runs.len() ==> match run_number((#[trigger] runs[i]).run_id@, prefix) {
                Some(n) => n <= highest(runs, prefix),
                None => true,
            },
        highest(runs, prefix) == 0 || exists|i: int|
            0 <= i < runs.len() && run_number((#[trigger] runs[i]).run_id@, prefix) == Some(
                highest(runs, prefix),
            ),
    decreases runs.len(),
{
    if runs.len() > 0 {
        let init = runs.drop_last();
        the_highest_number_is_the_greatest(init, prefix);
        assert forall|i: int| 0 <= i < runs.len() implies match run_number(
            (#[trigger] runs[i]).run_id@,
            prefix,
        ) {
            Some(n) => n <= highest(runs, prefix),
            None => true,
        } by {
            if i < init.len() {
                assert(runs[i] == init[i]);
            }
        }
        let h = highest(init, prefix);
        if highest(runs, prefix) == h && h != 0 {
            let i = choose|i: int|
                0 <= i < init.len() && run_number((#[trigger] init[i]).run_id@, prefix) == Some(h);
            assert(runs[i] == init[i]);
        } else if h != highest(runs, prefix) {
            assert(run_number(runs[runs.len() - 1].run_id@, prefix) == Some(highest(runs, prefix)));
        }
    }
}

/// The number of a run is what stands behind the prefix of its day.
pub proof fn run_numbers_stand_behind_the_prefix(
    id: Seq<char>,
    prefix: Seq<char>,
    t: Seq<char>,
    n: nat,
)
    ensures
        run_number(prefix + t, prefix) == Some(n) <==> text::parse_nat(t) == Some(n) && n
            <= u32::MAX,
        run_number(id, prefix) is Some ==> id.len() > prefix.len() && id.take(prefix.len() as int)
            == prefix,
{
    let full = prefix + t;
    assert(full.take(prefix.len() as int) =~= prefix);
    assert(full.skip(prefix.len() as int) =~= t);
    if run_number(id, prefix) is Some {
        assert(id.skip(prefix.len() as int).len() > 0) by {
            text::numbers_are_read_digit_by_digit(Seq::empty(), '0');
            if id.skip(prefix.len() as int).len() == 0 {
                assert(id.skip(prefix.len() as int) =~= Seq::<char>::empty());
            }
        }
    }
}

/// The prefix of a day is `EXP-` and the day's eight digits.
pub proof fn runs_are_named_for_their_day(d: Date)
    requires
        d.valid(),
        0 <= d.year <= 9999,
    ensures
        run_prefix(d) == seq!['E', 'X', 'P', '-'] + d.text().take(4) + d.text().subrange(5, 7)
            + d.text().skip(8) + seq!['-'],
{
    reveal_strlit("EXP-");
    assert("EXP-"@ =~= seq!['E', 'X', 'P', '-']);
    dates::dates_are_written_in_ten_characters(d);
    let y = text::dec_padded(d.year as nat, 4);
    let m = text::dec_padded(d.month as nat, 2);
    let k = text::dec_padded(d.day as nat, 2);
    reveal_with_fuel(text::ten_to, 5);
    text::padded_fits(d.year as nat, 4);
    text::padded_fits(d.month as nat, 2);
    text::padded_fits(d.day as nat, 2);
    assert(d.text().take(4) =~= y);
    assert(d.text().subrange(5, 7) =~= m);
    assert(d.text().skip(8) =~= k);
}

/// When a row is removed, the ids in a run that name it go, those that name a later row
/// of the same month name the row before, and all others stay; their order is kept.
pub proof fn ids_follow_a_removed_row(ids: Seq<Seq<char>>, stem: Seq<char>, n: nat) -> (at: Seq<int>)
    ensures
        at.len() == shifted_ids(ids, stem, n).len(),
        forall|i: int|
            0 <= i < at.len() ==> 0 <= #[trigger] at[i] < ids.len() && shifted_ids(ids, stem, n)[i]
                == match row_number(ids[at[i]], stem) {
                Some(k) => if k > n {
                    stem + seq![':'] + text::dec((k - 1) as nat)
                } else {
                    ids[at[i]]
                },
                None => ids[at[i]],
            },
        forall|i: int, j: int| 0 <= i < j < at.len() ==> at[i] < at[j],
        forall|k: int|
            0 <= k < ids.len() ==> #[trigger] at.contains(k) == (row_number(ids[k], stem) != Some(
                n,
            )),
        ids_change(ids, stem, n) == exists|k: int|
            0 <= k < ids.len() && (row_number(#[trigger] ids[k], stem) matches Some(r) && r >= n),
{
    let keep = |id: Seq<char>| !names(id, stem, n);
    let at = selection::filter_places(ids, keep);
    if ids_change(ids, stem, n) {
        let k = choose|k: int|
            0 <= k < ids.len() && (moves(#[trigger] ids[k], stem, n) || names(ids[k], stem, n));
        assert(row_number(ids[k], stem) is Some);
    }
    if exists|k: int|
        0 <= k < ids.len() && (row_number(#[trigger] ids[k], stem) matches Some(r) && r >= n) {
        let k = choose|k: int|
            0 <= k < ids.len() && (row_number(#[trigger] ids[k], stem) matches Some(r) && r >= n);
        assert(moves(ids[k], stem, n) || names(ids[k], stem, n));
    }
    at
}

} // verus!
