//! Export runs: which entries go in, the sums by client and engagement, and the
//! files that a run leaves.

use crate::csv;
use crate::csv_writer;
use crate::dates::Date;
use crate::edits;
use crate::edits::Refusal;
use crate::entries;
use crate::entries::LocatedRow;
use crate::entries::RowView;
use crate::exports;
use crate::exports::ExportManifest;
use crate::exports::ExportRun;
use crate::exports::ExportTotals;
use crate::exports::RollupLine;
use crate::ranges;
use crate::ranges::Window;
use crate::sorting;
use crate::text;
use vstd::prelude::*;

verus! {

// ---- sums -----------------------------------------------------------------

/// One line of the sums.
#[verifier::ext_equal]
pub struct LineView {
    pub client: Seq<char>,
    pub engagement: Seq<char>,
    pub entries: nat,
    pub minutes: int,
    pub billable_minutes: int,
}

impl View for RollupLine {
    type V = LineView;

    open spec fn view(&self) -> LineView {
        LineView {
            client: self.client@,
            engagement: self.engagement@,
            entries: self.entries as nat,
            minutes: self.minutes as int,
            billable_minutes: self.billable_minutes as int,
        }
    }
}

pub open spec fn line_views(lines: Seq<RollupLine>) -> Seq<LineView> {
    Seq::new(lines.len(), |i: int| lines[i]@)
}

/// The row counts for this client and engagement.
pub open spec fn counts_for(r: RowView, client: Seq<char>, engagement: Seq<char>) -> bool {
    r.client == client && r.engagement == engagement
}

/// The sums for one client and engagement.
pub open spec fn line_for(rows: Seq<RowView>, client: Seq<char>, engagement: Seq<char>) -> LineView
    decreases rows.len(),
{
    if rows.len() == 0 {
        LineView { client, engagement, entries: 0, minutes: 0, billable_minutes: 0 }
    } else {
        let l = line_for(rows.drop_last(), client, engagement);
        let r = rows.last();
        if counts_for(r, client, engagement) {
            LineView {
                entries: l.entries + 1,
                minutes: l.minutes + r.minutes,
                billable_minutes: if r.billable {
                    l.billable_minutes + r.minutes
                } else {
                    l.billable_minutes
                },
                ..l
            }
        } else {
            l
        }
    }
}

pub open spec fn total_minutes(rows: Seq<RowView>) -> int
    decreases rows.len(),
{
    if rows.len() == 0 {
        0
    } else {
        total_minutes(rows.drop_last()) + rows.last().minutes
    }
}

pub open spec fn total_billable(rows: Seq<RowView>) -> int
    decreases rows.len(),
{
    if rows.len() == 0 {
        0
    } else {
        total_billable(rows.drop_last()) + if rows.last().billable {
            rows.last().minutes
        } else {
            0
        }
    }
}

/// By client, then by engagement.
pub open spec fn key_precedes(a: LineView, b: LineView) -> bool {
    sorting::precedes(a.client, b.client) || (a.client == b.client && sorting::precedes(
        a.engagement,
        b.engagement,
    ))
}

pub open spec fn same_key(a: LineView, b: LineView) -> bool {
    a.client == b.client && a.engagement == b.engagement
}

/// Some line is for the row's client and engagement.
pub open spec fn has_line(lines: Seq<LineView>, r: RowView) -> bool {
    exists|i: int|
        0 <= i < lines.len() && counts_for(r, (#[trigger] lines[i]).client, lines[i].engagement)
}

/// The sums of some rows: one line for each client and engagement, in order.
pub open spec fn is_rollup(rows: Seq<RowView>, lines: Seq<LineView>) -> bool {
    &&& forall|i: int, j: int|
        0 <= i < j < lines.len() ==> key_precedes(#[trigger] lines[i], #[trigger] lines[j])
    &&& forall|i: int|
        0 <= i < lines.len() ==> lines[i].entries > 0 && #[trigger] lines[i] == line_for(
            rows,
            lines[i].client,
            lines[i].engagement,
        )
    &&& forall|k: int|
        0 <= k < rows.len() ==> has_line(lines, #[trigger] rows[k])
}

/// The clients of some rows, each once and in order.
pub open spec fn is_client_list(rows: Seq<RowView>, list: Seq<Seq<char>>) -> bool {
    &&& sorting::rising(list)
    &&& list.to_set() == rows.map_values(|r: RowView| r.client).to_set()
}

/// The sums over all lines.
pub open spec fn is_totals(
    rows: Seq<RowView>,
    t: ExportTotals,
    clients: nat,
    engagements: nat,
) -> bool {
    &&& t.entries == rows.len()
    &&& t.minutes == total_minutes(rows)
    &&& t.billable_minutes == total_billable(rows)
    &&& t.clients == clients
    &&& t.engagements == engagements
}

spec fn fits(rows: Seq<RowView>) -> bool {
    forall|i: int|
        0 <= i < rows.len() ==> -0x8000_0000_0000_0000 <= (#[trigger] rows[i]).minutes
            <= 0x7fff_ffff_ffff_ffff
}

proof fn lemma_bounds(rows: Seq<RowView>, client: Seq<char>, engagement: Seq<char>)
    requires
        fits(rows),
    ensures
        ({
            let b = rows.len() * 0x8000_0000_0000_0000;
            let l = line_for(rows, client, engagement);
            &&& l.entries <= rows.len()
            &&& l.client == client
            &&& l.engagement == engagement
            &&& -b <= l.minutes <= b
            &&& -b <= l.billable_minutes <= b
            &&& -b <= total_minutes(rows) <= b
            &&& -b <= total_billable(rows) <= b
        }),
    decreases rows.len(),
{
    if rows.len() > 0 {
        let init = rows.drop_last();
        assert forall|i: int| 0 <= i < init.len() implies -0x8000_0000_0000_0000 <= (
        #[trigger] init[i]).minutes <= 0x7fff_ffff_ffff_ffff by {
            assert(init[i] == rows[i]);
        }
        lemma_bounds(init, client, engagement);
        assert(rows[rows.len() - 1] == rows.last());
    }
}

fn key_before(c1: &str, e1: &str, c2: &str, e2: &str) -> (r: bool)
    ensures
        r == (sorting::precedes(c1@, c2@) || (c1@ == c2@ && sorting::precedes(e1@, e2@))),
{
    sorting::text_precedes(c1, c2) || (text::same_text(c1, c2) && sorting::text_precedes(e1, e2))
}

proof fn lemma_keys(a: LineView, b: LineView, c: LineView)
    ensures
        !(key_precedes(a, b) && key_precedes(b, a)),
        !key_precedes(a, b) && !key_precedes(b, a) ==> same_key(a, b),
        key_precedes(a, b) ==> !same_key(a, b),
        key_precedes(a, b) && key_precedes(b, c) ==> key_precedes(a, c),
{
    sorting::texts_are_ordered(a.client, b.client);
    sorting::texts_are_ordered(a.engagement, b.engagement);
    if sorting::precedes(a.client, b.client) && sorting::precedes(b.client, c.client) {
        sorting::text_order_is_transitive(a.client, b.client, c.client);
    }
    if sorting::precedes(a.engagement, b.engagement) && sorting::precedes(
        b.engagement,
        c.engagement,
    ) {
        sorting::text_order_is_transitive(a.engagement, b.engagement, c.engagement);
    }
}

/// Adds a row to the sums.
fn add_row(lines: &mut Vec<RollupLine>, row: &LocatedRow, Ghost(rows): Ghost<Seq<RowView>>)
    requires
        is_rollup(rows, line_views(old(lines)@)),
        fits(rows.push(row@)),
        rows.len() < usize::MAX,
    ensures
        is_rollup(rows.push(row@), line_views(final(lines)@)),
{
    let ghost views = line_views(lines@);
    let ghost r = row@;
    let ghost now = rows.push(r);
    let ghost probe = LineView {
        client: r.client,
        engagement: r.engagement,
        entries: 0,
        minutes: 0,
        billable_minutes: 0,
    };
    proof {
        assert(now.drop_last() =~= rows);
        assert(now.last() == r);
    }
    let mut at: usize = 0;
    while at < lines.len() && key_before(
        lines[at].client.as_str(),
        lines[at].engagement.as_str(),
        row.client.as_str(),
        row.engagement.as_str(),
    )
        invariant
            at <= lines@.len(),
            views == line_views(lines@),
            r == row@,
            probe.client == r.client && probe.engagement == r.engagement,
            forall|k: int| 0 <= k < at ==> key_precedes(#[trigger] views[k], probe),
        decreases lines@.len() - at,
    {
        assert(views[at as int] == lines@[at as int]@);
        at += 1;
    }
    let there = at < lines.len() && text::same_text(
        lines[at].client.as_str(),
        row.client.as_str(),
    ) && text::same_text(lines[at].engagement.as_str(), row.engagement.as_str());
    proof {
        lemma_bounds(now, r.client, r.engagement);
        assert(fits(rows)) by {
            assert forall|i: int| 0 <= i < rows.len() implies -0x8000_0000_0000_0000 <= (
            #[trigger] rows[i]).minutes <= 0x7fff_ffff_ffff_ffff by {
                assert(now[i] == rows[i]);
            }
        }
        lemma_bounds(rows, r.client, r.engagement);
    }
    if there {
        let ghost old_line = views[at as int];
        assert(old_line == lines@[at as int]@);
        assert(old_line == line_for(rows, r.client, r.engagement));
        lines[at].entries = lines[at].entries + 1;
        lines[at].minutes = lines[at].minutes + row.minutes as i128;
        if row.billable {
            lines[at].billable_minutes = lines[at].billable_minutes + row.minutes as i128;
        }
        let ghost after = line_views(lines@);
        proof {
            assert(after =~= views.update(at as int, line_for(now, r.client, r.engagement)));
            assert forall|i: int, j: int| 0 <= i < j < after.len() implies key_precedes(
                #[trigger] after[i],
                #[trigger] after[j],
            ) by {
                assert(key_precedes(views[i], views[j]));
            }
            assert forall|i: int| 0 <= i < after.len() implies after[i].entries > 0
                && #[trigger] after[i] == line_for(now, after[i].client, after[i].engagement) by {
                if i != at {
                    lemma_keys(views[i], views[at as int], probe);
                    lemma_keys(views[at as int], views[i], probe);
                    if i < at {
                        assert(key_precedes(views[i], views[at as int]));
                    } else {
                        assert(key_precedes(views[at as int], views[i]));
                    }
                    assert(after[i] == views[i]);
                    assert(views[i] == line_for(rows, views[i].client, views[i].engagement));
                }
            }
            assert forall|k: int| 0 <= k < now.len() implies has_line(after, #[trigger] now[k]) by {
                if k < rows.len() {
                    assert(now[k] == rows[k]);
                    let i = choose|i: int|
                        0 <= i < views.len() && counts_for(
                            rows[k],
                            (#[trigger] views[i]).client,
                            views[i].engagement,
                        );
                    assert(counts_for(now[k], after[i].client, after[i].engagement));
                } else {
                    assert(counts_for(now[k], after[at as int].client, after[at as int].engagement));
                }
            }
        }
    } else {
        proof {
            // no line has this key yet
            assert forall|i: int| 0 <= i < views.len() implies !same_key(#[trigger] views[i], probe)
                && (i >= at ==> key_precedes(probe, views[i])) by {
                lemma_keys(views[i], probe, probe);
                if i >= at {
                    lemma_keys(probe, views[at as int], views[i]);
                    lemma_keys(views[at as int], probe, probe);
                    lemma_keys(probe, views[i], probe);
                    if i > at {
                        assert(key_precedes(views[at as int], views[i]));
                    }
                    assert(views[at as int] == lines@[at as int]@);
                }
            }
            assert(line_for(rows, r.client, r.engagement).entries == 0) by {
                assert forall|k: int| 0 <= k < rows.len() implies !counts_for(
                    #[trigger] rows[k],
                    r.client,
                    r.engagement,
                ) by {
                    let i = choose|i: int|
                        0 <= i < views.len() && counts_for(
                            rows[k],
                            (#[trigger] views[i]).client,
                            views[i].engagement,
                        );
                    assert(!same_key(views[i], probe));
                }
                lemma_none(rows, r.client, r.engagement);
            }
            lemma_none_sums(rows, r.client, r.engagement);
        }
        let line = RollupLine {
            client: row.client.clone(),
            engagement: row.engagement.clone(),
            entries: 1,
            minutes: row.minutes as i128,
            billable_minutes: if row.billable {
                row.minutes as i128
            } else {
                0
            },
        };
        let ghost lv = line@;
        assert(lv =~= line_for(now, r.client, r.engagement));
        lines.insert(at, line);
        let ghost after = line_views(lines@);
        proof {
            assert(after =~= views.insert(at as int, lv));
            assert forall|i: int, j: int| 0 <= i < j < after.len() implies key_precedes(
                #[trigger] after[i],
                #[trigger] after[j],
            ) by {
                if i < at {
                    assert(after[i] == views[i]);
                    if j > at {
                        assert(after[j] == views[j - 1]);
                    }
                } else if i == at {
                    assert(after[j] == views[j - 1]);
                } else {
                    assert(after[i] == views[i - 1] && after[j] == views[j - 1]);
                }
            }
            assert forall|i: int| 0 <= i < after.len() implies after[i].entries > 0
                && #[trigger] after[i] == line_for(now, after[i].client, after[i].engagement) by {
                if i != at {
                    let o = if i < at { i } else { i - 1 };
                    assert(after[i] == views[o]);
                    assert(!same_key(views[o], probe));
                    assert(views[o] == line_for(rows, views[o].client, views[o].engagement));
                }
            }
            assert forall|k: int| 0 <= k < now.len() implies has_line(after, #[trigger] now[k]) by {
                if k < rows.len() {
                    assert(now[k] == rows[k]);
                    let o = choose|o: int|
                        0 <= o < views.len() && counts_for(
                            rows[k],
                            (#[trigger] views[o]).client,
                            views[o].engagement,
                        );
                    let i = if o < at { o } else { o + 1 };
                    assert(after[i] == views[o]);
                    assert(counts_for(now[k], after[i].client, after[i].engagement));
                } else {
                    assert(counts_for(now[k], after[at as int].client, after[at as int].engagement));
                }
            }
        }
    }
}

proof fn lemma_none(rows: Seq<RowView>, client: Seq<char>, engagement: Seq<char>)
    requires
        forall|k: int|
            0 <= k < rows.len() ==> !counts_for(#[trigger] rows[k], client, engagement),
    ensures
        line_for(rows, client, engagement).entries == 0,
    decreases rows.len(),
{
    if rows.len() > 0 {
        assert(!counts_for(rows[rows.len() - 1], client, engagement));
        assert forall|k: int| 0 <= k < rows.drop_last().len() implies !counts_for(
            #[trigger] rows.drop_last()[k],
            client,
            engagement,
        ) by {
            assert(!counts_for(rows[k], client, engagement));
        }
        lemma_none(rows.drop_last(), client, engagement);
    }
}

proof fn lemma_none_sums(rows: Seq<RowView>, client: Seq<char>, engagement: Seq<char>)
    requires
        line_for(rows, client, engagement).entries == 0,
    ensures
        line_for(rows, client, engagement) == (LineView {
            client,
            engagement,
            entries: 0,
            minutes: 0,
            billable_minutes: 0,
        }),
    decreases rows.len(),
{
    if rows.len() > 0 {
        lemma_none_sums(rows.drop_last(), client, engagement);
    }
}

/// The clients of some rows, each once and in order.
pub fn clients_of(rows: &Vec<LocatedRow>) -> (r: Vec<String>)
    ensures
        is_client_list(entries::row_views(rows@), text::texts(r@)),
{
    let ghost all = entries::row_views(rows@);
    let ghost client = |r: RowView| r.client;
    let mut out: Vec<String> = Vec::new();
    let mut i: usize = 0;
    proof {
        assert(text::texts(out@).to_set() =~= all.take(0).map_values(client).to_set());
    }
    while i < rows.len()
        invariant
            i <= rows@.len(),
            all == entries::row_views(rows@),
            client == (|r: RowView| r.client),
            sorting::rising(text::texts(out@)),
            text::texts(out@).to_set() == all.take(i as int).map_values(client).to_set(),
        decreases rows@.len() - i,
    {
        sorting::insert_rising(&mut out, rows[i].client.as_str());
        proof {
            let a = all.take(i as int).map_values(client);
            let b = all.take(i + 1).map_values(client);
            let x = rows@[i as int].client@;
            assert(b =~= a.push(x));
            assert forall|y: Seq<char>| b.contains(y) == (a.contains(y) || y == x) by {
                if a.contains(y) {
                    let k = choose|k: int| 0 <= k < a.len() && a[k] == y;
                    assert(b[k] == y);
                }
                assert(b[a.len() as int] == x);
                if b.contains(y) {
                    let k = choose|k: int| 0 <= k < b.len() && b[k] == y;
                    if k < a.len() {
                        assert(a[k] == y);
                    }
                }
            }
            assert(b.to_set() =~= a.to_set().insert(x));
        }
        i += 1;
    }
    assert(all.take(all.len() as int) =~= all);
    out
}

/// The sums of some rows by client and engagement, and over all.
pub fn build_rollup(rows: &Vec<LocatedRow>) -> (r: (Vec<RollupLine>, ExportTotals))
    ensures
        is_rollup(entries::row_views(rows@), line_views(r.0@)),
        exists|list: Seq<Seq<char>>| #[trigger]
            is_client_list(entries::row_views(rows@), list) && is_totals(
                entries::row_views(rows@),
                r.1,
                list.len(),
                r.0@.len(),
            ),
{
    let ghost all = entries::row_views(rows@);
    let mut lines: Vec<RollupLine> = Vec::new();
    let mut minutes: i128 = 0;
    let mut billable: i128 = 0;
    let mut i: usize = 0;
    assert(fits(all));
    while i < rows.len()
        invariant
            i <= rows@.len(),
            all == entries::row_views(rows@),
            fits(all),
            is_rollup(all.take(i as int), line_views(lines@)),
            minutes == total_minutes(all.take(i as int)),
            billable == total_billable(all.take(i as int)),
        decreases rows@.len() - i,
    {
        let ghost sofar = all.take(i as int);
        let ghost next = all.take(i + 1);
        proof {
            assert(next =~= sofar.push(rows@[i as int]@));
            assert(next.drop_last() =~= sofar);
            assert forall|k: int| 0 <= k < next.len() implies -0x8000_0000_0000_0000 <= (
            #[trigger] next[k]).minutes <= 0x7fff_ffff_ffff_ffff by {
                assert(next[k] == all[k]);
            }
            lemma_bounds(next, Seq::empty(), Seq::empty());
        }
        add_row(&mut lines, &rows[i], Ghost(sofar));
        minutes = minutes + rows[i].minutes as i128;
        if rows[i].billable {
            billable = billable + rows[i].minutes as i128;
        }
        i += 1;
    }
    assert(all.take(all.len() as int) =~= all);
    let clients = clients_of(rows);
    let totals = ExportTotals {
        entries: rows.len(),
        minutes,
        billable_minutes: billable,
        clients: clients.len(),
        engagements: lines.len(),
    };
    assert(is_client_list(all, text::texts(clients@)));
    (lines, totals)
}

// ---- a run ----------------------------------------------------------------

/// The clients that a request names: trimmed, without blanks.
pub open spec fn named_clients(list: Seq<Seq<char>>) -> Seq<Seq<char>>
    decreases list.len(),
{
    if list.len() == 0 {
        Seq::empty()
    } else {
        let t = text::trim(list.last());
        if t.len() == 0 {
            named_clients(list.drop_last())
        } else {
            named_clients(list.drop_last()).push(t)
        }
    }
}

/// The clients that a request names; none for all of them.
pub fn client_filter(clients: &Option<Vec<String>>) -> (r: Vec<String>)
    ensures
        text::texts(r@) == match *clients {
            Some(v) => named_clients(text::texts(v@)),
            None => Seq::<Seq<char>>::empty(),
        },
{
    let mut out: Vec<String> = Vec::new();
    assert(text::texts(out@) =~= Seq::<Seq<char>>::empty());
    match clients {
        None => out,
        Some(v) => {
            let ghost all = text::texts(v@);
            let mut i: usize = 0;
            assert(all.take(0) =~= Seq::empty());
            while i < v.len()
                invariant
                    i <= v@.len(),
                    all == text::texts(v@),
                    text::texts(out@) == named_clients(all.take(i as int)),
                decreases v@.len() - i,
            {
                proof {
                    assert(all.take(i + 1).drop_last() =~= all.take(i as int));
                    assert(all.take(i + 1).last() == v@[i as int]@);
                }
                let ghost outs = text::texts(out@);
                let t = text::trim_text(v[i].as_str());
                if text::chars_of(t.as_str()).len() > 0 {
                    let ghost x = t@;
                    out.push(t);
                    assert(text::texts(out@) =~= outs.push(x));
                }
                i += 1;
            }
            assert(all.take(all.len() as int) =~= all);
            out
        },
    }
}

/// The row goes into a run: no run locks it, and its client is asked for.
pub open spec fn goes_in(r: RowView, runs: Seq<ExportRun>, filter: Seq<Seq<char>>) -> bool {
    !exports::locks(runs, exports::entry_id(r.stem, r.n)) && (filter.len() == 0 || filter.contains(
        r.client,
    ))
}

/// The rows that go into a run.
pub open spec fn included(rows: Seq<RowView>, runs: Seq<ExportRun>, filter: Seq<Seq<char>>) -> Seq<
    RowView,
> {
    rows.filter(|r: RowView| goes_in(r, runs, filter))
}

pub open spec fn ids_of(rows: Seq<RowView>) -> Seq<Seq<char>> {
    Seq::new(rows.len(), |i: int| exports::entry_id(rows[i].stem, rows[i].n))
}

/// A run over some rows.
pub open spec fn is_run(
    run: ExportRun,
    rows: Seq<RowView>,
    runs: Seq<ExportRun>,
    range: Seq<char>,
    today: Date,
    created_at: Seq<char>,
) -> bool {
    &&& run.run_id@ == exports::run_prefix(today) + text::dec_padded(
        exports::highest(runs, exports::run_prefix(today)) + 1,
        4,
    )
    &&& run.created_at@ == created_at
    &&& run.range@ == range
    &&& exists|w: Window|
        ranges::is_window(range, today, w) && run.range_label@ == #[trigger] ranges::window_label(w)
    &&& text::texts(run.entry_ids@) == ids_of(rows)
    &&& is_rollup(rows, line_views(run.rollup@))
    &&& is_client_list(rows, text::texts(run.clients@))
    &&& is_totals(rows, run.totals, run.clients@.len(), run.rollup@.len())
    &&& !run.voided
    &&& run.voided_at is None
}

pub open spec fn nothing_to_export(filtered: bool) -> Seq<char> {
    if filtered {
        "nothing to export \u{2014} no un-exported entries for the selected client(s) in that range"@
    } else {
        "nothing to export \u{2014} no un-exported entries in that range"@
    }
}

fn include_rows(rows: Vec<LocatedRow>, manifest: &ExportManifest, filter: &Vec<String>) -> (r: Vec<
    LocatedRow,
>)
    ensures
        entries::row_views(r@) == included(
            entries::row_views(rows@),
            manifest.runs@,
            text::texts(filter@),
        ),
{
    let locked = manifest.locked_ids();
    let ghost all = entries::row_views(rows@);
    let ghost names = text::texts(filter@);
    let ghost keep = |r: RowView| goes_in(r, manifest.runs@, names);
    let mut rest = rows;
    let mut out: Vec<LocatedRow> = Vec::new();
    let n: usize = rest.len();
    let mut j: usize = 0;
    proof {
        reveal(Seq::filter);
        assert(all.take(0).filter(keep) =~= Seq::empty());
        assert(entries::row_views(out@) =~= all.take(0).filter(keep));
        assert(entries::row_views(rest@) =~= all.skip(0));
    }
    while j < n
        invariant
            j <= n,
            n == all.len(),
            rest@.len() == n - j,
            entries::row_views(rest@) == all.skip(j as int),
            names == text::texts(filter@),
            keep == (|r: RowView| goes_in(r, manifest.runs@, names)),
            forall|id: Seq<char>| #[trigger]
                text::texts(locked.ids@).contains(id) == exports::locks(manifest.runs@, id),
            entries::row_views(out@) == all.take(j as int).filter(keep),
        decreases n - j,
    {
        let ghost before = entries::row_views(rest@);
        proof {
            assert(all.skip(j as int)[0] == all[j as int]);
            assert(before[0] == rest@[0]@);
        }
        let row = rest.remove(0);
        let ghost x = row@;
        proof {
            reveal(Seq::filter);
            assert forall|k: int| 0 <= k < rest@.len() implies entries::row_views(rest@)[k]
                == #[trigger] all.skip(j + 1)[k] by {
                assert(entries::row_views(rest@)[k] == before[k + 1]);
            }
            assert(entries::row_views(rest@) =~= all.skip(j + 1));
            assert(all.take(j + 1).drop_last() =~= all.take(j as int));
            assert(all.take(j + 1).last() == x);
        }
        let ghost outs = entries::row_views(out@);
        let id = row.id();
        if !locked.contains(id.as_str()) && (filter.len() == 0 || exports::has_text(
            filter,
            row.client.as_str(),
        )) {
            out.push(row);
            assert(entries::row_views(out@) =~= outs.push(x));
        }
        j += 1;
    }
    assert(all.take(n as int) =~= all);
    out
}

fn row_ids(rows: &Vec<LocatedRow>) -> (r: Vec<String>)
    ensures
        text::texts(r@) == ids_of(entries::row_views(rows@)),
{
    let mut out: Vec<String> = Vec::new();
    let mut i: usize = 0;
    let ghost want = ids_of(entries::row_views(rows@));
    while i < rows.len()
        invariant
            i <= rows@.len(),
            want == ids_of(entries::row_views(rows@)),
            out@.len() == i,
            forall|k: int| 0 <= k < i ==> out@[k]@ == #[trigger] want[k],
        decreases rows@.len() - i,
    {
        out.push(rows[i].id());
        i += 1;
    }
    assert(text::texts(out@) =~= want);
    out
}

/// A new run over the entries of a range that no run locks, for the clients asked
/// for. Refused where nothing is left to export.
pub fn plan_export(
    rows: Vec<LocatedRow>,
    manifest: &ExportManifest,
    filter: &Vec<String>,
    range: &str,
    today: Date,
    created_at: &str,
) -> (r: Result<ExportRun, Refusal>)
    requires
        today.valid(),
        today.year > -262143,
    ensures
        ({
            let inc = included(entries::row_views(rows@), manifest.runs@, text::texts(filter@));
            if inc.len() == 0 {
                r matches Err(f) && edits::refuses(f, 422, nothing_to_export(filter@.len() > 0))
            } else {
                r matches Ok(run) && is_run(
                    run,
                    inc,
                    manifest.runs@,
                    range@,
                    today,
                    created_at@,
                )
            }
        }),
        r matches Ok(run) ==> forall|i: int|
            0 <= i < rows@.len() && !(exists|a: int, b: int|
                0 <= a < manifest.runs@.len() && !manifest.runs@[a].voided && 0 <= b
                    < manifest.runs@[a].entry_ids@.len() && (
                #[trigger] manifest.runs@[a].entry_ids@[b])@ == rows@[i].stem@ + seq![':']
                    + text::dec(rows@[i].n as nat)) && (filter@.len() == 0 || exists|k: int|
                0 <= k < filter@.len() && (#[trigger] filter@[k])@ == rows@[i].client@)
                ==> text::texts(run.entry_ids@).contains(
                (#[trigger] rows@[i]).stem@ + seq![':'] + text::dec(rows@[i].n as nat),
            ),
        r matches Ok(run) ==> forall|id: Seq<char>| #[trigger]
            text::texts(run.entry_ids@).contains(id) ==> exists|i: int|
                #![trigger rows@[i]]
                0 <= i < rows@.len() && id == rows@[i].stem@ + seq![':'] + text::dec(rows@[i].n as nat) && !(exists|a: int, b: int|
                    0 <= a < manifest.runs@.len() && !manifest.runs@[a].voided && 0 <= b
                        < manifest.runs@[a].entry_ids@.len() && (
                    #[trigger] manifest.runs@[a].entry_ids@[b])@ == rows@[i].stem@ + seq![':']
                        + text::dec(rows@[i].n as nat)) && (filter@.len() == 0 || exists|k: int|
                    0 <= k < filter@.len() && (#[trigger] filter@[k])@ == rows@[i].client@),
        r is Err ==> forall|i: int|
            #![trigger rows@[i]]
            0 <= i < rows@.len() ==> (exists|a: int, b: int|
                0 <= a < manifest.runs@.len() && !manifest.runs@[a].voided && 0 <= b
                    < manifest.runs@[a].entry_ids@.len() && (
                #[trigger] manifest.runs@[a].entry_ids@[b])@ == rows@[i].stem@ + seq![':']
                    + text::dec(rows@[i].n as nat)) || (filter@.len() > 0 && !(exists|k: int|
                0 <= k < filter@.len() && (#[trigger] filter@[k])@ == rows@[i].client@)),
{
    let ghost listed = rows@;
    proof {
        lemma_taken(listed, manifest.runs@, filter@);
    }
    let inc = include_rows(rows, manifest, filter);
    if inc.len() == 0 {
        let message = if filter.len() == 0 {
            text::copy("nothing to export \u{2014} no un-exported entries in that range")
        } else {
            text::copy(
                "nothing to export \u{2014} no un-exported entries for the selected client(s) in that range",
            )
        };
        return Err(Refusal { status: 422, message });
    }
    let (rollup, totals) = build_rollup(&inc);
    let clients = clients_of(&inc);
    proof {
        let all = entries::row_views(inc@);
        let list = choose|list: Seq<Seq<char>>| #[trigger]
            is_client_list(all, list) && is_totals(all, totals, list.len(), rollup@.len());
        sorting::rising_lists_are_sets(list);
        sorting::rising_lists_are_sets(text::texts(clients@));
    }
    Ok(
        ExportRun {
            run_id: manifest.next_run_id(&today),
            created_at: text::copy(created_at),
            range: text::copy(range),
            range_label: ranges::range_label(range, today),
            entry_ids: row_ids(&inc),
            rollup,
            totals,
            clients,
            voided: false,
            voided_at: None,
        },
    )
}

// ---- files ----------------------------------------------------------------

pub open spec fn export_line(l: LineView) -> Seq<char> {
    let comma = seq![','];
    csv::escaped(l.client) + comma + csv::escaped(l.engagement) + comma + text::dec(l.entries)
        + comma + csv_writer::signed_hours_text(l.minutes) + comma + csv_writer::signed_hours_text(
        l.billable_minutes,
    ) + csv_writer::line_end()
}

pub open spec fn export_lines(lines: Seq<LineView>) -> Seq<char>
    decreases lines.len(),
{
    if lines.len() == 0 {
        Seq::empty()
    } else {
        export_lines(lines.drop_last()) + export_line(lines.last())
    }
}

/// The content of a run's CSV file: a line for each client and engagement, and the
/// sums.
pub open spec fn export_csv(lines: Seq<LineView>, t: ExportTotals) -> Seq<char> {
    let comma = seq![','];
    seq![csv::BOM] + "Client,Engagement,Entries,Hours,Billable hours\r\n"@ + export_lines(lines)
        + "TOTAL,,"@ + text::dec(t.entries as nat) + comma + csv_writer::signed_hours_text(
        t.minutes as int,
    ) + comma + csv_writer::signed_hours_text(t.billable_minutes as int) + csv_writer::line_end()
}

/// The sums of a run are ones that it can have: none is the least number there is.
pub open spec fn sums_in_range(run: ExportRun) -> bool {
    &&& run.totals.minutes > i128::MIN
    &&& run.totals.billable_minutes > i128::MIN
    &&& forall|i: int|
        0 <= i < run.rollup@.len() ==> (#[trigger] run.rollup@[i]).minutes > i128::MIN
            && run.rollup@[i].billable_minutes > i128::MIN
}

/// The content of a run's CSV file.
pub fn export_csv_text(run: &ExportRun) -> (r: String)
    requires
        sums_in_range(*run),
    ensures
        r@ == export_csv(line_views(run.rollup@), run.totals),
{
    let mut out = String::new();
    out.push(csv::BOM);
    text::push_text(&mut out, "Client,Engagement,Entries,Hours,Billable hours\r\n");
    let ghost head = out@;
    let ghost all = line_views(run.rollup@);
    let mut i: usize = 0;
    proof {
        assert(all.take(0) =~= Seq::empty());
        assert(out@ =~= head + export_lines(all.take(0)));
    }
    while i < run.rollup.len()
        invariant
            i <= run.rollup@.len(),
            sums_in_range(*run),
            all == line_views(run.rollup@),
            out@ == head + export_lines(all.take(i as int)),
        decreases run.rollup@.len() - i,
    {
        let line = &run.rollup[i];
        let ghost before = out@;
        proof {
            assert(run.rollup@[i as int].minutes > i128::MIN);
            assert(all[i as int] == line@);
            assert(all.take(i + 1).drop_last() =~= all.take(i as int));
        }
        let c = csv::csv_escape(line.client.as_str());
        text::push_text(&mut out, c.as_str());
        out.push(',');
        let e = csv::csv_escape(line.engagement.as_str());
        text::push_text(&mut out, e.as_str());
        out.push(',');
        text::push_dec(&mut out, line.entries as u128);
        out.push(',');
        let h = csv_writer::signed_hours(line.minutes);
        text::push_text(&mut out, h.as_str());
        out.push(',');
        let b = csv_writer::signed_hours(line.billable_minutes);
        text::push_text(&mut out, b.as_str());
        out.push('\r');
        out.push('\n');
        assert(out@ =~= before + export_line(line@));
        assert(out@ =~= head + export_lines(all.take(i + 1)));
        i += 1;
    }
    assert(all.take(all.len() as int) =~= all);
    text::push_text(&mut out, "TOTAL,,");
    text::push_dec(&mut out, run.totals.entries as u128);
    out.push(',');
    let h = csv_writer::signed_hours(run.totals.minutes);
    text::push_text(&mut out, h.as_str());
    out.push(',');
    let b = csv_writer::signed_hours(run.totals.billable_minutes);
    text::push_text(&mut out, b.as_str());
    out.push('\r');
    out.push('\n');
    assert(out@ =~= export_csv(all, run.totals));
    out
}

/// The text in at most `n` characters; what is cut off leaves an ellipsis.
pub open spec fn cut(s: Seq<char>, n: nat) -> Seq<char> {
    if s.len() <= n {
        s
    } else {
        s.take(
            if n == 0 {
                0
            } else {
                n - 1
            },
        ).push('\u{2026}')
    }
}

/// The text in at most `n` characters.
pub fn trunc(s: &str, n: usize) -> (r: String)
    ensures
        r@ == cut(s@, n as nat),
{
    let v = text::chars_of(s);
    if v.len() <= n {
        text::copy(s)
    } else {
        let k: usize = if n == 0 {
            0
        } else {
            n - 1
        };
        let head = text::piece(v.as_slice(), 0, k);
        assert(head@ =~= s@.take(k as int));
        let mut out = text::text_of(head.as_slice());
        out.push('\u{2026}');
        out
    }
}

/// A character that an export's file name may hold.
pub open spec fn name_char(c: char) -> bool {
    text::is_digit(c) || text::is_upper(c) || text::is_lower(c) || c == '.' || c == '_' || c == '-'
}

/// The name of an export's file: not empty, not long, no way out of the folder.
pub open spec fn safe_name(s: Seq<char>) -> bool {
    &&& 0 < s.len() <= 128
    &&& forall|i: int| 0 <= i < s.len() ==> name_char(#[trigger] s[i])
    &&& !text::contains_text(s, ".."@)
}

/// The name of an export's file is one that is served.
pub fn export_name_ok(name: &str) -> (r: bool)
    ensures
        r == safe_name(name@),
{
    let v = text::chars_of(name);
    if v.len() == 0 || v.len() > 128 {
        return false;
    }
    let mut i: usize = 0;
    while i < v.len()
        invariant
            i <= v@.len(),
            v@ == name@,
            forall|k: int| 0 <= k < i ==> name_char(#[trigger] v@[k]),
        decreases v@.len() - i,
    {
        let c = v[i];
        let ok = text::digit(c) || ('A' <= c && c <= 'Z') || ('a' <= c && c <= 'z') || c == '.' || c
            == '_' || c == '-';
        if !ok {
            assert(!name_char(v@[i as int]));
            return false;
        }
        i += 1;
    }
    !text::text_contains(name, "..")
}

/// What an export's file is.
pub fn content_type(name: &str) -> (r: &'static str)
    ensures
        r@ == if text::has_suffix(name@, ".pdf"@) {
            "application/pdf"@
        } else if text::has_suffix(name@, ".csv"@) {
            "text/csv; charset=utf-8"@
        } else {
            "application/octet-stream"@
        },
{
    if text::text_ends_with(name, ".pdf") {
        "application/pdf"
    } else if text::text_ends_with(name, ".csv") {
        "text/csv; charset=utf-8"
    } else {
        "application/octet-stream"
    }
}

// ---- the list of runs -----------------------------------------------------

/// The later a run was made, the earlier it is listed.
pub open spec fn made_later(runs: Seq<ExportRun>) -> spec_fn(usize, usize) -> bool {
    |a: usize, b: usize|
        sorting::precedes(runs[b as int].created_at@, runs[a as int].created_at@)
}

pub open spec fn places(n: nat) -> Seq<usize> {
    Seq::new(n, |i: int| i as usize)
}

/// The places of the runs, the latest first.
pub fn newest_first(manifest: &ExportManifest) -> (r: Vec<usize>)
    ensures
        r@ == sorting::sort_by(places(manifest.runs@.len()), made_later(manifest.runs@)),
        forall|i: int| 0 <= i < r@.len() ==> #[trigger] r@[i] < manifest.runs@.len(),
{
    let ghost runs = manifest.runs@;
    let ghost before = made_later(runs);
    let mut out: Vec<usize> = Vec::new();
    let mut i: usize = 0;
    assert(places(0) =~= Seq::empty());
    while i < manifest.runs.len()
        invariant
            i <= manifest.runs@.len(),
            runs == manifest.runs@,
            before == made_later(runs),
            out@ == sorting::sort_by(places(i as nat), before),
            forall|k: int| 0 <= k < out@.len() ==> #[trigger] out@[k] < runs.len(),
        decreases manifest.runs@.len() - i,
    {
        let ghost outs = out@;
        let mut at: usize = out.len();
        while at > 0 && sorting::text_precedes(
            manifest.runs[out[at - 1]].created_at.as_str(),
            manifest.runs[i].created_at.as_str(),
        )
            invariant
                i < manifest.runs@.len(),
                at <= out@.len(),
                outs == out@,
                runs == manifest.runs@,
                before == made_later(runs),
                forall|k: int| 0 <= k < out@.len() ==> #[trigger] out@[k] < runs.len(),
                forall|k: int| at <= k < out@.len() ==> before(i, #[trigger] outs[k]),
            decreases at,
        {
            at -= 1;
        }
        proof {
            sorting::insert_at(outs, i, before, at as int);
            assert(places((i + 1) as nat).drop_last() =~= places(i as nat));
        }
        out.insert(at, i);
        assert(out@ =~= outs.insert(at as int, i));
        i += 1;
    }
    out
}

// ---- laws -----------------------------------------------------------------

/// An entry is exported once: none of the entries of a new run was locked before,
/// and all of them are afterwards.
pub proof fn exported_entries_are_locked_once(
    rows: Seq<RowView>,
    runs: Seq<ExportRun>,
    filter: Seq<Seq<char>>,
    run: ExportRun,
    range: Seq<char>,
    today: Date,
    created_at: Seq<char>,
    i: int,
)
    requires
        is_run(run, included(rows, runs, filter), runs, range, today, created_at),
        0 <= i < run.entry_ids@.len(),
    ensures
        !exports::locks(runs, run.entry_ids@[i]@),
        exports::locks(runs.push(run), run.entry_ids@[i]@),
{
    let keep = |r: RowView| goes_in(r, runs, filter);
    let inc = included(rows, runs, filter);
    broadcast use vstd::seq_lib::group_filter_ensures;

    assert(inc == rows.filter(keep));
    assert(text::texts(run.entry_ids@).len() == ids_of(inc).len());
    assert(text::texts(run.entry_ids@)[i] == ids_of(inc)[i]);
    assert(keep(inc[i]));
    let id = run.entry_ids@[i]@;
    assert(text::texts(run.entry_ids@)[i] == id);
    assert(exports::run_locks(run, id));
    assert(runs.push(run)[runs.len() as int] == run);
}

/// The same export again takes nothing: every row that it asks for is locked by the
/// run before it.
pub proof fn repeated_exports_take_nothing(
    rows: Seq<RowView>,
    runs: Seq<ExportRun>,
    filter: Seq<Seq<char>>,
    run: ExportRun,
    range: Seq<char>,
    today: Date,
    created_at: Seq<char>,
)
    requires
        is_run(run, included(rows, runs, filter), runs, range, today, created_at),
    ensures
        included(rows, runs.push(run), filter).len() == 0,
{
    let first = |r: RowView| goes_in(r, runs, filter);
    let again = |r: RowView| goes_in(r, runs.push(run), filter);
    let inc = included(rows, runs, filter);
    let rest = included(rows, runs.push(run), filter);
    broadcast use vstd::seq_lib::group_filter_ensures;

    if rest.len() > 0 {
        let r = rest[0];
        let id = exports::entry_id(r.stem, r.n);
        assert(again(rows.filter(again)[0]));
        assert(rest.contains(rest[0]));
        rows.lemma_filter_contains_rev(again, r);
        if exports::locks(runs, id) {
            let k = choose|k: int| 0 <= k < runs.len() && exports::run_locks(#[trigger] runs[k], id);
            assert(exports::run_locks(runs.push(run)[k], id));
        }
        let i = choose|i: int| 0 <= i < rows.len() && rows[i] == r;
        assert(first(rows[i]));
        rows.lemma_filter_contains(first, i);
        let j = choose|j: int| 0 <= j < inc.len() && inc[j] == r;
        assert(text::texts(run.entry_ids@)[j] == ids_of(inc)[j]);
        assert(run.entry_ids@.len() == text::texts(run.entry_ids@).len());
        exported_entries_are_locked_once(rows, runs, filter, run, range, today, created_at, j);
    }
}

/// A run names rows by their ids, so that all runs together still do.
pub proof fn exports_keep_ids_well_formed(
    rows: Seq<RowView>,
    runs: Seq<ExportRun>,
    run: ExportRun,
    range: Seq<char>,
    today: Date,
    created_at: Seq<char>,
)
    requires
        exports::ids_well_formed(runs),
        forall|i: int| 0 <= i < rows.len() ==> (#[trigger] rows[i]).n <= usize::MAX,
        is_run(run, rows, runs, range, today, created_at),
    ensures
        exports::ids_well_formed(runs.push(run)),
{
    let now = runs.push(run);
    assert forall|i: int, j: int|
        0 <= i < now.len() && 0 <= j < now[i].entry_ids@.len() implies exports::is_entry_id(
        #[trigger] text::texts(now[i].entry_ids@)[j],
    ) by {
        if i < runs.len() {
            assert(exports::is_entry_id(text::texts(runs[i].entry_ids@)[j]));
        } else {
            assert(text::texts(run.entry_ids@).len() == ids_of(rows).len());
            assert(text::texts(run.entry_ids@)[j] == exports::entry_id(rows[j].stem, rows[j].n));
        }
    }
}

/// The entries, the minutes and the billable minutes of all lines.
pub open spec fn lines_sum(lines: Seq<LineView>) -> (int, int, int)
    decreases lines.len(),
{
    if lines.len() == 0 {
        (0, 0, 0)
    } else {
        let (n, m, b) = lines_sum(lines.drop_last());
        let l = lines.last();
        (n + l.entries, m + l.minutes, b + l.billable_minutes)
    }
}

/// The entries, the minutes and the billable minutes of some rows, taken key by key.
spec fn sum_by_key(rows: Seq<RowView>, keys: Seq<LineView>) -> (int, int, int)
    decreases keys.len(),
{
    if keys.len() == 0 {
        (0, 0, 0)
    } else {
        let (n, m, b) = sum_by_key(rows, keys.drop_last());
        let l = line_for(rows, keys.last().client, keys.last().engagement);
        (n + l.entries, m + l.minutes, b + l.billable_minutes)
    }
}

/// One row more adds its minutes for every key that it counts for.
proof fn lemma_row_by_key(rows: Seq<RowView>, keys: Seq<LineView>, at: Option<int>)
    requires
        rows.len() > 0,
        forall|i: int|
            0 <= i < keys.len() ==> counts_for(
                rows.last(),
                (#[trigger] keys[i]).client,
                keys[i].engagement,
            ) == (at == Some(i)),
        at matches Some(i) ==> 0 <= i < keys.len(),
    ensures
        ({
            let (n, m, b) = sum_by_key(rows.drop_last(), keys);
            let r = rows.last();
            sum_by_key(rows, keys) == if at is Some {
                (n + 1, m + r.minutes, b + if r.billable {
                    r.minutes
                } else {
                    0
                })
            } else {
                (n, m, b)
            }
        }),
    decreases keys.len(),
{
    if keys.len() > 0 {
        let last = keys.len() - 1;
        let init = keys.drop_last();
        let rest = if at == Some(last) { None } else { at };
        assert(counts_for(rows.last(), keys[last].client, keys[last].engagement) == (at == Some(
            last,
        )));
        assert forall|i: int| 0 <= i < init.len() implies counts_for(
            rows.last(),
            (#[trigger] init[i]).client,
            init[i].engagement,
        ) == (rest == Some(i)) by {
            assert(init[i] == keys[i]);
        }
        lemma_row_by_key(rows, init, rest);
    }
}

proof fn lemma_by_key_is_total(rows: Seq<RowView>, keys: Seq<LineView>)
    requires
        forall|i: int, j: int|
            0 <= i < j < keys.len() ==> !same_key(#[trigger] keys[i], #[trigger] keys[j]),
        forall|k: int|
            0 <= k < rows.len() ==> has_line(keys, #[trigger] rows[k]),
    ensures
        sum_by_key(rows, keys) == (rows.len() as int, total_minutes(rows), total_billable(rows)),
    decreases rows.len(),
{
    if rows.len() == 0 {
        lemma_no_rows(rows, keys);
    } else {
        let r = rows.last();
        assert(rows[rows.len() - 1] == r);
        let at = choose|i: int|
            0 <= i < keys.len() && counts_for(
                r,
                (#[trigger] keys[i]).client,
                keys[i].engagement,
            );
        assert forall|i: int| 0 <= i < keys.len() implies counts_for(
            r,
            (#[trigger] keys[i]).client,
            keys[i].engagement,
        ) == (Some(at) == Some(i)) by {
            if i < at {
                assert(!same_key(keys[i], keys[at]));
            } else if i > at {
                assert(!same_key(keys[at], keys[i]));
            }
        }
        lemma_row_by_key(rows, keys, Some(at));
        let init = rows.drop_last();
        assert forall|k: int| 0 <= k < init.len() implies has_line(keys, #[trigger] init[k]) by {
            assert(init[k] == rows[k]);
        }
        lemma_by_key_is_total(init, keys);
    }
}

proof fn lemma_no_rows(rows: Seq<RowView>, keys: Seq<LineView>)
    requires
        rows.len() == 0,
    ensures
        sum_by_key(rows, keys) == (0int, 0int, 0int),
    decreases keys.len(),
{
    if keys.len() > 0 {
        lemma_no_rows(rows, keys.drop_last());
    }
}

proof fn lemma_lines_by_key(rows: Seq<RowView>, lines: Seq<LineView>)
    requires
        forall|i: int|
            0 <= i < lines.len() ==> #[trigger] lines[i] == line_for(
                rows,
                lines[i].client,
                lines[i].engagement,
            ),
    ensures
        lines_sum(lines) == sum_by_key(rows, lines),
    decreases lines.len(),
{
    if lines.len() > 0 {
        assert(lines[lines.len() - 1] == line_for(
            rows,
            lines[lines.len() - 1].client,
            lines[lines.len() - 1].engagement,
        ));
        let init = lines.drop_last();
        assert forall|i: int| 0 <= i < init.len() implies #[trigger] init[i] == line_for(
            rows,
            init[i].client,
            init[i].engagement,
        ) by {
            assert(init[i] == lines[i]);
        }
        lemma_lines_by_key(rows, init);
    }
}

/// An export leaves no entry locked by two runs.
pub proof fn exports_lock_nothing_twice(
    rows: Seq<RowView>,
    runs: Seq<ExportRun>,
    filter: Seq<Seq<char>>,
    run: ExportRun,
    range: Seq<char>,
    today: Date,
    created_at: Seq<char>,
)
    requires
        is_run(run, included(rows, runs, filter), runs, range, today, created_at),
        exports::locked_once(runs),
    ensures
        exports::locked_once(runs.push(run)),
{
    let now = runs.push(run);
    let ids = text::texts(run.entry_ids@);
    assert forall|a: int, b: int, id: Seq<char>|
        0 <= a < now.len() && 0 <= b < now.len() && #[trigger] exports::run_locks(now[a], id)
            && #[trigger] exports::run_locks(now[b], id) implies a == b by {
        if a == runs.len() || b == runs.len() {
            let k = choose|k: int| 0 <= k < ids.len() && ids[k] == id;
            exported_entries_are_locked_once(rows, runs, filter, run, range, today, created_at, k);
            if a < runs.len() {
                assert(exports::run_locks(runs[a], id));
            }
            if b < runs.len() {
                assert(exports::run_locks(runs[b], id));
            }
        } else {
            assert(exports::run_locks(runs[a], id));
            assert(exports::run_locks(runs[b], id));
        }
    }
}

/// The lines of a run add up to its sums, in entries, minutes and billable minutes:
/// every entry counts in one line and in no other.
pub proof fn lines_add_up(rows: Seq<RowView>, lines: Seq<LineView>)
    requires
        is_rollup(rows, lines),
    ensures
        lines_sum(lines) == (rows.len() as int, total_minutes(rows), total_billable(rows)),
{
    assert forall|i: int, j: int| 0 <= i < j < lines.len() implies !same_key(
        #[trigger] lines[i],
        #[trigger] lines[j],
    ) by {
        assert(key_precedes(lines[i], lines[j]));
        lemma_keys(lines[i], lines[j], lines[j]);
    }
    lemma_lines_by_key(rows, lines);
    lemma_by_key_is_total(rows, lines);
}

/// An export takes exactly the rows that stand in no run that is not voided and
/// whose client is one of those picked, or any where none is picked; they keep their
/// order.
pub proof fn exports_take_what_is_picked(
    rows: Seq<RowView>,
    runs: Seq<ExportRun>,
    filter: Seq<Seq<char>>,
) -> (at: Seq<int>)
    ensures
        at.len() == included(rows, runs, filter).len(),
        forall|j: int|
            0 <= j < at.len() ==> 0 <= #[trigger] at[j] < rows.len() && included(
                rows,
                runs,
                filter,
            )[j] == rows[at[j]],
        forall|i: int, j: int| 0 <= i < j < at.len() ==> #[trigger] at[i] < #[trigger] at[j],
        forall|i: int|
            0 <= i < rows.len() ==> #[trigger] at.contains(i) == {
                &&& !exists|a: int, b: int|
                    0 <= a < runs.len() && !runs[a].voided && 0 <= b < runs[a].entry_ids@.len() && (
                    #[trigger] runs[a].entry_ids@[b])@ == rows[i].stem + seq![':'] + text::dec(
                        rows[i].n,
                    )
                &&& filter.len() == 0 || exists|k: int|
                    0 <= k < filter.len() && #[trigger] filter[k] == rows[i].client
            },
{
    let keep = |r: RowView| goes_in(r, runs, filter);
    let at = crate::selection::filter_places(rows, keep);
    assert forall|i: int| 0 <= i < rows.len() implies #[trigger] at.contains(i) == {
        &&& !exists|a: int, b: int|
            0 <= a < runs.len() && !runs[a].voided && 0 <= b < runs[a].entry_ids@.len() && (
            #[trigger] runs[a].entry_ids@[b])@ == rows[i].stem + seq![':'] + text::dec(rows[i].n)
        &&& filter.len() == 0 || exists|k: int|
            0 <= k < filter.len() && #[trigger] filter[k] == rows[i].client
    } by {
        exports::locks_are_ids_of_runs(runs, exports::entry_id(rows[i].stem, rows[i].n));
        assert(at.contains(i) == keep(rows[i]));
    }
    at
}

proof fn lemma_taken(rows: Seq<LocatedRow>, runs: Seq<ExportRun>, filter: Seq<String>)
    ensures
        ({
            let ids = ids_of(included(entries::row_views(rows), runs, text::texts(filter)));
            &&& forall|i: int|
                0 <= i < rows.len() && !(exists|a: int, b: int|
                    0 <= a < runs.len() && !runs[a].voided && 0 <= b < runs[a].entry_ids@.len() && (
                    #[trigger] runs[a].entry_ids@[b])@ == rows[i].stem@ + seq![':'] + text::dec(
                        rows[i].n as nat,
                    )) && (filter.len() == 0 || exists|k: int|
                    0 <= k < filter.len() && (#[trigger] filter[k])@ == rows[i].client@)
                    ==> ids.contains(
                    (#[trigger] rows[i]).stem@ + seq![':'] + text::dec(rows[i].n as nat),
                )
            &&& forall|id: Seq<char>| #[trigger]
                ids.contains(id) ==> exists|i: int|
                    #![trigger rows[i]]
                    0 <= i < rows.len() && id == rows[i].stem@ + seq![':'] + text::dec(rows[i].n as nat) && !(exists|a: int, b: int|
                        0 <= a < runs.len() && !runs[a].voided && 0 <= b < runs[a].entry_ids@.len()
                            && (#[trigger] runs[a].entry_ids@[b])@ == rows[i].stem@ + seq![':']
                            + text::dec(rows[i].n as nat)) && (filter.len() == 0 || exists|k: int|
                        0 <= k < filter.len() && (#[trigger] filter[k])@ == rows[i].client@)
        }),
{
    let views = entries::row_views(rows);
    let names = text::texts(filter);
    let inc = included(views, runs, names);
    let ids = ids_of(inc);
    let at = exports_take_what_is_picked(views, runs, names);
    assert forall|i: int| 0 <= i < rows.len() implies (exists|k: int|
        0 <= k < names.len() && #[trigger] names[k] == rows[i].client@) == (exists|k: int|
        0 <= k < filter.len() && (#[trigger] filter[k])@ == (#[trigger] rows[i]).client@) by {
        if exists|k: int| 0 <= k < filter.len() && (#[trigger] filter[k])@ == rows[i].client@ {
            let k = choose|k: int|
                0 <= k < filter.len() && (#[trigger] filter[k])@ == rows[i].client@;
            assert(names[k] == rows[i].client@);
        }
        if exists|k: int| 0 <= k < names.len() && #[trigger] names[k] == rows[i].client@ {
            let k = choose|k: int| 0 <= k < names.len() && #[trigger] names[k] == rows[i].client@;
            assert(filter[k]@ == rows[i].client@);
        }
    }
    assert forall|i: int|
        0 <= i < rows.len() && !(exists|a: int, b: int|
            0 <= a < runs.len() && !runs[a].voided && 0 <= b < runs[a].entry_ids@.len() && (
            #[trigger] runs[a].entry_ids@[b])@ == rows[i].stem@ + seq![':'] + text::dec(
                rows[i].n as nat,
            )) && (filter.len() == 0 || exists|k: int|
            0 <= k < filter.len() && (#[trigger] filter[k])@
                == rows[i].client@) implies ids.contains(
        (#[trigger] rows[i]).stem@ + seq![':'] + text::dec(rows[i].n as nat),
    ) by {
        assert(views[i] == rows[i]@);
        assert(at.contains(i));
        let j = choose|j: int| 0 <= j < at.len() && at[j] == i;
        assert(inc[j] == views[at[j]]);
        assert(ids[j] == rows[i].stem@ + seq![':'] + text::dec(rows[i].n as nat));
    }
    assert forall|id: Seq<char>| #[trigger] ids.contains(id) implies exists|i: int|
        #![trigger rows[i]]
        0 <= i < rows.len() && id == rows[i].stem@ + seq![':'] + text::dec(
            rows[i].n as nat,
        ) && !(exists|a: int, b: int|
            0 <= a < runs.len() && !runs[a].voided && 0 <= b < runs[a].entry_ids@.len() && (
            #[trigger] runs[a].entry_ids@[b])@ == rows[i].stem@ + seq![':'] + text::dec(
                rows[i].n as nat,
            )) && (filter.len() == 0 || exists|k: int|
            0 <= k < filter.len() && (#[trigger] filter[k])@ == rows[i].client@) by {
        let j = choose|j: int| 0 <= j < ids.len() && ids[j] == id;
        let i = at[j];
        assert(inc[j] == views[at[j]]);
        assert(views[i] == rows[i]@);
        assert(at.contains(i));
    }
}

/// What a run holds, said of the rows that were listed: the ids of those that were
/// picked and free, in their order and no others; how many they are; their minutes
/// and their billable minutes together.
pub proof fn runs_hold_what_was_picked(
    rows: Seq<RowView>,
    runs: Seq<ExportRun>,
    filter: Seq<Seq<char>>,
    run: ExportRun,
    range: Seq<char>,
    today: Date,
    created_at: Seq<char>,
) -> (at: Seq<int>)
    requires
        is_run(run, included(rows, runs, filter), runs, range, today, created_at),
    ensures
        at.len() == run.entry_ids@.len(),
        run.totals.entries == at.len(),
        forall|j: int|
            0 <= j < at.len() ==> 0 <= #[trigger] at[j] < rows.len() && run.entry_ids@[j]@
                == rows[at[j]].stem + seq![':'] + text::dec(rows[at[j]].n),
        forall|i: int, j: int| 0 <= i < j < at.len() ==> #[trigger] at[i] < #[trigger] at[j],
        forall|i: int|
            0 <= i < rows.len() ==> #[trigger] at.contains(i) == {
                &&& !exists|a: int, b: int|
                    0 <= a < runs.len() && !runs[a].voided && 0 <= b < runs[a].entry_ids@.len() && (
                    #[trigger] runs[a].entry_ids@[b])@ == rows[i].stem + seq![':'] + text::dec(
                        rows[i].n,
                    )
                &&& filter.len() == 0 || exists|k: int|
                    0 <= k < filter.len() && #[trigger] filter[k] == rows[i].client
            },
        run.totals.minutes == at.fold_left(0int, |sum: int, p: int| sum + rows[p].minutes),
        run.totals.billable_minutes == at.fold_left(
            0int,
            |sum: int, p: int|
                sum + if rows[p].billable {
                    rows[p].minutes
                } else {
                    0
                },
        ),
        run.created_at@ == created_at,
        run.range@ == range,
        !run.voided,
        run.voided_at is None,
{
    let inc = included(rows, runs, filter);
    let at = exports_take_what_is_picked(rows, runs, filter);
    assert(text::texts(run.entry_ids@).len() == ids_of(inc).len());
    assert forall|j: int| 0 <= j < at.len() implies 0 <= #[trigger] at[j] < rows.len()
        && run.entry_ids@[j]@ == rows[at[j]].stem + seq![':'] + text::dec(rows[at[j]].n) by {
        assert(text::texts(run.entry_ids@)[j] == ids_of(inc)[j]);
    }
    lemma_fold_minutes(rows, at, inc);
    at
}

proof fn lemma_fold_minutes(rows: Seq<RowView>, at: Seq<int>, inc: Seq<RowView>)
    requires
        at.len() == inc.len(),
        forall|j: int| 0 <= j < at.len() ==> inc[j] == rows[#[trigger] at[j]],
    ensures
        total_minutes(inc) == at.fold_left(0int, |sum: int, p: int| sum + rows[p].minutes),
        total_billable(inc) == at.fold_left(
            0int,
            |sum: int, p: int|
                sum + if rows[p].billable {
                    rows[p].minutes
                } else {
                    0
                },
        ),
    decreases at.len(),
{
    if at.len() > 0 {
        assert(inc[at.len() - 1] == rows[at[at.len() - 1]]);
        assert forall|j: int| 0 <= j < at.drop_last().len() implies inc.drop_last()[j]
            == rows[#[trigger] at.drop_last()[j]] by {
            assert(inc[j] == rows[at[j]]);
        }
        lemma_fold_minutes(rows, at.drop_last(), inc.drop_last());
    }
}

/// Each line sums up the rows of its client and engagement, and no two lines are of
/// the same pair; every row has a line, and every line a row. The lines go by client,
/// then by engagement.
pub proof fn lines_sum_their_rows(rows: Seq<RowView>, lines: Seq<LineView>)
    requires
        is_rollup(rows, lines),
    ensures
        forall|i: int|
            #![trigger lines[i]]
            0 <= i < lines.len() ==> {
                let own = rows.filter(
                    |r: RowView| r.client == lines[i].client && r.engagement == lines[i].engagement,
                );
                &&& own.len() > 0
                &&& lines[i].entries == own.len()
                &&& lines[i].minutes == own.fold_left(0int, |sum: int, r: RowView| sum + r.minutes)
                &&& lines[i].billable_minutes == own.fold_left(
                    0int,
                    |sum: int, r: RowView|
                        sum + if r.billable {
                            r.minutes
                        } else {
                            0
                        },
                )
            },
        forall|k: int|
            0 <= k < rows.len() ==> lines.map_values(
                |l: LineView| (l.client, l.engagement),
            ).contains(((#[trigger] rows[k]).client, rows[k].engagement)),
        forall|i: int, j: int|
            0 <= i < j < lines.len() ==> sorting::precedes(
                (#[trigger] lines[i]).client,
                (#[trigger] lines[j]).client,
            ) || (lines[i].client == lines[j].client && sorting::precedes(
                lines[i].engagement,
                lines[j].engagement,
            )),
{
    assert forall|i: int| #![trigger lines[i]] 0 <= i < lines.len() implies {
        let own = rows.filter(
            |r: RowView| r.client == lines[i].client && r.engagement == lines[i].engagement,
        );
        &&& own.len() > 0
        &&& lines[i].entries == own.len()
        &&& lines[i].minutes == own.fold_left(0int, |sum: int, r: RowView| sum + r.minutes)
        &&& lines[i].billable_minutes == own.fold_left(
            0int,
            |sum: int, r: RowView|
                sum + if r.billable {
                    r.minutes
                } else {
                    0
                },
        )
    } by {
        lemma_line_sums(rows, lines[i].client, lines[i].engagement);
    }
    let pairs = lines.map_values(|l: LineView| (l.client, l.engagement));
    assert forall|k: int| 0 <= k < rows.len() implies pairs.contains(
        ((#[trigger] rows[k]).client, rows[k].engagement),
    ) by {
        assert(has_line(lines, rows[k]));
        let i = choose|i: int|
            0 <= i < lines.len() && counts_for(
                rows[k],
                (#[trigger] lines[i]).client,
                lines[i].engagement,
            );
        assert(pairs[i] == (rows[k].client, rows[k].engagement));
    }
    assert forall|i: int, j: int| 0 <= i < j < lines.len() implies sorting::precedes(
        (#[trigger] lines[i]).client,
        (#[trigger] lines[j]).client,
    ) || (lines[i].client == lines[j].client && sorting::precedes(
        lines[i].engagement,
        lines[j].engagement,
    )) by {
        assert(key_precedes(lines[i], lines[j]));
    }
}

proof fn lemma_line_sums(rows: Seq<RowView>, client: Seq<char>, engagement: Seq<char>)
    ensures
        ({
            let own = rows.filter(
                |r: RowView| r.client == client && r.engagement == engagement,
            );
            let l = line_for(rows, client, engagement);
            &&& l.entries == own.len()
            &&& l.minutes == own.fold_left(0int, |sum: int, r: RowView| sum + r.minutes)
            &&& l.billable_minutes == own.fold_left(
                0int,
                |sum: int, r: RowView|
                    sum + if r.billable {
                        r.minutes
                    } else {
                        0
                    },
            )
        }),
    decreases rows.len(),
{
    reveal(Seq::filter);
    if rows.len() > 0 {
        let keep = |r: RowView| r.client == client && r.engagement == engagement;
        let init = rows.drop_last();
        lemma_line_sums(init, client, engagement);
        if keep(rows.last()) {
            assert(rows.filter(keep) == init.filter(keep).push(rows.last()));
            assert(rows.filter(keep).drop_last() =~= init.filter(keep));
        }
    }
}

/// The sums of some rows are theirs together.
pub proof fn totals_are_sums(rows: Seq<RowView>, t: ExportTotals, clients: nat, engagements: nat)
    requires
        is_totals(rows, t, clients, engagements),
    ensures
        t.entries == rows.len(),
        t.minutes == rows.fold_left(0int, |sum: int, r: RowView| sum + r.minutes),
        t.billable_minutes == rows.fold_left(
            0int,
            |sum: int, r: RowView|
                sum + if r.billable {
                    r.minutes
                } else {
                    0
                },
        ),
        t.clients == clients,
        t.engagements == engagements,
    decreases rows.len(),
{
    lemma_total_folds(rows);
}

proof fn lemma_total_folds(rows: Seq<RowView>)
    ensures
        total_minutes(rows) == rows.fold_left(0int, |sum: int, r: RowView| sum + r.minutes),
        total_billable(rows) == rows.fold_left(
            0int,
            |sum: int, r: RowView|
                sum + if r.billable {
                    r.minutes
                } else {
                    0
                },
        ),
    decreases rows.len(),
{
    if rows.len() > 0 {
        lemma_total_folds(rows.drop_last());
    }
}

/// The clients of some rows are listed once each, in order, and no others.
pub proof fn client_lists_are_complete(rows: Seq<RowView>, list: Seq<Seq<char>>)
    requires
        is_client_list(rows, list),
    ensures
        forall|k: int| 0 <= k < rows.len() ==> list.contains((#[trigger] rows[k]).client),
        forall|i: int|
            0 <= i < list.len() ==> rows.map_values(|r: RowView| r.client).contains(
                #[trigger] list[i],
            ),
        forall|i: int, j: int|
            0 <= i < j < list.len() ==> sorting::precedes(#[trigger] list[i], #[trigger] list[j]),
{
    let names = rows.map_values(|r: RowView| r.client);
    assert forall|k: int| 0 <= k < rows.len() implies list.contains(
        (#[trigger] rows[k]).client,
    ) by {
        assert(names[k] == rows[k].client);
        assert(names.to_set().contains(names[k]));
        assert(list.to_set().contains(rows[k].client));
    }
    assert forall|i: int| 0 <= i < list.len() implies names.contains(#[trigger] list[i]) by {
        assert(list.to_set().contains(list[i]));
        assert(names.to_set().contains(list[i]));
    }
}

/// The clients picked are the names that were sent and are not blank, each trimmed,
/// in their order.
pub proof fn picked_clients_are_those_named(list: Seq<Seq<char>>) -> (at: Seq<int>)
    ensures
        at.len() == named_clients(list).len(),
        forall|j: int|
            0 <= j < at.len() ==> 0 <= #[trigger] at[j] < list.len() && named_clients(list)[j]
                == text::trim(list[at[j]]),
        forall|i: int, j: int| 0 <= i < j < at.len() ==> #[trigger] at[i] < #[trigger] at[j],
        forall|i: int|
            0 <= i < list.len() ==> #[trigger] at.contains(i) == (text::trim(list[i]).len() > 0),
    decreases list.len(),
{
    if list.len() == 0 {
        Seq::empty()
    } else {
        let init = list.drop_last();
        let before = picked_clients_are_those_named(init);
        assert forall|j: int| 0 <= j < before.len() implies 0 <= #[trigger] before[j] < list.len()
            && named_clients(init)[j] == text::trim(list[before[j]]) by {
            assert(init[before[j]] == list[before[j]]);
        }
        let at = if text::trim(list.last()).len() == 0 {
            before
        } else {
            before.push(list.len() - 1)
        };
        assert forall|i: int| 0 <= i < list.len() implies #[trigger] at.contains(i) == (
        text::trim(list[i]).len() > 0) by {
            if i < init.len() {
                assert(init[i] == list[i]);
                if before.contains(i) {
                    let j = choose|j: int| 0 <= j < before.len() && before[j] == i;
                    assert(at[j] == i);
                }
                if at.contains(i) {
                    let j = choose|j: int| 0 <= j < at.len() && at[j] == i;
                    assert(before[j] == i);
                }
            } else {
                if text::trim(list.last()).len() > 0 {
                    assert(at[before.len() as int] == i);
                }
            }
        }
        assert forall|j: int| 0 <= j < at.len() implies 0 <= #[trigger] at[j] < list.len()
            && named_clients(list)[j] == text::trim(list[at[j]]) by {
            if j < before.len() {
                assert(at[j] == before[j]);
            }
        }
        at
    }
}

/// The runs are listed with the latest first: every run once, and none behind one that
/// was made before it.
pub proof fn runs_are_listed_with_the_latest_first(runs: Seq<ExportRun>, k: usize)
    requires
        runs.len() <= usize::MAX,
    ensures
        ({
            let listed = sorting::sort_by(places(runs.len()), made_later(runs));
            &&& listed.len() == runs.len()
            &&& listed.contains(k) == (k < runs.len())
            &&& listed.no_duplicates()
            &&& forall|i: int, j: int|
                0 <= i < j < listed.len() ==> !sorting::precedes(
                    runs[#[trigger] listed[i] as int].created_at@,
                    runs[#[trigger] listed[j] as int].created_at@,
                )
        }),
{
    broadcast use vstd::seq_lib::group_to_multiset_ensures;

    let before = made_later(runs);
    assert forall|a: usize, b: usize| #[trigger] before(a, b) implies !before(b, a) by {
        sorting::texts_are_ordered(runs[a as int].created_at@, runs[b as int].created_at@);
    }
    assert forall|a: usize, b: usize, c: usize|
        !(#[trigger] before(b, a)) && !(#[trigger] before(c, b)) implies !before(c, a) by {
        sorting::lemma_not_before(
            runs[c as int].created_at@,
            runs[b as int].created_at@,
            runs[a as int].created_at@,
        );
    }
    let all = places(runs.len());
    let listed = sorting::sort_by(all, before);
    sorting::sort_sorts(all, before);
    assert(all.contains(k) == (k < runs.len())) by {
        if k < runs.len() {
            assert(all[k as int] == k);
        }
    }
    assert(all.contains(k) <==> all.to_multiset().count(k) > 0);
    assert(listed.contains(k) <==> listed.to_multiset().count(k) > 0);
    assert(all.no_duplicates());
    all.lemma_multiset_has_no_duplicates();
    listed.lemma_multiset_has_no_duplicates_conv();
    assert forall|i: int, j: int| 0 <= i < j < listed.len() implies !sorting::precedes(
        runs[#[trigger] listed[i] as int].created_at@,
        runs[#[trigger] listed[j] as int].created_at@,
    ) by {
        assert(!before(listed[j], listed[i]));
    }
}

/// A text is cut to a length only if it is longer: its last character then is an
/// ellipsis, and those in front of it are its own.
pub proof fn long_texts_end_in_an_ellipsis(s: Seq<char>, n: nat, i: int)
    ensures
        s.len() <= n ==> cut(s, n) == s,
        s.len() > n && n > 0 ==> {
            &&& cut(s, n).len() == n
            &&& cut(s, n)[n - 1] == '\u{2026}'
            &&& 0 <= i < n - 1 ==> cut(s, n)[i] == s[i]
        },
{
}

/// The name of a file to hand out is of letters, digits, dots, underscores and hyphens,
/// at most 128 of them, with no two dots side by side: it names no other folder.
pub proof fn safe_names_stay_in_their_folder(s: Seq<char>, i: int)
    ensures
        safe_name(s) && 0 <= i < s.len() ==> s[i] != '/' && s[i] != '\\' && s[i] != ':' && (s[i]
            == '.' && i + 1 < s.len() ==> s[i + 1] != '.'),
        safe_name(s) ==> 1 <= s.len() <= 128,
        0 < s.len() <= 128 && (forall|k: int|
            0 <= k < s.len() ==> 'a' <= #[trigger] s[k] <= 'z' || 'A' <= s[k] <= 'Z' || '0' <= s[k]
                <= '9' || s[k] == '_' || s[k] == '-' || (s[k] == '.' && k > 0 && s[k - 1] != '.'))
            ==> safe_name(s),
{
    reveal_strlit("..");
    assert(".."@ =~= seq!['.', '.']);
    if safe_name(s) && 0 <= i < s.len() {
        assert(name_char(s[i]));
        if i + 1 < s.len() && s[i] == '.' && s[i + 1] == '.' {
            assert(s.subrange(i, i + 2) =~= seq!['.', '.']);
            assert(text::occurs_at(s, ".."@, i));
        }
    }
    if 0 < s.len() <= 128 && (forall|k: int|
        0 <= k < s.len() ==> 'a' <= #[trigger] s[k] <= 'z' || 'A' <= s[k] <= 'Z' || '0' <= s[k] <= '9'
            || s[k] == '_' || s[k] == '-' || (s[k] == '.' && k > 0 && s[k - 1] != '.')) {
        if text::contains_text(s, ".."@) {
            let k = choose|k: int| text::occurs_at(s, ".."@, k);
            assert(s.subrange(k, k + 2)[0] == s[k]);
            assert(s.subrange(k, k + 2)[1] == s[k + 1]);
            assert(s[k] == '.' && s[k + 1] == '.');
        }
    }
}

/// The sheet of a run: a head, a line for each line of the run in their order, with the
/// client, the engagement, the entries, the hours and the billable hours, and the sums.
pub proof fn sheets_have_a_line_for_each_line(lines: Seq<LineView>, l: LineView, t: ExportTotals)
    ensures
        ({
            let end = seq!['\r', '\n'];
            let sums = seq!['T', 'O', 'T', 'A', 'L', ',', ','] + text::dec(t.entries as nat) + seq![
                ',',
            ] + csv_writer::signed_hours_text(t.minutes as int) + seq![',']
                + csv_writer::signed_hours_text(t.billable_minutes as int) + end;
            &&& export_lines(Seq::empty()) == Seq::<char>::empty()
            &&& export_lines(lines.push(l)) == export_lines(lines) + export_line(l)
            &&& export_line(l) == csv::escaped(l.client) + seq![','] + csv::escaped(l.engagement)
                + seq![','] + text::dec(l.entries) + seq![','] + csv_writer::signed_hours_text(
                l.minutes,
            ) + seq![','] + csv_writer::signed_hours_text(l.billable_minutes) + end
            &&& export_csv(lines, t) == export_csv(Seq::empty(), t).take(49) + export_lines(lines)
                + sums
            &&& export_csv(lines, t)[0] as u32 == 0xfeff
        }),
{
    assert(lines.push(l).drop_last() =~= lines);
    reveal_strlit("TOTAL,,");
    reveal_strlit("Client,Engagement,Entries,Hours,Billable hours\r\n");
    assert("TOTAL,,"@ =~= seq!['T', 'O', 'T', 'A', 'L', ',', ',']);
    let head = seq![csv::BOM] + "Client,Engagement,Entries,Hours,Billable hours\r\n"@;
    assert(head.len() == 49);
    assert(export_csv(Seq::empty(), t).take(49) =~= head);
    let end = seq!['\r', '\n'];
    let sums = seq!['T', 'O', 'T', 'A', 'L', ',', ','] + text::dec(t.entries as nat) + seq![',']
        + csv_writer::signed_hours_text(t.minutes as int) + seq![','] + csv_writer::signed_hours_text(
        t.billable_minutes as int,
    ) + end;
    assert(export_csv(lines, t) =~= head + export_lines(lines) + sums);
    assert(export_line(l) =~= csv::escaped(l.client) + seq![','] + csv::escaped(l.engagement) + seq![
        ',',
    ] + text::dec(l.entries) + seq![','] + csv_writer::signed_hours_text(l.minutes) + seq![',']
        + csv_writer::signed_hours_text(l.billable_minutes) + end);
}

/// A run tells when it was made and for what: it is numbered behind the runs of its day,
/// keeps the range by its name and by the label of its window, and is not voided.
pub proof fn runs_tell_when_and_for_what(
    run: ExportRun,
    rows: Seq<RowView>,
    runs: Seq<ExportRun>,
    range: Seq<char>,
    today: Date,
    created_at: Seq<char>,
    w: Window,
)
    requires
        today.valid(),
        is_run(run, rows, runs, range, today, created_at),
        ranges::is_window(range, today, w),
    ensures
        run.run_id@ == exports::run_prefix(today) + text::dec_padded(
            exports::highest(runs, exports::run_prefix(today)) + 1,
            4,
        ),
        run.created_at@ == created_at,
        run.range@ == range,
        run.range_label@ == ranges::window_label(w),
        !run.voided,
        run.voided_at is None,
        run.totals.clients == run.clients@.len(),
        run.totals.engagements == run.rollup@.len(),
{
    let v = choose|v: Window|
        ranges::is_window(range, today, v) && run.range_label@ == #[trigger] ranges::window_label(v);
    ranges::windows_are_unique(range, today, v, w);
}

} // verus!
