//! The pages of an export: which texts stand where.
//!
//! Lengths are half millimetres, from the lower left corner of an A4 page.

use crate::billing;
use crate::billing::LineView;
use crate::csv_writer;
use crate::exports::ExportRun;
use crate::exports::ExportTotals;
use crate::text;
use vstd::prelude::*;

verus! {

/// The width of a page.
pub const PAGE_W: i32 = 420;

/// The height of a page.
pub const PAGE_H: i32 = 594;

/// How many lines the first page holds.
pub const FIRST_PAGE_LINES: usize = 41;

/// How many lines each other page holds.
pub const PAGE_LINES: usize = 46;

/// The longest client or engagement that is shown whole.
pub const MAX_CHARS: usize = 34;

/// A text on a page.
#[derive(Debug, Clone)]
pub struct PageText {
    pub page: usize,
    pub x: i32,
    pub y: i32,
    /// The size of the type, in points.
    pub size: u32,
    pub bold: bool,
    pub text: String,
}

/// A text on a page.
#[verifier::ext_equal]
pub struct TextView {
    pub page: nat,
    pub x: int,
    pub y: int,
    pub size: int,
    pub bold: bool,
    pub text: Seq<char>,
}

impl View for PageText {
    type V = TextView;

    open spec fn view(&self) -> TextView {
        TextView {
            page: self.page as nat,
            x: self.x as int,
            y: self.y as int,
            size: self.size as int,
            bold: self.bold,
            text: self.text@,
        }
    }
}

pub open spec fn text_views(texts: Seq<PageText>) -> Seq<TextView> {
    Seq::new(texts.len(), |i: int| texts[i]@)
}

pub open spec fn at(page: nat, x: int, y: int, size: int, bold: bool, t: Seq<char>) -> TextView {
    TextView { page, x, y, size, bold, text: t }
}

/// The title, the range and the run, and when it was made.
pub open spec fn title(run: ExportRun) -> Seq<TextView> {
    seq![
        at(0, 36, 560, 20, true, "Billing summary"@),
        at(0, 36, 542, 11, false, run.range_label@ + " \u{2014} "@ + run.run_id@),
        at(0, 36, 530, 9, false, "Generated "@ + run.created_at@),
    ]
}

/// The names of the columns.
pub open spec fn columns(page: nat, y: int) -> Seq<TextView> {
    seq![
        at(page, 36, y, 8, true, "CLIENT"@),
        at(page, 160, y, 8, true, "ENGAGEMENT"@),
        at(page, 284, y, 8, true, "ENTRIES"@),
        at(page, 336, y, 8, true, "HOURS"@),
        at(page, 376, y, 8, true, "BILLABLE"@),
    ]
}

/// A line of the sums.
pub open spec fn line_texts(page: nat, y: int, l: LineView) -> Seq<TextView> {
    seq![
        at(page, 36, y, 9, false, billing::cut(l.client, MAX_CHARS as nat)),
        at(page, 160, y, 9, false, billing::cut(l.engagement, MAX_CHARS as nat)),
        at(page, 284, y, 9, false, text::dec(l.entries)),
        at(page, 336, y, 9, false, csv_writer::signed_hours_text(l.minutes)),
        at(page, 376, y, 9, false, csv_writer::signed_hours_text(l.billable_minutes)),
    ]
}

/// The sums of the run.
pub open spec fn total_texts(page: nat, y: int, t: ExportTotals) -> Seq<TextView> {
    let entries = text::dec(t.entries as nat);
    seq![
        at(page, 36, y, 9, true, "TOTAL"@),
        at(
            page,
            160,
            y,
            8,
            false,
            entries + " entries \u{b7} "@ + text::dec(t.clients as nat) + " clients \u{b7} "@
                + text::dec(t.engagements as nat) + " engagements"@,
        ),
        at(page, 284, y, 9, true, entries),
        at(page, 336, y, 9, true, csv_writer::signed_hours_text(t.minutes as int)),
        at(page, 376, y, 9, true, csv_writer::signed_hours_text(t.billable_minutes as int)),
    ]
}

/// The page of a line.
pub open spec fn page_of(i: int) -> nat {
    if i < FIRST_PAGE_LINES {
        0
    } else {
        (1 + (i - FIRST_PAGE_LINES) / (PAGE_LINES as int)) as nat
    }
}

/// The height at which a line stands.
pub open spec fn height_of(i: int) -> int {
    if i < FIRST_PAGE_LINES {
        494 - 11 * i
    } else {
        548 - 11 * ((i - FIRST_PAGE_LINES) % (PAGE_LINES as int))
    }
}

/// The line is the first on a page behind the first one.
pub open spec fn opens_page(i: int) -> bool {
    i >= FIRST_PAGE_LINES && (i - FIRST_PAGE_LINES) % (PAGE_LINES as int) == 0
}

/// The lines, with the names of the columns above the first line of each page.
pub open spec fn body(lines: Seq<LineView>) -> Seq<TextView>
    decreases lines.len(),
{
    if lines.len() == 0 {
        columns(0, 506)
    } else {
        let i = lines.len() - 1;
        let above = if opens_page(i) { columns(page_of(i), 560) } else { seq![] };
        body(lines.drop_last()) + above + line_texts(page_of(i), height_of(i), lines.last())
    }
}

/// The page of the sums: that of the last line.
pub open spec fn total_page(n: nat) -> nat {
    if n == 0 {
        0
    } else {
        page_of(n - 1)
    }
}

/// The height at which the sums stand: below the last line.
pub open spec fn total_height(n: nat) -> int {
    if n == 0 {
        488
    } else {
        height_of(n - 1) - 17
    }
}

/// All texts of a run's pages.
pub open spec fn page_texts(run: ExportRun) -> Seq<TextView> {
    let lines = billing::line_views(run.rollup@);
    title(run) + body(lines) + total_texts(
        total_page(lines.len()),
        total_height(lines.len()),
        run.totals,
    )
}

fn put(out: &mut Vec<PageText>, page: usize, x: i32, y: i32, size: u32, bold: bool, t: String)
    ensures
        text_views(final(out)@) == text_views(old(out)@).push(
            at(page as nat, x as int, y as int, size as int, bold, t@),
        ),
{
    let ghost before = text_views(out@);
    let item = PageText { page, x, y, size, bold, text: t };
    let ghost v = item@;
    out.push(item);
    assert(text_views(out@) =~= before.push(v));
}

fn put_columns(out: &mut Vec<PageText>, page: usize, y: i32)
    ensures
        text_views(final(out)@) == text_views(old(out)@) + columns(page as nat, y as int),
{
    let ghost before = text_views(out@);
    put(out, page, 36, y, 8, true, text::copy("CLIENT"));
    put(out, page, 160, y, 8, true, text::copy("ENGAGEMENT"));
    put(out, page, 284, y, 8, true, text::copy("ENTRIES"));
    put(out, page, 336, y, 8, true, text::copy("HOURS"));
    put(out, page, 376, y, 8, true, text::copy("BILLABLE"));
    assert(text_views(out@) =~= before + columns(page as nat, y as int));
}

fn put_title(out: &mut Vec<PageText>, run: &ExportRun)
    ensures
        text_views(final(out)@) == text_views(old(out)@) + title(*run),
{
    let ghost before = text_views(out@);
    put(out, 0, 36, 560, 20, true, text::copy("Billing summary"));
    let mut range = run.range_label.clone();
    text::push_text(&mut range, " \u{2014} ");
    text::push_text(&mut range, run.run_id.as_str());
    put(out, 0, 36, 542, 11, false, range);
    let mut made = text::copy("Generated ");
    text::push_text(&mut made, run.created_at.as_str());
    put(out, 0, 36, 530, 9, false, made);
    assert(text_views(out@) =~= before + title(*run));
}

fn put_total(out: &mut Vec<PageText>, page: usize, y: i32, t: &ExportTotals)
    requires
        t.minutes > i128::MIN,
        t.billable_minutes > i128::MIN,
    ensures
        text_views(final(out)@) == text_views(old(out)@) + total_texts(page as nat, y as int, *t),
{
    let ghost before = text_views(out@);
    put(out, page, 36, y, 9, true, text::copy("TOTAL"));
    let mut counts = text::u64_text(t.entries as u64);
    text::push_text(&mut counts, " entries \u{b7} ");
    let clients = text::u64_text(t.clients as u64);
    text::push_text(&mut counts, clients.as_str());
    text::push_text(&mut counts, " clients \u{b7} ");
    let engagements = text::u64_text(t.engagements as u64);
    text::push_text(&mut counts, engagements.as_str());
    text::push_text(&mut counts, " engagements");
    put(out, page, 160, y, 8, false, counts);
    put(out, page, 284, y, 9, true, text::u64_text(t.entries as u64));
    put(out, page, 336, y, 9, true, csv_writer::signed_hours(t.minutes));
    put(out, page, 376, y, 9, true, csv_writer::signed_hours(t.billable_minutes));
    assert(text_views(out@) =~= before + total_texts(page as nat, y as int, *t));
}

/// All texts of a run's pages: a title, a line for each client and engagement, and
/// the sums. A line that has no room opens a new page.
pub fn lay_out(run: &ExportRun) -> (r: Vec<PageText>)
    requires
        billing::sums_in_range(*run),
    ensures
        text_views(r@) == page_texts(*run),
{
    let mut out: Vec<PageText> = Vec::new();
    assert(text_views(out@) =~= Seq::<TextView>::empty());
    put_title(&mut out, run);
    put_columns(&mut out, 0, 506);
    let ghost head = title(*run);
    let ghost all = billing::line_views(run.rollup@);
    let mut page: usize = 0;
    let mut y: i32 = 494;
    let mut i: usize = 0;
    proof {
        assert(all.take(0) =~= Seq::empty());
        assert(text_views(out@) =~= head + body(all.take(0)));
    }
    while i < run.rollup.len()
        invariant
            i <= run.rollup@.len(),
            billing::sums_in_range(*run),
            all == billing::line_views(run.rollup@),
            text_views(out@) == head + body(all.take(i as int)),
            page <= i,
            page == total_page(i as nat),
            y == if i == 0 {
                494
            } else {
                height_of(i - 1) - 11
            },
        decreases run.rollup@.len() - i,
    {
        proof {
            assert(all.take(i + 1).drop_last() =~= all.take(i as int));
            assert(all.take(i + 1).last() == run.rollup@[i as int]@);
            assert(run.rollup@[i as int].minutes > i128::MIN);
        }
        let ghost sofar = text_views(out@);
        if y < 48 {
            page += 1;
            y = 560;
            put_columns(&mut out, page, y);
            y -= 12;
        }
        let ghost above = if opens_page(i as int) {
            columns(page_of(i as int), 560)
        } else {
            seq![]
        };
        proof {
            let k = i - FIRST_PAGE_LINES;
            if k >= 1 {
                let p = PAGE_LINES as int;
                vstd::arithmetic::div_mod::lemma_fundamental_div_mod(k, p);
                vstd::arithmetic::div_mod::lemma_fundamental_div_mod(k - 1, p);
                if (k - 1) % p == p - 1 {
                    vstd::arithmetic::div_mod::lemma_fundamental_div_mod_converse(
                        k,
                        p,
                        (k - 1) / p + 1,
                        0,
                    );
                } else {
                    vstd::arithmetic::div_mod::lemma_fundamental_div_mod_converse(
                        k,
                        p,
                        (k - 1) / p,
                        (k - 1) % p + 1,
                    );
                }
            }
            assert(page == page_of(i as int));
            assert(y == height_of(i as int));
            assert(text_views(out@) =~= sofar + above);
        }
        let line = &run.rollup[i];
        let ghost before = text_views(out@);
        put(&mut out, page, 36, y, 9, false, billing::trunc(line.client.as_str(), MAX_CHARS));
        put(&mut out, page, 160, y, 9, false, billing::trunc(line.engagement.as_str(), MAX_CHARS));
        put(&mut out, page, 284, y, 9, false, text::u64_text(line.entries as u64));
        put(&mut out, page, 336, y, 9, false, csv_writer::signed_hours(line.minutes));
        put(&mut out, page, 376, y, 9, false, csv_writer::signed_hours(line.billable_minutes));
        proof {
            let these = line_texts(page as nat, y as int, line@);
            assert(text_views(out@) =~= before + these);
            assert(text_views(out@) =~= head + (body(all.take(i as int)) + above + these));
        }
        y -= 11;
        i += 1;
    }
    assert(all.take(all.len() as int) =~= all);
    put_total(&mut out, page, y - 6, &run.totals);
    out
}

// ---- laws -----------------------------------------------------------------

/// Every line stands on its page, above the foot; of two lines on one page the later
/// stands lower; and the sums stand on the page too.
pub proof fn lines_stay_on_their_pages(i: int, j: int)
    requires
        0 <= i < j,
    ensures
        48 <= height_of(i) <= 548,
        31 <= total_height((i + 1) as nat),
        total_page((i + 1) as nat) == page_of(i),
        page_of(i) <= page_of(j),
        page_of(i) == page_of(j) ==> height_of(j) == height_of(i) - 11 * (j - i),
{
    let p = PAGE_LINES as int;
    let f = FIRST_PAGE_LINES as int;
    if j >= f {
        vstd::arithmetic::div_mod::lemma_fundamental_div_mod(j - f, p);
        if i >= f {
            vstd::arithmetic::div_mod::lemma_fundamental_div_mod(i - f, p);
            vstd::arithmetic::div_mod::lemma_div_is_ordered(i - f, j - f, p);
        }
    }
}

/// The first page has forty-one lines and every other forty-six; a page begins with its
/// columns, and its lines go down by eleven points each.
pub proof fn pages_are_filled_line_by_line(i: int)
    requires
        i >= 0,
    ensures
        page_of(i) == 0 <==> i < 41,
        i >= 41 ==> page_of(i + 46) == page_of(i) + 1 && height_of(i + 46) == height_of(i),
        page_of(41) == 1,
        opens_page(i) <==> i > 0 && page_of(i) != page_of(i - 1),
        height_of(0) == 494,
        opens_page(i) ==> height_of(i) == 548,
        !opens_page(i) && i > 0 ==> height_of(i) == height_of(i - 1) - 11,
{
}

/// Every line of a run is laid out, in its order, behind the columns where it opens a
/// page.
pub proof fn every_line_is_laid_out(lines: Seq<LineView>, l: LineView)
    ensures
        ({
            let i = lines.len() as int;
            let line = line_texts(page_of(i), height_of(i), l);
            &&& body(Seq::empty()) == columns(0, 506)
            &&& opens_page(i) ==> body(lines.push(l)) == body(lines) + columns(page_of(i), 560)
                + line
            &&& !opens_page(i) ==> body(lines.push(l)) == body(lines) + line
        }),
{
    assert(lines.push(l).drop_last() =~= lines);
    let i = lines.len() as int;
    if !opens_page(i) {
        assert(body(lines) + Seq::<TextView>::empty() =~= body(lines));
    }
}

/// A line shows the client, the engagement, the entries, the hours and the billable
/// hours of its line, side by side at one height; the sums stand in the same columns.
pub proof fn lines_show_their_values(page: nat, y: int, l: LineView, t: ExportTotals, k: int)
    requires
        0 <= k < 5,
    ensures
        ({
            let line = line_texts(page, y, l);
            let sums = total_texts(page, y, t);
            &&& line.len() == 5
            &&& sums.len() == 5
            &&& line[k].page == page && line[k].y == y
            &&& sums[k].page == page && sums[k].y == y
            &&& line[k].x == columns(page, y)[k].x && sums[k].x == columns(page, y)[k].x
            &&& line[0].text == billing::cut(l.client, 34)
            &&& line[1].text == billing::cut(l.engagement, 34)
            &&& line[2].text == text::dec(l.entries)
            &&& line[3].text == csv_writer::signed_hours_text(l.minutes)
            &&& line[4].text == csv_writer::signed_hours_text(l.billable_minutes)
            &&& sums[2].text == text::dec(t.entries as nat)
            &&& sums[3].text == csv_writer::signed_hours_text(t.minutes as int)
            &&& sums[4].text == csv_writer::signed_hours_text(t.billable_minutes as int)
        }),
{
}

/// The head of the first page tells the range, the run and when it was made, one below
/// the other.
pub proof fn heads_tell_of_the_run(run: ExportRun, k: int)
    requires
        0 <= k < 3,
    ensures
        ({
            let t = title(run);
            &&& t.len() == 3
            &&& t[k].page == 0 && t[k].x == 36
            &&& t[0].y > t[1].y > t[2].y > 506
            &&& t[1].text == run.range_label@ + seq![' ', '\u{2014}', ' '] + run.run_id@
            &&& t[2].text == "Generated "@ + run.created_at@
            &&& t[0].size == 20 && t[1].size == 11 && t[2].size == 9
        }),
{
    reveal_strlit(" \u{2014} ");
    assert(" \u{2014} "@ =~= seq![' ', '\u{2014}', ' ']);
}

/// A page is its head, its lines and its sums, in that order, and the sums stand below the
/// last line.
pub proof fn pages_end_with_the_sums(run: ExportRun)
    ensures
        ({
            let n = run.rollup@.len();
            let all = page_texts(run);
            let sums = total_texts(total_page(n), total_height(n), run.totals);
            &&& all.len() >= 8
            &&& all.take(3) == title(run)
            &&& all.skip(all.len() - 5) == sums
            &&& all.subrange(3, all.len() - 5) == body(billing::line_views(run.rollup@))
            &&& n > 0 ==> total_page(n) == page_of(n - 1) && total_height(n) < height_of(n - 1)
            &&& n == 0 ==> total_page(n) == 0 && total_height(n) < 506
        }),
{
    let lines = billing::line_views(run.rollup@);
    let sums = total_texts(total_page(lines.len()), total_height(lines.len()), run.totals);
    let all = page_texts(run);
    assert(all.take(3) =~= title(run));
    assert(all.skip(all.len() - 5) =~= sums);
    assert(all.subrange(3, all.len() - 5) =~= body(lines));
    lemma_body_has_columns(lines);
}

proof fn lemma_body_has_columns(lines: Seq<LineView>)
    ensures
        body(lines).len() >= 5,
    decreases lines.len(),
{
    if lines.len() > 0 {
        lemma_body_has_columns(lines.drop_last());
    }
}

} // verus!
