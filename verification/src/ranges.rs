//! The date ranges that entries are listed and exported by, and the monthly files
//! that they reach into.

use crate::dates;
use crate::dates::Date;
use crate::selection;
use crate::sorting;
use crate::text;
use vstd::prelude::*;
use vstd::utf8::encode_utf8;

verus! {

/// The first and the last day of a range.
pub type Window = Option<(Date, Date)>;

/// The date so many days before `today`.
pub open spec fn days_before(d: Date, today: Date, days: int) -> bool {
    d.valid() && d.day_number() == today.day_number() - days
}

/// The days since Monday.
pub open spec fn since_monday(d: Date) -> int {
    (d.day_number() - 1) % 7
}

/// The window that a range name stands for on a day; none for all of time.
pub open spec fn is_window(range: Seq<char>, today: Date, w: Window) -> bool {
    let monday = since_monday(today);
    if range == "today"@ {
        w == Some((today, today))
    } else if range == "yesterday"@ {
        w matches Some((from, to)) && days_before(from, today, 1) && to == from
    } else if range == "this_week"@ {
        w matches Some((from, to)) && days_before(from, today, monday) && to == today
    } else if range == "last_week"@ {
        w matches Some((from, to)) && days_before(from, today, monday + 7) && days_before(
            to,
            today,
            monday + 1,
        )
    } else if range == "this_month"@ {
        w == Some((Date { year: today.year, month: today.month, day: 1 }, today))
    } else if range == "last_month"@ {
        w matches Some((from, to)) && days_before(to, today, today.day as int) && from == (Date {
            year: to.year,
            month: to.month,
            day: 1,
        })
    } else {
        w is None
    }
}

/// The window that a range name stands for.
pub fn range_window(range: &str, today: Date) -> (w: Window)
    requires
        today.valid(),
        today.year > -262143,
    ensures
        is_window(range@, today, w),
{
    if text::same_text(range, "today") {
        Some((today, today))
    } else if text::same_text(range, "yesterday") {
        let y = dates::days_earlier(today, 1);
        Some((y, y))
    } else if text::same_text(range, "this_week") {
        let dow: u32 = dates::days_since_monday(today);
        Some((dates::days_earlier(today, dow), today))
    } else if text::same_text(range, "last_week") {
        let dow: u32 = dates::days_since_monday(today);
        Some((dates::days_earlier(today, dow + 7), dates::days_earlier(today, dow + 1)))
    } else if text::same_text(range, "this_month") {
        Some((today.month_start(), today))
    } else if text::same_text(range, "last_month") {
        let last = dates::days_earlier(today, today.day);
        Some((last.month_start(), last))
    } else {
        None
    }
}

/// The ranges that have a name.
pub open spec fn is_range_name(range: Seq<char>) -> bool {
    range == "today"@ || range == "yesterday"@ || range == "this_week"@ || range == "last_week"@
        || range == "this_month"@ || range == "last_month"@ || range == "all"@
}

/// The range that is meant: the one named, or `otherwise`.
pub fn known_range(range: &Option<String>, otherwise: &str) -> (r: String)
    ensures
        r@ == match *range {
            Some(s) => if is_range_name(s@) {
                s@
            } else {
                otherwise@
            },
            None => otherwise@,
        },
{
    match range {
        Some(s) => {
            let t = s.as_str();
            if text::same_text(t, "today") || text::same_text(t, "yesterday") || text::same_text(
                t,
                "this_week",
            ) || text::same_text(t, "last_week") || text::same_text(t, "this_month")
                || text::same_text(t, "last_month") || text::same_text(t, "all") {
                s.clone()
            } else {
                text::copy(otherwise)
            }
        },
        None => text::copy(otherwise),
    }
}

/// The date lies in the window.
pub open spec fn inside(d: Date, w: Window) -> bool {
    match w {
        Some((from, to)) => from.not_after(d) && d.not_after(to),
        None => true,
    }
}

/// The date lies in the window.
pub fn in_window(d: &Date, w: &Window) -> (r: bool)
    ensures
        r == inside(*d, *w),
{
    match w {
        Some((from, to)) => from.le(d) && d.le(to),
        None => true,
    }
}

// ---- monthly files --------------------------------------------------------

/// The stem of a monthly file's name: `YYYY-MM` before `.csv`.
pub open spec fn stem_of(name: Seq<char>) -> Option<Seq<char>> {
    if text::has_suffix(name, ".csv"@) {
        let stem = name.take(name.len() - ".csv"@.len());
        let b = encode_utf8(stem);
        if b.len() == 7 && b[4] == 0x2d {
            Some(stem)
        } else {
            None
        }
    } else {
        None
    }
}

/// The stems of the monthly files among some names.
pub open spec fn stems_among(names: Seq<Seq<char>>) -> Seq<Seq<char>>
    decreases names.len(),
{
    if names.len() == 0 {
        Seq::empty()
    } else {
        match stem_of(names.last()) {
            Some(s) => stems_among(names.drop_last()).push(s),
            None => stems_among(names.drop_last()),
        }
    }
}

fn name_stem(name: &str) -> (r: Option<String>)
    ensures
        match r {
            Some(s) => stem_of(name@) == Some(s@),
            None => stem_of(name@) is None,
        },
{
    if !text::text_ends_with(name, ".csv") {
        return None;
    }
    let v = text::chars_of(name);
    let suffix = text::chars_of(".csv");
    let head = text::piece(v.as_slice(), 0, v.len() - suffix.len());
    assert(head@ =~= name@.take(name@.len() - ".csv"@.len()));
    let stem = text::text_of(head.as_slice());
    let b = stem.as_str().as_bytes_vec();
    if b.len() == 7 && b[4] == 0x2d {
        Some(stem)
    } else {
        None
    }
}

/// The stems of the monthly files in a folder, in order.
pub fn existing_stems(names: &Vec<String>) -> (r: Vec<String>)
    ensures
        text::texts(r@) == sorting::sort_by(
            stems_among(text::texts(names@)),
            sorting::text_order(),
        ),
{
    let mut out: Vec<String> = Vec::new();
    let ghost all = text::texts(names@);
    let mut i: usize = 0;
    assert(all.take(0) =~= Seq::empty());
    assert(text::texts(out@) =~= Seq::<Seq<char>>::empty());
    while i < names.len()
        invariant
            i <= names@.len(),
            all == text::texts(names@),
            text::texts(out@) == stems_among(all.take(i as int)),
        decreases names@.len() - i,
    {
        proof {
            assert(all.take(i + 1).drop_last() =~= all.take(i as int));
            assert(all.take(i + 1).last() == names@[i as int]@);
        }
        let ghost outs = text::texts(out@);
        match name_stem(names[i].as_str()) {
            Some(s) => {
                let ghost x = s@;
                out.push(s);
                assert(text::texts(out@) =~= outs.push(x));
            },
            None => {},
        }
        i += 1;
    }
    assert(all.take(all.len() as int) =~= all);
    sorting::sort_texts(out)
}

/// The text lies between two others, in the order of texts.
pub open spec fn between(s: Seq<char>, lo: Seq<char>, hi: Seq<char>) -> bool {
    !sorting::precedes(s, lo) && !sorting::precedes(hi, s)
}

/// The stems that a window reaches into; without one, the last twelve.
pub open spec fn stems_in(all: Seq<Seq<char>>, w: Window) -> Seq<Seq<char>> {
    match w {
        None => if all.len() > 12 {
            all.skip(all.len() - 12)
        } else {
            all
        },
        Some((from, to)) => all.filter(|s: Seq<char>| between(s, from.stem(), to.stem())),
    }
}

/// The stems that a window reaches into.
pub fn stems_for_window(all: &Vec<String>, w: &Window) -> (r: Vec<String>)
    ensures
        text::texts(r@) == stems_in(text::texts(all@), *w),
{
    let mut out: Vec<String> = Vec::new();
    let ghost names = text::texts(all@);
    assert(text::texts(out@) =~= Seq::<Seq<char>>::empty());
    match w {
        None => {
            let n: usize = all.len();
            let from: usize = if n > 12 {
                n - 12
            } else {
                0
            };
            let mut i: usize = from;
            while i < n
                invariant
                    from <= i <= n,
                    n == all@.len(),
                    names == text::texts(all@),
                    text::texts(out@) == names.subrange(from as int, i as int),
                decreases n - i,
            {
                let ghost outs = text::texts(out@);
                out.push(all[i].clone());
                assert(text::texts(out@) =~= outs.push(names[i as int]));
                assert(names.subrange(from as int, i + 1) =~= names.subrange(
                    from as int,
                    i as int,
                ).push(names[i as int]));
                i += 1;
            }
            assert(names.subrange(from as int, n as int) =~= stems_in(names, *w));
        },
        Some((a, b)) => {
            let lo = dates::month_stem(a);
            let hi = dates::month_stem(b);
            let ghost keep = |s: Seq<char>| between(s, a.stem(), b.stem());
            let mut i: usize = 0;
            reveal(Seq::filter);
            assert(names.take(0).filter(keep) =~= Seq::empty());
            while i < all.len()
                invariant
                    i <= all@.len(),
                    names == text::texts(all@),
                    lo@ == a.stem(),
                    hi@ == b.stem(),
                    keep == (|s: Seq<char>| between(s, a.stem(), b.stem())),
                    text::texts(out@) == names.take(i as int).filter(keep),
                decreases all@.len() - i,
            {
                proof {
                    reveal(Seq::filter);
                    assert(names.take(i + 1).drop_last() =~= names.take(i as int));
                    assert(names.take(i + 1).last() == all@[i as int]@);
                }
                let ghost outs = text::texts(out@);
                let s = all[i].as_str();
                if !sorting::text_precedes(s, lo.as_str()) && !sorting::text_precedes(
                    hi.as_str(),
                    s,
                ) {
                    out.push(all[i].clone());
                    assert(text::texts(out@) =~= outs.push(names[i as int]));
                }
                i += 1;
            }
            assert(names.take(names.len() as int) =~= names);
        },
    }
    out
}

// ---- labels ---------------------------------------------------------------

pub open spec fn month_name(month: int) -> Seq<char> {
    if month == 1 {
        "Jan"@
    } else if month == 2 {
        "Feb"@
    } else if month == 3 {
        "Mar"@
    } else if month == 4 {
        "Apr"@
    } else if month == 5 {
        "May"@
    } else if month == 6 {
        "Jun"@
    } else if month == 7 {
        "Jul"@
    } else if month == 8 {
        "Aug"@
    } else if month == 9 {
        "Sep"@
    } else if month == 10 {
        "Oct"@
    } else if month == 11 {
        "Nov"@
    } else {
        "Dec"@
    }
}

/// `Apr 2`.
pub open spec fn day_label(d: Date) -> Seq<char> {
    month_name(d.month as int) + " "@ + text::dec(d.day as nat)
}

/// `Apr 2, 2026`.
pub open spec fn date_label(d: Date) -> Seq<char> {
    day_label(d) + ", "@ + dates::year_text(d.year as int)
}

/// A window in words, naming no more than it must.
pub open spec fn window_label(w: Window) -> Seq<char> {
    match w {
        None => "all recorded time"@,
        Some((from, to)) => if from == to {
            date_label(from)
        } else if from.year == to.year && from.month == to.month {
            day_label(from) + " \u{2013} "@ + text::dec(to.day as nat) + ", "@ + dates::year_text(
                to.year as int,
            )
        } else if from.year == to.year {
            day_label(from) + " \u{2013} "@ + date_label(to)
        } else {
            date_label(from) + " \u{2013} "@ + date_label(to)
        },
    }
}

fn push_month(out: &mut String, month: u32)
    ensures
        final(out)@ == old(out)@ + month_name(month as int),
{
    if month == 1 {
        text::push_text(out, "Jan");
    } else if month == 2 {
        text::push_text(out, "Feb");
    } else if month == 3 {
        text::push_text(out, "Mar");
    } else if month == 4 {
        text::push_text(out, "Apr");
    } else if month == 5 {
        text::push_text(out, "May");
    } else if month == 6 {
        text::push_text(out, "Jun");
    } else if month == 7 {
        text::push_text(out, "Jul");
    } else if month == 8 {
        text::push_text(out, "Aug");
    } else if month == 9 {
        text::push_text(out, "Sep");
    } else if month == 10 {
        text::push_text(out, "Oct");
    } else if month == 11 {
        text::push_text(out, "Nov");
    } else {
        text::push_text(out, "Dec");
    }
}

/// The day in words.
pub fn label_of_day(d: &Date) -> (r: String)
    ensures
        r@ == day_label(*d),
{
    let mut out = String::new();
    push_month(&mut out, d.month);
    text::push_text(&mut out, " ");
    text::push_dec(&mut out, d.day as u128);
    assert(out@ =~= day_label(*d));
    out
}

fn push_year(out: &mut String, year: i32)
    ensures
        final(out)@ == old(out)@ + dates::year_text(year as int),
{
    let ghost before = out@;
    if 0 <= year && year <= 9999 {
        text::push_padded(out, year as u64, 4);
    } else if year > 9999 {
        out.push('+');
        text::push_padded(out, year as u64, 4);
    } else {
        out.push('-');
        text::push_padded(out, (-(year as i64)) as u64, 4);
    }
    assert(out@ =~= before + dates::year_text(year as int));
}

fn label_of_date(d: &Date) -> (r: String)
    ensures
        r@ == date_label(*d),
{
    let mut out = label_of_day(d);
    text::push_text(&mut out, ", ");
    push_year(&mut out, d.year);
    out
}

/// A window in words.
pub fn label_of_window(w: &Window) -> (r: String)
    ensures
        r@ == window_label(*w),
{
    match w {
        None => text::copy("all recorded time"),
        Some((from, to)) => {
            if *from == *to {
                label_of_date(from)
            } else if from.year == to.year && from.month == to.month {
                let mut out = label_of_day(from);
                text::push_text(&mut out, " \u{2013} ");
                text::push_dec(&mut out, to.day as u128);
                text::push_text(&mut out, ", ");
                push_year(&mut out, to.year);
                out
            } else if from.year == to.year {
                let mut out = label_of_day(from);
                text::push_text(&mut out, " \u{2013} ");
                let l = label_of_date(to);
                text::push_text(&mut out, l.as_str());
                out
            } else {
                let mut out = label_of_date(from);
                text::push_text(&mut out, " \u{2013} ");
                let l = label_of_date(to);
                text::push_text(&mut out, l.as_str());
                out
            }
        },
    }
}

/// The range in words.
pub fn range_label(range: &str, today: Date) -> (r: String)
    requires
        today.valid(),
        today.year > -262143,
    ensures
        exists|w: Window| is_window(range@, today, w) && r@ == #[trigger] window_label(w),
{
    let w = range_window(range, today);
    label_of_window(&w)
}

// ---- laws -----------------------------------------------------------------

/// A range name stands for one window.
pub proof fn windows_are_unique(range: Seq<char>, today: Date, a: Window, b: Window)
    requires
        today.valid(),
        is_window(range, today, a),
        is_window(range, today, b),
    ensures
        a == b,
{
    if a is Some && b is Some {
        let (f1, t1) = a->0;
        let (f2, t2) = b->0;
        if range == "today"@ {
        } else if range == "yesterday"@ || range == "this_week"@ {
            dates::order_is_day_order(f1, f2);
        } else if range == "last_week"@ {
            dates::order_is_day_order(f1, f2);
            dates::order_is_day_order(t1, t2);
        } else if range == "this_month"@ {
        } else if range == "last_month"@ {
            dates::order_is_day_order(t1, t2);
        }
    }
}

/// A week begins on a Monday, the last week is the seven days before this one, and
/// the last month ends on the day before this month begins.
pub proof fn ranges_meet(today: Date, this_week: Window, last_week: Window, last_month: Window)
    requires
        today.valid(),
        is_window("this_week"@, today, this_week),
        is_window("last_week"@, today, last_week),
        is_window("last_month"@, today, last_month),
    ensures
        ({
            let (week_start, _) = this_week->0;
            let (last_start, last_end) = last_week->0;
            let (_, month_end) = last_month->0;
            let month_start = Date { year: today.year, month: today.month, day: 1 };
            &&& since_monday(week_start) == 0
            &&& since_monday(last_start) == 0
            &&& last_end.day_number() == last_start.day_number() + 6
            &&& week_start.day_number() == last_end.day_number() + 1
            &&& month_start.day_number() == month_end.day_number() + 1
        }),
{
    reveal_strlit("this_week");
    reveal_strlit("last_week");
    reveal_strlit("last_month");
    reveal_strlit("today");
    reveal_strlit("yesterday");
    reveal_strlit("this_month");
    assert("this_week"@.len() == 9 && "last_week"@.len() == 9 && "last_month"@.len() == 10
        && "today"@.len() == 5 && "yesterday"@.len() == 9 && "this_month"@.len() == 10);
    assert("this_week"@[0] == 't' && "last_week"@[0] == 'l' && "yesterday"@[0] == 'y'
        && "last_month"@[0] == 'l' && "this_month"@[0] == 't');
}

/// The days of each window. Today and yesterday are single days; a week runs from its
/// Monday, this one up to today and the last one for seven days; this month runs from
/// its first day up to today, and the last month is the whole of the month before; any
/// other name takes every day in.
pub proof fn windows_hold_the_days_named(range: Seq<char>, today: Date, w: Window, d: Date)
    requires
        today.valid(),
        today.year > -262143,
        d.valid(),
        is_window(range, today, w),
    ensures
        ({
            let n = today.day_number();
            let monday = n - (n - 1) % 7;
            &&& range == "today"@ ==> inside(d, w) == (d.day_number() == n)
            &&& range == "yesterday"@ ==> inside(d, w) == (d.day_number() == n - 1)
            &&& range == "this_week"@ ==> inside(d, w) == (monday <= d.day_number() <= n)
            &&& range == "last_week"@ ==> inside(d, w) == (monday - 7 <= d.day_number() < monday)
            &&& range == "this_month"@ ==> inside(d, w) == (d.year == today.year && d.month
                == today.month && d.day <= today.day)
            &&& range == "last_month"@ ==> inside(d, w) == (d.year * 12 + d.month == today.year * 12
                + today.month - 1)
            &&& range != "today"@ && range != "yesterday"@ && range != "this_week"@ && range
                != "last_week"@ && range != "this_month"@ && range != "last_month"@ ==> inside(d, w)
        }),
{
    lemma_range_names();
    if w is Some {
        let (from, to) = w->0;
        if range == "last_month"@ {
            let first = Date { year: today.year, month: today.month, day: 1 };
            let before = if today.month == 1 {
                Date { year: (today.year - 1) as i32, month: 12, day: 31 }
            } else {
                Date {
                    year: today.year,
                    month: (today.month - 1) as u32,
                    day: dates::days_in_month(today.year as int, today.month - 1) as u32,
                }
            };
            dates::days_follow_one_another(before, first);
            dates::order_is_day_order(to, before);
        } else if range != "this_month"@ {
            dates::order_is_day_order(from, d);
            dates::order_is_day_order(d, to);
        }
    }
}

proof fn lemma_range_names()
    ensures
        "today"@ != "yesterday"@,
        "today"@ != "this_week"@,
        "today"@ != "last_week"@,
        "today"@ != "this_month"@,
        "today"@ != "last_month"@,
        "yesterday"@ != "this_week"@,
        "yesterday"@ != "last_week"@,
        "yesterday"@ != "this_month"@,
        "yesterday"@ != "last_month"@,
        "this_week"@ != "last_week"@,
        "this_week"@ != "this_month"@,
        "this_week"@ != "last_month"@,
        "last_week"@ != "this_month"@,
        "last_week"@ != "last_month"@,
        "this_month"@ != "last_month"@,
{
    reveal_strlit("this_week");
    reveal_strlit("last_week");
    reveal_strlit("last_month");
    reveal_strlit("today");
    reveal_strlit("yesterday");
    reveal_strlit("this_month");
    assert("this_week"@.len() == 9 && "last_week"@.len() == 9 && "last_month"@.len() == 10
        && "today"@.len() == 5 && "yesterday"@.len() == 9 && "this_month"@.len() == 10);
    assert("this_week"@[0] == 't' && "last_week"@[0] == 'l' && "yesterday"@[0] == 'y'
        && "last_month"@[0] == 'l' && "this_month"@[0] == 't');
}

/// A file of a month is one whose name is seven bytes with a hyphen in the fifth place,
/// and `.csv` behind them.
pub proof fn files_of_months_are_named_for_them(name: Seq<char>, stem: Seq<char>)
    ensures
        stem_of(name) == Some(stem) <==> name == stem + seq!['.', 'c', 's', 'v'] && encode_utf8(
            stem,
        ).len() == 7 && encode_utf8(stem)[4] == 0x2d,
{
    reveal_strlit(".csv");
    assert(".csv"@ =~= seq!['.', 'c', 's', 'v']);
    let full = stem + seq!['.', 'c', 's', 'v'];
    assert(full.take(full.len() - 4) =~= stem);
    assert(full.skip(full.len() - 4) =~= seq!['.', 'c', 's', 'v']);
    if name.len() >= 4 {
        assert(name =~= name.take(name.len() - 4) + name.skip(name.len() - 4));
    }
}

/// The months on record are those of the files of months, each as often as it occurs.
pub proof fn months_are_those_of_the_files(names: Seq<Seq<char>>, name: Seq<char>)
    ensures
        stems_among(Seq::empty()) == Seq::<Seq<char>>::empty(),
        stems_among(names.push(name)) == match stem_of(name) {
            Some(s) => stems_among(names).push(s),
            None => stems_among(names),
        },
{
    assert(names.push(name).drop_last() =~= names);
}

/// The months read for a window: with no window the last twelve, and with one all
/// those that are neither before the month it begins in nor behind the month it ends
/// in, in their order.
pub proof fn months_of_a_window_are_read(
    all: Seq<Seq<char>>,
    from: Date,
    to: Date,
    s: Seq<char>,
) -> (at: Seq<int>)
    ensures
        stems_in(all, None).len() == if all.len() < 12 {
            all.len()
        } else {
            12
        },
        forall|i: int|
            0 <= i < stems_in(all, None).len() ==> #[trigger] stems_in(all, None)[i] == all[all.len()
                - stems_in(all, None).len() + i],
        stems_in(all, Some((from, to))).contains(s) == (all.contains(s) && !sorting::precedes(
            s,
            from.stem(),
        ) && !sorting::precedes(to.stem(), s)),
        at.len() == stems_in(all, Some((from, to))).len(),
        forall|i: int|
            0 <= i < at.len() ==> 0 <= #[trigger] at[i] < all.len() && stems_in(
                all,
                Some((from, to)),
            )[i] == all[at[i]],
        forall|i: int, j: int| 0 <= i < j < at.len() ==> at[i] < at[j],
        forall|k: int|
            0 <= k < all.len() ==> #[trigger] at.contains(k) == (!sorting::precedes(
                all[k],
                from.stem(),
            ) && !sorting::precedes(to.stem(), all[k])),
{
    let keep = |s: Seq<char>| between(s, from.stem(), to.stem());
    let kept = stems_in(all, Some((from, to)));
    let at = selection::filter_places(all, keep);
    if kept.contains(s) {
        let i = choose|i: int| 0 <= i < kept.len() && kept[i] == s;
        assert(kept[i] == all[at[i]]);
        assert(at.contains(at[i]));
    }
    if all.contains(s) && keep(s) {
        let k = choose|k: int| 0 <= k < all.len() && all[k] == s;
        assert(at.contains(k));
        let i = choose|i: int| 0 <= i < at.len() && at[i] == k;
        assert(kept[i] == s);
    }
    at
}

/// The months are named by the first three letters of their English names.
pub proof fn months_are_named_by_three_letters()
    ensures
        month_name(1) == seq!['J', 'a', 'n'],
        month_name(2) == seq!['F', 'e', 'b'],
        month_name(3) == seq!['M', 'a', 'r'],
        month_name(4) == seq!['A', 'p', 'r'],
        month_name(5) == seq!['M', 'a', 'y'],
        month_name(6) == seq!['J', 'u', 'n'],
        month_name(7) == seq!['J', 'u', 'l'],
        month_name(8) == seq!['A', 'u', 'g'],
        month_name(9) == seq!['S', 'e', 'p'],
        month_name(10) == seq!['O', 'c', 't'],
        month_name(11) == seq!['N', 'o', 'v'],
        month_name(12) == seq!['D', 'e', 'c'],
{
    reveal_strlit("Jan");
    reveal_strlit("Feb");
    reveal_strlit("Mar");
    reveal_strlit("Apr");
    reveal_strlit("May");
    reveal_strlit("Jun");
    reveal_strlit("Jul");
    reveal_strlit("Aug");
    reveal_strlit("Sep");
    reveal_strlit("Oct");
    reveal_strlit("Nov");
    reveal_strlit("Dec");
}

/// A window is labelled by its first and its last day: the month and the year of the
/// first are left out where they are those of the last.
pub proof fn windows_are_labelled_by_their_ends(from: Date, to: Date)
    ensures
        ({
            let label = window_label(Some((from, to)));
            let dash = seq![' ', '\u{2013}', ' '];
            let day = |d: Date| month_name(d.month as int) + seq![' '] + text::dec(d.day as nat);
            let year = |d: Date| seq![',', ' '] + dates::year_text(d.year as int);
            &&& from == to ==> label == day(from) + year(from)
            &&& from.year != to.year ==> label == day(from) + year(from) + dash + (day(to) + year(to))
            &&& from.year == to.year && from.month != to.month ==> label == day(from) + dash + (day(
                to,
            ) + year(to))
            &&& from.year == to.year && from.month == to.month && from.day != to.day ==> label
                == day(from) + dash + text::dec(to.day as nat) + year(to)
        }),
{
    reveal_strlit(" ");
    reveal_strlit(", ");
    reveal_strlit(" \u{2013} ");
    assert(" "@ =~= seq![' ']);
    assert(", "@ =~= seq![',', ' ']);
    assert(" \u{2013} "@ =~= seq![' ', '\u{2013}', ' ']);
    let y = dates::year_text(to.year as int);
    assert(day_label(from) + ", "@ + dates::year_text(from.year as int) =~= day_label(from) + (", "@
        + dates::year_text(from.year as int)));
    assert(date_label(to) =~= day_label(to) + (", "@ + y));
    let head = day_label(from) + " \u{2013} "@ + text::dec(to.day as nat);
    assert(head + ", "@ + y =~= head + (", "@ + y));
}

/// The ranges that are known are today, yesterday, this and the last week, this and the
/// last month, and all time.
pub proof fn known_ranges_are_seven(range: Seq<char>)
    ensures
        is_range_name(range) <==> range == "today"@ || range == "yesterday"@ || range
            == "this_week"@ || range == "last_week"@ || range == "this_month"@ || range
            == "last_month"@ || range == "all"@,
{
}

/// The months on record are listed in their order, each as often as it occurs.
pub proof fn months_are_listed_in_order(names: Seq<Seq<char>>)
    ensures
        ({
            let listed = sorting::sort_by(stems_among(names), sorting::text_order());
            &&& listed.to_multiset() == stems_among(names).to_multiset()
            &&& forall|i: int, j: int|
                0 <= i < j < listed.len() ==> !sorting::precedes(
                    #[trigger] listed[j],
                    #[trigger] listed[i],
                )
        }),
{
    sorting::text_order_sorts();
    assert(sorting::text_order() =~= |a: Seq<char>, b: Seq<char>| sorting::precedes(a, b));
    sorting::sort_sorts(stems_among(names), sorting::text_order());
    let listed = sorting::sort_by(stems_among(names), sorting::text_order());
    assert forall|i: int, j: int| 0 <= i < j < listed.len() implies !sorting::precedes(
        #[trigger] listed[j],
        #[trigger] listed[i],
    ) by {
        assert(!sorting::text_order()(listed[j], listed[i]));
    }
}

} // verus!
