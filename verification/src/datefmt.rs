//! The date column of the log and the durations typed into it.

use crate::dates;
use crate::dates::Date;
use crate::dates::Stamp;
use crate::decimal;
use crate::text;
use vstd::prelude::*;

verus! {

/// A single recorded entry is at most a full day.
pub const MAX_ENTRY_MINUTES: i64 = 1440;

/// The date of a log row from its first column: a plain date, else the date that
/// an RFC 3339 timestamp names.
pub open spec fn entry_date(s: Seq<char>) -> Option<(int, int, int)> {
    let t = text::trim(s);
    match dates::written_date(t) {
        Some(d) => Some(d),
        None => match dates::written_moment(t) {
            Some((y, m, d, _, _)) => Some((y, m, d)),
            None => None,
        },
    }
}

/// A plain date before the date of a timestamp.
pub fn choose_date(plain: Option<Date>, stamped: Option<(Date, Stamp)>) -> (r: Option<Date>)
    ensures
        r == match plain {
            Some(d) => Some(d),
            None => match stamped {
                Some((d, _)) => Some(d),
                None => None,
            },
        },
{
    match plain {
        Some(d) => Some(d),
        None => match stamped {
            Some((d, _)) => Some(d),
            None => None,
        },
    }
}

/// Parse column 0 of a log row into the entry's calendar date. A plain
/// `YYYY-MM-DD`, or a timestamp, of which the date part is taken.
pub fn parse_entry_date(s: &str) -> (r: Option<Date>)
    ensures
        dates::ymd(r) == entry_date(s@),
        r matches Some(d) ==> d.valid(),
        forall|d: Date|
            d.valid() && 0 <= d.year <= 9999 && text::trim(s@) == #[trigger] d.text() ==> r
                == Some(d),
{
    let t = text::trim_text(s);
    let plain = dates::parse_date(t.as_str());
    let stamped = dates::parse_moment(t.as_str());
    choose_date(plain, stamped)
}

/// The text without the letters `h` at its end.
pub open spec fn without_h(s: Seq<char>) -> Seq<char>
    decreases s.len(),
{
    if s.len() > 0 && (s.last() == 'h' || s.last() == 'H') {
        without_h(s.drop_last())
    } else {
        s
    }
}

pub open spec fn as_i64(n: Option<int>) -> Option<int> {
    match n {
        Some(x) => if i64::MIN <= x <= i64::MAX {
            Some(x)
        } else {
            None
        },
        None => None,
    }
}

/// Decimal hours in minutes; below zero there are none.
pub open spec fn hours_minutes(s: Seq<char>) -> Option<int> {
    if s.len() > 0 && s[0] == '-' {
        let rest = s.skip(1);
        if (rest.len() == 0 || rest[0] != '+') && decimal::is_zero(rest) {
            Some(0)
        } else {
            None
        }
    } else {
        match decimal::decimal_minutes(s) {
            Some(m) => Some(m as int),
            None => None,
        }
    }
}

/// Hours and minutes around a colon, spaces around either let pass.
pub open spec fn colon_minutes(s: Seq<char>) -> Option<int> {
    let parts = text::split_on(s, ':');
    let h = as_i64(text::parse_int(text::trim(parts[0])));
    let m = as_i64(text::parse_int(text::trim(parts[1])));
    if parts.len() == 2 && h is Some && m is Some && h->0 >= 0 && 0 <= m->0 <= 59 {
        Some(h->0 * 60 + m->0)
    } else {
        None
    }
}

/// The minutes of a typed duration, before the cap.
pub open spec fn typed_minutes(input: Seq<char>) -> Option<int> {
    let raw = text::trim(input);
    let s = text::trim(without_h(raw));
    let had_h = raw.len() > 0 && (raw.last() == 'h' || raw.last() == 'H');
    if s.len() == 0 {
        None
    } else if s.contains(':') {
        colon_minutes(s)
    } else if !had_h && as_i64(text::parse_int(s)) is Some {
        Some(text::parse_int(s)->0)
    } else {
        hours_minutes(s)
    }
}

/// The minutes of a typed duration, none below zero, capped at a day.
pub open spec fn hm_dur(input: Seq<char>) -> Option<int> {
    match typed_minutes(input) {
        Some(m) => if m < 0 {
            None
        } else if m > MAX_ENTRY_MINUTES {
            Some(MAX_ENTRY_MINUTES as int)
        } else {
            Some(m)
        },
        None => None,
    }
}

fn strip_h(v: &[char]) -> (r: Vec<char>)
    ensures
        r@ == without_h(v@),
{
    let mut n: usize = v.len();
    assert(v@.take(n as int) =~= v@);
    while n > 0 && (v[n - 1] == 'h' || v[n - 1] == 'H')
        invariant
            n <= v@.len(),
            without_h(v@) == without_h(v@.take(n as int)),
        decreases n,
    {
        assert(v@.take(n as int).drop_last() =~= v@.take(n - 1));
        n -= 1;
    }
    assert(n > 0 ==> v@.take(n as int).last() == v@[n - 1]);
    let r = text::piece(v, 0, n);
    assert(r@ =~= v@.take(n as int));
    r
}

fn has_colon(v: &[char]) -> (r: bool)
    ensures
        r == v@.contains(':'),
{
    let mut i: usize = 0;
    while i < v.len()
        invariant
            i <= v@.len(),
            forall|j: int| 0 <= j < i ==> v@[j] != ':',
        decreases v@.len() - i,
    {
        if v[i] == ':' {
            return true;
        }
        i += 1;
    }
    false
}

/// `hours_minutes`, with one minute more than a day for everything over a day.
fn minutes_of_hours(s: &str) -> (r: Option<i64>)
    ensures
        match r {
            Some(m) => hours_minutes(s@) is Some && (m == hours_minutes(s@)->0 || (m
                > MAX_ENTRY_MINUTES && hours_minutes(s@)->0 > MAX_ENTRY_MINUTES)),
            None => hours_minutes(s@) is None,
        },
{
    let v = text::chars_of(s);
    if v.len() > 0 && v[0] == '-' {
        let rest = text::piece(v.as_slice(), 1, v.len());
        assert(rest@ =~= s@.skip(1));
        let t = text::text_of(rest.as_slice());
        if (rest.len() == 0 || rest[0] != '+') && decimal::decimal_is_zero(t.as_str()) {
            Some(0)
        } else {
            None
        }
    } else {
        match decimal::minutes_of_decimal(s) {
            Some(m) => Some(m as i64),
            None => None,
        }
    }
}

fn minutes_of_colon(v: &[char]) -> (r: Option<i64>)
    ensures
        match r {
            Some(m) => colon_minutes(v@) is Some && (m == colon_minutes(v@)->0 || (m
                > MAX_ENTRY_MINUTES && colon_minutes(v@)->0 > MAX_ENTRY_MINUTES)),
            None => colon_minutes(v@) is None,
        },
{
    let parts = text::split(v, ':');
    if parts.len() != 2 {
        return None;
    }
    let ghost sp = text::split_on(v@, ':');
    assert(sp[0] == text::texts(parts@)[0]);
    assert(sp[1] == text::texts(parts@)[1]);
    let a = text::trim_text(parts[0].as_str());
    let b = text::trim_text(parts[1].as_str());
    match (text::parse_i64(a.as_str()), text::parse_i64(b.as_str())) {
        (Some(h), Some(m)) => if h < 0 || m < 0 || m > 59 {
            None
        } else if h > 24 {
            Some(MAX_ENTRY_MINUTES + 1)
        } else {
            Some(h * 60 + m)
        },
        _ => None,
    }
}

/// Parse a duration typed in a duration cell: `1:30`, `90` (minutes), `1.5`
/// (hours), `2h`. Whole minutes, at most a day.
pub fn parse_hm_dur(s: &str) -> (r: Option<i64>)
    ensures
        match r {
            Some(m) => hm_dur(s@) == Some(m as int),
            None => hm_dur(s@) is None,
        },
{
    let raw = text::trimmed(text::chars_of(s).as_slice());
    let n: usize = raw.len();
    let had_h = n > 0 && (raw[n - 1] == 'h' || raw[n - 1] == 'H');
    let v = text::trimmed(strip_h(raw.as_slice()).as_slice());
    if v.len() == 0 {
        return None;
    }
    let t = text::text_of(v.as_slice());
    let minutes: i64 = if has_colon(v.as_slice()) {
        match minutes_of_colon(v.as_slice()) {
            Some(m) => m,
            None => return None,
        }
    } else {
        let whole = text::parse_i64(t.as_str());
        match (had_h, whole) {
            (false, Some(m)) => m,
            _ => match minutes_of_hours(t.as_str()) {
                Some(m) => m,
                None => return None,
            },
        }
    };
    if minutes < 0 {
        None
    } else if minutes > MAX_ENTRY_MINUTES {
        Some(MAX_ENTRY_MINUTES)
    } else {
        Some(minutes)
    }
}

// ---- laws -----------------------------------------------------------------

/// A typed duration is never negative and never over a day.
pub proof fn typed_durations_are_within_a_day(s: Seq<char>)
    ensures
        hm_dur(s) matches Some(m) ==> 0 <= m <= 1440,
{
}

/// A bare count of minutes is read back, up to the cap.
pub proof fn bare_minutes_read_back(n: nat)
    requires
        n <= i64::MAX,
    ensures
        hm_dur(text::dec(n)) == Some(
            if n > 1440 {
                1440int
            } else {
                n as int
            },
        ),
{
    let s = text::dec(n);
    text::dec_is_digits(n);
    text::dec_reads_back(n);
    assert(text::is_digit(s[0]));
    assert(text::is_digit(s[s.len() - 1]));
    text::trim_leaves(s);
    assert(without_h(s) == s);
    text::digits_hold_no_other(s, ':');
}

/// An entry's date is what its text is as a plain date, and else the date of the moment
/// that it is; white space around it is passed over.
pub proof fn dates_of_entries_are_read_in_two_forms(s: Seq<char>)
    ensures
        entry_date(s) == entry_date(text::trim(s)),
        dates::written_date(text::trim(s)) is Some ==> entry_date(s) == dates::written_date(
            text::trim(s),
        ),
        dates::written_date(text::trim(s)) is None ==> entry_date(s) == match dates::written_moment(
            text::trim(s),
        ) {
            Some((y, m, d, _, _)) => Some((y, m, d)),
            None => None,
        },
{
    text::trim_is_idempotent(s);
}

/// Letters `h` at the end are taken off, all of them and nothing else.
pub proof fn letters_behind_are_taken_off(s: Seq<char>, c: char)
    ensures
        without_h(Seq::empty()) == Seq::<char>::empty(),
        without_h(s.push(c)) == if c == 'h' || c == 'H' {
            without_h(s)
        } else {
            s.push(c)
        },
{
    assert(s.push(c).drop_last() =~= s);
}

/// Hours and minutes around a colon are read back, a day at most; minutes of sixty and
/// more are refused.
pub proof fn clock_durations_read_back(h: nat, m: nat)
    requires
        h <= i64::MAX,
        m <= i64::MAX,
    ensures
        hm_dur(text::dec(h).push(':') + text::dec(m)) == if m >= 60 {
            None
        } else if h * 60 + m > 1440 {
            Some(1440int)
        } else {
            Some((h * 60 + m) as int)
        },
{
    let a = text::dec(h);
    let b = text::dec(m);
    let s = a.push(':') + b;
    text::dec_is_digits(h);
    text::dec_is_digits(m);
    text::dec_reads_back(h);
    text::dec_reads_back(m);
    assert(s[0] == a[0]);
    assert(text::is_digit(a[0]));
    assert(text::is_digit(a[a.len() - 1]));
    assert(text::is_digit(b[0]));
    assert(s.last() == b[b.len() - 1]);
    assert(text::is_digit(b[b.len() - 1]));
    text::trim_leaves(s);
    text::trim_leaves(a);
    text::trim_leaves(b);
    assert(without_h(s) == s);
    assert(s[a.len() as int] == ':');
    text::digits_hold_no_other(a, ':');
    text::digits_hold_no_other(b, ':');
    text::split_none(a, ':');
    text::split_last(a, b, ':');
    let parts = text::split_on(s, ':');
    assert(parts.len() == 2 && parts[0] == a && parts[1] == b);
    assert(s.contains(':'));
}

/// A whole number with the letter `h` behind it is so many hours, a day at most.
pub proof fn hours_are_sixty_minutes(n: nat)
    requires
        n <= 100,
    ensures
        hm_dur(text::dec(n).push('h')) == if n > 24 {
            Some(1440int)
        } else {
            Some(60 * n as int)
        },
{
    let s = text::dec(n);
    let raw = s.push('h');
    text::dec_is_digits(n);
    assert(raw[0] == s[0]);
    assert(text::is_digit(s[0]));
    assert(text::is_digit(s[s.len() - 1]));
    text::plain_white_space('h');
    text::trim_leaves(raw);
    text::trim_leaves(s);
    assert(raw.drop_last() =~= s);
    assert(without_h(s) == s);
    assert(without_h(raw) == s);
    text::digits_hold_no_other(s, ':');
    text::digits_hold_no_other(s, 'e');
    text::digits_hold_no_other(s, '.');
    assert(text::lower(s) =~= s);
    text::split_none(s, 'e');
    text::split_none(s, '.');
    let none = Seq::<char>::empty();
    assert(s + none =~= s);
    assert(decimal::decimal(s) == Some((s, 0int)));
    assert(decimal::pow10(0) == 1);
    assert(n * 1 == n);
    decimal::lemma_hundred_is_finite();
    assert(n < decimal::infinite_from() * 1);
    decimal::hours_are_rounded_to_the_nearest_minute(n, 1);
    assert(1 * decimal::nearest_minutes(n, 1) == decimal::nearest_minutes(n, 1));
}

/// A number below zero is no duration.
pub proof fn negative_durations_are_refused(n: nat)
    requires
        1 <= n <= i64::MAX,
    ensures
        hm_dur(seq!['-'] + text::dec(n)) is None,
{
    let d = text::dec(n);
    let s = seq!['-'] + d;
    text::dec_is_digits(n);
    text::dec_reads_back(n);
    assert(text::is_digit(d[0]));
    assert(text::is_digit(d[d.len() - 1]));
    assert(s.last() == d[d.len() - 1]);
    text::trim_leaves(s);
    assert(without_h(s) == s);
    text::digits_hold_no_other(d, ':');
    assert(!s.contains(':')) by {
        if s.contains(':') {
            let i = choose|i: int| 0 <= i < s.len() && s[i] == ':';
            assert(d[i - 1] == ':');
        }
    }
    assert(s.skip(1) =~= d);
    assert(text::parse_int(s) == Some(-(n as int)));
}

} // verus!
