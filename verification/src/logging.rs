//! Which log files are kept.

use crate::dates;
use crate::dates::Date;
use crate::text;
use vstd::prelude::*;

verus! {

/// How many days a log file is kept.
pub const RETENTION_DAYS: u32 = 30;

/// What the name of a daily log file begins with.
pub const FILE_PREFIX: &'static str = "time-tracker";

/// The first day whose log is kept.
pub fn retention_cutoff(today: Date) -> (r: Date)
    requires
        today.valid(),
        today.year > -262143,
    ensures
        r.valid(),
        r.day_number() == today.day_number() - RETENTION_DAYS,
{
    dates::days_earlier(today, RETENTION_DAYS)
}

/// The log of a day before the first that is kept, by its name and what is read
/// as the date in it.
pub open spec fn is_expired(date: Option<(int, int, int)>, cutoff: Date) -> bool {
    match date {
        Some((y, m, d)) => !cutoff.not_after(
            Date { year: y as i32, month: m as u32, day: d as u32 },
        ),
        None => false,
    }
}

/// The part of a log file's name that is its date.
pub open spec fn dated_part(name: Seq<char>) -> Option<Seq<char>> {
    let prefix = FILE_PREFIX@.push('.');
    if text::has_prefix(name, prefix) {
        Some(name.skip(prefix.len() as int))
    } else {
        None
    }
}

/// The day was before the first that is kept.
pub fn day_expired(date: &Option<Date>, cutoff: &Date) -> (r: bool)
    ensures
        r == is_expired(dates::ymd(*date), *cutoff),
{
    match date {
        Some(d) => !cutoff.le(d),
        None => false,
    }
}

/// The file is a daily log that is no longer kept.
pub fn expired(name: &str, cutoff: &Date) -> (r: bool)
    ensures
        r == match dated_part(name@) {
            Some(d) => is_expired(dates::written_date(d), *cutoff),
            None => false,
        },
{
    let mut prefix = text::copy(FILE_PREFIX);
    prefix.push('.');
    if !text::text_starts_with(name, prefix.as_str()) {
        return false;
    }
    let v = text::chars_of(name);
    let p = text::chars_of(prefix.as_str());
    let rest = text::piece(v.as_slice(), p.len(), v.len());
    assert(rest@ =~= name@.skip(p@.len() as int));
    let rest_text = text::text_of(rest.as_slice());
    let date = dates::parse_date(rest_text.as_str());
    day_expired(&date, cutoff)
}

// ---- laws -----------------------------------------------------------------

/// A log is kept for thirty days: that of an earlier day expires, and no other.
pub proof fn logs_are_kept_for_a_month(date: Date, today: Date, cutoff: Date)
    requires
        date.valid(),
        today.valid(),
        cutoff.valid(),
        cutoff.day_number() == today.day_number() - RETENTION_DAYS,
    ensures
        is_expired(dates::ymd(Some(date)), cutoff) == (date.day_number() < today.day_number()
            - RETENTION_DAYS),
{
    dates::order_is_day_order(cutoff, date);
}

/// A log is one of this program if its name begins with the program's and a dot; what
/// stands behind them is its day. A name without a day is never of an old log.
pub proof fn logs_are_named_for_their_day(name: Seq<char>, day: Seq<char>, cutoff: Date)
    ensures
        dated_part(name) == Some(day) <==> name == seq![
            't',
            'i',
            'm',
            'e',
            '-',
            't',
            'r',
            'a',
            'c',
            'k',
            'e',
            'r',
            '.',
        ] + day,
        !is_expired(None, cutoff),
{
    reveal_strlit("time-tracker");
    let prefix = seq!['t', 'i', 'm', 'e', '-', 't', 'r', 'a', 'c', 'k', 'e', 'r', '.'];
    assert(FILE_PREFIX@.push('.') =~= prefix);
    let full = prefix + day;
    assert(full.take(13) =~= prefix);
    assert(full.skip(13) =~= day);
    if dated_part(name) == Some(day) {
        assert(name =~= name.take(13) + name.skip(13));
    }
}

/// A log is kept for thirty days.
pub proof fn logs_are_kept_for_thirty_days(date: Date, today: Date, cutoff: Date)
    requires
        date.valid(),
        today.valid(),
        cutoff.valid(),
        cutoff.day_number() == today.day_number() - RETENTION_DAYS,
    ensures
        is_expired(dates::ymd(Some(date)), cutoff) <==> today.day_number() - date.day_number() > 30,
{
    logs_are_kept_for_a_month(date, today, cutoff);
}

} // verus!
