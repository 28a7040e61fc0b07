//! Calendar dates and instants, and the months that the log files are named after.

use chrono::Datelike;

use crate::text;
use vstd::prelude::*;

verus! {

/// A date of the proleptic Gregorian calendar.
#[derive(Debug, Clone, Copy, PartialEq, Eq, Structural)]
pub struct Date {
    pub year: i32,
    pub month: u32,
    pub day: u32,
}

/// An instant: seconds and nanoseconds since the start of 1970 in UTC.
#[derive(Debug, Clone, Copy, PartialEq, Eq, Structural)]
pub struct Stamp {
    pub secs: i64,
    pub nanos: u32,
}

pub open spec fn is_leap(year: int) -> bool {
    year % 4 == 0 && (year % 100 != 0 || year % 400 == 0)
}

pub open spec fn days_in_month(year: int, month: int) -> int {
    if month == 2 {
        if is_leap(year) {
            29
        } else {
            28
        }
    } else if month == 4 || month == 6 || month == 9 || month == 11 {
        30
    } else {
        31
    }
}

pub open spec fn valid_ymd(year: int, month: int, day: int) -> bool {
    &&& -262143 <= year <= 262142
    &&& 1 <= month <= 12
    &&& 1 <= day <= days_in_month(year, month)
}

/// The days of the months of a year before `month`.
pub open spec fn days_before_month(year: int, month: int) -> int
    decreases month,
{
    if month <= 1 {
        0
    } else {
        days_before_month(year, month - 1) + days_in_month(year, month - 1)
    }
}

/// The days before the first of January of `year`; none before year 1.
pub open spec fn days_before_year(year: int) -> int {
    let y = year - 1;
    365 * y + y / 4 - y / 100 + y / 400
}

impl Date {
    pub open spec fn valid(self) -> bool {
        valid_ymd(self.year as int, self.month as int, self.day as int)
    }

    /// The day counted from the first of January of year 1, which is day 1.
    pub open spec fn day_number(self) -> int {
        days_before_year(self.year as int) + days_before_month(self.year as int, self.month as int)
            + self.day
    }

    /// Not later, by year, month and day.
    pub open spec fn not_after(self, other: Date) -> bool {
        ||| self.year < other.year
        ||| self.year == other.year && self.month < other.month
        ||| self.year == other.year && self.month == other.month && self.day <= other.day
    }

    /// The date as `YYYY-MM-DD`; a year of five or more digits, or before year 0,
    /// has its sign in front.
    pub open spec fn text(self) -> Seq<char> {
        year_text(self.year as int) + seq!['-'] + text::dec_padded(self.month as nat, 2) + seq!['-']
            + text::dec_padded(self.day as nat, 2)
    }

    /// The month as `YYYY-MM`.
    pub open spec fn stem(self) -> Seq<char> {
        stem_year(self.year as int) + seq!['-'] + text::dec_padded(self.month as nat, 2)
    }
}

pub open spec fn year_text(year: int) -> Seq<char> {
    if 0 <= year <= 9999 {
        text::dec_padded(year as nat, 4)
    } else if year > 9999 {
        seq!['+'] + text::dec_padded(year as nat, 4)
    } else {
        seq!['-'] + text::dec_padded((-year) as nat, 4)
    }
}

/// The year in a file name: four characters at least, a minus sign among them.
pub open spec fn stem_year(year: int) -> Seq<char> {
    if year >= 0 {
        text::dec_padded(year as nat, 4)
    } else {
        seq!['-'] + text::dec_padded((-year) as nat, 3)
    }
}

impl Stamp {
    /// Not later.
    pub open spec fn not_after(self, other: Stamp) -> bool {
        self.secs < other.secs || (self.secs == other.secs && self.nanos <= other.nanos)
    }

    /// Executable form of the order.
    pub fn le(&self, other: &Stamp) -> (r: bool)
        ensures
            r == self.not_after(*other),
    {
        self.secs < other.secs || (self.secs == other.secs && self.nanos <= other.nanos)
    }
}

// ---- outside --------------------------------------------------------------

pub open spec fn ymd(d: Option<Date>) -> Option<(int, int, int)> {
    match d {
        Some(d) => Some((d.year as int, d.month as int, d.day as int)),
        None => None,
    }
}

/// What `NaiveDate::parse_from_str` reads with the format `%Y-%m-%d`.
pub uninterp spec fn written_date(s: Seq<char>) -> Option<(int, int, int)>;

/// `chrono::NaiveDate::parse_from_str` with `%Y-%m-%d`. It takes shorter numbers,
/// signs and spaces too, so what it reads is only named; what it gives is a date
/// of the calendar, and the usual text of a date of four-digit year gives that date.
#[verifier::external_body]
pub(crate) fn parse_date(s: &str) -> (r: Option<Date>)
    ensures
        ymd(r) == written_date(s@),
        r matches Some(d) ==> d.valid(),
        forall|d: Date|
            d.valid() && 0 <= d.year <= 9999 && s@ == #[trigger] d.text() ==> r == Some(d),
{
    chrono::NaiveDate::parse_from_str(s, "%Y-%m-%d").ok().map(
        |d| Date { year: d.year(), month: d.month(), day: d.day() },
    )
}

pub open spec fn moment(t: Option<(Date, Stamp)>) -> Option<(int, int, int, int, int)> {
    match t {
        Some((d, s)) => Some(
            (d.year as int, d.month as int, d.day as int, s.secs as int, s.nanos as int),
        ),
        None => None,
    }
}

/// What `DateTime::parse_from_rfc3339` reads: year, month and day as written, and
/// the instant in seconds and nanoseconds.
pub uninterp spec fn written_moment(s: Seq<char>) -> Option<(int, int, int, int, int)>;

/// `chrono::DateTime::parse_from_rfc3339`. What it accepts is only named; the date
/// it gives, in the offset that the text names, is one of the calendar.
#[verifier::external_body]
pub(crate) fn parse_moment(s: &str) -> (r: Option<(Date, Stamp)>)
    ensures
        moment(r) == written_moment(s@),
        r matches Some((d, _)) ==> d.valid(),
{
    chrono::DateTime::parse_from_rfc3339(s).ok().map(
        |t|
            (
                Date { year: t.year(), month: t.month(), day: t.day() },
                Stamp { secs: t.timestamp(), nanos: t.timestamp_subsec_nanos() },
            ),
    )
}

/// `chrono::NaiveDate - TimeDelta`: the date that many days earlier.
#[verifier::external_body]
pub(crate) fn days_earlier(d: Date, days: u32) -> (r: Date)
    requires
        d.valid(),
        d.year > -262143,
        days <= 365,
    ensures
        r.valid(),
        r.day_number() == d.day_number() - days,
{
    let n = chrono::NaiveDate::from_ymd_opt(d.year, d.month, d.day).unwrap();
    let e = n - chrono::TimeDelta::days(days as i64);
    Date { year: e.year(), month: e.month(), day: e.day() }
}

/// `chrono::Weekday::num_days_from_monday` of a date: the days since Monday. The
/// first of January of year 1 was one.
#[verifier::external_body]
pub(crate) fn days_since_monday(d: Date) -> (r: u32)
    requires
        d.valid(),
    ensures
        r == (d.day_number() - 1) % 7,
{
    chrono::NaiveDate::from_ymd_opt(d.year, d.month, d.day).unwrap().weekday().num_days_from_monday()
}

/// The instant at which a date begins in UTC.
pub open spec fn day_start(d: Date) -> Stamp {
    Stamp { secs: ((d.day_number() - 719163) * 86400) as i64, nanos: 0 }
}

/// `chrono::NaiveDate::and_hms_opt` and `and_utc` at midnight: the instant at which
/// a date begins in UTC. The first of January 1970 is day 719163.
#[verifier::external_body]
pub(crate) fn midnight_utc(d: Date) -> (r: Stamp)
    requires
        d.valid(),
    ensures
        r == day_start(d),
{
    let n = chrono::NaiveDate::from_ymd_opt(d.year, d.month, d.day).unwrap();
    let t = n.and_hms_opt(0, 0, 0).unwrap().and_utc();
    Stamp { secs: t.timestamp(), nanos: t.timestamp_subsec_nanos() }
}

// ---- text -----------------------------------------------------------------

/// The date as `YYYY-MM-DD`.
pub fn date_text(d: &Date) -> (r: String)
    ensures
        r@ == d.text(),
{
    let mut out = String::new();
    if 0 <= d.year && d.year <= 9999 {
        text::push_padded(&mut out, d.year as u64, 4);
    } else if d.year > 9999 {
        out.push('+');
        text::push_padded(&mut out, d.year as u64, 4);
    } else {
        out.push('-');
        text::push_padded(&mut out, (-(d.year as i64)) as u64, 4);
    }
    out.push('-');
    text::push_padded(&mut out, d.month as u64, 2);
    out.push('-');
    text::push_padded(&mut out, d.day as u64, 2);
    assert(out@ =~= d.text());
    out
}

/// The month as `YYYY-MM`: the name of the monthly file, without its suffix.
pub fn month_stem(d: &Date) -> (r: String)
    ensures
        r@ == d.stem(),
{
    let mut out = String::new();
    if d.year >= 0 {
        text::push_padded(&mut out, d.year as u64, 4);
    } else {
        out.push('-');
        text::push_padded(&mut out, (-(d.year as i64)) as u64, 3);
    }
    out.push('-');
    text::push_padded(&mut out, d.month as u64, 2);
    assert(out@ =~= d.stem());
    out
}

impl Date {
    /// Executable form of the order.
    pub fn le(&self, other: &Date) -> (r: bool)
        ensures
            r == self.not_after(*other),
    {
        self.year < other.year || (self.year == other.year && (self.month < other.month || (
        self.month == other.month && self.day <= other.day)))
    }

    /// The first of the month.
    pub fn month_start(&self) -> (r: Date)
        ensures
            r == (Date { year: self.year, month: self.month, day: 1 }),
    {
        Date { year: self.year, month: self.month, day: 1 }
    }
}

// ---- laws -----------------------------------------------------------------

proof fn lemma_month_lengths(year: int, a: int, b: int)
    requires
        1 <= a <= b <= 13,
    ensures
        0 <= days_before_month(year, a) <= days_before_month(year, b),
        a < b ==> days_before_month(year, a) + days_in_month(year, a) <= days_before_month(year, b),
    decreases b,
{
    if a < b {
        lemma_month_lengths(year, a, b - 1);
    } else if a > 1 {
        lemma_month_lengths(year, a - 1, b - 1);
    }
}

proof fn lemma_year_length(year: int)
    ensures
        days_before_month(year, 13) == if is_leap(year) {
            366int
        } else {
            365
        },
        days_before_year(year + 1) == days_before_year(year) + days_before_month(year, 13),
{
    reveal_with_fuel(days_before_month, 14);
}

proof fn lemma_years(a: int, b: int)
    requires
        a < b,
    ensures
        days_before_year(a) + days_before_month(a, 13) <= days_before_year(b),
    decreases b - a,
{
    lemma_year_length(a);
    if a + 1 < b {
        lemma_year_length(a + 1);
        lemma_years(a + 1, b);
    }
}

/// The order of dates is the order of their day numbers.
pub proof fn order_is_day_order(a: Date, b: Date)
    requires
        a.valid(),
        b.valid(),
    ensures
        a.not_after(b) == (a.day_number() <= b.day_number()),
        a == b <==> a.day_number() == b.day_number(),
{
    if a != b {
        if a.not_after(b) {
            lemma_strict_order(a, b);
        } else {
            lemma_strict_order(b, a);
        }
    }
}

proof fn lemma_strict_order(a: Date, b: Date)
    requires
        a.valid(),
        b.valid(),
        a.not_after(b),
        a != b,
    ensures
        a.day_number() < b.day_number(),
{
    lemma_month_lengths(a.year as int, a.month as int, 13);
    lemma_month_lengths(b.year as int, 1, b.month as int);
    if a.year < b.year {
        lemma_years(a.year as int, b.year as int);
    } else if a.month < b.month {
        lemma_month_lengths(a.year as int, a.month as int, b.month as int);
    }
}

/// The months have their lengths: seven have thirty-one days, four have thirty, and
/// February has twenty-nine in a leap year, which every fourth year is but for the full
/// centuries that four does not divide.
pub proof fn months_have_their_lengths(year: int, month: int)
    requires
        1 <= month <= 12,
    ensures
        month == 1 || month == 3 || month == 5 || month == 7 || month == 8 || month == 10 || month
            == 12 ==> days_in_month(year, month) == 31,
        month == 4 || month == 6 || month == 9 || month == 11 ==> days_in_month(year, month) == 30,
        month == 2 && year % 4 != 0 ==> days_in_month(year, month) == 28,
        month == 2 && year % 4 == 0 && year % 100 != 0 ==> days_in_month(year, month) == 29,
        month == 2 && year % 100 == 0 && year % 400 != 0 ==> days_in_month(year, month) == 28,
        month == 2 && year % 400 == 0 ==> days_in_month(year, month) == 29,
{
}

/// The number of a day is one more than that of the day before it, also where a month
/// or a year begins; the first day of the year 1 has the number one.
pub proof fn days_follow_one_another(a: Date, b: Date)
    requires
        a.valid(),
        b.valid(),
        ({
            ||| a.year == b.year && a.month == b.month && a.day + 1 == b.day
            ||| a.year == b.year && a.month + 1 == b.month && a.day == days_in_month(
                a.year as int,
                a.month as int,
            ) && b.day == 1
            ||| a.year + 1 == b.year && a.month == 12 && a.day == 31 && b.month == 1 && b.day == 1
        }),
    ensures
        b.day_number() == a.day_number() + 1,
        (Date { year: 1, month: 1, day: 1 }).day_number() == 1,
{
    lemma_year_length(a.year as int);
    assert(days_before_month(a.year as int, 13) == days_before_month(a.year as int, 12)
        + days_in_month(a.year as int, 12));
    assert(days_before_month(1, 1) == 0);
}

/// A day begins as many times 86400 seconds after the first of January 1970 as there
/// are days between.
pub proof fn days_are_of_equal_length(a: Date, b: Date)
    requires
        a.valid(),
        b.valid(),
    ensures
        day_start(b).secs - day_start(a).secs == 86400 * (b.day_number() - a.day_number()),
        day_start(b).nanos == 0,
        day_start(Date { year: 1970, month: 1, day: 1 }).secs == 0,
{
    lemma_month_lengths(a.year as int, 1, a.month as int);
    lemma_month_lengths(a.year as int, a.month as int, 13);
    lemma_month_lengths(b.year as int, 1, b.month as int);
    lemma_month_lengths(b.year as int, b.month as int, 13);
    lemma_year_length(a.year as int);
    lemma_year_length(b.year as int);
    assert(days_before_month(1970, 1) == 0);
}

/// A date of a year of four digits is written in ten characters: the year, the month
/// and the day, each with zeros in front, and a hyphen between two; its first seven are
/// the name of its month.
pub proof fn dates_are_written_in_ten_characters(d: Date)
    requires
        d.valid(),
        0 <= d.year <= 9999,
    ensures
        d.text().len() == 10,
        d.text()[4] == '-',
        d.text()[7] == '-',
        text::parse_nat(d.text().take(4)) == Some(d.year as nat),
        text::parse_nat(d.text().subrange(5, 7)) == Some(d.month as nat),
        text::parse_nat(d.text().skip(8)) == Some(d.day as nat),
        d.stem() == d.text().take(7),
{
    let y = text::dec_padded(d.year as nat, 4);
    let m = text::dec_padded(d.month as nat, 2);
    let k = text::dec_padded(d.day as nat, 2);
    reveal_with_fuel(text::ten_to, 5);
    text::padded_fits(d.year as nat, 4);
    text::padded_fits(d.month as nat, 2);
    text::padded_fits(d.day as nat, 2);
    text::padded_reads_back(d.year as nat, 4);
    text::padded_reads_back(d.month as nat, 2);
    text::padded_reads_back(d.day as nat, 2);
    assert(d.text().take(4) =~= y);
    assert(d.text().subrange(5, 7) =~= m);
    assert(d.text().skip(8) =~= k);
    assert(d.stem() =~= d.text().take(7));
}

/// Years of more than four digits, and those before the year 0, have a sign in front in
/// a date; in the name of a month only the latter have.
pub proof fn other_years_have_a_sign(year: int)
    ensures
        year > 9999 ==> year_text(year) == seq!['+'] + text::dec(year as nat) && stem_year(year)
            == text::dec(year as nat),
        year < 0 ==> year_text(year) == seq!['-'] + text::dec_padded((-year) as nat, 4)
            && stem_year(year) == seq!['-'] + text::dec_padded((-year) as nat, 3),
{
    if year > 9999 {
        let n = year as nat;
        text::dec_is_digits(n / 10);
        text::dec_is_digits(n / 100);
        text::dec_is_digits(n / 1000);
        assert(text::dec(n).len() == text::dec(n / 10).len() + 1);
        assert((n / 10) / 10 == n / 100);
        assert((n / 100) / 10 == n / 1000);
        assert(text::dec(n / 10).len() == text::dec(n / 100).len() + 1);
        assert(text::dec(n / 100).len() == text::dec(n / 1000).len() + 1);
    }
}

} // verus!
