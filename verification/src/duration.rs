//! Durations as they are typed: `0.3` (hours), `18m`, `1h30m`, `1:15`.

use crate::decimal;
use crate::text;
use vstd::prelude::*;

verus! {

/// The longest duration of one entry: a day.
pub const MAX_MINUTES: u32 = 1440;

/// Why a text is no duration.
#[derive(Debug, Clone, PartialEq, Eq)]
pub struct ParseError(pub String);

impl ParseError {
    /// The reason, in words.
    pub fn to_string(&self) -> (r: String)
        ensures
            r@ == self.0@,
    {
        self.0.clone()
    }
}

/// A non-empty run of digits that fits in 32 bits.
pub open spec fn count(s: Seq<char>) -> Option<nat> {
    if s.len() > 0 && text::all_digits(s) && text::digits_value(s) <= u32::MAX {
        Some(text::digits_value(s))
    } else {
        None
    }
}

/// The text without white space.
pub open spec fn without_white(s: Seq<char>) -> Seq<char> {
    s.filter(|c: char| !text::is_white(c))
}

pub open spec fn total(hours: Option<nat>, minutes: Option<nat>) -> Option<nat> {
    match (hours, minutes) {
        (Some(h), Some(m)) => Some(h * 60 + m),
        _ => None,
    }
}

/// Hours and minutes with their letters, either alone or both in either order:
/// what stands before the last letter is one count, or the other letter's count,
/// that letter and one count.
pub open spec fn lettered(s: Seq<char>) -> Option<nat> {
    let body = s.drop_last();
    if s.len() == 0 {
        None
    } else if s.last() == 'h' {
        let parts = text::split_on(body, 'm');
        if parts.len() == 1 {
            total(count(body), Some(0))
        } else if parts.len() == 2 {
            total(count(parts[1]), count(parts[0]))
        } else {
            None
        }
    } else if s.last() == 'm' {
        let parts = text::split_on(body, 'h');
        if parts.len() == 1 {
            total(Some(0), count(body))
        } else if parts.len() == 2 {
            total(count(parts[0]), count(parts[1]))
        } else {
            None
        }
    } else {
        None
    }
}

/// Hours and minutes around a colon; the minutes are below sixty.
pub open spec fn clocked(s: Seq<char>) -> Option<nat> {
    let parts = text::split_on(s, ':');
    let hours = text::parse_nat(parts[0]);
    let minutes = text::parse_nat(parts[1]);
    if parts.len() == 2 && hours is Some && minutes is Some && hours->0 <= u32::MAX && minutes->0
        < 60 {
        Some(hours->0 * 60 + minutes->0)
    } else {
        None
    }
}

/// The minutes that a trimmed text stands for.
pub open spec fn minutes_of(s: Seq<char>) -> Option<nat> {
    let low = text::lower(s);
    if s.contains(':') {
        clocked(s)
    } else if low.contains('h') || low.contains('m') {
        lettered(without_white(low))
    } else {
        decimal::decimal_minutes(s)
    }
}

/// The minutes of a duration, or why it is none.
pub open spec fn duration(input: Seq<char>) -> Result<nat, Seq<char>> {
    let s = text::trim(input);
    if s.len() == 0 {
        Err("empty"@)
    } else if s[0] == '-' {
        Err("negative not allowed"@)
    } else {
        match minutes_of(s) {
            None => Err("could not parse "@ + text::quoted(s)),
            Some(m) => if m == 0 {
                Err("must be > 0"@)
            } else if m > MAX_MINUTES {
                Err("must be <= 24h"@)
            } else {
                Ok(m)
            },
        }
    }
}

fn err(msg: &str) -> (r: ParseError)
    ensures
        r.0@ == msg@,
{
    ParseError(text::copy(msg))
}

/// Parse a duration string. Returns total minutes.
pub fn parse(input: &str) -> (r: Result<u32, ParseError>)
    ensures
        match r {
            Ok(m) => duration(input@) == Ok::<nat, Seq<char>>(m as nat),
            Err(e) => duration(input@) == Err::<nat, Seq<char>>(e.0@),
        },
{
    let s = text::trim_text(input);
    let v = text::chars_of(s.as_str());
    if v.len() == 0 {
        return Err(err("empty"));
    }
    if v[0] == '-' {
        return Err(err("negative not allowed"));
    }
    match parse_inner(s.as_str()) {
        None => {
            let mut msg = text::copy("could not parse ");
            let q = text::debug_text(s.as_str());
            text::push_text(&mut msg, q.as_str());
            Err(ParseError(msg))
        },
        Some(m) => if m == 0 {
            Err(err("must be > 0"))
        } else if m > MAX_MINUTES as u64 {
            Err(err("must be <= 24h"))
        } else {
            Ok(m as u32)
        },
    }
}

fn holds(v: &[char], c: char) -> (r: bool)
    ensures
        r == v@.contains(c),
{
    let mut i: usize = 0;
    while i < v.len()
        invariant
            i <= v@.len(),
            forall|j: int| 0 <= j < i ==> v@[j] != c,
        decreases v@.len() - i,
    {
        if v[i] == c {
            return true;
        }
        i += 1;
    }
    false
}

/// The minutes of a trimmed text; where they are over a day, any number over a day.
fn parse_inner(s: &str) -> (r: Option<u64>)
    ensures
        match r {
            Some(m) => minutes_of(s@) is Some && (m == minutes_of(s@)->0 || (m > MAX_MINUTES
                && minutes_of(s@)->0 > MAX_MINUTES)),
            None => minutes_of(s@) is None,
        },
{
    let v = text::chars_of(s);
    if holds(v.as_slice(), ':') {
        return parse_clock(v.as_slice());
    }
    let low = text::lower_text(s);
    let w = text::chars_of(low.as_str());
    if holds(w.as_slice(), 'h') || holds(w.as_slice(), 'm') {
        return parse_hm(w.as_slice());
    }
    match decimal::minutes_of_decimal(s) {
        Some(m) => Some(m as u64),
        None => None,
    }
}

fn parse_clock(v: &[char]) -> (r: Option<u64>)
    ensures
        match r {
            Some(m) => clocked(v@) == Some(m as nat),
            None => clocked(v@) is None,
        },
{
    let parts = text::split(v, ':');
    if parts.len() != 2 {
        return None;
    }
    let ghost sp = text::split_on(v@, ':');
    assert(sp[0] == text::texts(parts@)[0]);
    assert(sp[1] == text::texts(parts@)[1]);
    match (text::parse_u64(parts[0].as_str(), u32::MAX as u64), text::parse_u64(
        parts[1].as_str(),
        59,
    )) {
        (Some(h), Some(m)) => Some(h * 60 + m),
        _ => None,
    }
}

fn count_of(s: &str) -> (r: Option<u64>)
    ensures
        match r {
            Some(n) => count(s@) == Some(n as nat) && n <= u32::MAX,
            None => count(s@) is None,
        },
{
    let v = text::chars_of(s);
    if v.len() == 0 || !text::digits_only(v.as_slice()) {
        return None;
    }
    match text::digits_number(v.as_slice()) {
        Some(n) => if n <= u32::MAX as u128 {
            Some(n as u64)
        } else {
            None
        },
        None => None,
    }
}

fn strip_white(v: &[char]) -> (r: Vec<char>)
    ensures
        r@ == without_white(v@),
{
    let mut out: Vec<char> = Vec::new();
    let mut i: usize = 0;
    reveal(Seq::filter);
    while i < v.len()
        invariant
            i <= v@.len(),
            out@ == without_white(v@.take(i as int)),
        decreases v@.len() - i,
    {
        assert(v@.take(i + 1).drop_last() =~= v@.take(i as int));
        reveal(Seq::filter);
        if !text::white(v[i]) {
            out.push(v[i]);
        }
        i += 1;
    }
    assert(v@.take(v@.len() as int) =~= v@);
    out
}

fn parse_hm(s: &[char]) -> (r: Option<u64>)
    ensures
        match r {
            Some(m) => lettered(without_white(s@)) == Some(m as nat),
            None => lettered(without_white(s@)) is None,
        },
{
    let cleaned = strip_white(s);
    let n: usize = cleaned.len();
    if n == 0 {
        return None;
    }
    let last = cleaned[n - 1];
    if last != 'h' && last != 'm' {
        return None;
    }
    let body = text::piece(cleaned.as_slice(), 0, n - 1);
    assert(body@ =~= cleaned@.drop_last());
    let other = if last == 'h' {
        'm'
    } else {
        'h'
    };
    let parts = text::split(body.as_slice(), other);
    let ghost sp = text::split_on(body@, other);
    assert(sp.len() == parts@.len());
    if parts.len() == 1 {
        let whole = text::text_of(body.as_slice());
        match count_of(whole.as_str()) {
            Some(k) => if last == 'h' {
                Some(k * 60)
            } else {
                Some(k)
            },
            None => None,
        }
    } else if parts.len() == 2 {
        assert(sp[0] == text::texts(parts@)[0]);
        assert(sp[1] == text::texts(parts@)[1]);
        match (count_of(parts[0].as_str()), count_of(parts[1].as_str())) {
            (Some(a), Some(b)) => if last == 'h' {
                Some(b * 60 + a)
            } else {
                Some(a * 60 + b)
            },
            _ => None,
        }
    } else {
        None
    }
}

// ---- laws -----------------------------------------------------------------

/// A duration is at least a minute and at most a day.
pub proof fn durations_are_within_a_day(input: Seq<char>)
    ensures
        duration(input) matches Ok(m) ==> 1 <= m <= 1440,
{
}

proof fn lemma_no_white(s: Seq<char>)
    requires
        forall|i: int| 0 <= i < s.len() ==> !text::is_white(#[trigger] s[i]),
    ensures
        without_white(s) == s,
    decreases s.len(),
{
    reveal(Seq::filter);
    if s.len() > 0 {
        lemma_no_white(s.drop_last());
        assert(!text::is_white(s.last()));
        assert(s.drop_last().push(s.last()) =~= s);
    }
}

proof fn lemma_plain(s: Seq<char>)
    requires
        s.len() > 0,
        forall|i: int|
            0 <= i < s.len() ==> text::is_digit(#[trigger] s[i]) || s[i] == 'h' || s[i] == 'm',
    ensures
        text::trim(s) == s,
        text::lower(s) == s,
        without_white(s) == s,
        !s.contains(':'),
        s[0] != '-',
{
    assert(text::is_digit(s[0]) || s[0] == 'h' || s[0] == 'm');
    assert(text::is_digit(s[s.len() - 1]) || s[s.len() - 1] == 'h' || s[s.len() - 1] == 'm');
    text::trim_leaves(s);
    lemma_no_white(s);
    assert(text::lower(s) =~= s);
}

/// Minutes with their letter are read back: `90m`.
pub proof fn minutes_read_back(n: nat)
    requires
        1 <= n <= 1440,
    ensures
        duration(text::dec(n).push('m')) == Ok::<nat, Seq<char>>(n),
{
    let d = text::dec(n);
    let s = d.push('m');
    text::dec_is_digits(n);
    lemma_plain(s);
    assert(s.last() == 'm');
    assert(s.contains('m'));
    assert(s.drop_last() =~= d);
    text::digits_hold_no_other(d, 'h');
    text::split_none(d, 'h');
}

/// Hours and minutes with their letters are read back: `1h30m`.
#[verifier::spinoff_prover]
pub proof fn hours_and_minutes_read_back(h: nat, m: nat)
    requires
        1 <= h * 60 + m <= 1440,
    ensures
        duration(text::dec(h).push('h') + text::dec(m).push('m')) == Ok::<nat, Seq<char>>(
            h * 60 + m,
        ),
{
    let a = text::dec(h);
    let b = text::dec(m);
    let s = a.push('h') + b.push('m');
    text::dec_is_digits(h);
    text::dec_is_digits(m);
    assert forall|i: int| 0 <= i < s.len() implies text::is_digit(#[trigger] s[i]) || s[i] == 'h'
        || s[i] == 'm' by {
        if i < a.len() {
            assert(s[i] == a[i]);
        } else if a.len() < i < a.len() + 1 + b.len() {
            assert(s[i] == b[i - a.len() - 1]);
        }
    }
    lemma_plain(s);
    assert(s.last() == 'm');
    assert(s[s.len() - 1] == 'm');
    assert(s.contains('m'));
    assert(s.drop_last() =~= a.push('h') + b);
    text::digits_hold_no_other(a, 'h');
    text::digits_hold_no_other(b, 'h');
    text::split_none(a, 'h');
    text::split_last(a, b, 'h');
    let parts = text::split_on(a.push('h') + b, 'h');
    assert(parts.len() == 2 && parts[0] == a && parts[1] == b);
    assert(count(a) == Some(h));
    assert(count(b) == Some(m));
    assert(lettered(s) == Some(h * 60 + m));
    assert(minutes_of(s) == Some(h * 60 + m));
}

/// Hours and minutes around a colon are read back: `1:15`.
pub proof fn clock_form_reads_back(h: nat, m: nat)
    requires
        m < 60,
        1 <= h * 60 + m <= 1440,
    ensures
        duration(text::dec(h).push(':') + text::dec(m)) == Ok::<nat, Seq<char>>(h * 60 + m),
{
    let a = text::dec(h);
    let b = text::dec(m);
    let s = a.push(':') + b;
    text::dec_is_digits(h);
    text::dec_is_digits(m);
    text::dec_reads_back(h);
    text::dec_reads_back(m);
    assert(s[0] == a[0]);
    assert(text::is_digit(a[0]));
    assert(s.last() == b[b.len() - 1]);
    assert(text::is_digit(b[b.len() - 1]));
    text::trim_leaves(s);
    assert(s[a.len() as int] == ':');
    text::digits_hold_no_other(a, ':');
    text::digits_hold_no_other(b, ':');
    text::split_none(a, ':');
    text::split_last(a, b, ':');
}

/// Tenths of an hour are read back: `1.5`.
pub proof fn tenths_read_back(t: nat)
    requires
        1 <= t <= 240,
    ensures
        duration(text::dec(t / 10).push('.') + text::dec(t % 10)) == Ok::<nat, Seq<char>>(6 * t),
{
    let a = text::dec(t / 10);
    let b = text::dec(t % 10);
    let s = a.push('.') + b;
    text::dec_is_digits(t / 10);
    text::dec_is_digits(t % 10);
    assert(b =~= seq![text::digit_char(t % 10)]);
    let digits = a + b;
    assert(digits.drop_last() =~= a);
    assert(text::digits_value(digits) == t);
    assert forall|i: int| 0 <= i < s.len() implies text::is_digit(#[trigger] s[i]) || s[i] == '.' by {
        if i < a.len() {
            assert(s[i] == a[i]);
        } else if i > a.len() {
            assert(s[i] == b[i - a.len() - 1]);
        }
    }
    assert(text::is_digit(s[0])) by {
        assert(s[0] == a[0]);
    }
    assert(s.last() == b[0]);
    text::trim_leaves(s);
    assert(text::lower(s) =~= s);
    assert(!s.contains(':') && !s.contains('h') && !s.contains('m') && !s.contains('e'));
    text::split_none(s, 'e');
    text::digits_hold_no_other(a, '.');
    text::digits_hold_no_other(b, '.');
    text::split_none(a, '.');
    text::split_last(a, b, '.');
    assert(text::split_on(s, '.') =~= seq![a, b]);
    assert forall|i: int| 0 <= i < digits.len() implies text::is_digit(#[trigger] digits[i]) by {
        if i < a.len() {
            assert(digits[i] == a[i]);
        } else {
            assert(digits[i] == b[i - a.len()]);
        }
    }
    assert(decimal::decimal(s) == Some((digits, -1int)));
    assert(decimal::pow10(1) == 10) by {
        reveal_with_fuel(decimal::pow10, 2);
    }
    decimal::tenths_are_finite(t);
    decimal::tenths_are_six_minutes(t);
}

#[verifier::spinoff_prover]
#[verifier::rlimit(40)]
proof fn lemma_lettered(h: nat, m: nat)
    requires
        h <= u32::MAX,
        m <= u32::MAX,
    ensures
        ({
            let s = text::dec(h).push('h') + text::dec(m).push('m');
            &&& text::trim(s) == s
            &&& s.len() > 0
            &&& s[0] != '-'
            &&& minutes_of(s) == Some(h * 60 + m)
        }),
{
    let a = text::dec(h);
    let b = text::dec(m);
    let s = a.push('h') + b.push('m');
    text::dec_is_digits(h);
    text::dec_is_digits(m);
    assert forall|i: int| 0 <= i < s.len() implies text::is_digit(#[trigger] s[i]) || s[i] == 'h'
        || s[i] == 'm' by {
        if i < a.len() {
            assert(s[i] == a[i]);
        } else if a.len() < i < a.len() + 1 + b.len() {
            assert(s[i] == b[i - a.len() - 1]);
        }
    }
    lemma_plain(s);
    assert(s.last() == 'm');
    assert(s[s.len() - 1] == 'm');
    assert(s.contains('m'));
    assert(s.drop_last() =~= a.push('h') + b);
    text::digits_hold_no_other(a, 'h');
    text::digits_hold_no_other(b, 'h');
    text::split_none(a, 'h');
    text::split_last(a, b, 'h');
    let parts = text::split_on(a.push('h') + b, 'h');
    assert(parts.len() == 2 && parts[0] == a && parts[1] == b);
    assert(count(a) == Some(h));
    assert(count(b) == Some(m));
    assert(lettered(s) == Some(h * 60 + m));
}

/// A duration of no minute and one of more than a day are refused, and each says why.
pub proof fn durations_out_of_bounds_are_refused(h: nat, m: nat)
    requires
        h <= u32::MAX,
        m <= u32::MAX,
    ensures
        ({
            let d = duration(text::dec(h).push('h') + text::dec(m).push('m'));
            &&& h * 60 + m == 0 ==> d == Err::<nat, Seq<char>>("must be > 0"@)
            &&& h * 60 + m > 1440 ==> d == Err::<nat, Seq<char>>("must be <= 24h"@)
            &&& 1 <= h * 60 + m <= 1440 ==> d == Ok::<nat, Seq<char>>(h * 60 + m)
        }),
{
    lemma_lettered(h, m);
}

/// The minutes may stand in front of the hours.
#[verifier::spinoff_prover]
pub proof fn minutes_and_hours_read_back(h: nat, m: nat)
    requires
        1 <= h * 60 + m <= 1440,
    ensures
        duration(text::dec(m).push('m') + text::dec(h).push('h')) == Ok::<nat, Seq<char>>(
            h * 60 + m,
        ),
{
    let a = text::dec(m);
    let b = text::dec(h);
    let s = a.push('m') + b.push('h');
    text::dec_is_digits(h);
    text::dec_is_digits(m);
    assert forall|i: int| 0 <= i < s.len() implies text::is_digit(#[trigger] s[i]) || s[i] == 'h'
        || s[i] == 'm' by {
        if i < a.len() {
            assert(s[i] == a[i]);
        } else if a.len() < i < a.len() + 1 + b.len() {
            assert(s[i] == b[i - a.len() - 1]);
        }
    }
    lemma_plain(s);
    assert(s.last() == 'h');
    assert(s[s.len() - 1] == 'h');
    assert(s.contains('h'));
    assert(s.drop_last() =~= a.push('m') + b);
    text::digits_hold_no_other(a, 'm');
    text::digits_hold_no_other(b, 'm');
    text::split_none(a, 'm');
    text::split_last(a, b, 'm');
    let parts = text::split_on(a.push('m') + b, 'm');
    assert(parts.len() == 2 && parts[0] == a && parts[1] == b);
    assert(count(a) == Some(m));
    assert(count(b) == Some(h));
}

/// Hours with their letter alone are read back: `2h`.
pub proof fn hours_read_back(h: nat)
    requires
        1 <= h <= 24,
    ensures
        duration(text::dec(h).push('h')) == Ok::<nat, Seq<char>>(60 * h),
{
    let d = text::dec(h);
    let s = d.push('h');
    text::dec_is_digits(h);
    lemma_plain(s);
    assert(s.last() == 'h');
    assert(s.contains('h'));
    assert(s.drop_last() =~= d);
    text::digits_hold_no_other(d, 'm');
    text::split_none(d, 'm');
}

/// Around the letters, white space and the case of a letter do not matter: a lettered
/// duration is read by its characters other than white space, in lower case, and white
/// space around any duration is passed over.
pub proof fn white_space_and_case_do_not_matter(a: Seq<char>, c: char, s: Seq<char>)
    ensures
        without_white(Seq::empty()) == Seq::<char>::empty(),
        without_white(a.push(c)) == if text::is_white(c) {
            without_white(a)
        } else {
            without_white(a).push(c)
        },
        !s.contains(':') && (text::lower(s).contains('h') || text::lower(s).contains('m'))
            ==> minutes_of(s) == lettered(without_white(text::lower(s))),
        duration(s) == duration(text::trim(s)),
{
    reveal(Seq::filter);
    assert(a.push(c).drop_last() =~= a);
    text::trim_is_idempotent(s);
}

/// An empty text and one with a minus in front are refused, and each says why.
pub proof fn empty_and_negative_durations_are_refused(s: Seq<char>)
    ensures
        text::trim(s).len() == 0 ==> duration(s) == Err::<nat, Seq<char>>("empty"@),
        text::trim(s).len() > 0 && text::trim(s)[0] == '-' ==> duration(s) == Err::<nat, Seq<char>>(
            "negative not allowed"@,
        ),
{
}

/// On a clock the minutes are below sixty.
pub proof fn clock_minutes_are_below_sixty(h: nat, m: nat)
    requires
        m >= 60,
    ensures
        duration(text::dec(h).push(':') + text::dec(m)) == Err::<nat, Seq<char>>(
            "could not parse "@ + text::quoted(text::dec(h).push(':') + text::dec(m)),
        ),
{
    let a = text::dec(h);
    let b = text::dec(m);
    let s = a.push(':') + b;
    text::dec_is_digits(h);
    text::dec_is_digits(m);
    text::dec_reads_back(h);
    text::dec_reads_back(m);
    assert(s[0] == a[0]);
    assert(text::is_digit(a[0]));
    assert(s.last() == b[b.len() - 1]);
    assert(text::is_digit(b[b.len() - 1]));
    text::trim_leaves(s);
    assert(s[a.len() as int] == ':');
    text::digits_hold_no_other(a, ':');
    text::digits_hold_no_other(b, ':');
    text::split_none(a, ':');
    text::split_last(a, b, ':');
    let parts = text::split_on(s, ':');
    assert(parts.len() == 2 && parts[0] == a && parts[1] == b);
    assert(s.contains(':'));
}

/// In front of each letter stands a number: without one there is no duration.
pub proof fn letters_need_their_numbers(n: nat)
    ensures
        duration(seq!['h']) is Err,
        duration(seq!['m']) is Err,
        duration(seq!['h'] + text::dec(n).push('m')) is Err,
        duration(text::dec(n).push('h').push('m')) is Err,
{
    lemma_letter_alone('h', 'm');
    lemma_letter_alone('m', 'h');
    lemma_no_hours(n);
    lemma_no_minutes(n);
}

proof fn lemma_letter_alone(c: char, other: char)
    requires
        c == 'h' && other == 'm' || c == 'm' && other == 'h',
    ensures
        duration(seq![c]) is Err,
{
    let none = Seq::<char>::empty();
    let s = seq![c];
    lemma_plain(s);
    assert(s[0] == c);
    assert(s.contains(c));
    assert(s.drop_last() =~= none);
    text::split_none(none, other);
}

#[verifier::spinoff_prover]
#[verifier::rlimit(60)]
proof fn lemma_no_hours(n: nat)
    ensures
        duration(seq!['h'] + text::dec(n).push('m')) is Err,
{
    let none = Seq::<char>::empty();
    let d = text::dec(n);
    text::dec_is_digits(n);
    text::digits_hold_no_other(d, 'h');
    let s = seq!['h'] + d.push('m');
    assert forall|i: int| 0 <= i < s.len() implies text::is_digit(#[trigger] s[i]) || s[i] == 'h'
        || s[i] == 'm' by {
        if 1 <= i <= d.len() {
            assert(s[i] == d[i - 1]);
        }
    }
    lemma_plain(s);
    assert(s[0] == 'h');
    assert(s.contains('h'));
    assert(s.last() == 'm');
    let start = none.push('h');
    assert(start =~= seq!['h']);
    assert(s.drop_last() =~= start + d);
    text::split_none(none, 'h');
    text::split_last(none, d, 'h');
    let parts = text::split_on(start + d, 'h');
    assert(parts.len() == 2 && parts[0] == none);
    assert(count(none) is None);
}

#[verifier::spinoff_prover]
#[verifier::rlimit(60)]
proof fn lemma_no_minutes(n: nat)
    ensures
        duration(text::dec(n).push('h').push('m')) is Err,
{
    let none = Seq::<char>::empty();
    let d = text::dec(n);
    text::dec_is_digits(n);
    text::digits_hold_no_other(d, 'h');
    let s = d.push('h').push('m');
    assert forall|i: int| 0 <= i < s.len() implies text::is_digit(#[trigger] s[i]) || s[i] == 'h'
        || s[i] == 'm' by {
        if i < d.len() {
            assert(s[i] == d[i]);
        }
    }
    lemma_plain(s);
    assert(s[s.len() - 1] == 'm');
    assert(s.contains('m'));
    assert(s.last() == 'm');
    assert(s.drop_last() =~= d.push('h') + none);
    text::split_none(d, 'h');
    text::split_last(d, none, 'h');
    let parts = text::split_on(d.push('h') + none, 'h');
    assert(parts.len() == 2 && parts[1] == none);
    assert(count(none) is None);
    assert(total(count(parts[0]), count(parts[1])) is None);
    assert(lettered(s) is None);
    assert(minutes_of(s) is None);
}

} // verus!
