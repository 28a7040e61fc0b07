//! Suggestions of clients and engagements from what was recorded of late.

use crate::csv;
use crate::csv_file;
use crate::dates;
use crate::dates::Date;
use crate::dates::Stamp;
use crate::entries;
use crate::sorting;
use crate::text;
use vstd::prelude::*;

verus! {

/// How far back recorded names are taken from.
pub const WINDOW_DAYS: i64 = 90;

/// How many suggestions are made.
pub const MAX_SUGGESTIONS: usize = 5;

/// The names known.
#[derive(Debug, Clone)]
pub struct Cache {
    pub clients: Vec<String>,
    pub engagements: Vec<String>,
}

// ---- ranking --------------------------------------------------------------

pub open spec fn lowercases(items: Seq<Seq<char>>) -> Seq<Seq<char>> {
    Seq::new(items.len(), |i: int| text::lowercase(items[i]))
}

/// The first items, as many as are suggested.
pub open spec fn first_few(items: Seq<Seq<char>>) -> Seq<Seq<char>> {
    if items.len() > MAX_SUGGESTIONS {
        items.take(MAX_SUGGESTIONS as int)
    } else {
        items
    }
}

/// The item matches at its start.
pub open spec fn at_start(lowered: Seq<char>, q: Seq<char>) -> bool {
    text::has_prefix(lowered, q)
}

/// The item matches, but not at its start.
pub open spec fn inside(lowered: Seq<char>, q: Seq<char>) -> bool {
    !text::has_prefix(lowered, q) && text::contains_text(lowered, q)
}

/// The items whose lower-case forms match: at their start, or elsewhere.
pub open spec fn matching(
    items: Seq<Seq<char>>,
    lowered: Seq<Seq<char>>,
    q: Seq<char>,
    start: bool,
) -> Seq<Seq<char>>
    decreases items.len(),
{
    if items.len() == 0 {
        Seq::empty()
    } else {
        let init = matching(items.drop_last(), lowered.drop_last(), q, start);
        if if start {
            at_start(lowered.last(), q)
        } else {
            inside(lowered.last(), q)
        } {
            init.push(items.last())
        } else {
            init
        }
    }
}

/// The suggestions for a lower-case query, given the lower-case forms of the
/// items: those that begin with it before those that hold it elsewhere.
pub open spec fn ranked(items: Seq<Seq<char>>, lowered: Seq<Seq<char>>, q: Seq<char>) -> Seq<
    Seq<char>,
> {
    if q.len() == 0 {
        first_few(items)
    } else {
        first_few(matching(items, lowered, q, true) + matching(items, lowered, q, false))
    }
}

fn push_matching(
    out: &mut Vec<String>,
    items: &Vec<String>,
    lowered: &Vec<String>,
    q: &str,
    start: bool,
)
    requires
        items@.len() == lowered@.len(),
    ensures
        text::texts(final(out)@) == text::texts(old(out)@) + matching(
            text::texts(items@),
            text::texts(lowered@),
            q@,
            start,
        ),
{
    let ghost all = text::texts(items@);
    let ghost lows = text::texts(lowered@);
    let ghost head = text::texts(out@);
    let mut i: usize = 0;
    assert(head + matching(all.take(0), lows.take(0), q@, start) =~= head);
    while i < items.len()
        invariant
            i <= items@.len(),
            items@.len() == lowered@.len(),
            all == text::texts(items@),
            lows == text::texts(lowered@),
            text::texts(out@) == head + matching(
                all.take(i as int),
                lows.take(i as int),
                q@,
                start,
            ),
        decreases items@.len() - i,
    {
        proof {
            assert(all.take(i + 1).drop_last() =~= all.take(i as int));
            assert(lows.take(i + 1).drop_last() =~= lows.take(i as int));
            assert(all.take(i + 1).last() == items@[i as int]@);
            assert(lows.take(i + 1).last() == lowered@[i as int]@);
        }
        let ghost outs = text::texts(out@);
        let p = text::text_starts_with(lowered[i].as_str(), q);
        let hit = if start {
            p
        } else {
            !p && text::text_contains(lowered[i].as_str(), q)
        };
        if hit {
            out.push(items[i].clone());
            assert(text::texts(out@) =~= outs.push(all[i as int]));
            assert(text::texts(out@) =~= head + matching(
                all.take(i + 1),
                lows.take(i + 1),
                q@,
                start,
            ));
        }
        i += 1;
    }
    assert(all.take(all.len() as int) =~= all);
    assert(lows.take(lows.len() as int) =~= lows);
}

fn keep_few(out: &mut Vec<String>)
    ensures
        text::texts(final(out)@) == first_few(text::texts(old(out)@)),
{
    let ghost all = text::texts(out@);
    if out.len() > MAX_SUGGESTIONS {
        out.truncate(MAX_SUGGESTIONS);
        assert(text::texts(out@) =~= all.take(MAX_SUGGESTIONS as int));
    }
}

/// The suggestions for a lower-case query, given the lower-case forms of the items.
pub fn rank_lowered(items: &Vec<String>, lowered: &Vec<String>, q: &str) -> (r: Vec<String>)
    requires
        items@.len() == lowered@.len(),
    ensures
        text::texts(r@) == ranked(text::texts(items@), text::texts(lowered@), q@),
{
    if text::chars_of(q).len() == 0 {
        let mut out = csv_file::copy_texts(items);
        keep_few(&mut out);
        return out;
    }
    let mut out: Vec<String> = Vec::new();
    push_matching(&mut out, items, lowered, q, true);
    push_matching(&mut out, items, lowered, q, false);
    proof {
        let a = matching(text::texts(items@), text::texts(lowered@), q@, true);
        let b = matching(text::texts(items@), text::texts(lowered@), q@, false);
        assert(text::texts(out@) =~= a + b);
    }
    keep_few(&mut out);
    out
}

/// The suggestions for a query, in any case.
pub open spec fn suggested(items: Seq<Seq<char>>, query: Seq<char>) -> Seq<Seq<char>> {
    ranked(items, lowercases(items), text::lowercase(text::trim(query)))
}

/// The items that begin with the query, then those that hold it, in any case; at
/// most five. Without a query, the first five.
pub fn rank(items: &Vec<String>, query: &str) -> (r: Vec<String>)
    ensures
        text::texts(r@) == suggested(text::texts(items@), query@),
{
    let t = text::trim_text(query);
    let q = text::lowercase_text(t.as_str());
    let mut lowered: Vec<String> = Vec::new();
    let ghost want = lowercases(text::texts(items@));
    let mut i: usize = 0;
    while i < items.len()
        invariant
            i <= items@.len(),
            want == lowercases(text::texts(items@)),
            lowered@.len() == i,
            forall|k: int| 0 <= k < i ==> lowered@[k]@ == #[trigger] want[k],
        decreases items@.len() - i,
    {
        lowered.push(text::lowercase_text(items[i].as_str()));
        i += 1;
    }
    assert(text::texts(lowered@) =~= want);
    rank_lowered(items, &lowered, q.as_str())
}

// ---- observing ------------------------------------------------------------

/// By the lower-case form.
pub open spec fn by_lowercase() -> spec_fn(Seq<char>, Seq<char>) -> bool {
    |a: Seq<char>, b: Seq<char>| sorting::precedes(text::lowercase(a), text::lowercase(b))
}

/// The name is known, in some case of its ASCII letters.
pub open spec fn is_known(values: Seq<Seq<char>>, name: Seq<char>) -> bool {
    exists|i: int| 0 <= i < values.len() && text::same_but_case(#[trigger] values[i], name)
}

/// The names with one more, unless it is blank or known.
pub open spec fn with_name(values: Seq<Seq<char>>, candidate: Seq<char>) -> Seq<Seq<char>> {
    let t = text::trim(candidate);
    if t.len() == 0 || is_known(values, t) {
        values
    } else {
        sorting::sort_by(values.push(t), by_lowercase())
    }
}

/// The names by their lower-case forms; of equal ones the earlier first.
pub fn sort_names(v: &Vec<String>) -> (r: Vec<String>)
    ensures
        text::texts(r@) == sorting::sort_by(text::texts(v@), by_lowercase()),
{
    let ghost all = text::texts(v@);
    let mut out: Vec<String> = Vec::new();
    let mut i: usize = 0;
    assert(all.take(0) =~= Seq::empty());
    assert(text::texts(out@) =~= Seq::<Seq<char>>::empty());
    while i < v.len()
        invariant
            i <= v@.len(),
            all == text::texts(v@),
            text::texts(out@) == sorting::sort_by(all.take(i as int), by_lowercase()),
        decreases v@.len() - i,
    {
        let ghost outs = text::texts(out@);
        let ghost x = v@[i as int]@;
        let key = text::lowercase_text(v[i].as_str());
        let mut at: usize = out.len();
        while at > 0 && sorting::text_precedes(
            key.as_str(),
            text::lowercase_text(out[at - 1].as_str()).as_str(),
        )
            invariant
                i < v@.len(),
                at <= out@.len(),
                outs == text::texts(out@),
                key@ == text::lowercase(x),
                forall|k: int| at <= k < out@.len() ==> by_lowercase()(x, #[trigger] outs[k]),
            decreases at,
        {
            assert(outs[at - 1] == out@[at - 1]@);
            at -= 1;
        }
        proof {
            if at > 0 {
                assert(outs[at - 1] == out@[at - 1]@);
            }
            sorting::insert_at(outs, x, by_lowercase(), at as int);
            assert(all.take(i + 1).drop_last() =~= all.take(i as int));
            assert(all.take(i + 1).last() == x);
        }
        out.insert(at, v[i].clone());
        assert(text::texts(out@) =~= outs.insert(at as int, x));
        i += 1;
    }
    assert(all.take(all.len() as int) =~= all);
    out
}

/// Adds a name, unless it is blank or known in some case.
pub fn observe_one(values: &mut Vec<String>, candidate: &str)
    ensures
        text::texts(final(values)@) == with_name(text::texts(old(values)@), candidate@),
{
    let ghost all = text::texts(values@);
    let t = text::trim_text(candidate);
    if text::chars_of(t.as_str()).len() == 0 {
        return;
    }
    let mut i: usize = 0;
    while i < values.len()
        invariant
            i <= values@.len(),
            all == text::texts(values@),
            all == text::texts(old(values)@),
            t@ == text::trim(candidate@),
            t@.len() > 0,
            forall|k: int| 0 <= k < i ==> !text::same_but_case(#[trigger] all[k], t@),
        decreases values@.len() - i,
    {
        if text::eq_ignore_case(values[i].as_str(), t.as_str()) {
            assert(text::same_but_case(all[i as int], t@));
            return;
        }
        i += 1;
    }
    let ghost x = t@;
    values.push(t);
    assert(text::texts(values@) =~= all.push(x));
    let sorted = sort_names(values);
    *values = sorted;
}

impl Cache {
    /// No names yet.
    pub fn empty() -> (r: Cache)
        ensures
            r.clients@.len() == 0,
            r.engagements@.len() == 0,
    {
        Cache { clients: Vec::new(), engagements: Vec::new() }
    }

    /// The clients to suggest for a query.
    pub fn rank_clients(&self, query: &str) -> (r: Vec<String>)
        ensures
            text::texts(r@) == suggested(text::texts(self.clients@), query@),
    {
        rank(&self.clients, query)
    }

    /// The engagements to suggest for a query.
    pub fn rank_engagements(&self, query: &str) -> (r: Vec<String>)
        ensures
            text::texts(r@) == suggested(text::texts(self.engagements@), query@),
    {
        rank(&self.engagements, query)
    }

    /// Adds the names of a recorded entry.
    pub fn observe(&mut self, client: &str, engagement: &str)
        ensures
            text::texts(final(self).clients@) == with_name(
                text::texts(old(self).clients@),
                client@,
            ),
            text::texts(final(self).engagements@) == with_name(
                text::texts(old(self).engagements@),
                engagement@,
            ),
    {
        observe_one(&mut self.clients, client);
        observe_one(&mut self.engagements, engagement);
    }
}

// ---- rebuilding -----------------------------------------------------------

/// The fields of a line as they are written, with their quotes.
#[verifier::ext_equal]
pub struct RawReading {
    pub done: Seq<Seq<char>>,
    pub field: Seq<char>,
    pub quoted: bool,
}

/// A comma outside quotes ends a field; every quote opens or closes.
pub open spec fn read_raw(s: Seq<char>) -> RawReading
    decreases s.len(),
{
    if s.len() == 0 {
        RawReading { done: Seq::empty(), field: Seq::empty(), quoted: false }
    } else {
        let r = read_raw(s.drop_last());
        let c = s.last();
        if c == ',' && !r.quoted {
            RawReading { done: r.done.push(r.field), field: Seq::empty(), quoted: false }
        } else {
            RawReading {
                field: r.field.push(c),
                quoted: if c == '"' {
                    !r.quoted
                } else {
                    r.quoted
                },
                ..r
            }
        }
    }
}

pub open spec fn raw_fields(s: Seq<char>) -> Seq<Seq<char>> {
    let r = read_raw(s);
    r.done.push(r.field)
}

/// The text with every pair of quotes written once.
pub open spec fn undoubled(s: Seq<char>) -> Seq<char>
    decreases s.len(),
{
    if s.len() == 0 {
        Seq::empty()
    } else if s.len() >= 2 && s[0] == '"' && s[1] == '"' {
        seq!['"'] + undoubled(s.skip(2))
    } else {
        seq![s[0]] + undoubled(s.skip(1))
    }
}

/// The field without the quotes around it.
pub open spec fn unquoted(s: Seq<char>) -> Seq<char> {
    let t = text::trim(s);
    if t.len() >= 2 && t[0] == '"' && t.last() == '"' {
        undoubled(t.subrange(1, t.len() - 1))
    } else {
        t
    }
}

/// The date column, the client and the engagement of a line.
pub open spec fn minimal_row(s: Seq<char>) -> Option<(Seq<char>, Seq<char>, Seq<char>)> {
    let f = raw_fields(s);
    if f.len() < 4 {
        None
    } else {
        Some((f[0], unquoted(f[2]), unquoted(f[3])))
    }
}

fn split_raw(line: &str) -> (r: Vec<String>)
    ensures
        text::texts(r@) == raw_fields(line@),
{
    let v = text::chars_of(line);
    let mut out: Vec<String> = Vec::new();
    let mut cur = String::new();
    let mut quoted = false;
    let mut i: usize = 0;
    assert(text::texts(out@) =~= Seq::<Seq<char>>::empty());
    while i < v.len()
        invariant
            i <= v@.len(),
            ({
                let r = read_raw(v@.take(i as int));
                &&& r.done == text::texts(out@)
                &&& r.field == cur@
                &&& r.quoted == quoted
            }),
        decreases v@.len() - i,
    {
        let c = v[i];
        let ghost outs = text::texts(out@);
        let ghost curs = cur@;
        assert(v@.take(i + 1).drop_last() =~= v@.take(i as int));
        assert(v@.take(i + 1).last() == c);
        if c == ',' && !quoted {
            out.push(cur);
            cur = String::new();
            assert(text::texts(out@) =~= outs.push(curs));
        } else {
            if c == '"' {
                quoted = !quoted;
            }
            cur.push(c);
        }
        i += 1;
    }
    assert(v@.take(v@.len() as int) =~= v@);
    let ghost outs = text::texts(out@);
    let ghost curs = cur@;
    out.push(cur);
    assert(text::texts(out@) =~= outs.push(curs));
    out
}

/// The field without the quotes around it.
pub fn strip_quotes(s: &str) -> (r: String)
    ensures
        r@ == unquoted(s@),
{
    let t = text::trimmed(text::chars_of(s).as_slice());
    let n: usize = t.len();
    if n >= 2 && t[0] == '"' && t[n - 1] == '"' {
        let ghost body = t@.subrange(1, n - 1);
        let mut out = String::new();
        let mut i: usize = 1;
        assert(body.skip(0) =~= body);
        assert(out@ + undoubled(body) =~= undoubled(body));
        while i < n - 1
            invariant
                1 <= i <= n - 1,
                n == t@.len(),
                body == t@.subrange(1, n - 1),
                out@ + undoubled(body.skip(i - 1)) == undoubled(body),
            decreases n - i,
        {
            let ghost rest = body.skip(i - 1);
            let ghost before = out@;
            assert(rest[0] == t@[i as int]);
            if i + 1 < n - 1 && t[i] == '"' && t[i + 1] == '"' {
                assert(rest[1] == t@[i + 1]);
                assert(rest.skip(2) =~= body.skip(i + 1));
                out.push('"');
                assert(before.push('"') + undoubled(body.skip(i + 1)) =~= before + (seq!['"']
                    + undoubled(body.skip(i + 1))));
                i += 2;
            } else {
                assert(rest.skip(1) =~= body.skip(i as int));
                assert(!(rest.len() >= 2 && rest[0] == '"' && rest[1] == '"')) by {
                    if rest.len() >= 2 {
                        assert(rest[1] == t@[i + 1]);
                    }
                }
                out.push(t[i]);
                assert(before.push(t@[i as int]) + undoubled(body.skip(i as int)) =~= before + (
                seq![t@[i as int]] + undoubled(body.skip(i as int))));
                i += 1;
            }
        }
        assert(undoubled(body.skip(n - 2)) =~= Seq::<char>::empty());
        assert(out@ =~= undoubled(body));
        out
    } else {
        text::text_of(t.as_slice())
    }
}

/// The date column, the client and the engagement of a line; none where the line
/// has fewer than four fields.
pub fn parse_minimal_row(line: &str) -> (r: Option<(String, String, String)>)
    ensures
        match r {
            Some((ts, client, engagement)) => minimal_row(line@) == Some(
                (ts@, client@, engagement@),
            ),
            None => minimal_row(line@) is None,
        },
{
    let f = split_raw(line);
    let ghost fs = text::texts(f@);
    assert(fs.len() == f@.len());
    if f.len() < 4 {
        return None;
    }
    assert(fs[0] == f@[0]@ && fs[2] == f@[2]@ && fs[3] == f@[3]@);
    Some((f[0].clone(), strip_quotes(f[2].as_str()), strip_quotes(f[3].as_str())))
}

/// The instant and the day that the window begins with.
#[derive(Debug, Clone, Copy, PartialEq, Eq, Structural)]
pub struct Cutoff {
    pub instant: Stamp,
    pub date: Date,
}

/// The date column lies in the window: a timestamp not before its first instant, or
/// a plain date not before its first day.
pub open spec fn recent_enough(ts: Seq<char>, cutoff: Cutoff) -> bool {
    match dates::written_moment(ts) {
        Some((_, _, _, secs, nanos)) => cutoff.instant.secs < secs || (cutoff.instant.secs == secs
            && cutoff.instant.nanos <= nanos),
        None => match dates::written_date(text::trim(ts)) {
            Some(d) => cutoff.date.not_after(entries::date_from(d)),
            None => false,
        },
    }
}

/// A name recorded in a line of the window: the client, or the engagement.
pub open spec fn name_in(line: Seq<char>, cutoff: Cutoff, engagement: bool) -> Option<Seq<char>> {
    match minimal_row(line) {
        Some((ts, c, e)) => {
            let t = text::trim(
                if engagement {
                    e
                } else {
                    c
                },
            );
            if recent_enough(ts, cutoff) && t.len() > 0 {
                Some(t)
            } else {
                None
            }
        },
        None => None,
    }
}

/// The names recorded in some lines.
pub open spec fn names_in(lines: Seq<Seq<char>>, cutoff: Cutoff, engagement: bool) -> Set<Seq<char>>
    decreases lines.len(),
{
    if lines.len() == 0 {
        Set::empty()
    } else {
        match name_in(lines.last(), cutoff, engagement) {
            Some(t) => names_in(lines.drop_last(), cutoff, engagement).insert(t),
            None => names_in(lines.drop_last(), cutoff, engagement),
        }
    }
}

/// The lines of a file behind its first.
pub open spec fn body_lines(content: Seq<u8>) -> Seq<Seq<char>> {
    csv_file::lines_of(text::lossy(crate::csv_writer::after_bom(content))).skip(1)
}

/// The lines of some files behind their first ones.
pub open spec fn all_body_lines(files: Seq<Vec<u8>>) -> Seq<Seq<char>>
    decreases files.len(),
{
    if files.len() == 0 {
        Seq::empty()
    } else {
        all_body_lines(files.drop_last()) + body_lines(files.last()@)
    }
}

fn is_recent(ts: &str, cutoff: &Cutoff) -> (r: bool)
    ensures
        r == recent_enough(ts@, *cutoff),
{
    match dates::parse_moment(ts) {
        Some((_, s)) => cutoff.instant.le(&s),
        None => {
            let t = text::trim_text(ts);
            match dates::parse_date(t.as_str()) {
                Some(d) => {
                    assert(entries::date_from(dates::written_date(text::trim(ts@))->0) == d);
                    cutoff.date.le(&d)
                },
                None => false,
            }
        },
    }
}

fn scan_line(line: &str, cutoff: &Cutoff, clients: &mut Vec<String>, engagements: &mut Vec<String>)
    requires
        sorting::rising(text::texts(old(clients)@)),
        sorting::rising(text::texts(old(engagements)@)),
    ensures
        sorting::rising(text::texts(final(clients)@)),
        sorting::rising(text::texts(final(engagements)@)),
        text::texts(final(clients)@).to_set() == match name_in(line@, *cutoff, false) {
            Some(t) => text::texts(old(clients)@).to_set().insert(t),
            None => text::texts(old(clients)@).to_set(),
        },
        text::texts(final(engagements)@).to_set() == match name_in(line@, *cutoff, true) {
            Some(t) => text::texts(old(engagements)@).to_set().insert(t),
            None => text::texts(old(engagements)@).to_set(),
        },
{
    match parse_minimal_row(line) {
        Some((ts, client, engagement)) => {
            if is_recent(ts.as_str(), cutoff) {
                let c = text::trim_text(client.as_str());
                if text::chars_of(c.as_str()).len() > 0 {
                    sorting::insert_rising(clients, c.as_str());
                }
                let e = text::trim_text(engagement.as_str());
                if text::chars_of(e.as_str()).len() > 0 {
                    sorting::insert_rising(engagements, e.as_str());
                }
            }
        },
        None => {},
    }
}

fn bytes_after_bom(content: &Vec<u8>) -> (r: Vec<u8>)
    ensures
        r@ == crate::csv_writer::after_bom(content@),
{
    let from: usize = if content.len() >= 3 && content[0] == 0xef && content[1] == 0xbb
        && content[2] == 0xbf {
        3
    } else {
        0
    };
    let mut out: Vec<u8> = Vec::new();
    let mut i: usize = from;
    while i < content.len()
        invariant
            from <= i <= content@.len(),
            out@ == content@.subrange(from as int, i as int),
        decreases content@.len() - i,
    {
        out.push(content[i]);
        i += 1;
        assert(content@.subrange(from as int, i as int) =~= content@.subrange(
            from as int,
            i - 1,
        ).push(content@[i - 1]));
    }
    assert(out@ =~= crate::csv_writer::after_bom(content@));
    out
}

/// The names recorded in the window, each once and in order.
pub fn rebuild_from_csvs(files: &Vec<Vec<u8>>, cutoff: &Cutoff) -> (r: Cache)
    ensures
        sorting::rising(text::texts(r.clients@)),
        sorting::rising(text::texts(r.engagements@)),
        text::texts(r.clients@).to_set() == names_in(all_body_lines(files@), *cutoff, false),
        text::texts(r.engagements@).to_set() == names_in(all_body_lines(files@), *cutoff, true),
{
    let mut clients: Vec<String> = Vec::new();
    let mut engagements: Vec<String> = Vec::new();
    let ghost mut sofar: Seq<Seq<char>> = Seq::empty();
    let mut i: usize = 0;
    proof {
        assert(files@.take(0) =~= Seq::empty());
        assert(text::texts(clients@).to_set() =~= Set::empty());
        assert(text::texts(engagements@).to_set() =~= Set::empty());
    }
    while i < files.len()
        invariant
            i <= files@.len(),
            sofar == all_body_lines(files@.take(i as int)),
            sorting::rising(text::texts(clients@)),
            sorting::rising(text::texts(engagements@)),
            text::texts(clients@).to_set() == names_in(sofar, *cutoff, false),
            text::texts(engagements@).to_set() == names_in(sofar, *cutoff, true),
        decreases files@.len() - i,
    {
        let bytes = bytes_after_bom(&files[i]);
        let content = text::lossy_text(bytes.as_slice());
        let lines = csv_file::split_lines(content.as_str());
        let ghost all = csv_file::lines_of(content@);
        let ghost these = all.skip(1);
        let ghost base = sofar;
        proof {
            assert(files@.take(i + 1).drop_last() =~= files@.take(i as int));
            assert(files@.take(i + 1).last() == files@[i as int]);
            text::split_extend(content@, Seq::empty(), '\n');
            assert(all.len() >= 1);
            assert(base + these.take(0) =~= base);
        }
        let mut j: usize = 1;
        while j < lines.len()
            invariant
                1 <= j <= lines@.len(),
                all == text::texts(lines@),
                these == all.skip(1),
                sofar == base + these.take(j - 1),
                sorting::rising(text::texts(clients@)),
                sorting::rising(text::texts(engagements@)),
                text::texts(clients@).to_set() == names_in(sofar, *cutoff, false),
                text::texts(engagements@).to_set() == names_in(sofar, *cutoff, true),
            decreases lines@.len() - j,
        {
            scan_line(lines[j].as_str(), cutoff, &mut clients, &mut engagements);
            proof {
                let next = sofar.push(lines@[j as int]@);
                assert(next.drop_last() =~= sofar);
                assert(these[j - 1] == lines@[j as int]@);
                assert(next =~= base + these.take(j as int));
                sofar = next;
            }
            j += 1;
        }
        assert(these.take(these.len() as int) =~= these);
        i += 1;
    }
    assert(files@.take(files@.len() as int) =~= files@);
    Cache { clients, engagements }
}

// ---- laws -----------------------------------------------------------------

/// At most five suggestions are made.
pub proof fn suggestions_are_few(items: Seq<Seq<char>>, query: Seq<char>)
    ensures
        suggested(items, query).len() <= MAX_SUGGESTIONS,
{
}

proof fn lemma_matching(
    items: Seq<Seq<char>>,
    lowered: Seq<Seq<char>>,
    q: Seq<char>,
    start: bool,
    k: int,
)
    requires
        items.len() == lowered.len(),
        0 <= k < matching(items, lowered, q, start).len(),
    ensures
        exists|i: int|
            0 <= i < items.len() && matching(items, lowered, q, start)[k] == #[trigger] items[i]
                && if start {
                at_start(lowered[i], q)
            } else {
                inside(lowered[i], q)
            },
    decreases items.len(),
{
    let init = matching(items.drop_last(), lowered.drop_last(), q, start);
    if k < init.len() {
        lemma_matching(items.drop_last(), lowered.drop_last(), q, start, k);
        let i = choose|i: int|
            0 <= i < items.drop_last().len() && init[k] == #[trigger] items.drop_last()[i]
                && if start {
                at_start(lowered.drop_last()[i], q)
            } else {
                inside(lowered.drop_last()[i], q)
            };
        assert(items[i] == init[k]);
    } else {
        assert(items[items.len() - 1] == items.last());
    }
}

/// Every suggestion is one of the names, and holds what was typed, whatever its case.
pub proof fn suggestions_match(items: Seq<Seq<char>>, query: Seq<char>, k: int)
    requires
        0 <= k < suggested(items, query).len(),
    ensures
        items.contains(suggested(items, query)[k]),
        text::lowercase(text::trim(query)).len() > 0 ==> text::contains_text(
            text::lowercase(suggested(items, query)[k]),
            text::lowercase(text::trim(query)),
        ),
{
    let q = text::lowercase(text::trim(query));
    let l = lowercases(items);
    let s = suggested(items, query)[k];
    if q.len() > 0 {
        let a = matching(items, l, q, true);
        let b = matching(items, l, q, false);
        assert(s == (a + b)[k]);
        if k < a.len() {
            lemma_matching(items, l, q, true, k);
            let i = choose|i: int|
                0 <= i < items.len() && a[k] == #[trigger] items[i] && at_start(l[i], q);
            assert(l[i] == text::lowercase(items[i]));
            assert(text::occurs_at(l[i], q, 0)) by {
                assert(l[i].subrange(0, q.len() as int) =~= l[i].take(q.len() as int));
            }
        } else {
            lemma_matching(items, l, q, false, k - a.len());
            let i = choose|i: int|
                0 <= i < items.len() && b[k - a.len()] == #[trigger] items[i] && inside(l[i], q);
            assert(l[i] == text::lowercase(items[i]));
        }
    } else {
        assert(s == items[k]);
    }
}

/// The case of the query does not matter.
pub proof fn query_case_does_not_matter(items: Seq<Seq<char>>, a: Seq<char>, b: Seq<char>)
    requires
        text::lowercase(text::trim(a)) == text::lowercase(text::trim(b)),
    ensures
        suggested(items, a) == suggested(items, b),
{
}

/// Observing a name twice is observing it once.
pub proof fn observing_is_idempotent(values: Seq<Seq<char>>, name: Seq<char>)
    ensures
        with_name(with_name(values, name), name) == with_name(values, name),
{
    let t = text::trim(name);
    if t.len() > 0 && !is_known(values, t) {
        let more = values.push(t);
        let sorted = sorting::sort_by(more, by_lowercase());
        lemma_sort_contains(more, t);
        let i = choose|i: int| 0 <= i < sorted.len() && sorted[i] == t;
        assert(text::same_but_case(sorted[i], t));
    }
}

proof fn lemma_sort_contains(s: Seq<Seq<char>>, x: Seq<char>)
    requires
        s.contains(x),
    ensures
        sorting::sort_by(s, by_lowercase()).contains(x),
    decreases s.len(),
{
    let before = by_lowercase();
    let init = sorting::sort_by(s.drop_last(), before);
    let k = choose|k: int| 0 <= k < s.len() && s[k] == x;
    if k < s.len() - 1 {
        assert(s.drop_last()[k] == x);
        lemma_sort_contains(s.drop_last(), x);
    }
    lemma_insert_contains(init, s.last(), x);
}

proof fn lemma_insert_contains(s: Seq<Seq<char>>, y: Seq<char>, x: Seq<char>)
    requires
        s.contains(x) || y == x,
    ensures
        sorting::insert_by(s, y, by_lowercase()).contains(x),
    decreases s.len(),
{
    let before = by_lowercase();
    let r = sorting::insert_by(s, y, before);
    if s.len() > 0 && before(y, s.last()) {
        let r0 = sorting::insert_by(s.drop_last(), y, before);
        if x == s.last() {
            assert(r[r0.len() as int] == x);
        } else {
            if s.contains(x) {
                let k = choose|k: int| 0 <= k < s.len() && s[k] == x;
                assert(s.drop_last()[k] == x);
            }
            lemma_insert_contains(s.drop_last(), y, x);
            let k = choose|k: int| 0 <= k < r0.len() && r0[k] == x;
            assert(r[k] == x);
        }
    } else {
        if s.contains(x) {
            let k = choose|k: int| 0 <= k < s.len() && s[k] == x;
            assert(r[k] == x);
        } else {
            assert(r[s.len() as int] == x);
        }
    }
}

/// No name is there twice, whatever its case.
pub open spec fn names_differ(s: Seq<Seq<char>>) -> bool {
    forall|i: int, j: int|
        0 <= i < j < s.len() ==> !text::same_but_case(#[trigger] s[i], #[trigger] s[j])
}

proof fn lemma_insert_differs(s: Seq<Seq<char>>, x: Seq<char>)
    requires
        names_differ(s),
        !is_known(s, x),
    ensures
        names_differ(sorting::insert_by(s, x, by_lowercase())),
        forall|y: Seq<char>|
            !is_known(s, y) && !text::same_but_case(x, y) ==> !(#[trigger] is_known(
                sorting::insert_by(s, x, by_lowercase()),
                y,
            )),
    decreases s.len(),
{
    let before = by_lowercase();
    let r = sorting::insert_by(s, x, before);
    if s.len() > 0 && before(x, s.last()) {
        let s0 = s.drop_last();
        let l = s.last();
        assert(s[s.len() - 1] == l);
        assert forall|i: int, j: int| 0 <= i < j < s0.len() implies !text::same_but_case(
            #[trigger] s0[i],
            #[trigger] s0[j],
        ) by {
            assert(s0[i] == s[i] && s0[j] == s[j]);
        }
        assert forall|y: Seq<char>| !is_known(s, y) implies !(#[trigger] is_known(s0, y)) by {
            if is_known(s0, y) {
                let k = choose|k: int|
                    0 <= k < s0.len() && text::same_but_case(#[trigger] s0[k], y);
                assert(text::same_but_case(s[k], y));
            }
        }
        lemma_insert_differs(s0, x);
        let r0 = sorting::insert_by(s0, x, before);
        assert(!is_known(s0, l)) by {
            if is_known(s0, l) {
                let k = choose|k: int|
                    0 <= k < s0.len() && text::same_but_case(#[trigger] s0[k], l);
                assert(s[k] == s0[k]);
            }
        }
        assert(!text::same_but_case(x, l)) by {
            if text::same_but_case(x, l) {
                assert(text::same_but_case(s[s.len() - 1], x));
            }
        }
        assert(!is_known(r0, l));
        assert forall|i: int, j: int| 0 <= i < j < r.len() implies !text::same_but_case(
            #[trigger] r[i],
            #[trigger] r[j],
        ) by {
            assert(r[i] == r0[i]);
            if j < r0.len() {
                assert(r[j] == r0[j]);
            }
        }
        assert forall|y: Seq<char>|
            !is_known(s, y) && !text::same_but_case(x, y) implies !(#[trigger] is_known(r, y)) by {
            if is_known(r, y) {
                let k = choose|k: int| 0 <= k < r.len() && text::same_but_case(#[trigger] r[k], y);
                if k < r0.len() {
                    assert(text::same_but_case(r0[k], y));
                    assert(is_known(r0, y));
                } else {
                    assert(text::same_but_case(s[s.len() - 1], y));
                }
            }
        }
    } else {
        assert forall|i: int, j: int| 0 <= i < j < r.len() implies !text::same_but_case(
            #[trigger] r[i],
            #[trigger] r[j],
        ) by {
            assert(r[i] == s[i]);
            if j < s.len() {
                assert(r[j] == s[j]);
            } else if text::same_but_case(s[i], x) {
                assert(is_known(s, x));
            }
        }
        assert forall|y: Seq<char>|
            !is_known(s, y) && !text::same_but_case(x, y) implies !(#[trigger] is_known(r, y)) by {
            if is_known(r, y) {
                let k = choose|k: int| 0 <= k < r.len() && text::same_but_case(#[trigger] r[k], y);
                if k < s.len() {
                    assert(text::same_but_case(s[k], y));
                }
            }
        }
    }
}

proof fn lemma_sort_differs(s: Seq<Seq<char>>)
    requires
        names_differ(s),
    ensures
        names_differ(sorting::sort_by(s, by_lowercase())),
        forall|y: Seq<char>|
            !is_known(s, y) ==> !(#[trigger] is_known(sorting::sort_by(s, by_lowercase()), y)),
    decreases s.len(),
{
    if s.len() > 0 {
        let s0 = s.drop_last();
        let l = s.last();
        assert(s[s.len() - 1] == l);
        assert forall|i: int, j: int| 0 <= i < j < s0.len() implies !text::same_but_case(
            #[trigger] s0[i],
            #[trigger] s0[j],
        ) by {
            assert(s0[i] == s[i] && s0[j] == s[j]);
        }
        lemma_sort_differs(s0);
        assert(!is_known(s0, l)) by {
            if is_known(s0, l) {
                let k = choose|k: int|
                    0 <= k < s0.len() && text::same_but_case(#[trigger] s0[k], l);
                assert(s[k] == s0[k]);
            }
        }
        let r0 = sorting::sort_by(s0, by_lowercase());
        assert(!is_known(r0, l));
        lemma_insert_differs(r0, l);
        assert forall|y: Seq<char>| !is_known(s, y) implies !(#[trigger] is_known(
            sorting::sort_by(s, by_lowercase()),
            y,
        )) by {
            assert(!is_known(s0, y)) by {
                if is_known(s0, y) {
                    let k = choose|k: int|
                        0 <= k < s0.len() && text::same_but_case(#[trigger] s0[k], y);
                    assert(text::same_but_case(s[k], y));
                }
            }
            assert(!is_known(r0, y));
            assert(!text::same_but_case(l, y)) by {
                if text::same_but_case(l, y) {
                    assert(text::same_but_case(s[s.len() - 1], y));
                }
            }
        }
    }
}

/// Observing a name leaves no name twice, whatever its case.
pub proof fn observing_adds_no_name_twice(values: Seq<Seq<char>>, name: Seq<char>)
    requires
        names_differ(values),
    ensures
        names_differ(with_name(values, name)),
{
    let t = text::trim(name);
    if t.len() > 0 && !is_known(values, t) {
        let more = values.push(t);
        assert forall|i: int, j: int| 0 <= i < j < more.len() implies !text::same_but_case(
            #[trigger] more[i],
            #[trigger] more[j],
        ) by {
            if j == values.len() && text::same_but_case(values[i], t) {
                assert(is_known(values, t));
            }
        }
        lemma_sort_differs(more);
    }
}

proof fn lemma_matching_places(
    items: Seq<Seq<char>>,
    lowered: Seq<Seq<char>>,
    q: Seq<char>,
    start: bool,
) -> (at: Seq<int>)
    requires
        items.len() == lowered.len(),
    ensures
        at.len() == matching(items, lowered, q, start).len(),
        forall|j: int|
            0 <= j < at.len() ==> 0 <= #[trigger] at[j] < items.len() && matching(
                items,
                lowered,
                q,
                start,
            )[j] == items[at[j]],
        forall|i: int, j: int| 0 <= i < j < at.len() ==> #[trigger] at[i] < #[trigger] at[j],
        forall|i: int|
            0 <= i < items.len() ==> #[trigger] at.contains(i) == if start {
                at_start(lowered[i], q)
            } else {
                inside(lowered[i], q)
            },
    decreases items.len(),
{
    if items.len() == 0 {
        Seq::empty()
    } else {
        let init = items.drop_last();
        let lows = lowered.drop_last();
        let before = lemma_matching_places(init, lows, q, start);
        let hit = if start {
            at_start(lowered.last(), q)
        } else {
            inside(lowered.last(), q)
        };
        let at = if hit {
            before.push(items.len() - 1)
        } else {
            before
        };
        assert forall|j: int| 0 <= j < before.len() implies #[trigger] at[j] == before[j]
            && init[before[j]] == items[at[j]] by {}
        assert forall|i: int| 0 <= i < items.len() implies #[trigger] at.contains(i) == if start {
            at_start(lowered[i], q)
        } else {
            inside(lowered[i], q)
        } by {
            if i < init.len() {
                assert(lows[i] == lowered[i]);
                if before.contains(i) {
                    let j = choose|j: int| 0 <= j < before.len() && before[j] == i;
                    assert(at[j] == i);
                }
                if at.contains(i) {
                    let j = choose|j: int| 0 <= j < at.len() && at[j] == i;
                    assert(before[j] == i);
                }
            } else if hit {
                assert(at[before.len() as int] == i);
            }
        }
        at
    }
}

/// The suggestions are the first five of all names that hold what was typed, whatever
/// the case: those that begin with it before those that hold it further in, and each
/// in the order of the names. A name that holds it is left out only where five others
/// come before it.
pub proof fn suggestions_are_the_first_matches(items: Seq<Seq<char>>, query: Seq<char>) -> (at: Seq<
    int,
>)
    requires
        text::lowercase(text::trim(query)).len() > 0,
    ensures
        ({
            let q = text::lowercase(text::trim(query));
            let begins = |i: int|
                q.len() <= text::lowercase(items[i]).len() && text::lowercase(items[i]).subrange(
                    0,
                    q.len() as int,
                ) == q;
            let holds = |i: int|
                exists|p: int|
                    0 <= p && p + q.len() <= text::lowercase(items[i]).len()
                        && #[trigger] text::lowercase(items[i]).subrange(p, p + q.len()) == q;
            &&& at.len() == suggested(items, query).len()
            &&& at.len() <= 5
            &&& forall|j: int|
                0 <= j < at.len() ==> 0 <= #[trigger] at[j] < items.len() && suggested(
                    items,
                    query,
                )[j] == items[at[j]] && holds(at[j])
            &&& forall|j: int, k: int|
                0 <= j < k < at.len() ==> (begins(#[trigger] at[j]) && !begins(#[trigger] at[k]))
                    || (begins(at[j]) == begins(at[k]) && at[j] < at[k])
            &&& forall|i: int|
                0 <= i < items.len() && holds(i) && !(#[trigger] at.contains(i)) ==> at.len() == 5
                    && forall|j: int|
                    0 <= j < at.len() ==> (begins(#[trigger] at[j]) && !begins(i)) || (begins(at[j])
                        == begins(i) && at[j] < i)
        }),
{
    let q = text::lowercase(text::trim(query));
    let l = lowercases(items);
    let begins = |i: int|
        q.len() <= text::lowercase(items[i]).len() && text::lowercase(items[i]).subrange(
            0,
            q.len() as int,
        ) == q;
    let holds = |i: int|
        exists|p: int|
            0 <= p && p + q.len() <= text::lowercase(items[i]).len() && #[trigger] text::lowercase(
                items[i],
            ).subrange(p, p + q.len()) == q;
    assert forall|i: int| 0 <= i < items.len() implies #[trigger] begins(i) == at_start(l[i], q) by {
        if q.len() <= l[i].len() {
            assert(l[i].subrange(0, q.len() as int) =~= l[i].take(q.len() as int));
        }
    }
    assert forall|i: int| 0 <= i < items.len() implies #[trigger] holds(i) == (at_start(l[i], q)
        || inside(l[i], q)) by {
        if holds(i) {
            let p = choose|p: int|
                0 <= p && p + q.len() <= l[i].len() && #[trigger] l[i].subrange(p, p + q.len()) == q;
            assert(text::occurs_at(l[i], q, p));
        }
        if at_start(l[i], q) {
            assert(l[i].subrange(0, 0int + q.len()) =~= l[i].take(q.len() as int));
        } else if text::contains_text(l[i], q) {
            let p = choose|p: int| text::occurs_at(l[i], q, p);
            assert(l[i].subrange(p, p + q.len()) == q);
        }
    }
    let first = lemma_matching_places(items, l, q, true);
    let rest = lemma_matching_places(items, l, q, false);
    let all = first + rest;
    let a = matching(items, l, q, true);
    let b = matching(items, l, q, false);
    let at = if all.len() > 5 {
        all.take(5)
    } else {
        all
    };
    assert forall|j: int| 0 <= j < all.len() implies 0 <= #[trigger] all[j] < items.len() && (a
        + b)[j] == items[all[j]] && holds(all[j]) && begins(all[j]) == (j < first.len()) by {
        if j < first.len() {
            assert(all[j] == first[j]);
            assert(first.contains(first[j]));
        } else {
            assert(all[j] == rest[j - first.len()]);
            assert(rest.contains(rest[j - first.len()]));
        }
        assert(holds(all[j]));
        assert(begins(all[j]) == at_start(l[all[j]], q));
    }
    assert forall|j: int, k: int| 0 <= j < k < all.len() implies (begins(#[trigger] all[j])
        && !begins(#[trigger] all[k])) || (begins(all[j]) == begins(all[k]) && all[j] < all[k]) by {
        if k < first.len() {
            assert(first[j] < first[k]);
        } else if j >= first.len() {
            assert(rest[j - first.len()] < rest[k - first.len()]);
        }
    }
    assert forall|j: int| 0 <= j < at.len() implies #[trigger] at[j] == all[j] by {}
    assert forall|i: int| 0 <= i < items.len() && holds(i) && !(#[trigger] at.contains(
        i,
    )) implies at.len() == 5 && forall|j: int|
        0 <= j < at.len() ==> (begins(#[trigger] at[j]) && !begins(i)) || (begins(at[j]) == begins(
            i,
        ) && at[j] < i) by {
        let m = if begins(i) {
            assert(first.contains(i));
            choose|m: int| 0 <= m < first.len() && first[m] == i
        } else {
            assert(rest.contains(i));
            let m = choose|m: int| 0 <= m < rest.len() && rest[m] == i;
            m + first.len()
        };
        assert(all[m] == i);
        if m < at.len() {
            assert(at[m] == i);
        }
        assert forall|j: int| 0 <= j < at.len() implies (begins(#[trigger] at[j]) && !begins(i)) || (
        begins(at[j]) == begins(i) && at[j] < i) by {
            assert(at[j] == all[j]);
            assert(j < m);
        }
    }
    at
}

/// Without a query the first five names are suggested, or all where they are fewer.
pub proof fn without_a_query_the_first_are_suggested(items: Seq<Seq<char>>, query: Seq<char>)
    requires
        text::lowercase(text::trim(query)).len() == 0,
    ensures
        suggested(items, query).len() == if items.len() < 5 {
            items.len()
        } else {
            5
        },
        forall|j: int|
            0 <= j < suggested(items, query).len() ==> #[trigger] suggested(items, query)[j]
                == items[j],
{
}

/// Observing a name adds it, trimmed, where it is something and no name is the same
/// but for the case of its letters, and otherwise adds nothing; no name is lost.
pub proof fn observing_adds_one_name(values: Seq<Seq<char>>, candidate: Seq<char>)
    ensures
        ({
            let t = text::trim(candidate);
            let known = exists|i: int|
                0 <= i < values.len() && text::lower(#[trigger] values[i]) == text::lower(t);
            let now = with_name(values, candidate);
            &&& t.len() == 0 || known ==> now == values
            &&& t.len() > 0 && !known ==> now.to_multiset() == values.push(t).to_multiset()
            &&& t.len() > 0 && !known ==> forall|i: int, j: int|
                0 <= i < j < now.len() ==> !sorting::precedes(
                    text::lowercase(#[trigger] now[j]),
                    text::lowercase(#[trigger] now[i]),
                )
        }),
{
    let t = text::trim(candidate);
    if t.len() > 0 && !is_known(values, t) {
        let more = values.push(t);
        let now = sorting::sort_by(more, by_lowercase());
        lemma_lowercase_is_order();
        sorting::sort_sorts(more, by_lowercase());
        assert forall|i: int, j: int| 0 <= i < j < now.len() implies !sorting::precedes(
            text::lowercase(#[trigger] now[j]),
            text::lowercase(#[trigger] now[i]),
        ) by {
            assert(!by_lowercase()(now[j], now[i]));
        }
    }
    assert((exists|i: int|
        0 <= i < values.len() && text::lower(#[trigger] values[i]) == text::lower(t)) == is_known(
        values,
        t,
    )) by {
        if is_known(values, t) {
            let i = choose|i: int|
                0 <= i < values.len() && text::same_but_case(#[trigger] values[i], t);
            assert(text::lower(values[i]) == text::lower(t));
        }
        if exists|i: int|
            0 <= i < values.len() && text::lower(#[trigger] values[i]) == text::lower(t) {
            let i = choose|i: int|
                0 <= i < values.len() && text::lower(#[trigger] values[i]) == text::lower(t);
            assert(text::same_but_case(values[i], t));
        }
    }
}

/// The order of names in lower case is one to sort by.
pub proof fn lemma_lowercase_is_order()
    ensures
        sorting::is_weak_order(by_lowercase()),
{
    let before = by_lowercase();
    assert forall|a: Seq<char>, b: Seq<char>| #[trigger] before(a, b) implies !before(b, a) by {
        sorting::texts_are_ordered(text::lowercase(a), text::lowercase(b));
    }
    assert forall|a: Seq<char>, b: Seq<char>, c: Seq<char>|
        !(#[trigger] before(b, a)) && !(#[trigger] before(c, b)) implies !before(c, a) by {
        sorting::lemma_not_before(text::lowercase(a), text::lowercase(b), text::lowercase(c));
    }
}

/// The names taken from some lines are those of the lines that have four columns and
/// lie in the window: the third column or the fourth, without the quotes and the white
/// space around it, where that is something.
pub proof fn names_are_those_of_recent_lines(
    lines: Seq<Seq<char>>,
    cutoff: Cutoff,
    engagement: bool,
    name: Seq<char>,
)
    ensures
        names_in(lines, cutoff, engagement).contains(name) == exists|i: int|
            0 <= i < lines.len() && {
                let f = raw_fields(#[trigger] lines[i]);
                &&& f.len() >= 4
                &&& name == text::trim(
                    unquoted(
                        if engagement {
                            f[3]
                        } else {
                            f[2]
                        },
                    ),
                )
                &&& name.len() > 0
                &&& match dates::written_moment(f[0]) {
                    Some((_, _, _, secs, nanos)) => cutoff.instant.secs < secs || (
                    cutoff.instant.secs == secs && cutoff.instant.nanos <= nanos),
                    None => dates::written_date(text::trim(f[0])) matches Some((y, m, d))
                        && cutoff.date.not_after(
                        Date { year: y as i32, month: m as u32, day: d as u32 },
                    ),
                }
            },
    decreases lines.len(),
{
    let good = |l: Seq<char>|
        {
            let f = raw_fields(l);
            &&& f.len() >= 4
            &&& name == text::trim(
                unquoted(
                    if engagement {
                        f[3]
                    } else {
                        f[2]
                    },
                ),
            )
            &&& name.len() > 0
            &&& match dates::written_moment(f[0]) {
                Some((_, _, _, secs, nanos)) => cutoff.instant.secs < secs || (cutoff.instant.secs
                    == secs && cutoff.instant.nanos <= nanos),
                None => dates::written_date(text::trim(f[0])) matches Some((y, m, d))
                    && cutoff.date.not_after(
                    Date { year: y as i32, month: m as u32, day: d as u32 },
                ),
            }
        };
    if lines.len() > 0 {
        let init = lines.drop_last();
        names_are_those_of_recent_lines(init, cutoff, engagement, name);
        assert(good(lines.last()) == (name_in(lines.last(), cutoff, engagement) == Some(name)));
        if names_in(init, cutoff, engagement).contains(name) {
            let i = choose|i: int| 0 <= i < init.len() && good(#[trigger] init[i]);
            assert(good(lines[i]));
        }
        if good(lines.last()) {
            assert(good(lines[lines.len() - 1]));
        }
        if exists|i: int| 0 <= i < lines.len() && good(#[trigger] lines[i]) {
            let i = choose|i: int| 0 <= i < lines.len() && good(#[trigger] lines[i]);
            if i < init.len() {
                assert(good(init[i]));
            }
        }
    }
}

/// Names are taken from every line of every file but the first of each.
pub proof fn names_come_from_all_files(files: Seq<Vec<u8>>, line: Seq<char>)
    ensures
        all_body_lines(files).contains(line) == exists|f: int, i: int|
            0 <= f < files.len() && 1 <= i < csv_file::lines_of(
                text::lossy(crate::csv_writer::after_bom(files[f]@)),
            ).len() && line == #[trigger] csv_file::lines_of(
                text::lossy(crate::csv_writer::after_bom(files[f]@)),
            )[i],
    decreases files.len(),
{
    if files.len() > 0 {
        let init = files.drop_last();
        let head = all_body_lines(init);
        let tail = body_lines(files.last()@);
        let last = files.len() - 1;
        names_come_from_all_files(init, line);
        text::split_extend(text::lossy(crate::csv_writer::after_bom(files[last]@)), Seq::empty(), '\n');
        assert(tail =~= csv_file::lines_of(
                text::lossy(crate::csv_writer::after_bom(files[last]@)),
            ).skip(1));
        if all_body_lines(files).contains(line) {
            let k = choose|k: int| 0 <= k < (head + tail).len() && (head + tail)[k] == line;
            if k < head.len() {
                assert(head[k] == line);
                let (f, i) = choose|f: int, i: int|
                    0 <= f < init.len() && 1 <= i < csv_file::lines_of(
                        text::lossy(crate::csv_writer::after_bom(init[f]@)),
                    ).len() && line == #[trigger] csv_file::lines_of(
                        text::lossy(crate::csv_writer::after_bom(init[f]@)),
                    )[i];
                assert(init[f] == files[f]);
                assert(csv_file::lines_of(
                text::lossy(crate::csv_writer::after_bom(files[f]@)),
            )[i] == line);
            } else {
                assert(csv_file::lines_of(
                text::lossy(crate::csv_writer::after_bom(files[last]@)),
            )[k - head.len() + 1] == line);
            }
        }
        if exists|f: int, i: int|
            0 <= f < files.len() && 1 <= i < csv_file::lines_of(
                text::lossy(crate::csv_writer::after_bom(files[f]@)),
            ).len() && line == #[trigger] csv_file::lines_of(
                text::lossy(crate::csv_writer::after_bom(files[f]@)),
            )[i] {
            let (f, i) = choose|f: int, i: int|
                0 <= f < files.len() && 1 <= i < csv_file::lines_of(
                text::lossy(crate::csv_writer::after_bom(files[f]@)),
            ).len() && line == #[trigger] csv_file::lines_of(
                text::lossy(crate::csv_writer::after_bom(files[f]@)),
            )[i];
            if f < last {
                assert(init[f] == files[f]);
                assert(csv_file::lines_of(
                    text::lossy(crate::csv_writer::after_bom(init[f]@)),
                )[i] == line);
                assert(head.contains(line));
                let k = choose|k: int| 0 <= k < head.len() && head[k] == line;
                assert((head + tail)[k] == line);
            } else {
                assert(tail[i - 1] == line);
                assert((head + tail)[head.len() + i - 1] == line);
            }
        }
    }
}

/// A line is cut at the commas outside quotes, where every quote opens or closes; what
/// stands between stays as it is.
pub proof fn lines_are_cut_at_commas_outside_quotes(s: Seq<char>, c: char)
    ensures
        ({
            let r = read_raw(s);
            let more = read_raw(s.push(c));
            &&& raw_fields(Seq::empty()) == seq![Seq::<char>::empty()]
            &&& c == ',' && !r.quoted ==> raw_fields(s.push(c)) == raw_fields(s).push(Seq::empty())
            &&& c != ',' || r.quoted ==> raw_fields(s.push(c)) == raw_fields(s).drop_last().push(
                raw_fields(s).last().push(c),
            )
            &&& !read_raw(Seq::empty()).quoted
            &&& c == '"' ==> more.quoted == !r.quoted
            &&& c != '"' ==> more.quoted == r.quoted
        }),
{
    assert(s.push(c).drop_last() =~= s);
    let none = Seq::<char>::empty();
    assert(read_raw(none).done.push(none) =~= seq![none]);
    assert(raw_fields(s).drop_last() =~= read_raw(s).done);
}

/// What was doubled for its quotes reads as it was.
pub proof fn doubled_quotes_read_back(s: Seq<char>)
    ensures
        undoubled(csv::doubled(s)) == s,
    decreases s.len(),
{
    if s.len() > 0 {
        let rest = s.skip(1);
        doubled_quotes_read_back(rest);
        lemma_doubled_front(s);
        let d = csv::doubled(s);
        if s[0] == '"' {
            assert(d[0] == '"' && d[1] == '"');
            assert(d.skip(2) =~= csv::doubled(rest));
        } else {
            assert(d[0] == s[0]);
            assert(d.skip(1) =~= csv::doubled(rest));
        }
        assert(seq![s[0]] + rest =~= s);
    }
}

proof fn lemma_doubled_front(s: Seq<char>)
    requires
        s.len() > 0,
    ensures
        csv::doubled(s) == (if s[0] == '"' {
            seq!['"', '"']
        } else {
            seq![s[0]]
        }) + csv::doubled(s.skip(1)),
    decreases s.len(),
{
    let c = s.last();
    csv::quotes_are_doubled(s.drop_last(), c);
    assert(s.drop_last().push(c) =~= s);
    if s.len() > 1 {
        lemma_doubled_front(s.drop_last());
        assert(s.drop_last().skip(1).push(c) =~= s.skip(1));
        csv::quotes_are_doubled(s.drop_last().skip(1), c);
        assert(csv::doubled(s) =~= (if s[0] == '"' {
            seq!['"', '"']
        } else {
            seq![s[0]]
        }) + csv::doubled(s.skip(1)));
    } else {
        assert(s.drop_last() =~= Seq::<char>::empty());
        assert(s.skip(1) =~= Seq::<char>::empty());
        csv::quotes_are_doubled(Seq::empty(), c);
    }
}

/// A name in quotes is read without them, and one without is read as it is; white space
/// around either is passed over.
pub proof fn names_are_read_with_quotes_or_without(s: Seq<char>, t: Seq<char>)
    ensures
        text::trim(s) == seq!['"'] + csv::doubled(t) + seq!['"'] ==> unquoted(s) == t,
        text::trim(s).len() == 0 || text::trim(s)[0] != '"' ==> unquoted(s) == text::trim(s),
{
    let q = seq!['"'] + csv::doubled(t) + seq!['"'];
    assert(q.subrange(1, q.len() - 1) =~= csv::doubled(t));
    doubled_quotes_read_back(t);
}

} // verus!
