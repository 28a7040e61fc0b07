//! Comma-separated text: one field escaped, one line split into its fields.
//!
//! A field that a spreadsheet would take for a formula gets an apostrophe in
//! front; a field with a comma, a quote or a line break is quoted.

use crate::text;
use vstd::prelude::*;

verus! {

/// The byte order mark, as a character.
pub const BOM: char = '\u{feff}';

/// A spreadsheet would read the field as a formula.
pub open spec fn is_dangerous(s: Seq<char>) -> bool {
    s.len() > 0 && (s[0] == '=' || s[0] == '+' || s[0] == '-' || s[0] == '@' || s[0] == '\t' || s[0]
        == '\r' || s[0] == '\n')
}

/// The field with an apostrophe in front, where it is dangerous without.
pub open spec fn guarded(s: Seq<char>) -> Seq<char> {
    if is_dangerous(s) {
        seq!['\''] + s
    } else {
        s
    }
}

pub open spec fn needs_quotes(s: Seq<char>) -> bool {
    s.contains(',') || s.contains('"') || s.contains('\n') || s.contains('\r')
}

/// The text with every quote written twice.
pub open spec fn doubled(s: Seq<char>) -> Seq<char>
    decreases s.len(),
{
    if s.len() == 0 {
        Seq::empty()
    } else if s.last() == '"' {
        doubled(s.drop_last()).push('"').push('"')
    } else {
        doubled(s.drop_last()).push(s.last())
    }
}

/// The field as it stands in a line.
pub open spec fn escaped(s: Seq<char>) -> Seq<char> {
    let g = guarded(s);
    if needs_quotes(g) {
        seq!['"'] + doubled(g) + seq!['"']
    } else {
        g
    }
}

/// The escaped fields with commas between them.
pub open spec fn line_of(fields: Seq<Seq<char>>) -> Seq<char>
    decreases fields.len(),
{
    if fields.len() == 0 {
        Seq::empty()
    } else if fields.len() == 1 {
        escaped(fields[0])
    } else {
        line_of(fields.drop_last()) + seq![','] + escaped(fields.last())
    }
}

/// Where a reader stands in a field.
pub enum Quoting {
    /// Outside quotes.
    Plain,
    /// Inside quotes.
    Quoted,
    /// Behind a quote inside quotes: the closing one, or the first of a pair.
    Closing,
}

/// What a reader holds after some characters of a line.
#[verifier::ext_equal]
pub struct Reading {
    pub done: Seq<Seq<char>>,
    pub field: Seq<char>,
    pub quoting: Quoting,
}

pub open spec fn nothing_read() -> Reading {
    Reading { done: Seq::empty(), field: Seq::empty(), quoting: Quoting::Plain }
}

/// One character read. A comma outside quotes ends the field; quotes are dropped,
/// but for the second of a pair inside quotes.
pub open spec fn read_char(r: Reading, c: char) -> Reading {
    if r.quoting is Quoted {
        if c == '"' {
            Reading { quoting: Quoting::Closing, ..r }
        } else {
            Reading { field: r.field.push(c), ..r }
        }
    } else if c == '"' {
        if r.quoting is Closing {
            Reading { field: r.field.push(c), quoting: Quoting::Quoted, ..r }
        } else {
            Reading { quoting: Quoting::Quoted, ..r }
        }
    } else if c == ',' {
        Reading { done: r.done.push(r.field), field: Seq::empty(), quoting: Quoting::Plain }
    } else {
        Reading { field: r.field.push(c), quoting: Quoting::Plain, ..r }
    }
}

pub open spec fn read_chars(r: Reading, s: Seq<char>) -> Reading
    decreases s.len(),
{
    if s.len() == 0 {
        r
    } else {
        read_char(read_chars(r, s.drop_last()), s.last())
    }
}

/// The text without byte order marks in front.
pub open spec fn without_bom(s: Seq<char>) -> Seq<char>
    decreases s.len(),
{
    if s.len() > 0 && s[0] == BOM {
        without_bom(s.skip(1))
    } else {
        s
    }
}

/// The fields of a line; byte order marks in front are dropped.
pub open spec fn fields_of(line: Seq<char>) -> Seq<Seq<char>> {
    let r = read_chars(nothing_read(), without_bom(line));
    r.done.push(r.field)
}

// ---- executable -----------------------------------------------------------

/// True if the field, written verbatim, would be read as a formula.
pub fn starts_dangerous(s: &str) -> (r: bool)
    ensures
        r == is_dangerous(s@),
{
    let v = text::chars_of(s);
    v.len() > 0 && (v[0] == '=' || v[0] == '+' || v[0] == '-' || v[0] == '@' || v[0] == '\t' || v[0]
        == '\r' || v[0] == '\n')
}

/// Escape a value for one field: the formula guard, then quoting.
pub fn csv_escape(s: &str) -> (r: String)
    ensures
        r@ == escaped(s@),
{
    let mut field = String::new();
    if starts_dangerous(s) {
        field.push('\'');
    }
    text::push_text(&mut field, s);
    assert(field@ =~= guarded(s@));
    let v = text::chars_of(field.as_str());
    let mut quote = false;
    let mut inner = String::new();
    let mut i: usize = 0;
    while i < v.len()
        invariant
            i <= v@.len(),
            quote == needs_quotes(v@.take(i as int)),
            inner@ == doubled(v@.take(i as int)),
        decreases v@.len() - i,
    {
        let c = v[i];
        proof {
            let t = v@.take(i as int);
            let u = v@.take(i + 1);
            assert(u =~= t.push(c));
            assert(u.drop_last() =~= t);
            assert forall|x: char| u.contains(x) == (t.contains(x) || x == c) by {
                if u.contains(x) {
                    let k = choose|k: int| 0 <= k < u.len() && u[k] == x;
                    if k < i {
                        assert(t[k] == x);
                    }
                }
                if t.contains(x) {
                    let k = choose|k: int| 0 <= k < t.len() && t[k] == x;
                    assert(u[k] == x);
                }
                assert(u[i as int] == c);
            }
        }
        if c == ',' || c == '"' || c == '\n' || c == '\r' {
            quote = true;
        }
        if c == '"' {
            inner.push('"');
            inner.push('"');
        } else {
            inner.push(c);
        }
        i += 1;
    }
    assert(v@.take(v@.len() as int) =~= v@);
    if quote {
        let mut out = String::new();
        out.push('"');
        text::push_text(&mut out, inner.as_str());
        out.push('"');
        assert(out@ =~= escaped(s@));
        out
    } else {
        field
    }
}

/// The position behind the byte order marks in front.
pub fn bom_end(v: &[char]) -> (n: usize)
    ensures
        n <= v@.len(),
        v@.skip(n as int) == without_bom(v@),
{
    let mut n: usize = 0;
    assert(v@.skip(0) =~= v@);
    while n < v.len() && v[n] == BOM
        invariant
            n <= v@.len(),
            without_bom(v@) == without_bom(v@.skip(n as int)),
        decreases v@.len() - n,
    {
        assert(v@.skip(n as int).skip(1) =~= v@.skip(n + 1));
        n += 1;
    }
    n
}

/// The text without byte order marks in front.
pub fn strip_bom(s: &str) -> (r: String)
    ensures
        r@ == without_bom(s@),
{
    let v = text::chars_of(s);
    let n: usize = bom_end(v.as_slice());
    let rest = text::piece(v.as_slice(), n, v.len());
    assert(rest@ =~= v@.skip(n as int));
    text::text_of(rest.as_slice())
}

/// The fields of a line.
pub fn split_csv_line(line: &str) -> (r: Vec<String>)
    ensures
        text::texts(r@) == fields_of(line@),
        r@.len() >= 1,
{
    let v = text::chars_of(line);
    let from: usize = bom_end(v.as_slice());
    let ghost body = without_bom(line@);
    let mut out: Vec<String> = Vec::new();
    let mut cur = String::new();
    let mut quoted = false;
    let mut closing = false;
    let mut i: usize = from;
    assert(body.take(0) =~= Seq::<char>::empty());
    assert(text::texts(out@) =~= Seq::<Seq<char>>::empty());
    while i < v.len()
        invariant
            from <= i <= v@.len(),
            body == v@.skip(from as int),
            !(quoted && closing),
            ({
                let r = read_chars(nothing_read(), body.take(i - from));
                &&& r.done == text::texts(out@)
                &&& r.field == cur@
                &&& r.quoting is Quoted == quoted
                &&& r.quoting is Closing == closing
            }),
        decreases v@.len() - i,
    {
        let c = v[i];
        let ghost outs = text::texts(out@);
        let ghost curs = cur@;
        proof {
            assert(body.take(i - from + 1).drop_last() =~= body.take(i - from));
            assert(body.take(i - from + 1).last() == c);
        }
        if quoted {
            if c == '"' {
                quoted = false;
                closing = true;
            } else {
                cur.push(c);
            }
        } else if c == '"' {
            if closing {
                cur.push(c);
            }
            quoted = true;
            closing = false;
        } else if c == ',' {
            out.push(cur);
            cur = String::new();
            closing = false;
            assert(text::texts(out@) =~= outs.push(curs));
        } else {
            cur.push(c);
            closing = false;
        }
        i += 1;
    }
    assert(body.take(body.len() as int) =~= body);
    let ghost outs = text::texts(out@);
    let ghost curs = cur@;
    out.push(cur);
    assert(text::texts(out@) =~= outs.push(curs));
    out
}

/// The escaped fields with commas between them.
pub fn join_fields(fields: &Vec<String>) -> (r: String)
    ensures
        r@ == line_of(text::texts(fields@)),
{
    let mut out = String::new();
    let mut i: usize = 0;
    let ghost all = text::texts(fields@);
    while i < fields.len()
        invariant
            i <= fields@.len(),
            all == text::texts(fields@),
            out@ == line_of(all.take(i as int)),
        decreases fields@.len() - i,
    {
        if i > 0 {
            out.push(',');
        }
        let e = csv_escape(fields[i].as_str());
        text::push_text(&mut out, e.as_str());
        proof {
            let t = all.take(i + 1);
            assert(t.drop_last() =~= all.take(i as int));
            assert(t.last() == all[i as int]);
            assert(all[i as int] == fields@[i as int]@);
            assert(out@ =~= line_of(t));
        }
        i += 1;
    }
    assert(all.take(all.len() as int) =~= all);
    out
}

// ---- laws -----------------------------------------------------------------

/// A guarded field is not dangerous, and guarding it again changes nothing.
pub proof fn guard_is_safe_and_idempotent(s: Seq<char>)
    ensures
        !is_dangerous(guarded(s)),
        guarded(guarded(s)) == guarded(s),
{
}

/// No escaped field begins like a formula.
pub proof fn escaped_fields_are_safe(s: Seq<char>)
    ensures
        !is_dangerous(escaped(s)),
{
    guard_is_safe_and_idempotent(s);
}

proof fn lemma_read_on(r: Reading, a: Seq<char>, b: Seq<char>)
    ensures
        read_chars(r, a + b) == read_chars(read_chars(r, a), b),
    decreases b.len(),
{
    if b.len() == 0 {
        assert(a + b =~= a);
    } else {
        lemma_read_on(r, a, b.drop_last());
        assert((a + b).drop_last() =~= a + b.drop_last());
    }
}

proof fn lemma_read_one(r: Reading, c: char)
    ensures
        read_chars(r, seq![c]) == read_char(r, c),
{
    assert(seq![c].drop_last() =~= Seq::<char>::empty());
    assert(read_chars(r, seq![c].drop_last()) == r);
}

proof fn lemma_read_doubled(r: Reading, s: Seq<char>)
    requires
        r.quoting is Quoted,
    ensures
        read_chars(r, doubled(s)) == (Reading { field: r.field + s, ..r }),
    decreases s.len(),
{
    if s.len() == 0 {
        assert(r.field + s =~= r.field);
    } else {
        let s0 = s.drop_last();
        let c = s.last();
        lemma_read_doubled(r, s0);
        let mid = read_chars(r, doubled(s0));
        assert(s0.push(c) =~= s);
        assert((r.field + s0).push(c) =~= r.field + s);
        if c == '"' {
            let once = doubled(s0).push(c);
            assert(once.drop_last() =~= doubled(s0));
            assert(once.push(c).drop_last() =~= once);
            assert(read_chars(r, once) == read_char(mid, c));
            assert(read_chars(r, once.push(c)) == read_char(read_char(mid, c), c));
        } else {
            assert(doubled(s0).push(c).drop_last() =~= doubled(s0));
        }
    }
}

proof fn lemma_read_plain(r: Reading, s: Seq<char>)
    requires
        r.quoting is Plain,
        !needs_quotes(s),
    ensures
        read_chars(r, s) == (Reading { field: r.field + s, ..r }),
    decreases s.len(),
{
    if s.len() == 0 {
        assert(r.field + s =~= r.field);
    } else {
        let s0 = s.drop_last();
        assert forall|x: char| s0.contains(x) implies s.contains(x) by {
            let k = choose|k: int| 0 <= k < s0.len() && s0[k] == x;
            assert(s[k] == x);
        }
        assert(s.contains(s.last())) by {
            assert(s[s.len() - 1] == s.last());
        }
        lemma_read_plain(r, s0);
        assert((r.field + s0).push(s.last()) =~= r.field + s);
    }
}

proof fn lemma_read_escaped(r: Reading, s: Seq<char>)
    requires
        r.quoting is Plain,
        r.field.len() == 0,
    ensures
        read_chars(r, escaped(s)).done == r.done,
        read_chars(r, escaped(s)).field == guarded(s),
        !(read_chars(r, escaped(s)).quoting is Quoted),
{
    let g = guarded(s);
    assert(r.field + g =~= g);
    if needs_quotes(g) {
        let q = seq!['"'];
        lemma_read_on(r, q + doubled(g), q);
        lemma_read_on(r, q, doubled(g));
        lemma_read_one(r, '"');
        let open = read_char(r, '"');
        lemma_read_doubled(open, g);
        lemma_read_one(read_chars(open, doubled(g)), '"');
    } else {
        lemma_read_plain(r, g);
    }
}

proof fn lemma_read_line(fields: Seq<Seq<char>>)
    requires
        fields.len() >= 1,
    ensures
        ({
            let r = read_chars(nothing_read(), line_of(fields));
            &&& r.done.push(r.field) == fields.map_values(|f: Seq<char>| guarded(f))
            &&& !(r.quoting is Quoted)
        }),
    decreases fields.len(),
{
    let guard = |f: Seq<char>| guarded(f);
    let r = read_chars(nothing_read(), line_of(fields));
    if fields.len() == 1 {
        lemma_read_escaped(nothing_read(), fields[0]);
        assert(r.done.push(r.field) =~= fields.map_values(guard));
    } else {
        let init = fields.drop_last();
        lemma_read_line(init);
        let before = read_chars(nothing_read(), line_of(init));
        lemma_read_on(nothing_read(), line_of(init) + seq![','], escaped(fields.last()));
        lemma_read_on(nothing_read(), line_of(init), seq![',']);
        lemma_read_one(before, ',');
        lemma_read_escaped(read_char(before, ','), fields.last());
        assert(r.done.push(r.field) =~= fields.map_values(guard));
    }
}

proof fn lemma_escaped_first(s: Seq<char>)
    requires
        !(s.len() > 0 && s[0] == BOM),
    ensures
        !(escaped(s).len() > 0 && escaped(s)[0] == BOM),
{
}

proof fn lemma_line_first(fields: Seq<Seq<char>>)
    requires
        fields.len() >= 1,
        !(fields[0].len() > 0 && fields[0][0] == BOM),
    ensures
        !(line_of(fields).len() > 0 && line_of(fields)[0] == BOM),
    decreases fields.len(),
{
    lemma_escaped_first(fields[0]);
    if fields.len() > 1 {
        lemma_line_first(fields.drop_last());
    }
}

/// The fields of a line are read back as they were written, each with its guard.
/// A byte order mark at the start of the first field is taken for the file's.
pub proof fn fields_read_back(fields: Seq<Seq<char>>)
    requires
        fields.len() >= 1,
        !(fields[0].len() > 0 && fields[0][0] == BOM),
    ensures
        fields_of(line_of(fields)) == fields.map_values(|f: Seq<char>| guarded(f)),
{
    lemma_read_line(fields);
    lemma_line_first(fields);
    assert(without_bom(line_of(fields)) == line_of(fields));
}

/// A field that a spreadsheet would take for a formula gets an apostrophe in front,
/// and no other field is changed by the guard.
pub proof fn formulas_get_an_apostrophe(c: char, rest: Seq<char>)
    ensures
        guarded(Seq::empty()) == Seq::<char>::empty(),
        guarded(seq![c] + rest) == if c == '=' || c == '+' || c == '-' || c == '@' || c == '\t' || c
            == '\r' || c == '\n' {
            seq!['\'', c] + rest
        } else {
            seq![c] + rest
        },
{
    assert(seq!['\''] + (seq![c] + rest) =~= seq!['\'', c] + rest);
}

/// A field with a comma, a quote or a line end in it stands in quotes, and each of its
/// quotes is written twice; any other field is written as it is.
pub proof fn fields_are_quoted_where_they_must_be(s: Seq<char>)
    ensures
        ({
            let g = guarded(s);
            let special = exists|i: int|
                0 <= i < g.len() && (#[trigger] g[i] == ',' || g[i] == '"' || g[i] == '\n' || g[i]
                    == '\r');
            &&& !special ==> escaped(s) == g
            &&& special ==> escaped(s) == seq!['"'] + doubled(g) + seq!['"']
        }),
{
    let g = guarded(s);
    if needs_quotes(g) {
        let i = choose|i: int|
            0 <= i < g.len() && (g[i] == ',' || g[i] == '"' || g[i] == '\n' || g[i] == '\r');
        assert(g[i] == ',' || g[i] == '"' || g[i] == '\n' || g[i] == '\r');
    }
    if exists|i: int|
        0 <= i < g.len() && (#[trigger] g[i] == ',' || g[i] == '"' || g[i] == '\n' || g[i] == '\r') {
        let i = choose|i: int|
            0 <= i < g.len() && (#[trigger] g[i] == ',' || g[i] == '"' || g[i] == '\n' || g[i]
                == '\r');
        assert(g.contains(g[i]));
    }
}

/// Doubling writes a quote twice and every other character once.
pub proof fn quotes_are_doubled(a: Seq<char>, c: char)
    ensures
        doubled(Seq::empty()) == Seq::<char>::empty(),
        doubled(a.push(c)) == if c == '"' {
            doubled(a) + seq!['"', '"']
        } else {
            doubled(a) + seq![c]
        },
{
    assert(a.push(c).drop_last() =~= a);
    assert(doubled(a).push('"').push('"') =~= doubled(a) + seq!['"', '"']);
    assert(doubled(a).push(c) =~= doubled(a) + seq![c]);
}

/// A line without quotes and without a byte order mark in front is cut at its commas.
pub proof fn plain_lines_are_cut_at_commas(line: Seq<char>)
    requires
        !line.contains('"'),
        line.len() == 0 || line[0] != BOM,
    ensures
        fields_of(line) == text::split_on(line, ','),
{
    lemma_plain_reading(line);
    assert(without_bom(line) == line);
    let r = read_chars(nothing_read(), line);
    assert(r.done.push(r.field) =~= text::split_on(line, ','));
}

proof fn lemma_plain_reading(s: Seq<char>)
    requires
        !s.contains('"'),
    ensures
        ({
            let r = read_chars(nothing_read(), s);
            &&& r.quoting is Plain
            &&& r.done.push(r.field) == text::split_on(s, ',')
        }),
    decreases s.len(),
{
    if s.len() > 0 {
        let init = s.drop_last();
        assert forall|i: int| 0 <= i < init.len() implies init[i] != '"' by {
            assert(s[i] == init[i]);
            assert(s.contains(s[i]));
        }
        lemma_plain_reading(init);
        assert(s.contains(s[s.len() - 1]));
        let r = read_chars(nothing_read(), init);
        let now = read_chars(nothing_read(), s);
        let parts = text::split_on(init, ',');
        assert(r.done.push(r.field) == parts);
        assert(parts.last() == r.field);
        assert(parts.drop_last() =~= r.done);
        assert(now.done.push(now.field) =~= text::split_on(s, ','));
    } else {
        assert(nothing_read().done.push(nothing_read().field) =~= text::split_on(s, ','));
    }
}

/// Byte order marks in front are taken off, all of them and nothing else.
pub proof fn marks_in_front_are_taken_off(c: char, s: Seq<char>)
    ensures
        without_bom(Seq::empty()) == Seq::<char>::empty(),
        without_bom(seq![c] + s) == if c as u32 == 0xfeff {
            without_bom(s)
        } else {
            seq![c] + s
        },
{
    assert((seq![c] + s).skip(1) =~= s);
}

} // verus!
