//! Text as a sequence of characters: trimming, splitting, ASCII case, integers
//! in decimal. The other modules state what they do to text in these terms.

use vstd::prelude::*;

verus! {

/// `String::push`: the character is added at the end.
pub assume_specification[ String::push ](s: &mut String, c: char)
    ensures
        final(s)@ == old(s)@.push(c),
;

/// The views of the strings of a list, in order.
pub open spec fn texts(v: Seq<String>) -> Seq<Seq<char>> {
    Seq::new(v.len(), |i: int| v[i]@)
}

/// White space: the code points with the Unicode property `White_Space`.
pub open spec fn is_white(c: char) -> bool {
    let n = c as u32;
    ||| 0x09 <= n <= 0x0d
    ||| n == 0x20
    ||| n == 0x85
    ||| n == 0xa0
    ||| n == 0x1680
    ||| 0x2000 <= n <= 0x200a
    ||| n == 0x2028
    ||| n == 0x2029
    ||| n == 0x202f
    ||| n == 0x205f
    ||| n == 0x3000
}

pub open spec fn trim_start(s: Seq<char>) -> Seq<char>
    decreases s.len(),
{
    if s.len() > 0 && is_white(s[0]) {
        trim_start(s.skip(1))
    } else {
        s
    }
}

pub open spec fn trim_end(s: Seq<char>) -> Seq<char>
    decreases s.len(),
{
    if s.len() > 0 && is_white(s.last()) {
        trim_end(s.drop_last())
    } else {
        s
    }
}

/// The text without the white space at either end.
pub open spec fn trim(s: Seq<char>) -> Seq<char> {
    trim_end(trim_start(s))
}

pub open spec fn has_prefix(s: Seq<char>, p: Seq<char>) -> bool {
    p.len() <= s.len() && s.take(p.len() as int) == p
}

pub open spec fn has_suffix(s: Seq<char>, p: Seq<char>) -> bool {
    p.len() <= s.len() && s.skip(s.len() - p.len()) == p
}

/// `p` stands in `s` at position `i`.
pub open spec fn occurs_at(s: Seq<char>, p: Seq<char>, i: int) -> bool {
    0 <= i && i + p.len() <= s.len() && s.subrange(i, i + p.len()) == p
}

pub open spec fn contains_text(s: Seq<char>, p: Seq<char>) -> bool {
    exists|i: int| occurs_at(s, p, i)
}

/// The pieces between the occurrences of `c`; one more than there are of them.
pub open spec fn split_on(s: Seq<char>, c: char) -> Seq<Seq<char>>
    decreases s.len(),
{
    if s.len() == 0 {
        seq![Seq::<char>::empty()]
    } else {
        let init = split_on(s.drop_last(), c);
        if s.last() == c {
            init.push(Seq::<char>::empty())
        } else {
            init.drop_last().push(init.last().push(s.last()))
        }
    }
}

pub open spec fn is_upper(c: char) -> bool {
    'A' <= c <= 'Z'
}

pub open spec fn is_lower(c: char) -> bool {
    'a' <= c <= 'z'
}

pub open spec fn is_digit(c: char) -> bool {
    '0' <= c <= '9'
}

pub open spec fn to_lower(c: char) -> char {
    if is_upper(c) {
        ((c as u32) + 32) as char
    } else {
        c
    }
}

pub open spec fn to_upper(c: char) -> char {
    if is_lower(c) {
        ((c as u32) - 32) as char
    } else {
        c
    }
}

/// ASCII letters in lower case, every other character as it is.
pub open spec fn lower(s: Seq<char>) -> Seq<char> {
    Seq::new(s.len(), |i: int| to_lower(s[i]))
}

/// ASCII letters in upper case, every other character as it is.
pub open spec fn upper(s: Seq<char>) -> Seq<char> {
    Seq::new(s.len(), |i: int| to_upper(s[i]))
}

/// Equal but for the case of ASCII letters.
pub open spec fn same_but_case(a: Seq<char>, b: Seq<char>) -> bool {
    lower(a) == lower(b)
}

pub open spec fn all_digits(s: Seq<char>) -> bool {
    forall|i: int| 0 <= i < s.len() ==> is_digit(#[trigger] s[i])
}

pub open spec fn digit_value(c: char) -> nat {
    ((c as u32) - 48) as nat
}

pub open spec fn digit_char(n: nat) -> char {
    ((n % 10) + 48) as char
}

/// The number that a run of decimal digits stands for.
pub open spec fn digits_value(s: Seq<char>) -> nat
    decreases s.len(),
{
    if s.len() == 0 {
        0
    } else {
        digits_value(s.drop_last()) * 10 + digit_value(s.last())
    }
}

/// The decimal digits of a number, without leading zeros.
pub open spec fn dec(n: nat) -> Seq<char>
    decreases n,
{
    if n < 10 {
        seq![digit_char(n)]
    } else {
        dec(n / 10).push(digit_char(n))
    }
}

/// The lowest `width` decimal digits of a number.
pub open spec fn low_digits(n: nat, width: nat) -> Seq<char>
    decreases width,
{
    if width == 0 {
        Seq::empty()
    } else {
        low_digits(n / 10, (width - 1) as nat).push(digit_char(n))
    }
}

/// The decimal digits of a number, with zeros in front up to `width`.
pub open spec fn dec_padded(n: nat, width: nat) -> Seq<char> {
    if dec(n).len() >= width {
        dec(n)
    } else {
        low_digits(n, width)
    }
}

/// The decimal text of an integer, with a minus sign where it is negative.
pub open spec fn dec_int(n: int) -> Seq<char> {
    if n < 0 {
        seq!['-'] + dec((-n) as nat)
    } else {
        dec(n as nat)
    }
}

/// The unsigned integer that a text spells: an optional `+`, then digits.
pub open spec fn parse_nat(s: Seq<char>) -> Option<nat> {
    let body = if s.len() > 0 && s[0] == '+' { s.skip(1) } else { s };
    if body.len() > 0 && all_digits(body) {
        Some(digits_value(body))
    } else {
        None
    }
}

/// The integer that a text spells: an optional sign, then digits.
pub open spec fn parse_int(s: Seq<char>) -> Option<int> {
    if s.len() > 0 && s[0] == '-' {
        let body = s.skip(1);
        if body.len() > 0 && all_digits(body) {
            Some(-(digits_value(body) as int))
        } else {
            None
        }
    } else {
        match parse_nat(s) {
            Some(n) => Some(n as int),
            None => None,
        }
    }
}

// ---- executable -----------------------------------------------------------

/// The characters of a text.
pub fn chars_of(s: &str) -> (r: Vec<char>)
    ensures
        r@ == s@,
{
    let mut out: Vec<char> = Vec::new();
    for c in it: s.chars()
        invariant
            it.seq() == s@,
            out@ == s@.take(it.index()),
    {
        out.push(c);
        assert(s@.take(it.index() + 1) =~= s@.take(it.index()).push(c));
    }
    assert(s@.take(s@.len() as int) =~= s@);
    out
}

/// The text made of these characters.
pub fn text_of(v: &[char]) -> (r: String)
    ensures
        r@ == v@,
{
    let mut out = String::new();
    let mut i: usize = 0;
    while i < v.len()
        invariant
            i <= v@.len(),
            out@ == v@.take(i as int),
        decreases v@.len() - i,
    {
        out.push(v[i]);
        i += 1;
        assert(v@.take(i as int) =~= v@.take(i - 1).push(v@[i - 1]));
    }
    assert(v@.take(v@.len() as int) =~= v@);
    out
}

/// A part of a list of characters.
pub fn piece(v: &[char], from: usize, to: usize) -> (r: Vec<char>)
    requires
        from <= to <= v@.len(),
    ensures
        r@ == v@.subrange(from as int, to as int),
{
    let mut out: Vec<char> = Vec::new();
    let mut i: usize = from;
    while i < to
        invariant
            from <= i <= to <= v@.len(),
            out@ == v@.subrange(from as int, i as int),
        decreases to - i,
    {
        out.push(v[i]);
        i += 1;
        assert(v@.subrange(from as int, i as int) =~= v@.subrange(from as int, i - 1).push(
            v@[i - 1],
        ));
    }
    out
}

/// Two lists of characters are the same.
pub fn same(a: &[char], b: &[char]) -> (r: bool)
    ensures
        r == (a@ == b@),
{
    if a.len() != b.len() {
        return false;
    }
    let mut i: usize = 0;
    while i < a.len()
        invariant
            a@.len() == b@.len(),
            i <= a@.len(),
            forall|j: int| 0 <= j < i ==> a@[j] == b@[j],
        decreases a@.len() - i,
    {
        if a[i] != b[i] {
            return false;
        }
        i += 1;
    }
    assert(a@ =~= b@);
    true
}

/// Two texts are the same.
pub fn same_text(a: &str, b: &str) -> (r: bool)
    ensures
        r == (a@ == b@),
{
    let x = chars_of(a);
    let y = chars_of(b);
    same(x.as_slice(), y.as_slice())
}

/// The character is white space.
pub fn white(c: char) -> (r: bool)
    ensures
        r == is_white(c),
{
    let n: u32 = c as u32;
    (0x09 <= n && n <= 0x0d) || n == 0x20 || n == 0x85 || n == 0xa0 || n == 0x1680 || (0x2000 <= n
        && n <= 0x200a) || n == 0x2028 || n == 0x2029 || n == 0x202f || n == 0x205f || n == 0x3000
}

/// The characters without the white space at either end.
pub fn trimmed(v: &[char]) -> (r: Vec<char>)
    ensures
        r@ == trim(v@),
{
    let mut i: usize = 0;
    assert(v@.skip(0) =~= v@);
    while i < v.len() && white(v[i])
        invariant
            i <= v@.len(),
            trim_start(v@) == trim_start(v@.skip(i as int)),
        decreases v@.len() - i,
    {
        assert(v@.skip(i as int).skip(1) =~= v@.skip(i + 1));
        i += 1;
    }
    let ghost rest = v@.skip(i as int);
    assert(trim_start(v@) == rest);
    let mut j: usize = v.len();
    assert(v@.subrange(i as int, j as int) =~= rest);
    while i < j && white(v[j - 1])
        invariant
            i <= j <= v@.len(),
            rest == v@.skip(i as int),
            trim_end(rest) == trim_end(v@.subrange(i as int, j as int)),
        decreases j,
    {
        assert(v@.subrange(i as int, j as int).drop_last() =~= v@.subrange(i as int, j - 1));
        assert(v@.subrange(i as int, j as int).last() == v@[j - 1]);
        j -= 1;
    }
    assert(i < j ==> v@.subrange(i as int, j as int).last() == v@[j - 1]);
    piece(v, i, j)
}

/// The text without the white space at either end.
pub fn trim_text(s: &str) -> (r: String)
    ensures
        r@ == trim(s@),
{
    let v = chars_of(s);
    text_of(trimmed(v.as_slice()).as_slice())
}

/// The characters begin with those of `p`.
pub fn starts_with(v: &[char], p: &[char]) -> (r: bool)
    ensures
        r == has_prefix(v@, p@),
{
    if p.len() > v.len() {
        return false;
    }
    let head = piece(v, 0, p.len());
    same(head.as_slice(), p)
}

/// The characters end with those of `p`.
pub fn ends_with(v: &[char], p: &[char]) -> (r: bool)
    ensures
        r == has_suffix(v@, p@),
{
    if p.len() > v.len() {
        return false;
    }
    let tail = piece(v, v.len() - p.len(), v.len());
    assert(tail@ == v@.skip(v@.len() - p@.len()));
    same(tail.as_slice(), p)
}

/// The characters of `p` stand somewhere in `v`.
pub fn contains(v: &[char], p: &[char]) -> (r: bool)
    ensures
        r == contains_text(v@, p@),
{
    if p.len() > v.len() {
        return false;
    }
    let last: usize = v.len() - p.len();
    let mut i: usize = 0;
    while i <= last
        invariant
            p@.len() <= v@.len(),
            last == v@.len() - p@.len(),
            v@.len() <= usize::MAX,
            i <= last + 1,
            forall|k: int| 0 <= k < i ==> !occurs_at(v@, p@, k),
        decreases last + 1 - i,
    {
        let here = piece(v, i, i + p.len());
        if same(here.as_slice(), p) {
            assert(occurs_at(v@, p@, i as int));
            return true;
        }
        if i == last {
            assert(forall|k: int| !occurs_at(v@, p@, k));
            return false;
        }
        i += 1;
    }
    false
}

/// `str::starts_with`, on texts.
pub fn text_starts_with(s: &str, p: &str) -> (r: bool)
    ensures
        r == has_prefix(s@, p@),
{
    starts_with(chars_of(s).as_slice(), chars_of(p).as_slice())
}

/// `str::ends_with`, on texts.
pub fn text_ends_with(s: &str, p: &str) -> (r: bool)
    ensures
        r == has_suffix(s@, p@),
{
    ends_with(chars_of(s).as_slice(), chars_of(p).as_slice())
}

/// `str::contains`, on texts.
pub fn text_contains(s: &str, p: &str) -> (r: bool)
    ensures
        r == contains_text(s@, p@),
{
    contains(chars_of(s).as_slice(), chars_of(p).as_slice())
}

/// The pieces between the occurrences of `c`.
pub fn split(v: &[char], c: char) -> (r: Vec<String>)
    ensures
        texts(r@) == split_on(v@, c),
        r@.len() >= 1,
{
    let mut out: Vec<String> = Vec::new();
    let mut cur = String::new();
    let mut i: usize = 0;
    assert(v@.take(0) =~= Seq::<char>::empty());
    assert(texts(out@).push(cur@) =~= split_on(v@.take(0), c));
    while i < v.len()
        invariant
            i <= v@.len(),
            texts(out@).push(cur@) == split_on(v@.take(i as int), c),
        decreases v@.len() - i,
    {
        let ghost before = split_on(v@.take(i as int), c);
        let ghost outs = texts(out@);
        let ghost curs = cur@;
        assert(v@.take(i + 1).drop_last() =~= v@.take(i as int));
        assert(v@.take(i + 1).last() == v@[i as int]);
        assert(before.last() == curs);
        assert(before.drop_last() =~= outs);
        if v[i] == c {
            out.push(cur);
            cur = String::new();
            assert(texts(out@) =~= outs.push(curs));
        } else {
            cur.push(v[i]);
        }
        i += 1;
    }
    assert(v@.take(v@.len() as int) =~= v@);
    let ghost outs = texts(out@);
    let ghost curs = cur@;
    out.push(cur);
    assert(texts(out@) =~= outs.push(curs));
    out
}

pub fn lower_char(c: char) -> (r: char)
    ensures
        r == to_lower(c),
{
    if 'A' <= c && c <= 'Z' {
        ((c as u8) + 32) as char
    } else {
        c
    }
}

pub fn upper_char(c: char) -> (r: char)
    ensures
        r == to_upper(c),
{
    if 'a' <= c && c <= 'z' {
        ((c as u8) - 32) as char
    } else {
        c
    }
}

/// ASCII letters in lower case.
pub fn lower_text(s: &str) -> (r: String)
    ensures
        r@ == lower(s@),
{
    let mut out = String::new();
    for c in it: s.chars()
        invariant
            it.seq() == s@,
            out@ == lower(s@.take(it.index())),
    {
        out.push(lower_char(c));
        assert(lower(s@.take(it.index() + 1)) =~= lower(s@.take(it.index())).push(to_lower(c)));
    }
    assert(s@.take(s@.len() as int) =~= s@);
    out
}

/// ASCII letters in upper case.
pub fn upper_text(s: &str) -> (r: String)
    ensures
        r@ == upper(s@),
{
    let mut out = String::new();
    for c in it: s.chars()
        invariant
            it.seq() == s@,
            out@ == upper(s@.take(it.index())),
    {
        out.push(upper_char(c));
        assert(upper(s@.take(it.index() + 1)) =~= upper(s@.take(it.index())).push(to_upper(c)));
    }
    assert(s@.take(s@.len() as int) =~= s@);
    out
}

/// Equal but for the case of ASCII letters.
pub fn eq_ignore_case(a: &str, b: &str) -> (r: bool)
    ensures
        r == same_but_case(a@, b@),
{
    let x = lower_text(a);
    let y = lower_text(b);
    same_text(x.as_str(), y.as_str())
}

pub fn digit(c: char) -> (r: bool)
    ensures
        r == is_digit(c),
{
    '0' <= c && c <= '9'
}

pub fn digits_only(v: &[char]) -> (r: bool)
    ensures
        r == all_digits(v@),
{
    let mut i: usize = 0;
    while i < v.len()
        invariant
            i <= v@.len(),
            all_digits(v@.take(i as int)),
        decreases v@.len() - i,
    {
        if !digit(v[i]) {
            assert(!is_digit(v@[i as int]));
            return false;
        }
        assert forall|k: int| 0 <= k < i + 1 implies is_digit(
            #[trigger] v@.take(i + 1)[k],
        ) by {
            if k < i {
                assert(v@.take(i as int)[k] == v@[k]);
            }
        }
        i += 1;
    }
    assert(v@.take(v@.len() as int) =~= v@);
    true
}

/// A bound on the numbers that are read from digits: two to the power of a hundred.
pub const NUMBER_LIMIT: u128 = 0x10_0000_0000_0000_0000_0000_0000;

/// The number that a run of digits stands for, up to `NUMBER_LIMIT`.
pub fn digits_number(v: &[char]) -> (r: Option<u128>)
    requires
        all_digits(v@),
    ensures
        match r {
            Some(n) => n == digits_value(v@) && n <= NUMBER_LIMIT,
            None => digits_value(v@) > NUMBER_LIMIT,
        },
{
    let mut acc: u128 = 0;
    let mut over = false;
    let mut i: usize = 0;
    while i < v.len()
        invariant
            all_digits(v@),
            i <= v@.len(),
            !over ==> acc == digits_value(v@.take(i as int)) && acc <= NUMBER_LIMIT,
            over ==> digits_value(v@.take(i as int)) > NUMBER_LIMIT,
        decreases v@.len() - i,
    {
        assert(v@.take(i + 1).drop_last() =~= v@.take(i as int));
        assert(is_digit(v@[i as int]));
        if !over {
            acc = acc * 10 + ((v[i] as u32) - 48) as u128;
            if acc > NUMBER_LIMIT {
                over = true;
            }
        }
        i += 1;
    }
    assert(v@.take(v@.len() as int) =~= v@);
    if over {
        None
    } else {
        Some(acc)
    }
}

/// What the text spells as an unsigned integer of at most `max`.
pub fn parse_u64(s: &str, max: u64) -> (r: Option<u64>)
    ensures
        match r {
            Some(n) => parse_nat(s@) == Some(n as nat) && n <= max,
            None => parse_nat(s@) is None || parse_nat(s@)->0 > max,
        },
{
    let v = chars_of(s);
    let from: usize = if v.len() > 0 && v[0] == '+' {
        1
    } else {
        0
    };
    let body = piece(v.as_slice(), from, v.len());
    assert(body@ =~= if from == 1 { s@.skip(1) } else { s@ });
    if body.len() == 0 || !digits_only(body.as_slice()) {
        return None;
    }
    match digits_number(body.as_slice()) {
        Some(n) => if n <= max as u128 {
            Some(n as u64)
        } else {
            None
        },
        None => None,
    }
}

/// What the text spells as an `i64`.
pub fn parse_i64(s: &str) -> (r: Option<i64>)
    ensures
        match r {
            Some(n) => parse_int(s@) == Some(n as int),
            None => parse_int(s@) is None || parse_int(s@)->0 > i64::MAX || parse_int(s@)->0
                < i64::MIN,
        },
{
    let v = chars_of(s);
    if v.len() > 0 && v[0] == '-' {
        let body = piece(v.as_slice(), 1, v.len());
        assert(body@ =~= s@.skip(1));
        if body.len() == 0 || !digits_only(body.as_slice()) {
            return None;
        }
        match digits_number(body.as_slice()) {
            Some(n) => if n < 0x8000_0000_0000_0000 {
                Some(-(n as i64))
            } else if n == 0x8000_0000_0000_0000 {
                Some(i64::MIN)
            } else {
                None
            },
            None => None,
        }
    } else {
        match parse_u64(s, 0x7fff_ffff_ffff_ffff) {
            Some(n) => Some(n as i64),
            None => None,
        }
    }
}

/// Adds the decimal digits of `n`.
pub fn push_dec(out: &mut String, n: u128)
    ensures
        final(out)@ == old(out)@ + dec(n as nat),
    decreases n,
{
    if n >= 10 {
        push_dec(out, n / 10);
    }
    out.push(((n % 10) as u8 + 48) as char);
}

/// Adds the decimal text of `n`.
pub fn push_int(out: &mut String, n: i64)
    ensures
        final(out)@ == old(out)@ + dec_int(n as int),
{
    if n < 0 {
        out.push('-');
        if n == i64::MIN {
            push_dec(out, 0x8000_0000_0000_0000);
        } else {
            push_dec(out, (-n) as u128);
        }
    } else {
        push_dec(out, n as u128);
    }
}

/// Adds the lowest `width` decimal digits of `n`.
pub fn push_low_digits(out: &mut String, n: u64, width: usize)
    ensures
        final(out)@ == old(out)@ + low_digits(n as nat, width as nat),
    decreases width,
{
    if width > 0 {
        push_low_digits(out, n / 10, width - 1);
        out.push(((n % 10) as u8 + 48) as char);
    }
}

/// Adds the decimal digits of `n`, with zeros in front up to `width`.
pub fn push_padded(out: &mut String, n: u64, width: usize)
    ensures
        final(out)@ == old(out)@ + dec_padded(n as nat, width as nat),
{
    let mut own = String::new();
    push_dec(&mut own, n as u128);
    let own_chars = chars_of(own.as_str());
    if own_chars.len() >= width {
        push_dec(out, n as u128);
    } else {
        push_low_digits(out, n, width);
    }
}

/// Adds a text.
pub fn push_text(out: &mut String, s: &str)
    ensures
        final(out)@ == old(out)@ + s@,
{
    out.append(s);
}

/// The decimal text of `n`.
pub fn u64_text(n: u64) -> (r: String)
    ensures
        r@ == dec(n as nat),
{
    let mut out = String::new();
    push_dec(&mut out, n as u128);
    out
}

/// The decimal text of `n`.
pub fn i64_text(n: i64) -> (r: String)
    ensures
        r@ == dec_int(n as int),
{
    let mut out = String::new();
    push_int(&mut out, n);
    out
}

/// `true` or `false`.
pub open spec fn bool_text(b: bool) -> Seq<char> {
    if b {
        "true"@
    } else {
        "false"@
    }
}

/// `true` or `false`.
pub fn flag_text(b: bool) -> (r: String)
    ensures
        r@ == bool_text(b),
{
    if b {
        copy("true")
    } else {
        copy("false")
    }
}

/// A copy of a text.
pub fn copy(s: &str) -> (r: String)
    ensures
        r@ == s@,
{
    s.to_owned()
}

// ---- std ------------------------------------------------------------------

/// What `Debug` writes for a text: the text in double quotes, with escapes.
pub uninterp spec fn quoted(s: Seq<char>) -> Seq<char>;

/// `<str as Debug>::fmt`, through `format!("{:?}")`. The escapes follow tables of
/// Unicode properties, so the result is only named: it depends on the text alone.
#[verifier::external_body]
pub(crate) fn debug_text(s: &str) -> (r: String)
    ensures
        r@ == quoted(s@),
{
    format!("{s:?}")
}

/// What `str::to_lowercase` makes of a text.
pub uninterp spec fn lowercase(s: Seq<char>) -> Seq<char>;

/// A text of ASCII characters only.
pub open spec fn is_plain(s: Seq<char>) -> bool {
    forall|i: int| 0 <= i < s.len() ==> (#[trigger] s[i] as u32) < 128
}

/// `str::to_lowercase`. It follows tables of Unicode properties and is only named;
/// on ASCII it lowers the letters and nothing else.
#[verifier::external_body]
pub(crate) fn lowercase_text(s: &str) -> (r: String)
    ensures
        r@ == lowercase(s@),
        is_plain(s@) ==> r@ == lower(s@),
{
    s.to_lowercase()
}

/// What `String::from_utf8_lossy` makes of some bytes.
pub uninterp spec fn lossy(bytes: Seq<u8>) -> Seq<char>;

/// `String::from_utf8_lossy`. What it puts in place of bytes that are no UTF-8 is
/// only named; bytes that are the UTF-8 of a text give that text.
#[verifier::external_body]
pub(crate) fn lossy_text(bytes: &[u8]) -> (r: String)
    ensures
        r@ == lossy(bytes@),
        forall|t: Seq<char>| bytes@ == #[trigger] vstd::utf8::encode_utf8(t) ==> r@ == t,
{
    String::from_utf8_lossy(bytes).into_owned()
}

// ---- laws -----------------------------------------------------------------

proof fn lemma_dec_digits(n: nat)
    ensures
        all_digits(dec(n)),
        digits_value(dec(n)) == n,
        dec(n).len() >= 1,
    decreases n,
{
    if n < 10 {
        assert(dec(n).drop_last() =~= Seq::<char>::empty());
        assert(digits_value(dec(n).drop_last()) == 0);
    } else {
        lemma_dec_digits(n / 10);
        assert(dec(n).drop_last() =~= dec(n / 10));
        assert forall|i: int| 0 <= i < dec(n).len() implies is_digit(#[trigger] dec(n)[i]) by {
            if i < dec(n / 10).len() {
                assert(dec(n)[i] == dec(n / 10)[i]);
            }
        }
    }
}

/// A number is read back from its decimal text.
pub proof fn dec_reads_back(n: nat)
    ensures
        parse_nat(dec(n)) == Some(n),
        parse_int(dec(n)) == Some(n as int),
{
    lemma_dec_digits(n);
    assert(is_digit(dec(n)[0]));
}

/// Trimming a text twice is trimming it once.
pub proof fn trim_is_idempotent(s: Seq<char>)
    ensures
        trim(trim(s)) == trim(s),
{
    lemma_trim_start_first(s);
    lemma_trim_end_keeps_first(trim_start(s));
    lemma_trim_end_last(trim_start(s));
}

proof fn lemma_trim_start_first(s: Seq<char>)
    ensures
        trim_start(s).len() > 0 ==> !is_white(trim_start(s)[0]),
    decreases s.len(),
{
    if s.len() > 0 && is_white(s[0]) {
        lemma_trim_start_first(s.skip(1));
    }
}

proof fn lemma_trim_end_last(s: Seq<char>)
    ensures
        trim_end(s).len() > 0 ==> !is_white(trim_end(s).last()),
    decreases s.len(),
{
    if s.len() > 0 && is_white(s.last()) {
        lemma_trim_end_last(s.drop_last());
    }
}

proof fn lemma_trim_end_keeps_first(s: Seq<char>)
    ensures
        trim_end(s).len() <= s.len(),
        trim_end(s).len() > 0 ==> trim_end(s)[0] == s[0],
    decreases s.len(),
{
    if s.len() > 0 && is_white(s.last()) {
        lemma_trim_end_keeps_first(s.drop_last());
    }
}

/// A text without white space at either end is trimmed already.
pub proof fn trim_leaves(s: Seq<char>)
    requires
        s.len() > 0,
        !is_white(s[0]),
        !is_white(s.last()),
    ensures
        trim(s) == s,
{
}

/// A text without the separator is one piece.
pub proof fn split_none(s: Seq<char>, c: char)
    requires
        !s.contains(c),
    ensures
        split_on(s, c) == seq![s],
    decreases s.len(),
{
    if s.len() > 0 {
        assert(s[s.len() - 1] != c);
        assert forall|x: char| s.drop_last().contains(x) implies s.contains(x) by {
            let i = choose|i: int| 0 <= i < s.drop_last().len() && s.drop_last()[i] == x;
            assert(s[i] == x);
        }
        split_none(s.drop_last(), c);
        assert(s.drop_last().push(s.last()) =~= s);
        assert(split_on(s, c) =~= seq![s]);
    } else {
        assert(s =~= Seq::<char>::empty());
    }
}

/// What follows a separator, and holds none, is the last piece.
pub proof fn split_last(a: Seq<char>, b: Seq<char>, c: char)
    requires
        !b.contains(c),
    ensures
        split_on(a.push(c) + b, c) == split_on(a, c).push(b),
    decreases b.len(),
{
    let s = a.push(c) + b;
    if b.len() == 0 {
        assert(s =~= a.push(c));
        assert(a.push(c).drop_last() =~= a);
        assert(b =~= Seq::<char>::empty());
    } else {
        assert(b[b.len() - 1] != c);
        let b0 = b.drop_last();
        assert forall|x: char| b0.contains(x) implies b.contains(x) by {
            let i = choose|i: int| 0 <= i < b0.len() && b0[i] == x;
            assert(b[i] == x);
        }
        split_last(a, b0, c);
        assert(s.drop_last() =~= a.push(c) + b0);
        let init = split_on(a, c).push(b0);
        assert(init.drop_last() =~= split_on(a, c));
        assert(b0.push(b.last()) =~= b);
        assert(split_on(s, c) =~= split_on(a, c).push(b));
    }
}

/// Decimal digits hold no other character.
pub proof fn digits_hold_no_other(s: Seq<char>, c: char)
    requires
        all_digits(s),
        !is_digit(c),
    ensures
        !s.contains(c),
{
}

/// What decimal text consists of.
pub proof fn dec_is_digits(n: nat)
    ensures
        all_digits(dec(n)),
        digits_value(dec(n)) == n,
        dec(n).len() >= 1,
{
    lemma_dec_digits(n);
}

/// Text without the separator goes on the last piece.
pub proof fn split_extend(a: Seq<char>, b: Seq<char>, c: char)
    requires
        !b.contains(c),
    ensures
        split_on(a, c).len() >= 1,
        split_on(a + b, c) == split_on(a, c).drop_last().push(split_on(a, c).last() + b),
    decreases a.len() + b.len(),
{
    let p = split_on(a, c);
    if b.len() == 0 {
        assert(a + b =~= a);
        if a.len() > 0 {
            split_extend(a.drop_last(), b, c);
        }
        assert(p.last() + b =~= p.last());
        assert(p =~= p.drop_last().push(p.last()));
    } else {
        let b0 = b.drop_last();
        assert(b[b.len() - 1] != c);
        assert forall|x: char| b0.contains(x) implies b.contains(x) by {
            let i = choose|i: int| 0 <= i < b0.len() && b0[i] == x;
            assert(b[i] == x);
        }
        split_extend(a, b0, c);
        assert((a + b).drop_last() =~= a + b0);
        assert((p.last() + b0).push(b.last()) =~= p.last() + b);
        let q = p.drop_last().push(p.last() + b0);
        assert(q.drop_last() =~= p.drop_last());
    }
}

/// The lowest digits of a number are digits.
pub proof fn low_digits_are_digits(n: nat, width: nat)
    ensures
        low_digits(n, width).len() == width,
        all_digits(low_digits(n, width)),
    decreases width,
{
    if width > 0 {
        low_digits_are_digits(n / 10, (width - 1) as nat);
        let init = low_digits(n / 10, (width - 1) as nat);
        assert forall|i: int| 0 <= i < width implies is_digit(#[trigger] low_digits(n, width)[i]) by {
            if i < width - 1 {
                assert(low_digits(n, width)[i] == init[i]);
            }
        }
    }
}

/// A padded number consists of digits.
pub proof fn padded_is_digits(n: nat, width: nat)
    ensures
        all_digits(dec_padded(n, width)),
        dec_padded(n, width).len() >= 1,
        dec_padded(n, width).len() >= width,
{
    dec_is_digits(n);
    low_digits_are_digits(n, width);
}

proof fn lemma_low_value(n: nat, width: nat)
    ensures
        n == 0 || dec(n).len() <= width ==> digits_value(low_digits(n, width)) == n,
    decreases width,
{
    if width > 0 {
        lemma_low_value(n / 10, (width - 1) as nat);
        let init = low_digits(n / 10, (width - 1) as nat);
        assert(low_digits(n, width).drop_last() =~= init);
        if n >= 10 {
            assert(dec(n).len() == dec(n / 10).len() + 1);
        }
    } else {
        dec_is_digits(n);
    }
}

/// A number is read back from its padded text.
pub proof fn padded_reads_back(n: nat, width: nat)
    ensures
        parse_nat(dec_padded(n, width)) == Some(n),
{
    padded_is_digits(n, width);
    dec_is_digits(n);
    lemma_low_value(n, width);
    assert(is_digit(dec_padded(n, width)[0]));
}

/// Ten to the power `width`: the numbers below it have at most that many digits.
pub open spec fn ten_to(width: nat) -> nat
    decreases width,
{
    if width == 0 {
        1
    } else {
        10 * ten_to((width - 1) as nat)
    }
}

proof fn lemma_dec_fits(n: nat, width: nat)
    requires
        width >= 1,
        n < ten_to(width),
    ensures
        dec(n).len() <= width,
        dec(n).len() == width ==> dec(n) == low_digits(n, width),
    decreases width,
{
    if width == 1 {
        assert(ten_to(0) == 1);
        assert(low_digits(n / 10, 0) =~= Seq::<char>::empty());
        assert(low_digits(n, 1) =~= dec(n));
    } else if n >= 10 {
        lemma_dec_fits(n / 10, (width - 1) as nat);
    } else {
        assert(dec(n).len() == 1);
    }
}

/// A number that fits in its width is padded to just that.
pub proof fn padded_fits(n: nat, width: nat)
    requires
        width >= 1,
        n < ten_to(width),
    ensures
        dec_padded(n, width) == low_digits(n, width),
        dec_padded(n, width).len() == width,
{
    lemma_dec_fits(n, width);
    low_digits_are_digits(n, width);
}

/// Of the characters of ASCII, the space and those from tab to carriage return are
/// white space.
pub proof fn plain_white_space(c: char)
    requires
        (c as u32) < 128,
    ensures
        is_white(c) == (c == ' ' || '\t' <= c <= '\r'),
{
}

/// Trimming takes white space off both ends, all of it and nothing else.
pub proof fn trimming_takes_white_space_off(s: Seq<char>) -> (cut: (int, int))
    ensures
        ({
            let (from, to) = cut;
            &&& 0 <= from <= to <= s.len()
            &&& trim(s) == s.subrange(from, to)
            &&& forall|i: int| 0 <= i < from || to <= i < s.len() ==> is_white(#[trigger] s[i])
            &&& from < to ==> !is_white(s[from]) && !is_white(s[to - 1])
        }),
{
    let from = lemma_start_cut(s);
    let t = trim_start(s);
    let to = lemma_end_cut(t);
    assert(t =~= s.skip(from));
    assert(trim(s) =~= s.subrange(from, from + to));
    assert forall|i: int| from + to <= i < s.len() implies is_white(#[trigger] s[i]) by {
        assert(t[i - from] == s[i]);
    }
    if to > 0 {
        assert(t[to - 1] == s[from + to - 1]);
    }
    (from, from + to)
}

proof fn lemma_start_cut(s: Seq<char>) -> (from: int)
    ensures
        0 <= from <= s.len(),
        trim_start(s) == s.skip(from),
        forall|i: int| 0 <= i < from ==> is_white(#[trigger] s[i]),
        from < s.len() ==> !is_white(s[from]),
    decreases s.len(),
{
    if s.len() > 0 && is_white(s[0]) {
        let k = lemma_start_cut(s.skip(1));
        assert(s.skip(1).skip(k) =~= s.skip(k + 1));
        assert forall|i: int| 0 <= i < k + 1 implies is_white(#[trigger] s[i]) by {
            if i > 0 {
                assert(s.skip(1)[i - 1] == s[i]);
            }
        }
        if k + 1 < s.len() {
            assert(s.skip(1)[k] == s[k + 1]);
        }
        k + 1
    } else {
        assert(s.skip(0) =~= s);
        0
    }
}

proof fn lemma_end_cut(s: Seq<char>) -> (to: int)
    ensures
        0 <= to <= s.len(),
        trim_end(s) == s.take(to),
        forall|i: int| to <= i < s.len() ==> is_white(#[trigger] s[i]),
        to > 0 ==> !is_white(s[to - 1]),
    decreases s.len(),
{
    if s.len() > 0 && is_white(s.last()) {
        let init = s.drop_last();
        let k = lemma_end_cut(init);
        assert(init.take(k) =~= s.take(k));
        assert forall|i: int| k <= i < s.len() implies is_white(#[trigger] s[i]) by {
            if i < init.len() {
                assert(init[i] == s[i]);
            }
        }
        if k > 0 {
            assert(init[k - 1] == s[k - 1]);
        }
        k
    } else {
        assert(s.take(s.len() as int) =~= s);
        s.len() as int
    }
}

/// Two texts are the same but for case if they are equally long and differ only where
/// one has a letter of ASCII and the other has the same letter in the other case.
pub proof fn sameness_but_for_case(a: Seq<char>, b: Seq<char>)
    ensures
        same_but_case(a, b) == (a.len() == b.len() && forall|i: int|
            0 <= i < a.len() ==> {
                let x = #[trigger] a[i] as u32;
                let y = b[i] as u32;
                x == y || (65 <= x <= 90 && y == x + 32) || (97 <= x <= 122 && x == y + 32)
            }),
{
    if same_but_case(a, b) {
        assert(lower(a).len() == a.len() && lower(b).len() == b.len());
        assert forall|i: int| 0 <= i < a.len() implies {
            let x = #[trigger] a[i] as u32;
            let y = b[i] as u32;
            x == y || (65 <= x <= 90 && y == x + 32) || (97 <= x <= 122 && x == y + 32)
        } by {
            assert(lower(a)[i] == to_lower(a[i]));
            assert(lower(b)[i] == to_lower(b[i]));
        }
    }
    if a.len() == b.len() && forall|i: int|
        0 <= i < a.len() ==> {
            let x = #[trigger] a[i] as u32;
            let y = b[i] as u32;
            x == y || (65 <= x <= 90 && y == x + 32) || (97 <= x <= 122 && x == y + 32)
        } {
        assert forall|i: int| 0 <= i < a.len() implies lower(a)[i] == lower(b)[i] by {
            let x = a[i] as u32;
            let y = b[i] as u32;
            assert(x == y || (65 <= x <= 90 && y == x + 32) || (97 <= x <= 122 && x == y + 32));
        }
        assert(lower(a) =~= lower(b));
    }
}

/// Lower case keeps the length, changes capital letters of ASCII only, and each to the
/// small one.
pub proof fn lower_case_of_letters(s: Seq<char>, i: int)
    requires
        0 <= i < s.len(),
    ensures
        lower(s).len() == s.len(),
        lower(s)[i] as u32 == if 65 <= s[i] as u32 <= 90 {
            s[i] as u32 + 32
        } else {
            s[i] as u32 as int
        },
        upper(s).len() == s.len(),
        upper(s)[i] as u32 == if 97 <= s[i] as u32 <= 122 {
            s[i] as u32 - 32
        } else {
            s[i] as u32 as int
        },
{
}

/// A whole number is read from digits only, with one sign in front or none: the value
/// of each digit times ten for every digit behind it.
pub proof fn numbers_are_read_digit_by_digit(s: Seq<char>, d: char)
    ensures
        parse_nat(Seq::empty()) is None,
        parse_nat(seq!['+']) is None,
        parse_int(seq!['-']) is None,
        s.len() > 0 && s[0] != '+' && !('0' <= s[0] <= '9') ==> parse_nat(s) is None,
        '0' <= d <= '9' && s.len() > 0 && s != seq!['+'] ==> parse_nat(s.push(d)) == match parse_nat(s) {
            Some(n) => Some((n * 10 + (d as u32 - 48)) as nat),
            None => None,
        },
        '0' <= d <= '9' ==> parse_nat(seq![d]) == Some((d as u32 - 48) as nat),
        '0' <= d <= '9' ==> parse_nat(seq!['+', d]) == Some((d as u32 - 48) as nat),
        s.len() > 0 && !('0' <= d <= '9') ==> parse_nat(s.push(d)) is None,
        s.len() > 0 && s[0] != '-' ==> parse_int(s) == match parse_nat(s) {
            Some(n) => Some(n as int),
            None => None,
        },
        s.len() > 0 && s[0] != '+' && s[0] != '-' ==> parse_int(seq!['-'] + s) == match parse_nat(s) {
            Some(n) => Some(-n),
            None => None,
        },
{
    let plus = seq!['+'];
    assert(plus.skip(1) =~= Seq::<char>::empty());
    assert(seq!['-'].skip(1) =~= Seq::<char>::empty());
    let one = seq![d];
    assert(one.drop_last() =~= Seq::<char>::empty());
    assert(digits_value(one) == digits_value(Seq::empty()) * 10 + digit_value(d));
    let two = seq!['+', d];
    assert(two.skip(1) =~= one);
    if '0' <= d <= '9' {
        assert(all_digits(one));
    }
    assert((seq!['-'] + s).skip(1) =~= s);
    if s.len() > 0 {
        let t = s.push(d);
        let body = if s[0] == '+' { s.skip(1) } else { s };
        let more = if t[0] == '+' { t.skip(1) } else { t };
        assert(more =~= body.push(d));
        assert(more.drop_last() =~= body);
        assert(more.last() == d);
        if all_digits(more) {
            assert forall|i: int| 0 <= i < body.len() implies is_digit(#[trigger] body[i]) by {
                assert(more[i] == body[i]);
            }
            assert(more[body.len() as int] == d);
        }
        if all_digits(body) && is_digit(d) {
            assert forall|i: int| 0 <= i < more.len() implies is_digit(#[trigger] more[i]) by {
                if i < body.len() {
                    assert(more[i] == body[i]);
                }
            }
        }
        if s[0] == '+' && s.len() == 1 {
            assert(s =~= seq!['+']);
        }
        if !('0' <= s[0] <= '9') && s[0] != '+' {
            assert(!is_digit(s[0]));
        }
    }
}

/// A number is written with the digits of its value, the last one for the ones.
pub proof fn numbers_are_written_digit_by_digit(n: nat, d: nat)
    requires
        d < 10,
    ensures
        dec(d).len() == 1,
        dec(d)[0] as u32 == d + 48,
        n > 0 ==> dec(n * 10 + d) == dec(n).push(dec(d)[0]),
        n > 0 ==> dec_int(-(n as int)) == seq!['-'] + dec(n),
        dec_int(n as int) == dec(n),
{
    if n > 0 {
        assert((n * 10 + d) / 10 == n && (n * 10 + d) % 10 == d) by (nonlinear_arith)
            requires
                d < 10,
        ;
        assert(n * 10 + d >= 10);
        assert(digit_char(n * 10 + d) == digit_char(d));
    }
}

/// A number is filled up with zeros in front to its width.
pub proof fn padding_is_zeros(n: nat, width: nat)
    ensures
        dec(n).len() >= width ==> dec_padded(n, width) == dec(n),
        dec(n).len() <= width ==> dec_padded(n, width) == Seq::new(
            (width - dec(n).len()) as nat,
            |i: int| '0',
        ) + dec(n),
    decreases width,
{
    if dec(n).len() <= width {
        lemma_low_is_padded(n, width);
        assert(Seq::new(0, |i: int| '0') + dec(n) =~= dec(n));
    }
}

proof fn lemma_low_is_padded(n: nat, width: nat)
    requires
        dec(n).len() <= width,
    ensures
        low_digits(n, width) == Seq::new((width - dec(n).len()) as nat, |i: int| '0') + dec(n),
    decreases width,
{
    dec_is_digits(n);
    let w = (width - 1) as nat;
    if n < 10 {
        lemma_zeros(w);
        assert(n / 10 == 0);
        assert(low_digits(n, width) =~= Seq::new((width - 1) as nat, |i: int| '0') + dec(n));
    } else {
        lemma_low_is_padded(n / 10, w);
        assert(low_digits(n, width) =~= Seq::new(
            (width - dec(n).len()) as nat,
            |i: int| '0',
        ) + dec(n));
    }
}

proof fn lemma_zeros(width: nat)
    ensures
        low_digits(0, width) == Seq::new(width, |i: int| '0'),
    decreases width,
{
    if width > 0 {
        lemma_zeros((width - 1) as nat);
        assert(low_digits(0, width) =~= Seq::new(width, |i: int| '0'));
    } else {
        assert(low_digits(0, 0) =~= Seq::new(0, |i: int| '0'));
    }
}

/// A text begins with another, ends with it or holds it if it is that text with
/// something behind it, in front of it, or both.
pub proof fn texts_in_texts(head: Seq<char>, p: Seq<char>, tail: Seq<char>, s: Seq<char>)
    ensures
        has_prefix(p + tail, p),
        has_suffix(head + p, p),
        contains_text(head + p + tail, p),
        has_prefix(s, p) ==> s == p + s.skip(p.len() as int),
        has_suffix(s, p) ==> s == s.take(s.len() - p.len()) + p,
        contains_text(s, p) ==> exists|i: int|
            0 <= i <= s.len() - p.len() && s == #[trigger] s.take(i) + p + s.skip(i + p.len()),
{
    assert((p + tail).take(p.len() as int) =~= p);
    assert((head + p).skip(head.len() as int) =~= p);
    let all = head + p + tail;
    assert(all.subrange(head.len() as int, head.len() + p.len() as int) =~= p);
    assert(occurs_at(all, p, head.len() as int));
    if has_prefix(s, p) {
        assert(s =~= s.take(p.len() as int) + s.skip(p.len() as int));
    }
    if has_suffix(s, p) {
        assert(s =~= s.take(s.len() - p.len()) + s.skip(s.len() - p.len()));
    }
    if contains_text(s, p) {
        let i = choose|i: int| occurs_at(s, p, i);
        assert(s =~= s.take(i) + s.subrange(i, i + p.len()) + s.skip(i + p.len()));
        assert(s == s.take(i) + p + s.skip(i + p.len()));
    }
}

/// A flag is written as a word.
pub proof fn flags_are_words()
    ensures
        bool_text(true) == seq!['t', 'r', 'u', 'e'],
        bool_text(false) == seq!['f', 'a', 'l', 's', 'e'],
{
    reveal_strlit("true");
    reveal_strlit("false");
    assert("true"@ =~= seq!['t', 'r', 'u', 'e']);
    assert("false"@ =~= seq!['f', 'a', 'l', 's', 'e']);
}

} // verus!
