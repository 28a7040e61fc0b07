//! Hours written as a decimal number, turned into whole minutes.
//!
//! The hours are taken as the nearest binary64 number, multiplied by sixty in
//! binary64 arithmetic, and rounded to the nearest minute, halves upwards. All
//! of it is exact integer arithmetic here, on texts of any length.

use crate::text;
use vstd::prelude::*;

verus! {

pub open spec fn pow10(k: nat) -> nat
    decreases k,
{
    if k == 0 {
        1
    } else {
        10 * pow10((k - 1) as nat)
    }
}

pub open spec fn pow2(k: nat) -> nat
    decreases k,
{
    if k == 0 {
        1
    } else {
        2 * pow2((k - 1) as nat)
    }
}

/// `n / d`, rounded to the nearest integer, halves to the even one.
pub open spec fn round_half_even(n: nat, d: nat) -> nat {
    let q = n / d;
    let r = n % d;
    if 2 * r < d || (2 * r == d && q % 2 == 0) {
        q
    } else {
        q + 1
    }
}

/// The weight of the last of the 53 leading binary digits of `w`.
pub open spec fn ulp(w: nat) -> nat
    decreases w,
{
    if w < 0x20_0000_0000_0000 {
        1
    } else {
        2 * ulp(w / 2)
    }
}

/// `n / d`, rounded to 53 binary digits (to an integer, where it has fewer).
pub open spec fn round53(n: nat, d: nat) -> nat {
    let u = ulp(n / d);
    round_half_even(n, d * u) * u
}

/// Two to the power of 60, the scale on which binary64 values are integers here.
pub open spec fn scale() -> nat {
    0x1000_0000_0000_0000
}

/// The minutes in `num / den` hours.
pub open spec fn nearest_minutes(num: nat, den: nat) -> nat {
    let hours = round53(num * scale(), den);
    let product = round53(60 * hours, 1);
    (product + scale() / 2) / scale()
}

/// The digits and the exponent of ten of a decimal number: an optional `+`,
/// digits with at most one point among or around them, and an optional exponent.
pub open spec fn decimal(s: Seq<char>) -> Option<(Seq<char>, int)> {
    let body = if s.len() > 0 && s[0] == '+' { s.skip(1) } else { s };
    let parts = text::split_on(text::lower(body), 'e');
    let mantissa = text::split_on(parts[0], '.');
    let fraction = if mantissa.len() == 2 { mantissa[1] } else { Seq::empty() };
    let digits = mantissa[0] + fraction;
    let exponent = if parts.len() == 2 { text::parse_int(parts[1]) } else { Some(0int) };
    if parts.len() <= 2 && mantissa.len() <= 2 && digits.len() > 0 && text::all_digits(digits)
        && exponent is Some {
        Some((digits, exponent->0 - fraction.len()))
    } else {
        None
    }
}

pub open spec fn numerator(digits: nat, exponent: int) -> nat {
    if exponent >= 0 {
        digits * pow10(exponent as nat)
    } else {
        digits
    }
}

pub open spec fn denominator(exponent: int) -> nat {
    if exponent >= 0 {
        1
    } else {
        pow10((-exponent) as nat)
    }
}

/// The least number that rounds to infinity in binary64.
pub open spec fn infinite_from() -> nat {
    0x3f_ffff_ffff_ffff * pow2(970)
}

/// The minutes in the hours that a text spells as a finite decimal number.
pub open spec fn decimal_minutes(s: Seq<char>) -> Option<nat> {
    match decimal(s) {
        Some((digits, exponent)) => {
            let num = numerator(text::digits_value(digits), exponent);
            let den = denominator(exponent);
            if num < infinite_from() * den {
                Some(nearest_minutes(num, den))
            } else {
                None
            }
        },
        None => None,
    }
}

// ---- powers and digits ----------------------------------------------------

proof fn lemma_pow10_add(a: nat, b: nat)
    ensures
        pow10(a + b) == pow10(a) * pow10(b),
        pow10(a) >= 1,
    decreases a,
{
    if a > 0 {
        lemma_pow10_add((a - 1) as nat, b);
        let x = pow10((a - 1) as nat);
        let y = pow10(b);
        assert(10 * (x * y) == (10 * x) * y) by (nonlinear_arith);
        assert((a + b - 1) as nat == (a - 1) as nat + b);
    } else {
        assert(1 * pow10(b) == pow10(b));
    }
}

proof fn lemma_pow10_monotone(a: nat, b: nat)
    requires
        a <= b,
    ensures
        1 <= pow10(a) <= pow10(b),
{
    let c = (b - a) as nat;
    lemma_pow10_add(a, c);
    lemma_pow10_add(c, 0);
    let x = pow10(a);
    let y = pow10(c);
    assert(x * y >= x) by (nonlinear_arith)
        requires
            y >= 1,
    ;
}

proof fn lemma_pow2_monotone(a: nat, b: nat)
    requires
        a <= b,
    ensures
        1 <= pow2(a) <= pow2(b),
    decreases b,
{
    if a < b {
        lemma_pow2_monotone(a, (b - 1) as nat);
    } else if a > 0 {
        lemma_pow2_monotone((a - 1) as nat, (b - 1) as nat);
    }
}

/// The number that a list of decimal digits stands for, the first the highest.
spec fn value(s: Seq<u8>) -> nat
    decreases s.len(),
{
    if s.len() == 0 {
        0
    } else {
        value(s.drop_last()) * 10 + s.last() as nat
    }
}

spec fn digits(s: Seq<u8>) -> bool {
    forall|i: int| 0 <= i < s.len() ==> #[trigger] s[i] < 10
}

proof fn lemma_value_bound(s: Seq<u8>)
    requires
        digits(s),
    ensures
        value(s) < pow10(s.len()),
    decreases s.len(),
{
    if s.len() > 0 {
        assert forall|i: int| 0 <= i < s.drop_last().len() implies #[trigger] s.drop_last()[i]
            < 10 by {
            assert(s[i] < 10);
        }
        lemma_value_bound(s.drop_last());
        assert(s.last() < 10);
    }
}

proof fn lemma_value_split(s: Seq<u8>, i: int)
    requires
        0 <= i <= s.len(),
    ensures
        value(s) == value(s.take(i)) * pow10((s.len() - i) as nat) + value(s.skip(i)),
    decreases s.len() - i,
{
    if i == s.len() {
        assert(s.take(i) =~= s);
        assert(value(s.skip(i)) == 0);
        assert(value(s) * 1 == value(s));
    } else {
        let t = s.drop_last();
        lemma_value_split(t, i);
        assert(t.take(i) =~= s.take(i));
        assert(s.skip(i).drop_last() =~= t.skip(i));
        assert(s.skip(i).last() == s.last());
        let a = value(s.take(i));
        let p = pow10((t.len() - i) as nat);
        assert(pow10((s.len() - i) as nat) == 10 * p);
        assert((a * p) * 10 == a * (10 * p)) by (nonlinear_arith);
    }
}

proof fn lemma_value_zeros(s: Seq<u8>, z: int)
    requires
        0 <= z <= s.len(),
        forall|i: int| 0 <= i < z ==> s[i] == 0,
    ensures
        value(s) == value(s.skip(z)),
{
    lemma_value_split(s, z);
    lemma_all_zero(s.take(z));
    assert(0 * pow10((s.len() - z) as nat) == 0);
}

proof fn lemma_all_zero(s: Seq<u8>)
    requires
        forall|i: int| 0 <= i < s.len() ==> s[i] == 0,
    ensures
        value(s) == 0,
    decreases s.len(),
{
    if s.len() > 0 {
        lemma_all_zero(s.drop_last());
    }
}

/// A first digit that is not zero fixes the size.
proof fn lemma_value_leading(s: Seq<u8>)
    requires
        s.len() > 0,
        s[0] > 0,
    ensures
        value(s) >= pow10((s.len() - 1) as nat),
{
    lemma_value_split(s, 1);
    assert(s.take(1).drop_last() =~= Seq::<u8>::empty());
    assert(value(s.take(1).drop_last()) == 0);
    assert(value(s.take(1)) == s[0]);
    let p = pow10((s.len() - 1) as nat);
    let a = s[0] as nat;
    assert(a * p >= p) by (nonlinear_arith)
        requires
            a >= 1,
    ;
}

proof fn lemma_value_push_zeros(s: Seq<u8>, z: Seq<u8>)
    requires
        forall|i: int| 0 <= i < z.len() ==> z[i] == 0,
    ensures
        value(s + z) == value(s) * pow10(z.len()),
{
    lemma_value_split(s + z, s.len() as int);
    assert((s + z).take(s.len() as int) =~= s);
    assert((s + z).skip(s.len() as int) =~= z);
    lemma_all_zero(z);
}

/// Doubles a number in place; what does not fit is returned.
fn double(v: &mut Vec<u8>) -> (carry: u8)
    requires
        digits(old(v)@),
    ensures
        digits(final(v)@),
        final(v)@.len() == old(v)@.len(),
        carry <= 1,
        carry * pow10(old(v)@.len()) + value(final(v)@) == 2 * value(old(v)@),
{
    let ghost start = v@;
    let mut i: usize = v.len();
    let mut carry: u8 = 0;
    assert(value(start.skip(i as int)) == 0);
    while i > 0
        invariant
            i <= v@.len(),
            v@.len() == start.len(),
            digits(start),
            digits(v@),
            carry <= 1,
            v@.take(i as int) == start.take(i as int),
            carry * pow10((start.len() - i) as nat) + value(v@.skip(i as int)) == 2 * value(
                start.skip(i as int),
            ),
        decreases i,
    {
        let ghost before = v@;
        let ghost c0 = carry as nat;
        let ghost n = (start.len() - i) as nat;
        assert(v@[i - 1] == v@.take(i as int)[i - 1]);
        assert(start[i - 1] == start.take(i as int)[i - 1]);
        assert(start[i - 1] < 10);
        let d: u8 = v[i - 1] * 2 + carry;
        let low: u8 = if d >= 10 {
            d - 10
        } else {
            d
        };
        carry = if d >= 10 {
            1
        } else {
            0
        };
        v.set(i - 1, low);
        proof {
            let a = start.skip(i - 1);
            let b = v@.skip(i - 1);
            lemma_value_split(a, 1);
            lemma_value_split(b, 1);
            assert(a.skip(1) =~= start.skip(i as int));
            assert(b.skip(1) =~= before.skip(i as int));
            assert(a.take(1).drop_last() =~= Seq::<u8>::empty());
            assert(b.take(1).drop_last() =~= Seq::<u8>::empty());
            assert(value(a.take(1).drop_last()) == 0);
            assert(value(b.take(1).drop_last()) == 0);
            assert(value(a.take(1)) == start[i - 1]);
            assert(value(b.take(1)) == low);
            let p = pow10(n);
            assert(pow10((start.len() - (i - 1)) as nat) == 10 * p);
            let s0 = start[i - 1] as nat;
            let c1 = carry as nat;
            let l = low as nat;
            assert(c1 * 10 + l == 2 * s0 + c0);
            assert(c1 * (10 * p) + l * p == 2 * (s0 * p) + c0 * p) by (nonlinear_arith)
                requires
                    c1 * 10 + l == 2 * s0 + c0,
            ;
            assert(v@.take(i - 1) =~= start.take(i - 1)) by {
                assert forall|k: int| 0 <= k < i - 1 implies v@[k] == start[k] by {
                    assert(before.take(i as int)[k] == start.take(i as int)[k]);
                }
            }
        }
        i -= 1;
    }
    assert(v@.skip(0) =~= v@);
    assert(start.skip(0) =~= start);
    carry
}

/// The first of two numbers with as many digits is at least the second.
fn at_least(a: &Vec<u8>, b: &Vec<u8>) -> (r: bool)
    requires
        digits(a@),
        digits(b@),
        a@.len() == b@.len(),
    ensures
        r == (value(a@) >= value(b@)),
{
    let mut i: usize = 0;
    while i < a.len()
        invariant
            digits(a@),
            digits(b@),
            a@.len() == b@.len(),
            i <= a@.len(),
            a@.take(i as int) == b@.take(i as int),
        decreases a@.len() - i,
    {
        if a[i] != b[i] {
            proof {
                if a@[i as int] < b@[i as int] {
                    lemma_first_difference(a@, b@, i as int);
                } else {
                    lemma_first_difference(b@, a@, i as int);
                }
            }
            return a[i] > b[i];
        }
        assert(a@.take(i + 1) =~= a@.take(i as int).push(a@[i as int]));
        assert(b@.take(i + 1) =~= b@.take(i as int).push(b@[i as int]));
        i += 1;
    }
    assert(a@.take(a@.len() as int) =~= a@);
    assert(b@.take(b@.len() as int) =~= b@);
    true
}

proof fn lemma_first_difference(a: Seq<u8>, b: Seq<u8>, i: int)
    requires
        digits(a),
        digits(b),
        a.len() == b.len(),
        0 <= i < a.len(),
        a.take(i) == b.take(i),
        a[i] < b[i],
    ensures
        value(a) < value(b),
{
    lemma_value_split(a, i);
    lemma_value_split(b, i);
    let x = a.skip(i);
    let y = b.skip(i);
    lemma_value_split(x, 1);
    lemma_value_split(y, 1);
    assert(x.take(1).drop_last() =~= Seq::<u8>::empty());
    assert(y.take(1).drop_last() =~= Seq::<u8>::empty());
    assert(value(x.take(1).drop_last()) == 0);
    assert(value(y.take(1).drop_last()) == 0);
    assert(value(x.take(1)) == a[i]);
    assert(value(y.take(1)) == b[i]);
    assert(digits(x.skip(1))) by {
        assert forall|k: int| 0 <= k < x.skip(1).len() implies #[trigger] x.skip(1)[k] < 10 by {
            assert(a[i + 1 + k] < 10);
        }
    }
    lemma_value_bound(x.skip(1));
    let p = pow10((x.len() - 1) as nat);
    let ai = a[i] as nat;
    let bi = b[i] as nat;
    assert(bi * p >= ai * p + p) by (nonlinear_arith)
        requires
            bi >= ai + 1,
    ;
}

// ---- rounding -------------------------------------------------------------

proof fn lemma_ulp(w: nat)
    ensures
        ulp(w) >= 1,
        w < ulp(w) * 0x20_0000_0000_0000,
        w >= 0x10_0000_0000_0000 ==> ulp(w) * 0x10_0000_0000_0000 <= w,
        w >= 0x20_0000_0000_0000 ==> ulp(w) % 2 == 0,
    decreases w,
{
    if w >= 0x20_0000_0000_0000 {
        lemma_ulp(w / 2);
    }
}

proof fn lemma_div_unique(n: int, d: int, q: int, r: int)
    requires
        0 <= r < d,
        n == q * d + r,
    ensures
        n / d == q,
        n % d == r,
{
    vstd::arithmetic::div_mod::lemma_fundamental_div_mod_converse(n, d, q, r);
}

/// Rounding `n / d` takes off less than one unit and adds at most half of one.
proof fn lemma_round53_bounds(n: nat, d: nat)
    requires
        d > 0,
    ensures
        round53(n, d) + ulp(n / d) > n / d,
        round53(n, d) <= n / d + ulp(n / d),
{
    let w = n / d;
    let u = ulp(w);
    lemma_ulp(w);
    assert(d * u > 0) by (nonlinear_arith)
        requires
            d > 0,
            u > 0,
    ;
    vstd::arithmetic::div_mod::lemma_div_denominator(n as int, d as int, u as int);
    assert(n / (d * u) == w / u);
    let q = w / u;
    vstd::arithmetic::div_mod::lemma_fundamental_div_mod(w as int, u as int);
    assert(u * q == q * u) by (nonlinear_arith);
    assert((q + 1) * u == q * u + u) by (nonlinear_arith);
}

/// An hour count of 32 or more is over a day.
proof fn lemma_over_a_day(num: nat, den: nat)
    requires
        den > 0,
        num >= 32 * den,
    ensures
        nearest_minutes(num, den) > 1440,
{
    let x = num * scale();
    let w = x / den;
    assert(x >= (32 * scale()) * den) by (nonlinear_arith)
        requires
            x == num * scale(),
            num >= 32 * den,
    ;
    vstd::arithmetic::div_mod::lemma_div_is_ordered(
        ((32 * scale()) * den) as int,
        x as int,
        den as int,
    );
    vstd::arithmetic::div_mod::lemma_div_by_multiple((32 * scale()) as int, den as int);
    assert(w >= 32 * scale());
    lemma_round53_bounds(x, den);
    lemma_ulp(w);
    let h = round53(x, den);
    assert(ulp(w) * 0x10_0000_0000_0000 <= w);
    assert(h >= 31 * scale());
    lemma_round53_bounds(60 * h, 1);
    lemma_ulp(60 * h);
    assert((60 * h) / 1 == 60 * h);
    let p = round53(60 * h, 1);
    assert(p >= 1500 * scale());
}

/// An hour count below a 128th is no minute.
proof fn lemma_no_minute(num: nat, den: nat)
    requires
        den > 0,
        (num * scale()) / den < 0x20_0000_0000_0000,
    ensures
        nearest_minutes(num, den) == 0,
{
    let x = num * scale();
    let w = x / den;
    lemma_round53_bounds(x, den);
    assert(ulp(w) == 1);
    let h = round53(x, den);
    assert(h <= 0x20_0000_0000_0000);
    lemma_ulp(60 * h);
    assert((60 * h) / 1 == 60 * h);
    lemma_round53_bounds(60 * h, 1);
    assert(ulp(60 * h) <= 120) by {
        if 60 * h >= 0x10_0000_0000_0000 {
            assert(ulp(60 * h) * 0x10_0000_0000_0000 <= 60 * h);
        } else {
            assert(ulp(60 * h) == 1);
        }
    }
    assert(round53(60 * h, 1) < scale() / 2);
}

/// `round_half_even` from the whole part of `n / d` and whether there is a rest.
fn round_units(whole: u128, rest: bool, unit: u128, Ghost(n): Ghost<nat>, Ghost(d): Ghost<nat>) -> (r:
    u128)
    requires
        d > 0,
        whole == n / d,
        rest == (n % d != 0),
        unit >= 2,
        unit % 2 == 0,
        whole < 0x1000_0000_0000_0000_0000_0000,
    ensures
        r == round_half_even(n, d * unit as nat),
        r <= whole / unit + 1,
{
    let q: u128 = whole / unit;
    let m: u128 = whole % unit;
    let half: u128 = unit / 2;
    proof {
        let u = unit as nat;
        let f = n % d;
        vstd::arithmetic::div_mod::lemma_fundamental_div_mod(n as int, d as int);
        vstd::arithmetic::div_mod::lemma_fundamental_div_mod(whole as int, u as int);
        let rem = m as nat * d + f;
        assert(n == (q as nat) * (d * u) + rem) by (nonlinear_arith)
            requires
                n == d * (whole as nat) + f,
                whole as nat == u * (q as nat) + m as nat,
                rem == m as nat * d + f,
        ;
        assert(rem < d * u) by (nonlinear_arith)
            requires
                m as nat + 1 <= u,
                f < d,
                rem == m as nat * d + f,
        ;
        lemma_div_unique(n as int, (d * u) as int, q as int, rem as int);
        let hf = half as nat;
        assert(2 * (hf * d) == d * u) by (nonlinear_arith)
            requires
                2 * hf == u,
        ;
        if m < half {
            assert(rem < hf * d) by (nonlinear_arith)
                requires
                    m as nat + 1 <= hf,
                    f < d,
                    rem == m as nat * d + f,
            ;
        } else if m > half {
            assert(rem > hf * d) by (nonlinear_arith)
                requires
                    m as nat >= hf + 1,
                    d > 0,
                    rem == m as nat * d + f,
            ;
        } else {
            assert(rem == hf * d + f);
        }
    }
    if m < half || (m == half && !rest && q % 2 == 0) {
        q
    } else {
        q + 1
    }
}

/// The weight of the last of the 53 leading binary digits.
fn last_place(w: u128) -> (u: u128)
    ensures
        u == ulp(w as nat),
{
    let mut u: u128 = 1;
    let mut v: u128 = w;
    proof {
        assert(1 * ulp(w as nat) == ulp(w as nat));
    }
    while v >= 0x20_0000_0000_0000
        invariant
            u >= 1,
            u * ulp(v as nat) == ulp(w as nat),
            u * v <= w,
        decreases v,
    {
        proof {
            let h = (v / 2) as nat;
            assert(u * (2 * ulp(h)) == (2 * u) * ulp(h)) by (nonlinear_arith);
            assert((2 * u) * (v / 2) <= u * v) by (nonlinear_arith)
                requires
                    2 * (v / 2) <= v,
            ;
            assert(2 * u <= u * v) by (nonlinear_arith)
                requires
                    v >= 2,
            ;
        }
        u = u * 2;
        v = v / 2;
    }
    proof {
        assert(ulp(v as nat) == 1);
        assert(u * 1 == u);
    }
    u
}

/// The minutes in `whole + fraction` hours, where the fraction is given by its
/// decimal digits; a day and a minute stands for everything over a day.
fn minutes_of_parts(whole: u128, fraction: Vec<u8>, Ghost(num): Ghost<nat>) -> (r: u32)
    requires
        digits(fraction@),
        num == whole * pow10(fraction@.len()) + value(fraction@),
        whole < 100,
    ensures
        r == if nearest_minutes(num, pow10(fraction@.len())) > 1440 {
            1441
        } else {
            nearest_minutes(num, pow10(fraction@.len())) as int
        },
{
    let ghost den = pow10(fraction@.len());
    let ghost k = fraction@.len();
    proof {
        lemma_pow10_monotone(0, k);
        lemma_value_bound(fraction@);
    }
    if whole >= 32 {
        proof {
            assert(num >= 32 * den) by (nonlinear_arith)
                requires
                    num >= whole * den,
                    whole >= 32,
            ;
            lemma_over_a_day(num, den);
        }
        return 1441;
    }
    let mut f = fraction;
    let mut acc: u128 = whole;
    let mut one: u128 = 1;
    let mut i: u32 = 0;
    proof {
        assert(num * 1 == num);
        assert(pow2(60) == scale()) by {
            reveal_with_fuel(pow2, 61);
        }
    }
    while i < 60
        invariant
            i <= 60,
            digits(f@),
            f@.len() == k,
            den == pow10(k),
            one == pow2(i as nat),
            pow2(60) == scale(),
            acc < 32 * one,
            acc * den + value(f@) == num * pow2(i as nat),
        decreases 60 - i,
    {
        let ghost f0 = value(f@);
        let ghost a0 = acc as nat;
        let carry: u8 = double(&mut f);
        proof {
            lemma_pow2_monotone(i as nat, 60);
            let c = carry as nat;
            let f1 = value(f@);
            let p = pow2(i as nat);
            assert(pow2((i + 1) as nat) == 2 * p);
            assert((2 * a0 + c) * den + f1 == num * (2 * p)) by (nonlinear_arith)
                requires
                    a0 * den + f0 == num * p,
                    c * den + f1 == 2 * f0,
            ;
        }
        acc = acc * 2 + carry as u128;
        one = one * 2;
        i += 1;
    }
    let ghost x = num * scale();
    proof {
        lemma_value_bound(f@);
        lemma_div_unique(x as int, den as int, acc as int, value(f@) as int);
    }
    if acc < 0x20_0000_0000_0000 {
        proof {
            lemma_no_minute(num, den);
        }
        return 0;
    }
    let mut rest = false;
    let mut j: usize = 0;
    while j < f.len()
        invariant
            j <= f@.len(),
            digits(f@),
            rest == (value(f@.take(j as int)) != 0),
        decreases f@.len() - j,
    {
        assert(f@.take(j + 1).drop_last() =~= f@.take(j as int));
        if f[j] != 0 {
            rest = true;
        }
        j += 1;
    }
    assert(f@.take(f@.len() as int) =~= f@);
    let u: u128 = last_place(acc);
    proof {
        lemma_ulp(acc as nat);
    }
    let q: u128 = round_units(acc, rest, u, Ghost(x), Ghost(den));
    proof {
        lemma_round53_bounds(x, den);
        assert(round53(x, den) == q * u);
    }
    let hours: u128 = q * u;
    let product: u128 = hours * 60;
    proof {
        lemma_ulp(product as nat);
        assert(product as nat / 1 == product as nat);
        assert(product as nat % 1 == 0);
        lemma_round53_bounds(product as nat, 1);
        assert(product >= 0x20_0000_0000_0000);
    }
    let u2: u128 = last_place(product);
    let q2: u128 = round_units(product, false, u2, Ghost(product as nat), Ghost(1));
    proof {
        assert(1 * (u2 as nat) == u2 as nat);
        assert(round53(product as nat, 1) == q2 * u2);
        assert(product == 60 * hours);
    }
    let minutes: u128 = (q2 * u2 + 0x800_0000_0000_0000) / 0x1000_0000_0000_0000;
    if minutes > 1440 {
        1441
    } else {
        minutes as u32
    }
}

// ---- reading --------------------------------------------------------------

/// The digits of the least number that rounds to infinity.
fn infinite_digits() -> (t: Vec<u8>)
    ensures
        digits(t@),
        value(t@) == infinite_from(),
        t@.len() > 0,
        t@[0] > 0,
{
    // 2^54 - 1
    let mut t: Vec<u8> = vec![1, 8, 0, 1, 4, 3, 9, 8, 5, 0, 9, 4, 8, 1, 9, 8, 3];
    proof {
        assert(digits(t@));
        reveal_with_fuel(value, 18);
        assert(value(t@) == 0x3f_ffff_ffff_ffff);
        assert(0x3f_ffff_ffff_ffffnat * 1 == 0x3f_ffff_ffff_ffffnat);
    }
    let mut i: u32 = 0;
    while i < 970
        invariant
            i <= 970,
            digits(t@),
            t@.len() > 0,
            t@[0] > 0,
            t@.len() <= 17 + i,
            value(t@) == 0x3f_ffff_ffff_ffff * pow2(i as nat),
        decreases 970 - i,
    {
        let ghost t0 = t@;
        let carry: u8 = double(&mut t);
        let ghost t1 = t@;
        proof {
            let p = pow2(i as nat);
            assert(pow2((i + 1) as nat) == 2 * p);
            assert(2 * (0x3f_ffff_ffff_ffff * p) == 0x3f_ffff_ffff_ffff * (2 * p));
        }
        if carry == 1 {
            t.insert(0, 1);
            proof {
                lemma_value_split(t@, 1);
                assert(t@.skip(1) =~= t1);
                assert(t@.take(1).drop_last() =~= Seq::<u8>::empty());
                assert(value(t@.take(1).drop_last()) == 0);
                assert(value(t@.take(1)) == 1);
                assert forall|k: int| 0 <= k < t@.len() implies #[trigger] t@[k] < 10 by {
                    if k > 0 {
                        assert(t1[k - 1] < 10);
                    }
                }
            }
        } else {
            proof {
                assert(0 * pow10(t0.len()) == 0);
                lemma_value_leading(t0);
                if t1[0] == 0 {
                    lemma_value_zeros(t1, 1);
                    assert(digits(t1.skip(1))) by {
                        assert forall|k: int| 0 <= k < t1.skip(1).len() implies #[trigger] t1.skip(
                            1,
                        )[k] < 10 by {
                            assert(t1[k + 1] < 10);
                        }
                    }
                    lemma_value_bound(t1.skip(1));
                }
            }
        }
        i += 1;
    }
    t
}

/// Between which powers of ten a number with `n` digits lies.
proof fn lemma_magnitude(d: nat, n: nat, e: int, j: nat)
    requires
        n >= 1,
        pow10((n - 1) as nat) <= d < pow10(n),
    ensures
        n + e - 1 >= j ==> numerator(d, e) >= pow10(j) * denominator(e),
        0 <= n + e <= j ==> numerator(d, e) < pow10(j) * denominator(e),
        n + e <= -3 ==> numerator(d, e) * 1000 < denominator(e),
        denominator(e) >= 1,
{
    if e >= 0 {
        let pe = pow10(e as nat);
        lemma_pow10_add((n - 1) as nat, e as nat);
        lemma_pow10_add(n, e as nat);
        assert(d * pe >= pow10((n - 1) as nat) * pe) by (nonlinear_arith)
            requires
                d >= pow10((n - 1) as nat),
        ;
        lemma_pow10_monotone(0, e as nat);
        assert(d * pe < pow10(n) * pe) by (nonlinear_arith)
            requires
                d < pow10(n),
                pe >= 1,
        ;
        if n + e - 1 >= j {
            lemma_pow10_monotone(j, (n + e - 1) as nat);
            assert((n - 1) as nat + e as nat == (n + e - 1) as nat);
        }
        if n + e <= j {
            lemma_pow10_monotone((n + e) as nat, j);
        }
        assert(pow10(j) * 1 == pow10(j));
    } else {
        let k = (-e) as nat;
        lemma_pow10_monotone(0, k);
        lemma_pow10_add(j, k);
        if n + e - 1 >= j {
            lemma_pow10_monotone(j + k, (n - 1) as nat);
        }
        if n + e <= j {
            lemma_pow10_monotone(n, j + k);
        }
        if n + e <= -3 {
            lemma_pow10_add(3, n);
            reveal_with_fuel(pow10, 4);
            lemma_pow10_monotone(3 + n, k);
        }
    }
}

/// The digits of a number with its point moved: `d` times ten to `e`, where it
/// has `n + e` digits before the point and at most two of them.
fn minutes_between(d: Vec<u8>, e: i128) -> (r: u32)
    requires
        digits(d@),
        d@.len() > 0,
        -2 <= d@.len() + e <= 2,
    ensures
        ({
            let m = nearest_minutes(numerator(value(d@), e as int), denominator(e as int));
            r == if m > 1440 {
                1441
            } else {
                m as int
            }
        }),
{
    let n: usize = d.len();
    let p: i128 = n as i128 + e;
    let ghost num = numerator(value(d@), e as int);
    let mut all: Vec<u8> = Vec::new();
    if p < 0 {
        all.push(0);
        if p < -1 {
            all.push(0);
        }
    }
    let ghost front = all@;
    let mut rest: Vec<u8> = d;
    all.append(&mut rest);
    if e >= 1 {
        all.push(0);
    }
    proof {
        if e >= 0 {
            assert(e == 0 || e == 1);
            let z = if e == 1 { seq![0u8] } else { Seq::<u8>::empty() };
            assert(all@ =~= d@ + z);
            lemma_value_push_zeros(d@, z);
        } else {
            assert(all@ =~= front + d@);
            lemma_value_zeros(all@, front.len() as int);
            assert(all@.skip(front.len() as int) =~= d@);
        }
        assert(value(all@) == num);
        assert forall|i: int| 0 <= i < all@.len() implies #[trigger] all@[i] < 10 by {
            if front.len() <= i < front.len() + d@.len() {
                assert(d@[i - front.len()] < 10);
            }
        }
    }
    let ip: usize = if p > 0 {
        p as usize
    } else {
        0
    };
    let whole: u128 = if ip == 0 {
        0
    } else if ip == 1 {
        all[0] as u128
    } else {
        all[0] as u128 * 10 + all[1] as u128
    };
    let mut fraction: Vec<u8> = Vec::new();
    let mut i: usize = ip;
    while i < all.len()
        invariant
            ip <= i <= all@.len(),
            digits(all@),
            fraction@ == all@.subrange(ip as int, i as int),
        decreases all@.len() - i,
    {
        fraction.push(all[i]);
        i += 1;
        assert(all@.subrange(ip as int, i as int) =~= all@.subrange(ip as int, i - 1).push(
            all@[i - 1],
        ));
    }
    proof {
        assert(fraction@ =~= all@.skip(ip as int));
        lemma_value_split(all@, ip as int);
        let h = all@.take(ip as int);
        reveal_with_fuel(value, 3);
        if ip == 1 {
            assert(h.drop_last() =~= Seq::<u8>::empty());
        } else if ip == 2 {
            assert(h.drop_last().drop_last() =~= Seq::<u8>::empty());
            assert(h.drop_last().last() == all@[0]);
        }
        assert(value(h) == whole);
        assert forall|k: int| 0 <= k < fraction@.len() implies #[trigger] fraction@[k] < 10 by {
            assert(all@[ip + k] < 10);
        }
        assert(fraction@.len() == if e >= 0 { 0 } else { (-e) as int });
        assert(pow10(0) == 1);
    }
    minutes_of_parts(whole, fraction, Ghost(num))
}

/// Whether `d` times ten to `te` is beyond the finite numbers, for a number of
/// at least three digits before the point. `e` is `te`, held in bounds.
fn is_infinite(d: &Vec<u8>, e: i128, Ghost(te): Ghost<int>) -> (r: bool)
    requires
        digits(d@),
        d@.len() > 0,
        d@[0] > 0,
        d@.len() + e >= 3,
        -0x20_0000_0000_0000_0000_0000_0000 <= e <= 0x20_0000_0000_0000_0000_0000_0000,
        te == e || (te > e && e >= 0x8000_0000_0000_0000_0000_0000),
    ensures
        r == (numerator(value(d@), te) >= infinite_from() * denominator(te)),
{
    let t = infinite_digits();
    let n: usize = d.len();
    let p: i128 = n as i128 + e;
    let ghost dv = value(d@);
    let ghost den = denominator(te);
    let ghost tv = infinite_from();
    proof {
        lemma_value_bound(d@);
        lemma_value_leading(d@);
        lemma_value_bound(t@);
        lemma_value_leading(t@);
        lemma_magnitude(dv, n as nat, te, t@.len());
        lemma_magnitude(dv, n as nat, te, (t@.len() - 1) as nat);
    }
    if p > t.len() as i128 {
        proof {
            let a = pow10(t@.len());
            assert(a * den >= tv * den) by (nonlinear_arith)
                requires
                    a >= tv,
            ;
        }
        return true;
    }
    if p < t.len() as i128 {
        proof {
            let a = pow10((t@.len() - 1) as nat);
            assert(tv * den >= a * den) by (nonlinear_arith)
                requires
                    tv >= a,
            ;
        }
        return false;
    }
    let mut w: Vec<u8> = Vec::new();
    let mut i: usize = 0;
    let len: usize = t.len();
    while i < len
        invariant
            len == t@.len(),
            i <= len,
            n == d@.len(),
            digits(d@),
            digits(w@),
            w@.len() == i,
            forall|k: int| 0 <= k < i ==> w@[k] == if k < n { d@[k] } else { 0u8 },
        decreases len - i,
    {
        if i < n {
            w.push(d[i]);
        } else {
            w.push(0);
        }
        i += 1;
    }
    proof {
        if e >= 0 {
            let z = w@.skip(n as int);
            assert(w@ =~= d@ + z);
            assert(z.len() == e);
            lemma_value_push_zeros(d@, z);
            assert(tv * 1 == tv);
        } else {
            let k = (-e) as nat;
            lemma_value_split(d@, len as int);
            assert(d@.take(len as int) =~= w@);
            assert(digits(d@.skip(len as int))) by {
                assert forall|i: int| 0 <= i < d@.skip(len as int).len() implies #[trigger] d@.skip(
                    len as int,
                )[i] < 10 by {
                    assert(d@[len + i] < 10);
                }
            }
            lemma_value_bound(d@.skip(len as int));
            assert(d@.skip(len as int).len() == k);
            let wv = value(w@);
            if wv >= tv {
                assert(wv * den >= tv * den) by (nonlinear_arith)
                    requires
                        wv >= tv,
                ;
            } else {
                assert(wv * den + den <= tv * den) by (nonlinear_arith)
                    requires
                        wv + 1 <= tv,
                ;
            }
        }
    }
    at_least(&w, &t)
}

/// The exponent that a text spells, held within two to the power of a hundred.
fn exponent_of(s: &str) -> (r: Option<i128>)
    ensures
        match r {
            Some(e) => text::parse_int(s@) is Some && held(text::parse_int(s@)->0, e as int),
            None => text::parse_int(s@) is None,
        },
{
    let v = text::chars_of(s);
    let negative = v.len() > 0 && v[0] == '-';
    let from: usize = if v.len() > 0 && (v[0] == '-' || v[0] == '+') {
        1
    } else {
        0
    };
    let body = text::piece(v.as_slice(), from, v.len());
    assert(body@ =~= if from == 1 { s@.skip(1) } else { s@ });
    if body.len() == 0 || !text::digits_only(body.as_slice()) {
        return None;
    }
    let n: u128 = match text::digits_number(body.as_slice()) {
        Some(n) => n,
        None => text::NUMBER_LIMIT,
    };
    if negative {
        Some(-(n as i128))
    } else {
        Some(n as i128)
    }
}

/// `e` is `x`, or both are beyond two to the power of a hundred on one side.
spec fn held(x: int, e: int) -> bool {
    ||| x == e && -text::NUMBER_LIMIT <= x <= text::NUMBER_LIMIT
    ||| x > e && e == text::NUMBER_LIMIT
    ||| x < e && e == -text::NUMBER_LIMIT
}

/// The values of digit characters, without the zeros in front.
fn significant(v: &[char]) -> (r: Vec<u8>)
    requires
        text::all_digits(v@),
    ensures
        digits(r@),
        value(r@) == text::digits_value(v@),
        r@.len() <= v@.len(),
        r@.len() > 0 ==> r@[0] > 0,
{
    let mut out: Vec<u8> = Vec::new();
    let mut i: usize = 0;
    while i < v.len()
        invariant
            i <= v@.len(),
            text::all_digits(v@),
            digits(out@),
            out@.len() <= i,
            out@.len() > 0 ==> out@[0] > 0,
            value(out@) == text::digits_value(v@.take(i as int)),
        decreases v@.len() - i,
    {
        assert(v@.take(i + 1).drop_last() =~= v@.take(i as int));
        assert(text::is_digit(v@[i as int]));
        let d: u8 = ((v[i] as u32) - 48) as u8;
        if d != 0 || out.len() > 0 {
            let ghost before = out@;
            out.push(d);
            assert(out@.drop_last() =~= before);
        }
        i += 1;
    }
    assert(v@.take(v@.len() as int) =~= v@);
    out
}

/// `e` is `x`, or both are far out on one side.
spec fn near(x: int, e: int) -> bool {
    &&& -0x20_0000_0000_0000_0000_0000_0000 <= e <= 0x20_0000_0000_0000_0000_0000_0000
    &&& {
        ||| x == e
        ||| x > e && e >= 0x8000_0000_0000_0000_0000_0000
        ||| x < e && e <= -0x8000_0000_0000_0000_0000_0000
    }
}

spec fn exponent_in(s: Seq<char>) -> int {
    match decimal(s) {
        Some((_, x)) => x,
        None => 0,
    }
}

/// The digits and the exponent of a decimal number.
fn read_decimal(s: &str) -> (r: Option<(Vec<char>, i128)>)
    ensures
        match r {
            Some((d, e)) => decimal(s@) == Some((d@, exponent_in(s@))) && near(
                exponent_in(s@),
                e as int,
            ),
            None => decimal(s@) is None,
        },
{
    let v = text::chars_of(s);
    let from: usize = if v.len() > 0 && v[0] == '+' {
        1
    } else {
        0
    };
    let body = text::piece(v.as_slice(), from, v.len());
    assert(body@ =~= if from == 1 { s@.skip(1) } else { s@ });
    let low = text::lower_text(text::text_of(body.as_slice()).as_str());
    let parts = text::split(text::chars_of(low.as_str()).as_slice(), 'e');
    let ghost sparts = text::split_on(text::lower(body@), 'e');
    assert(sparts.len() == parts@.len());
    assert(sparts[0] == text::texts(parts@)[0]);
    if parts.len() > 2 {
        return None;
    }
    let mantissa = text::split(text::chars_of(parts[0].as_str()).as_slice(), '.');
    let ghost smant = text::split_on(sparts[0], '.');
    assert(smant.len() == mantissa@.len());
    assert(smant[0] == text::texts(mantissa@)[0]);
    if mantissa.len() > 2 {
        return None;
    }
    let mut all = text::chars_of(mantissa[0].as_str());
    let mut places: usize = 0;
    if mantissa.len() == 2 {
        let mut fraction = text::chars_of(mantissa[1].as_str());
        assert(smant[1] == text::texts(mantissa@)[1]);
        places = fraction.len();
        all.append(&mut fraction);
    } else {
        assert(all@ =~= smant[0] + Seq::<char>::empty());
    }
    if all.len() == 0 || !text::digits_only(all.as_slice()) {
        return None;
    }
    let ghost fraction = if smant.len() == 2 { smant[1] } else { Seq::empty() };
    assert(all@ == smant[0] + fraction);
    assert(places == fraction.len());
    let exponent: i128 = if parts.len() == 2 {
        assert(sparts[1] == text::texts(parts@)[1]);
        match exponent_of(parts[1].as_str()) {
            Some(e) => e,
            None => return None,
        }
    } else {
        0
    };
    let ghost x = if sparts.len() == 2 { text::parse_int(sparts[1])->0 } else { 0 };
    assert(held(x, exponent as int));
    let ghost te = x - places;
    assert(decimal(s@) == Some((all@, te)));
    Some((all, exponent - places as i128))
}

/// The minutes in the hours that digits and an exponent stand for.
fn minutes_of_digits(all: &Vec<char>, e: i128, Ghost(te): Ghost<int>) -> (r: Option<u32>)
    requires
        text::all_digits(all@),
        near(te, e as int),
    ensures
        ({
            let num = numerator(text::digits_value(all@), te);
            let den = denominator(te);
            let m = nearest_minutes(num, den);
            match r {
                Some(k) => num < infinite_from() * den && k == if m > 1440 {
                    1441
                } else {
                    m as int
                },
                None => num >= infinite_from() * den,
            }
        }),
{
    let d = significant(all.as_slice());
    let ghost num = numerator(value(d@), te);
    let ghost den = denominator(te);
    proof {
        lemma_magnitude(1, 1, te, 0);
        lemma_pow2_monotone(0, 970);
        assert(infinite_from() >= 1);
    }
    if d.len() == 0 {
        proof {
            assert(value(d@) == 0);
            assert(num == 0) by {
                assert(0 * pow10(te as nat) == 0);
            }
            assert(infinite_from() * den >= 1) by (nonlinear_arith)
                requires
                    infinite_from() >= 1,
                    den >= 1,
            ;
            assert(0 * scale() == 0);
            lemma_div_unique(0, den as int, 0, 0);
            lemma_no_minute(num, den);
        }
        return Some(0);
    }
    let p: i128 = d.len() as i128 + e;
    proof {
        lemma_value_bound(d@);
        lemma_value_leading(d@);
        lemma_magnitude(value(d@), d@.len(), te, 2);
        reveal_with_fuel(pow10, 3);
    }
    if p >= 3 {
        if is_infinite(&d, e, Ghost(te)) {
            return None;
        }
        proof {
            assert(num >= 32 * den);
            lemma_over_a_day(num, den);
        }
        return Some(1441);
    }
    proof {
        assert(p <= 2 ==> d@.len() + te <= 2);
        lemma_magnitude(value(d@), d@.len(), te, 2);
        if d@.len() + te >= 0 {
            assert(num < 100 * den);
        } else {
            lemma_magnitude(value(d@), d@.len(), te, 0);
            lemma_below_one(value(d@), d@.len(), te);
        }
        lemma_hundred_is_finite();
        assert(infinite_from() * den >= 100 * den) by (nonlinear_arith)
            requires
                infinite_from() >= 100,
        ;
    }
    if p <= -3 {
        proof {
            let xx = num * scale();
            assert(xx * 1000 < scale() * den) by (nonlinear_arith)
                requires
                    xx == num * scale(),
                    num * 1000 < den,
                    scale() > 0,
            ;
            vstd::arithmetic::div_mod::lemma_fundamental_div_mod(xx as int, den as int);
            let w = xx / den;
            assert(w * 1000 < scale()) by (nonlinear_arith)
                requires
                    xx >= den * w,
                    xx * 1000 < scale() * den,
                    den >= 1,
            ;
            lemma_no_minute(num, den);
        }
        return Some(0);
    }
    Some(minutes_between(d, e))
}

/// The minutes in the hours that the text spells as a decimal number; a day and
/// a minute stands for everything over a day.
pub fn minutes_of_decimal(s: &str) -> (r: Option<u32>)
    ensures
        match r {
            Some(m) => decimal_minutes(s@) is Some && m == if decimal_minutes(s@)->0 > 1440 {
                1441
            } else {
                decimal_minutes(s@)->0 as int
            },
            None => decimal_minutes(s@) is None,
        },
{
    match read_decimal(s) {
        Some((d, e)) => minutes_of_digits(&d, e, Ghost(exponent_in(s@))),
        None => None,
    }
}

/// A decimal number of zeros only.
pub open spec fn is_zero(s: Seq<char>) -> bool {
    match decimal(s) {
        Some((digits, _)) => text::digits_value(digits) == 0,
        None => false,
    }
}

/// The text is a decimal number of zeros only.
pub fn decimal_is_zero(s: &str) -> (r: bool)
    ensures
        r == is_zero(s@),
{
    match read_decimal(s) {
        Some((d, _)) => {
            let v = significant(d.as_slice());
            proof {
                if v@.len() > 0 {
                    lemma_value_leading(v@);
                    lemma_pow10_monotone(0, (v@.len() - 1) as nat);
                }
            }
            v.len() == 0
        },
        None => false,
    }
}

/// A hundred is a finite number.
pub proof fn lemma_hundred_is_finite()
    ensures
        infinite_from() >= 100,
{
    lemma_pow2_monotone(0, 970);
    let p = pow2(970);
    assert(0x3f_ffff_ffff_ffff * p >= 100) by (nonlinear_arith)
        requires
            p >= 1,
    ;
}

proof fn lemma_below_one(d: nat, n: nat, e: int)
    requires
        n >= 1,
        d < pow10(n),
        n + e < 0,
    ensures
        numerator(d, e) < 100 * denominator(e),
{
    lemma_pow10_monotone(n, (-e) as nat);
}

// ---- hours to one digit ---------------------------------------------------

/// The hours in some minutes as the nearest binary64 number, rounded to tenths,
/// halves to the even one.
pub open spec fn hour_tenths(minutes: nat) -> nat {
    round_half_even(10 * round53(minutes * scale(), 60), scale())
}

/// The hours in some minutes, rounded to tenths.
pub fn tenths_of_hours(minutes: u32) -> (r: u64)
    ensures
        r == hour_tenths(minutes as nat),
        r <= minutes,
{
    if minutes == 0 {
        proof {
            assert(0 * scale() == 0);
            let (d, u) = (60nat, ulp(0nat / 60nat));
            assert(u == 1);
            assert(d * u == 60) by (nonlinear_arith)
                requires
                    d == 60,
                    u == 1,
            ;
            let q = round_half_even(0, d * u);
            assert(q == 0);
            assert(q * u == 0) by (nonlinear_arith)
                requires
                    q == 0,
            ;
            assert(round53(0, d) == q * u);
        }
        return 0;
    }
    let scaled: u128 = minutes as u128 * 0x1000_0000_0000_0000;
    let whole: u128 = scaled / 60;
    let rest = scaled % 60 != 0;
    let ghost x = minutes as nat * scale();
    let u: u128 = last_place(whole);
    proof {
        lemma_ulp(whole as nat);
        lemma_round53_bounds(x, 60);
    }
    let q: u128 = round_units(whole, rest, u, Ghost(x), Ghost(60));
    assert(round53(x, 60) == q * u);
    let hours: u128 = q * u;
    let ten: u128 = hours * 10;
    let t: u128 = ten / 0x1000_0000_0000_0000;
    let left: u128 = ten % 0x1000_0000_0000_0000;
    assert(2 * ten <= minutes * scale()) by {
        assert(hours <= whole + ulp(whole as nat));
        assert(ulp(whole as nat) * 0x10_0000_0000_0000 <= whole);
    }
    if 2 * left < 0x1000_0000_0000_0000 || (2 * left == 0x1000_0000_0000_0000 && t % 2 == 0) {
        t as u64
    } else {
        (t + 1) as u64
    }
}

/// A number of tenths of an hour, as the nearest binary64 number, is six times as
/// many minutes.
pub proof fn tenths_are_six_minutes(t: nat)
    requires
        t <= 240,
    ensures
        nearest_minutes(t, 10) == 6 * t,
{
    let x = t * scale();
    let w = x / 10;
    lemma_round53_bounds(x, 10);
    lemma_ulp(w);
    let h = round53(x, 10);
    assert(ulp(w) <= 0x1_0000) by {
        if w >= 0x10_0000_0000_0000 {
            assert(ulp(w) * 0x10_0000_0000_0000 <= w);
        } else {
            assert(ulp(w) == 1);
        }
    }
    lemma_round53_bounds(60 * h, 1);
    lemma_ulp(60 * h);
    assert((60 * h) / 1 == 60 * h);
    assert(ulp(60 * h) <= 0x100_0000) by {
        if 60 * h >= 0x10_0000_0000_0000 {
            assert(ulp(60 * h) * 0x10_0000_0000_0000 <= 60 * h);
        } else {
            assert(ulp(60 * h) == 1);
        }
    }
    let p = round53(60 * h, 1);
    assert(p + scale() / 2 >= 6 * t * scale());
    assert(p + scale() / 2 < (6 * t + 1) * scale());
}

/// Some tenths of an hour are a finite number.
pub proof fn tenths_are_finite(t: nat)
    requires
        t <= 240,
    ensures
        t < infinite_from() * 10,
{
    lemma_hundred_is_finite();
}

/// Up to a hundred, a number of hours is rounded to the nearest minute: what is given
/// differs from it by half a minute at most, but for a millionth of that.
pub proof fn hours_are_rounded_to_the_nearest_minute(num: nat, den: nat)
    requires
        den > 0,
        num <= 100 * den,
    ensures
        2000000 * (den * nearest_minutes(num, den) - 60 * num) <= 1000001 * den,
        2000000 * (60 * num - den * nearest_minutes(num, den)) <= 1000001 * den,
{
    let s = scale();
    let x = num * s;
    let w = x / den;
    let r = x % den;
    vstd::arithmetic::div_mod::lemma_fundamental_div_mod(x as int, den as int);
    assert(w <= 100 * s) by {
        assert(x <= (100 * s) * den) by (nonlinear_arith)
            requires
                x == num * s,
                num <= 100 * den,
        ;
        vstd::arithmetic::div_mod::lemma_div_is_ordered(
            x as int,
            ((100 * s) * den) as int,
            den as int,
        );
        vstd::arithmetic::div_mod::lemma_div_by_multiple((100 * s) as int, den as int);
    }
    lemma_round53_bounds(x, den);
    lemma_ulp(w);
    let h = round53(x, den);
    assert(ulp(w) <= 0x1_0000) by {
        if w >= 0x10_0000_0000_0000 {
            assert(ulp(w) * 0x10_0000_0000_0000 <= w);
        } else {
            assert(ulp(w) == 1);
        }
    }
    lemma_round53_bounds(60 * h, 1);
    lemma_ulp(60 * h);
    assert((60 * h) / 1 == 60 * h);
    assert(ulp(60 * h) <= 0x100_0000) by {
        if 60 * h >= 0x10_0000_0000_0000 {
            assert(ulp(60 * h) * 0x10_0000_0000_0000 <= 60 * h);
        } else {
            assert(ulp(60 * h) == 1);
        }
    }
    let p = round53(60 * h, 1);
    let m = (p + s / 2) / s;
    let off = m * s - 60 * w;
    assert(-(s / 2) - 0x200_0000 <= off <= s / 2 + 0x200_0000);
    let d = den as int;
    let diff = d * m - 60 * num;
    assert(s * diff == off * d - 60 * r) by (nonlinear_arith)
        requires
            diff == d * m - 60 * num,
            off == m * s - 60 * w,
            x == num * s,
            x == d * w + r,
    ;
    let most = s / 2 + 0x200_0000;
    assert(off * d <= most * d && off * d >= -(most * d)) by (nonlinear_arith)
        requires
            -most <= off <= most,
            d > 0,
    ;
    assert(most * d == (s / 2) * d + 0x200_0000 * d) by (nonlinear_arith)
        requires
            most == s / 2 + 0x200_0000,
    ;
}

/// Up to a day, the tenths of hours are those nearest to the minutes: no more than half
/// a tenth away, which is three minutes.
pub proof fn tenths_of_hours_are_the_nearest(minutes: nat)
    requires
        minutes <= 1440,
    ensures
        -3 <= 6 * hour_tenths(minutes) - minutes <= 3,
{
    let x = minutes * scale();
    let w = x / 60;
    lemma_round53_bounds(x, 60);
    lemma_ulp(w);
    let h = round53(x, 60);
    assert(ulp(w) <= 0x1_0000) by {
        if w >= 0x10_0000_0000_0000 {
            assert(ulp(w) * 0x10_0000_0000_0000 <= w);
        } else {
            assert(ulp(w) == 1);
        }
    }
    let t = hour_tenths(minutes);
    assert(2 * (t * scale()) <= 20 * h + scale());
    assert(20 * h <= 2 * (t * scale()) + scale());
    assert(6 * (t * scale()) <= x + 3 * scale() + 0x100_0000);
    assert(6 * (t * scale()) + 3 * scale() + 0x100_0000 >= x);
}

/// Digits with a point in them are so many hours and the part behind the point.
pub proof fn decimals_are_read_digit_by_digit(a: Seq<char>, b: Seq<char>)
    requires
        text::all_digits(a),
        text::all_digits(b),
        a.len() > 0,
    ensures
        decimal(a.push('.') + b) == Some((a + b, -(b.len() as int))),
        decimal(a) == Some((a, 0int)),
        decimal(seq!['+'] + a) == Some((a, 0int)),
{
    let s = a.push('.') + b;
    let digits = a + b;
    assert forall|i: int| 0 <= i < digits.len() implies text::is_digit(#[trigger] digits[i]) by {
        if i < a.len() {
            assert(digits[i] == a[i]);
        } else {
            assert(digits[i] == b[i - a.len()]);
        }
    }
    assert forall|i: int| 0 <= i < s.len() implies text::is_digit(#[trigger] s[i]) || s[i] == '.' by {
        if i < a.len() {
            assert(s[i] == a[i]);
        } else if i > a.len() {
            assert(s[i] == b[i - a.len() - 1]);
        }
    }
    assert(text::is_digit(a[0]));
    assert(s[0] == a[0]);
    assert(text::lower(s) =~= s);
    assert(text::lower(a) =~= a);
    assert(!s.contains('e'));
    text::split_none(s, 'e');
    text::digits_hold_no_other(a, '.');
    text::digits_hold_no_other(b, '.');
    text::digits_hold_no_other(a, 'e');
    text::split_none(a, '.');
    text::split_none(a, 'e');
    text::split_last(a, b, '.');
    assert(text::split_on(s, '.') =~= seq![a, b]);
    assert(a + Seq::<char>::empty() =~= a);
    assert((seq!['+'] + a).skip(1) =~= a);
}

/// A decimal number of hours is the minutes nearest to it: its digits are counted in
/// units of its last place.
pub proof fn decimal_hours_are_the_nearest_minutes(a: Seq<char>, b: Seq<char>)
    requires
        text::all_digits(a),
        text::all_digits(b),
        a.len() > 0,
        text::digits_value(a + b) < infinite_from() * pow10(b.len()),
    ensures
        decimal_minutes(a.push('.') + b) == Some(
            nearest_minutes(text::digits_value(a + b), pow10(b.len())),
        ),
        pow10(0) == 1,
        b.len() > 0 ==> pow10(b.len()) == 10 * pow10((b.len() - 1) as nat),
{
    decimals_are_read_digit_by_digit(a, b);
    let n = text::digits_value(a + b);
    assert(pow10(0) == 1);
    assert(n * 1 == n);
}

} // verus!
