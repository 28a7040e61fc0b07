//! Stable sorting, said as insertion: an item goes behind those that it does not
//! belong before. And the order of texts.

use crate::text;
use vstd::prelude::*;

verus! {

/// `s` with `x` in its place: behind the last item that `x` does not belong before.
pub open spec fn insert_by<A>(s: Seq<A>, x: A, before: spec_fn(A, A) -> bool) -> Seq<A>
    decreases s.len(),
{
    if s.len() > 0 && before(x, s.last()) {
        insert_by(s.drop_last(), x, before).push(s.last())
    } else {
        s.push(x)
    }
}

/// The items in order; those that tie keep the order they came in.
pub open spec fn sort_by<A>(s: Seq<A>, before: spec_fn(A, A) -> bool) -> Seq<A>
    decreases s.len(),
{
    if s.len() == 0 {
        s
    } else {
        insert_by(sort_by(s.drop_last(), before), s.last(), before)
    }
}

/// `before` is a strict order, in which not being ordered is transitive.
pub open spec fn is_weak_order<A>(before: spec_fn(A, A) -> bool) -> bool {
    &&& forall|a: A, b: A| #[trigger] before(a, b) ==> !before(b, a)
    &&& forall|a: A, b: A, c: A|
        !(#[trigger] before(b, a)) && !(#[trigger] before(c, b)) ==> !before(c, a)
}

/// No item belongs before one in front of it.
pub open spec fn in_order<A>(s: Seq<A>, before: spec_fn(A, A) -> bool) -> bool {
    forall|i: int, j: int| 0 <= i < j < s.len() ==> !before(#[trigger] s[j], #[trigger] s[i])
}

/// Where `x` is inserted, if it belongs before all items from `at` on and not
/// before the one in front of them.
pub proof fn insert_at<A>(s: Seq<A>, x: A, before: spec_fn(A, A) -> bool, at: int)
    requires
        0 <= at <= s.len(),
        forall|i: int| at <= i < s.len() ==> before(x, #[trigger] s[i]),
        at > 0 ==> !before(x, s[at - 1]),
    ensures
        insert_by(s, x, before) == s.insert(at, x),
    decreases s.len(),
{
    if s.len() > at {
        assert(before(x, s[s.len() - 1]));
        insert_at(s.drop_last(), x, before, at);
        assert(s.drop_last().insert(at, x).push(s.last()) =~= s.insert(at, x));
    } else {
        assert(s.push(x) =~= s.insert(at, x));
    }
}

/// Inserting adds the item and nothing else.
pub proof fn insert_is_addition<A>(s: Seq<A>, x: A, before: spec_fn(A, A) -> bool)
    ensures
        insert_by(s, x, before).len() == s.len() + 1,
        insert_by(s, x, before).to_multiset() == s.to_multiset().insert(x),
    decreases s.len(),
{
    broadcast use vstd::seq_lib::group_to_multiset_ensures;

    if s.len() > 0 && before(x, s.last()) {
        insert_is_addition(s.drop_last(), x, before);
        assert(s.drop_last().push(s.last()) =~= s);
        assert(insert_by(s, x, before).to_multiset() =~= s.to_multiset().insert(x));
    }
}

/// Inserting keeps the order.
pub proof fn insert_keeps_order<A>(s: Seq<A>, x: A, before: spec_fn(A, A) -> bool)
    requires
        is_weak_order(before),
        in_order(s, before),
    ensures
        in_order(insert_by(s, x, before), before),
        forall|y: A|
            #![trigger before(y, x)]
            !before(y, x) && (forall|i: int| 0 <= i < s.len() ==> !before(y, #[trigger] s[i]))
                ==> (forall|i: int|
                0 <= i < s.len() + 1 ==> !before(
                    y,
                    #[trigger] insert_by(s, x, before)[i],
                )),
    decreases s.len(),
{
    let r = insert_by(s, x, before);
    insert_is_addition(s, x, before);
    if s.len() > 0 && before(x, s.last()) {
        let s0 = s.drop_last();
        let l = s.last();
        assert(in_order(s0, before)) by {
            assert forall|i: int, j: int| 0 <= i < j < s0.len() implies !before(
                #[trigger] s0[j],
                #[trigger] s0[i],
            ) by {
                assert(s0[i] == s[i] && s0[j] == s[j]);
            }
        }
        insert_keeps_order(s0, x, before);
        insert_is_addition(s0, x, before);
        let r0 = insert_by(s0, x, before);
        assert(!before(l, x));
        assert forall|i: int| 0 <= i < s0.len() implies !before(l, #[trigger] s0[i]) by {
            assert(s[s.len() - 1] == l && s0[i] == s[i]);
        }
        assert forall|i: int, j: int| 0 <= i < j < r.len() implies !before(
            #[trigger] r[j],
            #[trigger] r[i],
        ) by {
            if j < r0.len() {
                assert(r[i] == r0[i] && r[j] == r0[j]);
            } else {
                assert(r[j] == l);
                assert(r[i] == r0[i]);
            }
        }
        assert forall|y: A|
            #![trigger before(y, x)]
            !before(y, x) && (forall|i: int| 0 <= i < s.len() ==> !before(
                y,
                #[trigger] s[i],
            )) implies (forall|i: int| 0 <= i < s.len() + 1 ==> !before(y, #[trigger] r[i])) by {
            assert forall|i: int| 0 <= i < s0.len() implies !before(y, #[trigger] s0[i]) by {
                assert(s0[i] == s[i]);
            }
            assert forall|i: int| 0 <= i < s.len() + 1 implies !before(y, #[trigger] r[i]) by {
                if i < r0.len() {
                    assert(r[i] == r0[i]);
                } else {
                    assert(r[i] == s[s.len() - 1]);
                }
            }
        }
    } else {
        assert forall|i: int, j: int| 0 <= i < j < r.len() implies !before(
            #[trigger] r[j],
            #[trigger] r[i],
        ) by {
            if j < s.len() {
                assert(r[i] == s[i] && r[j] == s[j]);
            } else {
                assert(r[j] == x && r[i] == s[i]);
                if i < s.len() - 1 {
                    assert(!before(s[s.len() - 1], s[i]));
                }
            }
        }
        assert forall|y: A|
            #![trigger before(y, x)]
            !before(y, x) && (forall|i: int| 0 <= i < s.len() ==> !before(
                y,
                #[trigger] s[i],
            )) implies (forall|i: int| 0 <= i < s.len() + 1 ==> !before(y, #[trigger] r[i])) by {
            assert forall|i: int| 0 <= i < s.len() + 1 implies !before(y, #[trigger] r[i]) by {
                if i < s.len() {
                    assert(r[i] == s[i]);
                }
            }
        }
    }
}

/// Sorting keeps the items and puts them in order.
pub proof fn sort_sorts<A>(s: Seq<A>, before: spec_fn(A, A) -> bool)
    requires
        is_weak_order(before),
    ensures
        sort_by(s, before).len() == s.len(),
        sort_by(s, before).to_multiset() == s.to_multiset(),
        in_order(sort_by(s, before), before),
    decreases s.len(),
{
    broadcast use vstd::seq_lib::group_to_multiset_ensures;

    if s.len() > 0 {
        sort_sorts(s.drop_last(), before);
        insert_is_addition(sort_by(s.drop_last(), before), s.last(), before);
        insert_keeps_order(sort_by(s.drop_last(), before), s.last(), before);
        assert(s.drop_last().push(s.last()) =~= s);
        assert(sort_by(s, before).to_multiset() =~= s.to_multiset());
    }
}

// ---- texts ----------------------------------------------------------------

/// The first text comes before the second, character by character.
pub open spec fn precedes(a: Seq<char>, b: Seq<char>) -> bool
    decreases a.len(),
{
    if b.len() == 0 {
        false
    } else if a.len() == 0 {
        true
    } else if a[0] != b[0] {
        a[0] < b[0]
    } else {
        precedes(a.skip(1), b.skip(1))
    }
}

/// The first text comes before the second.
pub fn text_precedes(a: &str, b: &str) -> (r: bool)
    ensures
        r == precedes(a@, b@),
{
    let x = text::chars_of(a);
    let y = text::chars_of(b);
    let mut i: usize = 0;
    assert(a@.skip(0) =~= a@);
    assert(b@.skip(0) =~= b@);
    while i < x.len() && i < y.len() && x[i] == y[i]
        invariant
            i <= x@.len(),
            i <= y@.len(),
            x@ == a@,
            y@ == b@,
            precedes(a@, b@) == precedes(a@.skip(i as int), b@.skip(i as int)),
        decreases x@.len() - i,
    {
        assert(a@.skip(i as int).skip(1) =~= a@.skip(i + 1));
        assert(b@.skip(i as int).skip(1) =~= b@.skip(i + 1));
        i += 1;
    }
    if i >= y.len() {
        false
    } else if i >= x.len() {
        true
    } else {
        x[i] < y[i]
    }
}

/// The order of texts: of two texts one comes first, unless they are the same.
pub proof fn texts_are_ordered(a: Seq<char>, b: Seq<char>)
    ensures
        !(precedes(a, b) && precedes(b, a)),
        a == b <==> !precedes(a, b) && !precedes(b, a),
    decreases a.len(),
{
    if a.len() > 0 && b.len() > 0 && a[0] == b[0] {
        texts_are_ordered(a.skip(1), b.skip(1));
        if a.skip(1) == b.skip(1) {
            assert(a =~= seq![a[0]] + a.skip(1));
            assert(b =~= seq![b[0]] + b.skip(1));
        }
    } else if a.len() == 0 && b.len() == 0 {
        assert(a =~= b);
    }
}

/// What comes before a text that comes before a third comes before the third.
pub proof fn text_order_is_transitive(a: Seq<char>, b: Seq<char>, c: Seq<char>)
    requires
        precedes(a, b),
        precedes(b, c),
    ensures
        precedes(a, c),
    decreases a.len(),
{
    if a.len() > 0 && b.len() > 0 && c.len() > 0 && a[0] == b[0] && b[0] == c[0] {
        text_order_is_transitive(a.skip(1), b.skip(1), c.skip(1));
    }
}

/// The order of texts is one to sort by.
pub proof fn text_order_sorts()
    ensures
        is_weak_order(|a: Seq<char>, b: Seq<char>| precedes(a, b)),
{
    let before = |a: Seq<char>, b: Seq<char>| precedes(a, b);
    assert forall|a: Seq<char>, b: Seq<char>| #[trigger] before(a, b) implies !before(b, a) by {
        texts_are_ordered(a, b);
    }
    assert forall|a: Seq<char>, b: Seq<char>, c: Seq<char>|
        !(#[trigger] before(b, a)) && !(#[trigger] before(c, b)) implies !before(c, a) by {
        lemma_not_before(a, b, c);
    }
}

/// Not coming before is transitive.
pub proof fn lemma_not_before(a: Seq<char>, b: Seq<char>, c: Seq<char>)
    requires
        !precedes(b, a),
        !precedes(c, b),
    ensures
        !precedes(c, a),
{
    texts_are_ordered(a, b);
    texts_are_ordered(b, c);
    texts_are_ordered(a, c);
    if precedes(a, b) && precedes(b, c) {
        text_order_is_transitive(a, b, c);
    }
}

/// Where the heads of two texts are equally long, they decide, and only where they
/// are the same does the rest.
pub proof fn heads_decide(a: Seq<char>, b: Seq<char>, x: Seq<char>, y: Seq<char>)
    requires
        a.len() == b.len(),
    ensures
        precedes(a + x, b + y) == (precedes(a, b) || a == b && precedes(x, y)),
    decreases a.len(),
{
    if a.len() == 0 {
        assert(a =~= b);
        assert(a + x =~= x);
        assert(b + y =~= y);
    } else {
        assert((a + x)[0] == a[0] && (b + y)[0] == b[0]);
        heads_decide(a.skip(1), b.skip(1), x, y);
        assert((a + x).skip(1) =~= a.skip(1) + x);
        assert((b + y).skip(1) =~= b.skip(1) + y);
        assert(a =~= seq![a[0]] + a.skip(1));
        assert(b =~= seq![b[0]] + b.skip(1));
    }
}

/// Numbers written with the same number of digits are ordered as the numbers are.
pub proof fn padded_numbers_are_ordered(m: nat, n: nat, width: nat)
    requires
        m < n < text::ten_to(width),
    ensures
        precedes(text::low_digits(m, width), text::low_digits(n, width)),
    decreases width,
{
    if width > 0 {
        let w = (width - 1) as nat;
        let a = text::low_digits(m / 10, w);
        let b = text::low_digits(n / 10, w);
        let x = seq![text::digit_char(m)];
        let y = seq![text::digit_char(n)];
        text::low_digits_are_digits(m / 10, w);
        text::low_digits_are_digits(n / 10, w);
        if m / 10 < n / 10 {
            padded_numbers_are_ordered(m / 10, n / 10, w);
        } else {
            assert(m % 10 < n % 10);
            assert(x[0] < y[0]);
        }
        heads_decide(a, b, x, y);
        assert(text::low_digits(m, width) =~= a + x);
        assert(text::low_digits(n, width) =~= b + y);
    }
}

/// Texts in strictly rising order.
pub open spec fn rising(s: Seq<Seq<char>>) -> bool {
    forall|i: int, j: int| 0 <= i < j < s.len() ==> precedes(#[trigger] s[i], #[trigger] s[j])
}

/// A place for `x` in a rising list: behind all texts that come before it. `true`
/// where the text at that place is `x` itself.
pub fn place_in(list: &Vec<String>, x: &str) -> (r: (usize, bool))
    requires
        rising(text::texts(list@)),
    ensures
        r.0 <= list@.len(),
        forall|i: int| 0 <= i < r.0 ==> precedes(list@[i]@, x@),
        r.1 ==> r.0 < list@.len() && list@[r.0 as int]@ == x@,
        !r.1 ==> forall|i: int| r.0 <= i < list@.len() ==> precedes(x@, list@[i]@),
        r.1 == text::texts(list@).contains(x@),
{
    let ghost all = text::texts(list@);
    let mut i: usize = 0;
    while i < list.len() && text_precedes(list[i].as_str(), x)
        invariant
            i <= list@.len(),
            all == text::texts(list@),
            forall|k: int| 0 <= k < i ==> precedes(list@[k]@, x@),
        decreases list@.len() - i,
    {
        i += 1;
    }
    if i < list.len() && text::same_text(list[i].as_str(), x) {
        assert(all[i as int] == x@);
        (i, true)
    } else {
        proof {
            assert forall|k: int| i <= k < list@.len() implies precedes(x@, list@[k]@) by {
                texts_are_ordered(list@[i as int]@, x@);
                if k > i {
                    assert(precedes(all[i as int], all[k]));
                    text_order_is_transitive(x@, list@[i as int]@, list@[k]@);
                }
            }
            if all.contains(x@) {
                let k = choose|k: int| 0 <= k < all.len() && all[k] == x@;
                texts_are_ordered(x@, x@);
                assert(all[k] == list@[k]@);
            }
        }
        (i, false)
    }
}

/// A rising list with one text more, unless it is there already.
pub fn insert_rising(list: &mut Vec<String>, x: &str)
    requires
        rising(text::texts(old(list)@)),
    ensures
        rising(text::texts(final(list)@)),
        text::texts(final(list)@).to_set() == text::texts(old(list)@).to_set().insert(x@),
{
    let ghost all = text::texts(list@);
    let (at, there) = place_in(list, x);
    if there {
        assert(all.to_set().insert(x@) =~= all.to_set());
    } else {
        list.insert(at, text::copy(x));
        let ghost now = text::texts(list@);
        proof {
            assert(now =~= all.insert(at as int, x@));
            assert forall|i: int, j: int| 0 <= i < j < now.len() implies precedes(
                #[trigger] now[i],
                #[trigger] now[j],
            ) by {
                if i < at {
                    assert(now[i] == all[i]);
                    if j > at {
                        assert(now[j] == all[j - 1]);
                    }
                } else if i == at {
                    assert(now[j] == all[j - 1]);
                } else {
                    assert(now[i] == all[i - 1] && now[j] == all[j - 1]);
                }
            }
            assert forall|y: Seq<char>| now.contains(y) == (all.contains(y) || y == x@) by {
                if now.contains(y) {
                    let k = choose|k: int| 0 <= k < now.len() && now[k] == y;
                    if k < at {
                        assert(all[k] == y);
                    } else if k > at {
                        assert(all[k - 1] == y);
                    }
                }
                if all.contains(y) {
                    let k = choose|k: int| 0 <= k < all.len() && all[k] == y;
                    if k < at {
                        assert(now[k] == y);
                    } else {
                        assert(now[k + 1] == y);
                    }
                }
                assert(now[at as int] == x@);
            }
            assert(now.to_set() =~= all.to_set().insert(x@));
        }
    }
}

/// A rising list holds no text twice: it is as long as the set of its texts.
pub proof fn rising_lists_are_sets(s: Seq<Seq<char>>)
    requires
        rising(s),
    ensures
        s.no_duplicates(),
        s.len() == s.to_set().len(),
{
    assert forall|i: int, j: int| 0 <= i < s.len() && 0 <= j < s.len() && i != j implies s[i]
        != s[j] by {
        if i < j {
            assert(precedes(s[i], s[j]));
        } else {
            assert(precedes(s[j], s[i]));
        }
        texts_are_ordered(s[i], s[j]);
    }
    s.unique_seq_to_set();
}

/// The order of texts, to sort by.
pub open spec fn text_order() -> spec_fn(Seq<char>, Seq<char>) -> bool {
    |a: Seq<char>, b: Seq<char>| precedes(a, b)
}

/// The texts in order.
pub fn sort_texts(v: Vec<String>) -> (r: Vec<String>)
    ensures
        text::texts(r@) == sort_by(text::texts(v@), text_order()),
{
    let mut out: Vec<String> = Vec::new();
    let ghost all = text::texts(v@);
    let mut i: usize = 0;
    assert(all.take(0) =~= Seq::empty());
    assert(text::texts(out@) =~= Seq::<Seq<char>>::empty());
    while i < v.len()
        invariant
            i <= v@.len(),
            all == text::texts(v@),
            text::texts(out@) == sort_by(all.take(i as int), text_order()),
        decreases v@.len() - i,
    {
        let ghost outs = text::texts(out@);
        let mut at: usize = out.len();
        while at > 0 && text_precedes(v[i].as_str(), out[at - 1].as_str())
            invariant
                i < v@.len(),
                at <= out@.len(),
                outs == text::texts(out@),
                forall|k: int| at <= k < out@.len() ==> precedes(v@[i as int]@, #[trigger] outs[k]),
            decreases at,
        {
            at -= 1;
        }
        let item = v[i].clone();
        let ghost x = item@;
        out.insert(at, item);
        proof {
            insert_at(outs, x, text_order(), at as int);
            assert(text::texts(out@) =~= outs.insert(at as int, x));
            assert(all.take(i + 1).drop_last() =~= all.take(i as int));
            assert(all.take(i + 1).last() == x);
        }
        i += 1;
    }
    assert(all.take(all.len() as int) =~= all);
    out
}

/// Texts are ordered by the first character in which they differ; a text comes before
/// those that go on from it.
pub proof fn texts_are_ordered_by_first_difference(
    head: Seq<char>,
    x: char,
    y: char,
    a: Seq<char>,
    b: Seq<char>,
)
    ensures
        x as u32 != y as u32 ==> precedes(head.push(x) + a, head.push(y) + b) == ((x as u32) < (y as u32)),
        precedes(head, head.push(x) + a),
        !precedes(head.push(x) + a, head),
        !precedes(head, head),
    decreases head.len(),
{
    texts_are_ordered(head, head);
    assert(head + Seq::<char>::empty() =~= head);
    assert(head.push(x) + a =~= head + (seq![x] + a));
    assert(head.push(y) + b =~= head + (seq![y] + b));
    heads_decide(head, head, Seq::empty(), seq![x] + a);
    heads_decide(head, head, seq![x] + a, Seq::empty());
    heads_decide(head, head, seq![x] + a, seq![y] + b);
}

/// Sorting is stable: of two that belong neither before the other, the one that came
/// first stays first.
pub proof fn sorting_is_stable<A>(s: Seq<A>, x: A, before: spec_fn(A, A) -> bool)
    ensures
        (forall|i: int|
            0 <= i < sort_by(s, before).len() ==> !before(x, #[trigger] sort_by(s, before)[i]))
            ==> sort_by(s.push(x), before) == sort_by(s, before).push(x),
{
    assert(s.push(x).drop_last() =~= s);
    let t = sort_by(s, before);
    if forall|i: int| 0 <= i < t.len() ==> !before(x, #[trigger] t[i]) {
        if t.len() > 0 {
            assert(!before(x, t[t.len() - 1]));
        }
    }
}

} // verus!
