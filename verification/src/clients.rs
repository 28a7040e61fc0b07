//! The clients that are offered: those of recorded entries and those that were
//! added by name.

use crate::autocomplete;
use crate::dates::Date;
use crate::edits::Refusal;
use crate::edits;
use crate::entries;
use crate::entries::LocatedRow;
use crate::entries::MonthFile;
use crate::entries::RowView;
use crate::ranges;
use crate::sorting;
use crate::text;
use vstd::prelude::*;

verus! {

/// A client that is offered, with the day of its last entry in words.
pub struct ClientItem {
    pub name: String,
    pub hint: String,
}

/// The clients of some entries.
pub open spec fn recorded_clients(rows: Seq<RowView>) -> Set<Seq<char>>
    decreases rows.len(),
{
    if rows.len() == 0 {
        Set::empty()
    } else {
        let t = text::trim(rows.last().client);
        if t.len() > 0 {
            recorded_clients(rows.drop_last()).insert(t)
        } else {
            recorded_clients(rows.drop_last())
        }
    }
}

/// The clients that were added by name.
pub open spec fn added_clients(names: Seq<Seq<char>>) -> Set<Seq<char>>
    decreases names.len(),
{
    if names.len() == 0 {
        Set::empty()
    } else {
        let t = text::trim(names.last());
        if t.len() > 0 {
            added_clients(names.drop_last()).insert(t)
        } else {
            added_clients(names.drop_last())
        }
    }
}

/// The latest day with an entry for a client.
pub open spec fn last_day(rows: Seq<RowView>, name: Seq<char>) -> Option<Date>
    decreases rows.len(),
{
    if rows.len() == 0 {
        None
    } else {
        let init = last_day(rows.drop_last(), name);
        let r = rows.last();
        if text::trim(r.client) != name {
            init
        } else {
            match init {
                Some(d) => if r.date.not_after(d) {
                    Some(d)
                } else {
                    Some(r.date)
                },
                None => Some(r.date),
            }
        }
    }
}

/// The day of the last entry in words; nothing for a client without one.
pub open spec fn hint_of(rows: Seq<RowView>, name: Seq<char>) -> Seq<char> {
    match last_day(rows, name) {
        Some(d) => ranges::day_label(d),
        None => ""@,
    }
}

pub open spec fn item_names(items: Seq<ClientItem>) -> Seq<Seq<char>> {
    Seq::new(items.len(), |i: int| items[i].name@)
}

/// The items are the clients of these entries and these names: each once, by the
/// lower-case forms of their names, each with its hint.
pub open spec fn are_clients(
    items: Seq<ClientItem>,
    rows: Seq<RowView>,
    names: Seq<Seq<char>>,
) -> bool {
    &&& exists|known: Seq<Seq<char>>|
        {
            &&& #[trigger] sorting::rising(known)
            &&& known.to_set() == recorded_clients(rows) + added_clients(names)
            &&& item_names(items) == sorting::sort_by(known, autocomplete::by_lowercase())
        }
    &&& forall|i: int|
        0 <= i < items.len() ==> (#[trigger] items[i]).hint@ == hint_of(rows, items[i].name@)
}

fn find_last_day(rows: &Vec<LocatedRow>, name: &str) -> (r: Option<Date>)
    ensures
        r == last_day(entries::row_views(rows@), name@),
{
    let ghost all = entries::row_views(rows@);
    let mut best: Option<Date> = None;
    let mut i: usize = 0;
    assert(all.take(0) =~= Seq::empty());
    while i < rows.len()
        invariant
            i <= rows@.len(),
            all == entries::row_views(rows@),
            best == last_day(all.take(i as int), name@),
        decreases rows@.len() - i,
    {
        assert(all.take(i + 1).drop_last() =~= all.take(i as int));
        assert(all.take(i + 1).last() == rows@[i as int]@);
        let t = text::trim_text(rows[i].client.as_str());
        if text::same_text(t.as_str(), name) {
            match best {
                Some(d) => {
                    if !rows[i].date.le(&d) {
                        best = Some(rows[i].date);
                    }
                },
                None => {
                    best = Some(rows[i].date);
                },
            }
        }
        i += 1;
    }
    assert(all.take(all.len() as int) =~= all);
    best
}

fn known_clients(rows: &Vec<LocatedRow>, names: &Vec<String>) -> (r: Vec<String>)
    ensures
        sorting::rising(text::texts(r@)),
        text::texts(r@).to_set() == recorded_clients(entries::row_views(rows@)) + added_clients(
            text::texts(names@),
        ),
{
    let mut out: Vec<String> = Vec::new();
    let ghost all = entries::row_views(rows@);
    let ghost added = text::texts(names@);
    let mut i: usize = 0;
    assert(all.take(0) =~= Seq::empty());
    assert(text::texts(out@).to_set() =~= Set::empty());
    while i < rows.len()
        invariant
            i <= rows@.len(),
            all == entries::row_views(rows@),
            sorting::rising(text::texts(out@)),
            text::texts(out@).to_set() == recorded_clients(all.take(i as int)),
        decreases rows@.len() - i,
    {
        assert(all.take(i + 1).drop_last() =~= all.take(i as int));
        assert(all.take(i + 1).last() == rows@[i as int]@);
        let t = text::trim_text(rows[i].client.as_str());
        if text::chars_of(t.as_str()).len() > 0 {
            sorting::insert_rising(&mut out, t.as_str());
        }
        i += 1;
    }
    assert(all.take(all.len() as int) =~= all);
    let ghost recorded = recorded_clients(all);
    let mut j: usize = 0;
    assert(added.take(0) =~= Seq::empty());
    assert(recorded + added_clients(added.take(0)) =~= recorded);
    while j < names.len()
        invariant
            j <= names@.len(),
            added == text::texts(names@),
            sorting::rising(text::texts(out@)),
            text::texts(out@).to_set() == recorded + added_clients(added.take(j as int)),
        decreases names@.len() - j,
    {
        assert(added.take(j + 1).drop_last() =~= added.take(j as int));
        assert(added.take(j + 1).last() == names@[j as int]@);
        let t = text::trim_text(names[j].as_str());
        if text::chars_of(t.as_str()).len() > 0 {
            sorting::insert_rising(&mut out, t.as_str());
            assert(recorded + added_clients(added.take(j + 1)) =~= (recorded + added_clients(
                added.take(j as int),
            )).insert(t@));
        }
        j += 1;
    }
    assert(added.take(added.len() as int) =~= added);
    out
}

/// The clients of some entries and some names, with the day of the last entry.
pub fn clients_among(rows: &Vec<LocatedRow>, names: &Vec<String>) -> (r: Vec<ClientItem>)
    ensures
        are_clients(r@, entries::row_views(rows@), text::texts(names@)),
{
    let known = known_clients(rows, names);
    let ghost known_texts = text::texts(known@);
    let sorted = autocomplete::sort_names(&known);
    let ghost want = text::texts(sorted@);
    let ghost all = entries::row_views(rows@);
    let mut out: Vec<ClientItem> = Vec::new();
    let mut i: usize = 0;
    while i < sorted.len()
        invariant
            i <= sorted@.len(),
            want == text::texts(sorted@),
            all == entries::row_views(rows@),
            out@.len() == i,
            forall|k: int|
                0 <= k < i ==> (#[trigger] out@[k]).name@ == want[k] && out@[k].hint@ == hint_of(
                    all,
                    want[k],
                ),
        decreases sorted@.len() - i,
    {
        let name = sorted[i].clone();
        let hint = match find_last_day(rows, name.as_str()) {
            Some(d) => ranges::label_of_day(&d),
            None => text::copy(""),
        };
        out.push(ClientItem { name, hint });
        i += 1;
    }
    proof {
        assert(item_names(out@) =~= want);
        assert(sorting::rising(known_texts));
    }
    out
}

/// The clients of the recorded entries of some files and of the registry.
pub fn collect_clients(files: &Vec<MonthFile>, registry: &Vec<String>) -> (r: Vec<ClientItem>)
    ensures
        are_clients(
            r@,
            sorting::sort_by(entries::kept(files@, None), entries::newer()),
            text::texts(registry@),
        ),
{
    let rows = entries::entries_in_range(files, &None);
    clients_among(&rows, registry)
}

/// Adds a client to the registry by name: refused where it is blank, left as it is
/// where the name is known in some case. Whether the registry has to be written.
pub fn create_client(registry: &mut Vec<String>, name: &str) -> (r: Result<bool, Refusal>)
    ensures
        match r {
            Err(f) => text::trim(name@).len() == 0 && edits::refuses(f, 422, "name is required"@)
                && final(registry)@ == old(registry)@,
            Ok(changed) => {
                &&& text::trim(name@).len() > 0
                &&& changed == !autocomplete::is_known(
                    text::texts(old(registry)@),
                    text::trim(name@),
                )
                &&& text::texts(final(registry)@) == autocomplete::with_name(
                    text::texts(old(registry)@),
                    name@,
                )
            },
        },
{
    let t = text::trim_text(name);
    if text::chars_of(t.as_str()).len() == 0 {
        return Err(Refusal { status: 422, message: text::copy("name is required") });
    }
    let ghost before = text::texts(registry@);
    let n: usize = registry.len();
    autocomplete::observe_one(registry, name);
    let changed = registry.len() != n;
    proof {
        assert(before.len() == n);
        assert(text::texts(registry@).len() == registry@.len());
        if !autocomplete::is_known(before, t@) {
            lemma_sorted_len(before.push(t@), autocomplete::by_lowercase());
        }
    }
    Ok(changed)
}

proof fn lemma_sorted_len<A>(s: Seq<A>, before: spec_fn(A, A) -> bool)
    ensures
        sorting::sort_by(s, before).len() == s.len(),
    decreases s.len(),
{
    if s.len() > 0 {
        lemma_sorted_len(s.drop_last(), before);
        sorting::insert_is_addition(sorting::sort_by(s.drop_last(), before), s.last(), before);
    }
}

// ---- laws -----------------------------------------------------------------

/// A client of some entry has a hint, and the day that it gives is the day of one
/// of its entries, none of which is later.
pub proof fn hints_are_last_days(rows: Seq<RowView>, name: Seq<char>)
    ensures
        match last_day(rows, name) {
            Some(d) => {
                &&& exists|i: int|
                    0 <= i < rows.len() && (#[trigger] rows[i]).date == d && text::trim(
                        rows[i].client,
                    ) == name
                &&& forall|i: int|
                    0 <= i < rows.len() && text::trim((#[trigger] rows[i]).client) == name
                        ==> rows[i].date.not_after(d)
            },
            None => forall|i: int|
                0 <= i < rows.len() ==> text::trim((#[trigger] rows[i]).client) != name,
        },
    decreases rows.len(),
{
    if rows.len() > 0 {
        let init = rows.drop_last();
        hints_are_last_days(init, name);
        assert forall|i: int| 0 <= i < init.len() implies rows[i] == #[trigger] init[i] by {}
        let last = rows.len() - 1;
        match last_day(rows, name) {
            Some(d) => {
                if text::trim(rows[last].client) == name && rows[last].date == d {
                    assert(rows[last].date == d);
                } else {
                    let k = choose|i: int|
                        0 <= i < init.len() && (#[trigger] init[i]).date == d && text::trim(
                            init[i].client,
                        ) == name;
                    assert(rows[k].date == d && text::trim(rows[k].client) == name);
                }
                assert forall|i: int|
                    0 <= i < rows.len() && text::trim(
                        (#[trigger] rows[i]).client,
                    ) == name implies rows[i].date.not_after(d) by {
                    if i < last {
                        assert(init[i] == rows[i]);
                    }
                }
            },
            None => {
                assert forall|i: int| 0 <= i < rows.len() implies text::trim(
                    (#[trigger] rows[i]).client,
                ) != name by {
                    if i < last {
                        assert(init[i] == rows[i]);
                    }
                }
            },
        }
    }
}

/// A client is recorded if some entry has it, and added if it stands in the list of
/// added names, in both without the white space around it; an empty name is no client.
pub proof fn clients_are_recorded_or_added(
    rows: Seq<RowView>,
    names: Seq<Seq<char>>,
    name: Seq<char>,
)
    ensures
        recorded_clients(rows).contains(name) == (name.len() > 0 && exists|i: int|
            0 <= i < rows.len() && text::trim((#[trigger] rows[i]).client) == name),
        added_clients(names).contains(name) == (name.len() > 0 && exists|i: int|
            0 <= i < names.len() && text::trim(#[trigger] names[i]) == name),
    decreases rows.len() + names.len(),
{
    if rows.len() > 0 {
        let init = rows.drop_last();
        clients_are_recorded_or_added(init, Seq::empty(), name);
        if recorded_clients(init).contains(name) {
            let i = choose|i: int|
                0 <= i < init.len() && text::trim((#[trigger] init[i]).client) == name;
            assert(rows[i] == init[i]);
        }
        if exists|i: int| 0 <= i < rows.len() && text::trim((#[trigger] rows[i]).client) == name {
            let i = choose|i: int|
                0 <= i < rows.len() && text::trim((#[trigger] rows[i]).client) == name;
            if i < init.len() {
                assert(init[i] == rows[i]);
            }
        }
        assert(rows[rows.len() - 1] == rows.last());
    }
    if names.len() > 0 {
        let init = names.drop_last();
        clients_are_recorded_or_added(Seq::empty(), init, name);
        if added_clients(init).contains(name) {
            let i = choose|i: int| 0 <= i < init.len() && text::trim(#[trigger] init[i]) == name;
            assert(names[i] == init[i]);
        }
        if exists|i: int| 0 <= i < names.len() && text::trim(#[trigger] names[i]) == name {
            let i = choose|i: int| 0 <= i < names.len() && text::trim(#[trigger] names[i]) == name;
            if i < init.len() {
                assert(init[i] == names[i]);
            }
        }
        assert(names[names.len() - 1] == names.last());
    }
}

/// The list of clients holds every client of an entry and every added one, no other and
/// none twice, in the order of their names in lower case; each shows the last day on
/// which an entry has it.
pub proof fn client_lists_hold_all_clients(
    items: Seq<ClientItem>,
    rows: Seq<RowView>,
    names: Seq<Seq<char>>,
    name: Seq<char>,
)
    requires
        are_clients(items, rows, names),
    ensures
        item_names(items).contains(name) == (name.len() > 0 && ((exists|i: int|
            0 <= i < rows.len() && text::trim((#[trigger] rows[i]).client) == name) || (exists|
            i: int,
        |
            0 <= i < names.len() && text::trim(#[trigger] names[i]) == name))),
        forall|i: int, j: int|
            0 <= i < j < items.len() ==> (#[trigger] items[i]).name@ != (#[trigger] items[j]).name@,
        forall|i: int, j: int|
            0 <= i < j < items.len() ==> !sorting::precedes(
                text::lowercase((#[trigger] items[j]).name@),
                text::lowercase((#[trigger] items[i]).name@),
            ),
        forall|i: int|
            0 <= i < items.len() ==> match last_day(rows, (#[trigger] items[i]).name@) {
                Some(d) => items[i].hint@ == ranges::day_label(d),
                None => items[i].hint@.len() == 0,
            },
{
    broadcast use vstd::seq_lib::group_to_multiset_ensures;

    reveal_strlit("");
    clients_are_recorded_or_added(rows, names, name);
    autocomplete::lemma_lowercase_is_order();
    let known = choose|known: Seq<Seq<char>>|
        {
            &&& #[trigger] sorting::rising(known)
            &&& known.to_set() == recorded_clients(rows) + added_clients(names)
            &&& item_names(items) == sorting::sort_by(known, autocomplete::by_lowercase())
        };
    let sorted = item_names(items);
    sorting::sort_sorts(known, autocomplete::by_lowercase());
    assert(known.to_multiset() == sorted.to_multiset());
    assert(known.to_set().contains(name) == known.contains(name));
    assert(known.contains(name) <==> known.to_multiset().count(name) > 0);
    assert(sorted.contains(name) <==> sorted.to_multiset().count(name) > 0);
    assert(known.no_duplicates()) by {
        assert forall|i: int, j: int|
            0 <= i < known.len() && 0 <= j < known.len() && i != j implies known[i] != known[j] by {
            if i < j {
                assert(sorting::precedes(known[i], known[j]));
            } else {
                assert(sorting::precedes(known[j], known[i]));
            }
            sorting::texts_are_ordered(known[i], known[j]);
        }
    }
    known.lemma_multiset_has_no_duplicates();
    sorted.lemma_multiset_has_no_duplicates_conv();
    assert forall|i: int, j: int| 0 <= i < j < items.len() implies (#[trigger] items[i]).name@ != (
    #[trigger] items[j]).name@ by {
        assert(sorted[i] != sorted[j]);
    }
    assert forall|i: int, j: int| 0 <= i < j < items.len() implies !sorting::precedes(
        text::lowercase((#[trigger] items[j]).name@),
        text::lowercase((#[trigger] items[i]).name@),
    ) by {
        assert(!autocomplete::by_lowercase()(sorted[j], sorted[i]));
    }
}

} // verus!
