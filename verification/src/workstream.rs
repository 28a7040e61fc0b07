//! The registry of workstreams: the pairs of client and engagement worked for.

use std::hash::BuildHasher;

use crate::csv_file;
use crate::datefmt;
use crate::dates;
use crate::dates::Stamp;
use crate::entries;
use crate::edits;
use crate::edits::Refusal;
use crate::sorting;
use crate::text;
use vstd::prelude::*;

verus! {

/// The version of the registry's file.
pub const REGISTRY_VERSION: u32 = 1;

/// A pair of client and engagement.
#[derive(Debug, Clone)]
pub struct Workstream {
    pub id: String,
    pub client: String,
    pub engagement: String,
    pub billable_default: bool,
    pub pinned: bool,
    pub created_at: Stamp,
    pub last_used_at: Stamp,
}

#[verifier::ext_equal]
pub struct WorkstreamView {
    pub id: Seq<char>,
    pub client: Seq<char>,
    pub engagement: Seq<char>,
    pub billable_default: bool,
    pub pinned: bool,
    pub created_at: Stamp,
    pub last_used_at: Stamp,
}

impl View for Workstream {
    type V = WorkstreamView;

    open spec fn view(&self) -> WorkstreamView {
        WorkstreamView {
            id: self.id@,
            client: self.client@,
            engagement: self.engagement@,
            billable_default: self.billable_default,
            pinned: self.pinned,
            created_at: self.created_at,
            last_used_at: self.last_used_at,
        }
    }
}

pub open spec fn views(ws: Seq<Workstream>) -> Seq<WorkstreamView> {
    Seq::new(ws.len(), |i: int| ws[i]@)
}

// ---- ids ------------------------------------------------------------------

/// The hash that std's default hasher gives a text, a byte and a text.
pub uninterp spec fn stable_hash(a: Seq<char>, sep: u8, b: Seq<char>) -> u64;

/// `BuildHasher::hash_one` of the default hasher without random keys, on a text, a
/// byte and a text. The algorithm is only named: the hash depends on the three alone.
#[verifier::external_body]
fn hash_parts(a: &str, sep: u8, b: &str) -> (r: u64)
    ensures
        r == stable_hash(a@, sep, b@),
{
    std::hash::BuildHasherDefault::<std::collections::hash_map::DefaultHasher>::default().hash_one(
        (a, sep, b),
    )
}

pub open spec fn hex_char(n: nat) -> char {
    if n % 16 < 10 {
        ((n % 16) + 48) as char
    } else {
        ((n % 16) + 87) as char
    }
}

/// The lowest `width` hexadecimal digits of a number.
pub open spec fn low_hex(n: nat, width: nat) -> Seq<char>
    decreases width,
{
    if width == 0 {
        Seq::empty()
    } else {
        low_hex(n / 16, (width - 1) as nat).push(hex_char(n))
    }
}

fn push_hex(out: &mut String, n: u64, width: usize)
    ensures
        final(out)@ == old(out)@ + low_hex(n as nat, width as nat),
    decreases width,
{
    if width > 0 {
        push_hex(out, n / 16, width - 1);
        let d: u8 = (n % 16) as u8;
        if d < 10 {
            out.push((d + 48) as char);
        } else {
            out.push((d + 87) as char);
        }
    }
}

/// The id that a hash gives: `ws-` and sixteen hexadecimal digits.
pub open spec fn id_text(h: u64) -> Seq<char> {
    "ws-"@ + low_hex(h as nat, 16)
}

/// The id that a hash gives.
pub fn id_of_hash(h: u64) -> (r: String)
    ensures
        r@ == id_text(h),
{
    let mut out = text::copy("ws-");
    push_hex(&mut out, h, 16);
    out
}

/// The id of a pair: it depends on the trimmed names alone. A byte between them
/// keeps pairs apart that read the same one after the other.
pub open spec fn pair_id(client: Seq<char>, engagement: Seq<char>) -> Seq<char> {
    id_text(stable_hash(text::trim(client), 0, text::trim(engagement)))
}

/// Deterministic id for a pair of client and engagement.
pub fn derive_id(client: &str, engagement: &str) -> (r: String)
    ensures
        r@ == pair_id(client@, engagement@),
{
    let c = text::trim_text(client);
    let e = text::trim_text(engagement);
    id_of_hash(hash_parts(c.as_str(), 0, e.as_str()))
}

// ---- the registry ---------------------------------------------------------

/// All workstreams.
#[derive(Debug)]
pub struct WorkstreamRegistry {
    pub version: u32,
    pub workstreams: Vec<Workstream>,
}

/// The first workstream with this id.
pub open spec fn find_id(ws: Seq<WorkstreamView>, id: Seq<char>) -> Option<int>
    decreases ws.len(),
{
    if ws.len() == 0 {
        None
    } else {
        match find_id(ws.drop_last(), id) {
            Some(i) => Some(i),
            None => if ws.last().id == id {
                Some(ws.len() - 1)
            } else {
                None
            },
        }
    }
}

/// A workstream made at some instant.
pub open spec fn new_workstream(
    client: Seq<char>,
    engagement: Seq<char>,
    billable: bool,
    when: Stamp,
) -> WorkstreamView {
    WorkstreamView {
        id: pair_id(client, engagement),
        client: text::trim(client),
        engagement: text::trim(engagement),
        billable_default: billable,
        pinned: false,
        created_at: when,
        last_used_at: when,
    }
}

/// The registry after work for a pair: the workstream is used now, or is new.
pub open spec fn touched(
    ws: Seq<WorkstreamView>,
    client: Seq<char>,
    engagement: Seq<char>,
    billable: bool,
    now: Stamp,
) -> Seq<WorkstreamView> {
    match find_id(ws, pair_id(client, engagement)) {
        Some(i) => ws.update(i, WorkstreamView { last_used_at: now, ..ws[i] }),
        None => ws.push(new_workstream(client, engagement, billable, now)),
    }
}

/// Pinned ones first, then those used later.
pub open spec fn shown_before() -> spec_fn(WorkstreamView, WorkstreamView) -> bool {
    |a: WorkstreamView, b: WorkstreamView|
        (a.pinned && !b.pinned) || (a.pinned == b.pinned && !a.last_used_at.not_after(
            b.last_used_at,
        ))
}

impl Workstream {
    fn new(client: &str, engagement: &str, billable_default: bool, when: Stamp) -> (r: Workstream)
        ensures
            r@ == new_workstream(client@, engagement@, billable_default, when),
    {
        Workstream {
            id: derive_id(client, engagement),
            client: text::trim_text(client),
            engagement: text::trim_text(engagement),
            billable_default,
            pinned: false,
            created_at: when,
            last_used_at: when,
        }
    }

    /// A copy of the workstream.
    pub fn duplicate(&self) -> (r: Workstream)
        ensures
            r@ == self@,
    {
        Workstream {
            id: self.id.clone(),
            client: self.client.clone(),
            engagement: self.engagement.clone(),
            billable_default: self.billable_default,
            pinned: self.pinned,
            created_at: self.created_at,
            last_used_at: self.last_used_at,
        }
    }
}

impl WorkstreamRegistry {
    /// A registry as it is loaded; a file without a version gets the present one.
    pub fn loaded(version: u32, workstreams: Vec<Workstream>) -> (r: WorkstreamRegistry)
        ensures
            r.workstreams@ == workstreams@,
            r.version == if version == 0 {
                REGISTRY_VERSION
            } else {
                version
            },
    {
        WorkstreamRegistry {
            version: if version == 0 {
                REGISTRY_VERSION
            } else {
                version
            },
            workstreams,
        }
    }

    /// The place of the workstream with this id.
    pub fn position(&self, id: &str) -> (r: Option<usize>)
        ensures
            match r {
                Some(i) => find_id(views(self.workstreams@), id@) == Some(i as int) && i
                    < self.workstreams@.len() && self.workstreams@[i as int].id@ == id@,
                None => find_id(views(self.workstreams@), id@) is None,
            },
    {
        let ghost ws = views(self.workstreams@);
        let mut i: usize = 0;
        while i < self.workstreams.len()
            invariant
                i <= self.workstreams@.len(),
                ws == views(self.workstreams@),
                find_id(ws.take(i as int), id@) is None,
            decreases self.workstreams@.len() - i,
        {
            assert(ws.take(i + 1).drop_last() =~= ws.take(i as int));
            assert(ws.take(i + 1).last() == self.workstreams@[i as int]@);
            if text::same_text(self.workstreams[i].id.as_str(), id) {
                proof {
                    lemma_find_prefix(ws, i + 1, id@);
                }
                return Some(i);
            }
            i += 1;
        }
        assert(ws.take(ws.len() as int) =~= ws);
        None
    }

    /// The workstream of a pair.
    pub fn find(&self, client: &str, engagement: &str) -> (r: Option<&Workstream>)
        ensures
            match r {
                Some(w) => find_id(
                    views(self.workstreams@),
                    pair_id(client@, engagement@),
                ) matches Some(i) && 0 <= i < self.workstreams@.len() && *w
                    == self.workstreams@[i],
                None => find_id(views(self.workstreams@), pair_id(client@, engagement@)) is None,
            },
    {
        let id = derive_id(client, engagement);
        match self.position(id.as_str()) {
            Some(i) => Some(&self.workstreams[i]),
            None => None,
        }
    }

    /// Work is done for a pair: its workstream is used now, or made. Its id, and
    /// whether it is new.
    pub fn touch_or_create(
        &mut self,
        client: &str,
        engagement: &str,
        billable_default: bool,
        now: Stamp,
    ) -> (r: (String, bool))
        ensures
            r.0@ == pair_id(client@, engagement@),
            r.1 == (find_id(views(old(self).workstreams@), pair_id(client@, engagement@)) is None),
            views(final(self).workstreams@) == touched(
                views(old(self).workstreams@),
                client@,
                engagement@,
                billable_default,
                now,
            ),
            final(self).version == old(self).version,
    {
        let ghost before = views(self.workstreams@);
        let id = derive_id(client, engagement);
        match self.position(id.as_str()) {
            Some(i) => {
                self.workstreams[i].last_used_at = now;
                assert(views(self.workstreams@) =~= before.update(
                    i as int,
                    WorkstreamView { last_used_at: now, ..before[i as int] },
                ));
                (id, false)
            },
            None => {
                let w = Workstream::new(client, engagement, billable_default, now);
                let ghost v = w@;
                self.workstreams.push(w);
                assert(views(self.workstreams@) =~= before.push(v));
                (id, true)
            },
        }
    }

    /// Adds a workstream, or uses the one there is. A copy of it, and whether it
    /// is new.
    pub fn add(&mut self, client: &str, engagement: &str, billable_default: bool, now: Stamp) -> (r:
        (Workstream, bool))
        ensures
            r.1 == (find_id(views(old(self).workstreams@), pair_id(client@, engagement@)) is None),
            views(final(self).workstreams@) == touched(
                views(old(self).workstreams@),
                client@,
                engagement@,
                billable_default,
                now,
            ),
            r.0@ == match find_id(views(old(self).workstreams@), pair_id(client@, engagement@)) {
                Some(i) => views(final(self).workstreams@)[i],
                None => new_workstream(client@, engagement@, billable_default, now),
            },
            final(self).version == old(self).version,
    {
        let ghost before = views(self.workstreams@);
        let (id, created) = self.touch_or_create(client, engagement, billable_default, now);
        proof {
            lemma_touched_is_found(before, client@, engagement@, billable_default, now);
            lemma_find_bounds(before, id@);
        }
        match self.position(id.as_str()) {
            Some(i) => {
                assert(views(self.workstreams@)[i as int] == self.workstreams@[i as int]@);
                (self.workstreams[i].duplicate(), created)
            },
            None => {
                assert(false);
                (Workstream::new(client, engagement, billable_default, now), created)
            },
        }
    }

    /// Pins or unpins a workstream; whether there is one with this id.
    pub fn set_pinned(&mut self, id: &str, pinned: bool) -> (r: bool)
        ensures
            r == (find_id(views(old(self).workstreams@), id@) is Some),
            views(final(self).workstreams@) == match find_id(views(old(self).workstreams@), id@) {
                Some(i) => views(old(self).workstreams@).update(
                    i,
                    WorkstreamView { pinned, ..views(old(self).workstreams@)[i] },
                ),
                None => views(old(self).workstreams@),
            },
            final(self).version == old(self).version,
    {
        let ghost before = views(self.workstreams@);
        match self.position(id) {
            Some(i) => {
                self.workstreams[i].pinned = pinned;
                assert(views(self.workstreams@) =~= before.update(
                    i as int,
                    WorkstreamView { pinned, ..before[i as int] },
                ));
                true
            },
            None => false,
        }
    }

    /// The workstreams as they are shown: pinned first, then by their last use.
    pub fn ordered(&self) -> (r: Vec<Workstream>)
        ensures
            views(r@) == sorting::sort_by(views(self.workstreams@), shown_before()),
    {
        let ghost ws = views(self.workstreams@);
        let mut out: Vec<Workstream> = Vec::new();
        let mut i: usize = 0;
        assert(ws.take(0) =~= Seq::empty());
        assert(views(out@) =~= Seq::<WorkstreamView>::empty());
        while i < self.workstreams.len()
            invariant
                i <= self.workstreams@.len(),
                ws == views(self.workstreams@),
                views(out@) == sorting::sort_by(ws.take(i as int), shown_before()),
            decreases self.workstreams@.len() - i,
        {
            let w = self.workstreams[i].duplicate();
            assert(ws.take(i + 1).drop_last() =~= ws.take(i as int));
            assert(ws.take(i + 1).last() == w@);
            insert_shown(&mut out, w);
            i += 1;
        }
        assert(ws.take(ws.len() as int) =~= ws);
        out
    }
}

/// Adds a workstream for a page; refused where a part of the pair is blank.
pub fn add_workstream(
    registry: &mut WorkstreamRegistry,
    client: &str,
    engagement: &str,
    billable: bool,
    now: Stamp,
) -> (r: Result<(Workstream, bool), Refusal>)
    ensures
        ({
            let c = text::trim(client@);
            let e = text::trim(engagement@);
            let before = views(old(registry).workstreams@);
            match r {
                Err(f) => (c.len() == 0 || e.len() == 0) && edits::refuses(
                    f,
                    400,
                    "client and engagement are required"@,
                ) && *final(registry) == *old(registry),
                Ok((w, created)) => {
                    &&& c.len() > 0 && e.len() > 0
                    &&& views(final(registry).workstreams@) == touched(before, c, e, billable, now)
                    &&& final(registry).version == old(registry).version
                    &&& created == (find_id(before, pair_id(c, e)) is None)
                    &&& w@ == match find_id(before, pair_id(c, e)) {
                        Some(i) => views(final(registry).workstreams@)[i],
                        None => new_workstream(c, e, billable, now),
                    }
                },
            }
        }),
{
    let c = text::trim_text(client);
    let e = text::trim_text(engagement);
    if text::chars_of(c.as_str()).len() == 0 || text::chars_of(e.as_str()).len() == 0 {
        return Err(
            Refusal { status: 400, message: text::copy("client and engagement are required") },
        );
    }
    Ok(registry.add(c.as_str(), e.as_str(), billable, now))
}

/// The workstream that a page names by its id.
pub fn resolve_workstream(registry: &WorkstreamRegistry, id: &str) -> (r: Result<
    Workstream,
    Refusal,
>)
    ensures
        match r {
            Ok(w) => find_id(views(registry.workstreams@), id@) matches Some(i) && w@ == views(
                registry.workstreams@,
            )[i],
            Err(f) => find_id(views(registry.workstreams@), id@) is None && edits::refuses(
                f,
                404,
                "unknown workstream"@,
            ),
        },
{
    match registry.position(id) {
        Some(i) => {
            assert(views(registry.workstreams@)[i as int] == registry.workstreams@[i as int]@);
            Ok(registry.workstreams[i].duplicate())
        },
        None => Err(Refusal { status: 404, message: text::copy("unknown workstream") }),
    }
}

fn insert_shown(out: &mut Vec<Workstream>, w: Workstream)
    ensures
        views(final(out)@) == sorting::insert_by(views(old(out)@), w@, shown_before()),
{
    let ghost outs = views(out@);
    let ghost x = w@;
    let mut at: usize = out.len();
    while at > 0 && ((w.pinned && !out[at - 1].pinned) || (w.pinned == out[at - 1].pinned
        && !w.last_used_at.le(&out[at - 1].last_used_at)))
        invariant
            at <= out@.len(),
            outs == views(out@),
            x == w@,
            forall|k: int| at <= k < out@.len() ==> shown_before()(x, #[trigger] outs[k]),
        decreases at,
    {
        assert(outs[at - 1] == out@[at - 1]@);
        at -= 1;
    }
    proof {
        if at > 0 {
            assert(outs[at - 1] == out@[at - 1]@);
        }
        sorting::insert_at(outs, x, shown_before(), at as int);
    }
    out.insert(at, w);
    assert(views(out@) =~= outs.insert(at as int, x));
}

proof fn lemma_find_prefix(ws: Seq<WorkstreamView>, n: int, id: Seq<char>)
    requires
        0 <= n <= ws.len(),
        find_id(ws.take(n), id) is Some,
    ensures
        find_id(ws, id) == find_id(ws.take(n), id),
    decreases ws.len(),
{
    if n < ws.len() {
        assert(ws.drop_last().take(n) =~= ws.take(n));
        lemma_find_prefix(ws.drop_last(), n, id);
    } else {
        assert(ws.take(n) =~= ws);
    }
}

proof fn lemma_find_bounds(ws: Seq<WorkstreamView>, id: Seq<char>)
    ensures
        find_id(ws, id) matches Some(i) ==> 0 <= i < ws.len() && ws[i].id == id,
    decreases ws.len(),
{
    if ws.len() > 0 {
        lemma_find_bounds(ws.drop_last(), id);
    }
}

proof fn lemma_find_same_ids(a: Seq<WorkstreamView>, b: Seq<WorkstreamView>, id: Seq<char>)
    requires
        a.len() == b.len(),
        forall|i: int| 0 <= i < a.len() ==> (#[trigger] a[i]).id == b[i].id,
    ensures
        find_id(a, id) == find_id(b, id),
    decreases a.len(),
{
    if a.len() > 0 {
        assert forall|i: int| 0 <= i < a.drop_last().len() implies (#[trigger] a.drop_last()[i]).id
            == b.drop_last()[i].id by {
            assert(a[i].id == b[i].id);
        }
        lemma_find_same_ids(a.drop_last(), b.drop_last(), id);
        assert(a[a.len() - 1].id == b[b.len() - 1].id);
    }
}

proof fn lemma_touched_is_found(
    ws: Seq<WorkstreamView>,
    client: Seq<char>,
    engagement: Seq<char>,
    billable: bool,
    now: Stamp,
)
    ensures
        ({
            let id = pair_id(client, engagement);
            let after = touched(ws, client, engagement, billable, now);
            find_id(after, id) == match find_id(ws, id) {
                Some(i) => Some(i),
                None => Some(ws.len() as int),
            }
        }),
{
    let id = pair_id(client, engagement);
    let after = touched(ws, client, engagement, billable, now);
    lemma_find_bounds(ws, id);
    match find_id(ws, id) {
        Some(i) => {
            lemma_find_same_ids(ws, after, id);
        },
        None => {
            assert(after.drop_last() =~= ws);
        },
    }
}

// ---- from the log ---------------------------------------------------------

/// Work recorded for a pair.
#[verifier::ext_equal]
pub struct Observed {
    pub client: Seq<char>,
    pub engagement: Seq<char>,
    pub when: Stamp,
    pub billable: bool,
}

/// What a row of the log says of a workstream. A row without a date counts as now.
pub open spec fn observed(f: Seq<Seq<char>>, now: Stamp) -> Option<Observed> {
    if f.len() < 9 || text::trim(f[2]).len() == 0 {
        None
    } else {
        Some(
            Observed {
                client: text::trim(f[2]),
                engagement: text::trim(f[3]),
                when: match datefmt::entry_date(f[0]) {
                    Some(d) => dates::day_start(entries::date_from(d)),
                    None => now,
                },
                billable: entries::field_billable(f[7]),
            },
        )
    }
}

/// What some rows say.
pub open spec fn observations(rows: Seq<Seq<Seq<char>>>, now: Stamp) -> Seq<Observed>
    decreases rows.len(),
{
    if rows.len() == 0 {
        Seq::empty()
    } else {
        match observed(rows.last(), now) {
            Some(o) => observations(rows.drop_last(), now).push(o),
            None => observations(rows.drop_last(), now),
        }
    }
}

/// The rows of some files, one file after the other.
pub open spec fn rows_of_files(contents: Seq<Seq<char>>) -> Seq<Seq<Seq<char>>>
    decreases contents.len(),
{
    if contents.len() == 0 {
        Seq::empty()
    } else {
        rows_of_files(contents.drop_last()) + csv_file::data_rows(contents.last())
    }
}

/// The newest work for a pair; of two at one instant, the later row.
pub open spec fn newest_for(obs: Seq<Observed>, client: Seq<char>, engagement: Seq<char>) -> Option<
    Observed,
>
    decreases obs.len(),
{
    if obs.len() == 0 {
        None
    } else {
        let init = newest_for(obs.drop_last(), client, engagement);
        let o = obs.last();
        if o.client == client && o.engagement == engagement {
            match init {
                Some(p) => if p.when.not_after(o.when) {
                    Some(o)
                } else {
                    Some(p)
                },
                None => Some(o),
            }
        } else {
            init
        }
    }
}

/// The workstream that the newest work for its pair makes.
pub open spec fn of_observed(o: Observed) -> WorkstreamView {
    WorkstreamView {
        id: pair_id(o.client, o.engagement),
        client: o.client,
        engagement: o.engagement,
        billable_default: o.billable,
        pinned: false,
        created_at: o.when,
        last_used_at: o.when,
    }
}

pub open spec fn pair_precedes(a: WorkstreamView, b: WorkstreamView) -> bool {
    sorting::precedes(a.client, b.client) || (a.client == b.client && sorting::precedes(
        a.engagement,
        b.engagement,
    ))
}

/// One workstream for every pair that work was recorded for, in the order of pairs.
pub open spec fn is_collected(obs: Seq<Observed>, ws: Seq<WorkstreamView>) -> bool {
    &&& forall|i: int, j: int|
        0 <= i < j < ws.len() ==> pair_precedes(#[trigger] ws[i], #[trigger] ws[j])
    &&& forall|i: int|
        0 <= i < ws.len() ==> (newest_for(
            obs,
            (#[trigger] ws[i]).client,
            ws[i].engagement,
        ) matches Some(o) && ws[i] == of_observed(o))
    &&& forall|k: int|
        0 <= k < obs.len() ==> exists|i: int|
            0 <= i < ws.len() && (#[trigger] obs[k]).client == (#[trigger] ws[i]).client
                && obs[k].engagement == ws[i].engagement
}

/// Those used later first.
pub open spec fn used_later() -> spec_fn(WorkstreamView, WorkstreamView) -> bool {
    |a: WorkstreamView, b: WorkstreamView| !a.last_used_at.not_after(b.last_used_at)
}

proof fn lemma_pairs(a: WorkstreamView, b: WorkstreamView, c: WorkstreamView)
    ensures
        !(pair_precedes(a, b) && pair_precedes(b, a)),
        !pair_precedes(a, b) && !pair_precedes(b, a) ==> a.client == b.client && a.engagement
            == b.engagement,
        pair_precedes(a, b) ==> !(a.client == b.client && a.engagement == b.engagement),
        pair_precedes(a, b) && pair_precedes(b, c) ==> pair_precedes(a, c),
{
    sorting::texts_are_ordered(a.client, b.client);
    sorting::texts_are_ordered(a.engagement, b.engagement);
    if sorting::precedes(a.client, b.client) && sorting::precedes(b.client, c.client) {
        sorting::text_order_is_transitive(a.client, b.client, c.client);
    }
    if sorting::precedes(a.engagement, b.engagement) && sorting::precedes(
        b.engagement,
        c.engagement,
    ) {
        sorting::text_order_is_transitive(a.engagement, b.engagement, c.engagement);
    }
}

proof fn lemma_newest_key(obs: Seq<Observed>, client: Seq<char>, engagement: Seq<char>)
    ensures
        newest_for(obs, client, engagement) matches Some(o) ==> o.client == client && o.engagement
            == engagement,
        newest_for(obs, client, engagement) is Some ==> exists|k: int|
            0 <= k < obs.len() && (#[trigger] obs[k]).client == client && obs[k].engagement
                == engagement,
    decreases obs.len(),
{
    if obs.len() > 0 {
        let init = obs.drop_last();
        lemma_newest_key(init, client, engagement);
        if obs.last().client == client && obs.last().engagement == engagement {
            assert(obs[obs.len() - 1].client == client);
        } else if newest_for(init, client, engagement) is Some {
            let k = choose|k: int|
                0 <= k < init.len() && (#[trigger] init[k]).client == client && init[k].engagement
                    == engagement;
            assert(obs[k].client == client);
        }
    }
}

fn pair_before(c1: &str, e1: &str, c2: &str, e2: &str) -> (r: bool)
    ensures
        r == (sorting::precedes(c1@, c2@) || (c1@ == c2@ && sorting::precedes(e1@, e2@))),
{
    sorting::text_precedes(c1, c2) || (text::same_text(c1, c2) && sorting::text_precedes(e1, e2))
}

/// Adds one piece of recorded work.
fn collect(
    ws: &mut Vec<Workstream>,
    client: String,
    engagement: String,
    when: Stamp,
    billable: bool,
    Ghost(obs): Ghost<Seq<Observed>>,
)
    requires
        is_collected(obs, views(old(ws)@)),
        text::trim(client@) == client@,
        text::trim(engagement@) == engagement@,
    ensures
        is_collected(
            obs.push(Observed { client: client@, engagement: engagement@, when, billable }),
            views(final(ws)@),
        ),
{
    let ghost o = Observed { client: client@, engagement: engagement@, when, billable };
    let ghost now = obs.push(o);
    let ghost before = views(ws@);
    let ghost probe = of_observed(o);
    proof {
        assert(now.drop_last() =~= obs);
        assert(now.last() == o);
    }
    let mut at: usize = 0;
    while at < ws.len() && pair_before(
        ws[at].client.as_str(),
        ws[at].engagement.as_str(),
        client.as_str(),
        engagement.as_str(),
    )
        invariant
            at <= ws@.len(),
            before == views(ws@),
            probe.client == client@ && probe.engagement == engagement@,
            forall|k: int| 0 <= k < at ==> pair_precedes(#[trigger] before[k], probe),
        decreases ws@.len() - at,
    {
        assert(before[at as int] == ws@[at as int]@);
        at += 1;
    }
    let there = at < ws.len() && text::same_text(ws[at].client.as_str(), client.as_str())
        && text::same_text(ws[at].engagement.as_str(), engagement.as_str());
    if there {
        proof {
            assert(before[at as int] == ws@[at as int]@);
            lemma_newest_key(obs, client@, engagement@);
        }
        if ws[at].last_used_at.le(&when) {
            ws[at].last_used_at = when;
            ws[at].created_at = when;
            ws[at].billable_default = billable;
        }
        let ghost after = views(ws@);
        proof {
            lemma_newest_key(now, client@, engagement@);
            assert(after =~= before.update(at as int, after[at as int]));
            assert(after[at as int] =~= of_observed(newest_for(now, client@, engagement@)->0));
            assert forall|i: int, j: int| 0 <= i < j < after.len() implies pair_precedes(
                #[trigger] after[i],
                #[trigger] after[j],
            ) by {
                assert(pair_precedes(before[i], before[j]));
            }
            assert forall|i: int| 0 <= i < after.len() implies (newest_for(
                now,
                (#[trigger] after[i]).client,
                after[i].engagement,
            ) matches Some(p) && after[i] == of_observed(p)) by {
                if i != at {
                    assert(after[i] == before[i]);
                    if i < at {
                        lemma_pairs(before[i], before[at as int], probe);
                        assert(pair_precedes(before[i], before[at as int]));
                    } else {
                        lemma_pairs(before[at as int], before[i], probe);
                        assert(pair_precedes(before[at as int], before[i]));
                    }
                }
            }
            assert forall|k: int| 0 <= k < now.len() implies exists|i: int|
                0 <= i < after.len() && (#[trigger] now[k]).client == (#[trigger] after[i]).client
                    && now[k].engagement == after[i].engagement by {
                if k < obs.len() {
                    assert(now[k] == obs[k]);
                    let i = choose|i: int|
                        0 <= i < before.len() && obs[k].client == (#[trigger] before[i]).client
                            && obs[k].engagement == before[i].engagement;
                    assert(now[k].client == after[i].client);
                } else {
                    assert(now[k].client == after[at as int].client);
                }
            }
        }
    } else {
        proof {
            assert forall|i: int| 0 <= i < before.len() implies !((#[trigger] before[i]).client
                == probe.client && before[i].engagement == probe.engagement) && (i >= at
                ==> pair_precedes(probe, before[i])) by {
                lemma_pairs(before[i], probe, probe);
                if i >= at {
                    lemma_pairs(probe, before[at as int], before[i]);
                    lemma_pairs(before[at as int], probe, probe);
                    lemma_pairs(probe, before[i], probe);
                    if i > at {
                        assert(pair_precedes(before[at as int], before[i]));
                    }
                    assert(before[at as int] == ws@[at as int]@);
                }
            }
            assert(newest_for(obs, client@, engagement@) is None) by {
                lemma_newest_key(obs, client@, engagement@);
                if newest_for(obs, client@, engagement@) is Some {
                    let k = choose|k: int|
                        0 <= k < obs.len() && (#[trigger] obs[k]).client == client@
                            && obs[k].engagement == engagement@;
                    let i = choose|i: int|
                        0 <= i < before.len() && obs[k].client == (#[trigger] before[i]).client
                            && obs[k].engagement == before[i].engagement;
                    assert(!(before[i].client == probe.client && before[i].engagement
                        == probe.engagement));
                }
            }
        }
        let w = Workstream {
            id: derive_id(client.as_str(), engagement.as_str()),
            client,
            engagement,
            billable_default: billable,
            pinned: false,
            created_at: when,
            last_used_at: when,
        };
        assert(w@ =~= probe);
        ws.insert(at, w);
        let ghost after = views(ws@);
        proof {
            assert(after =~= before.insert(at as int, probe));
            assert forall|i: int, j: int| 0 <= i < j < after.len() implies pair_precedes(
                #[trigger] after[i],
                #[trigger] after[j],
            ) by {
                if i < at {
                    assert(after[i] == before[i]);
                    if j > at {
                        assert(after[j] == before[j - 1]);
                    }
                } else if i == at {
                    assert(after[j] == before[j - 1]);
                } else {
                    assert(after[i] == before[i - 1] && after[j] == before[j - 1]);
                }
            }
            assert forall|i: int| 0 <= i < after.len() implies (newest_for(
                now,
                (#[trigger] after[i]).client,
                after[i].engagement,
            ) matches Some(p) && after[i] == of_observed(p)) by {
                if i != at {
                    let b = if i < at { i } else { i - 1 };
                    assert(after[i] == before[b]);
                    assert(!(before[b].client == probe.client && before[b].engagement
                        == probe.engagement));
                }
            }
            assert forall|k: int| 0 <= k < now.len() implies exists|i: int|
                0 <= i < after.len() && (#[trigger] now[k]).client == (#[trigger] after[i]).client
                    && now[k].engagement == after[i].engagement by {
                if k < obs.len() {
                    assert(now[k] == obs[k]);
                    let b = choose|b: int|
                        0 <= b < before.len() && obs[k].client == (#[trigger] before[b]).client
                            && obs[k].engagement == before[b].engagement;
                    let i = if b < at { b } else { b + 1 };
                    assert(after[i] == before[b]);
                    assert(now[k].client == after[i].client);
                } else {
                    assert(now[k].client == after[at as int].client);
                }
            }
        }
    }
}

fn collect_row(ws: &mut Vec<Workstream>, f: &Vec<String>, now: Stamp, Ghost(obs): Ghost<Seq<Observed>>)
    requires
        is_collected(obs, views(old(ws)@)),
    ensures
        match observed(text::texts(f@), now) {
            Some(o) => is_collected(obs.push(o), views(final(ws)@)),
            None => is_collected(obs, views(final(ws)@)),
        },
{
    let ghost fs = text::texts(f@);
    if f.len() < 9 {
        return;
    }
    assert(fs[0] == f@[0]@ && fs[2] == f@[2]@ && fs[3] == f@[3]@ && fs[7] == f@[7]@);
    let client = text::trim_text(f[2].as_str());
    let engagement = text::trim_text(f[3].as_str());
    if text::chars_of(client.as_str()).len() == 0 {
        return;
    }
    let when = match datefmt::parse_entry_date(f[0].as_str()) {
        Some(d) => {
            assert(entries::date_from(datefmt::entry_date(fs[0])->0) == d);
            dates::midnight_utc(d)
        },
        None => now,
    };
    let billable = text::eq_ignore_case(f[7].as_str(), "true");
    proof {
        text::trim_is_idempotent(fs[2]);
        text::trim_is_idempotent(fs[3]);
        assert(observed(fs, now) == Some(
            Observed { client: client@, engagement: engagement@, when, billable },
        ));
    }
    collect(ws, client, engagement, when, billable, Ghost(obs));
}

/// A registry made from the contents of the monthly files: a workstream for every
/// pair, used when its newest entry was, the most recent first.
pub fn synthesize(contents: &Vec<String>, now: Stamp) -> (r: WorkstreamRegistry)
    ensures
        r.version == REGISTRY_VERSION,
        exists|ws: Seq<WorkstreamView>| #[trigger]
            is_collected(observations(rows_of_files(text::texts(contents@)), now), ws) && views(
                r.workstreams@,
            ) == sorting::sort_by(ws, used_later()),
{
    let ghost files = text::texts(contents@);
    let mut ws: Vec<Workstream> = Vec::new();
    let ghost mut rows: Seq<Seq<Seq<char>>> = Seq::empty();
    let mut i: usize = 0;
    proof {
        assert(files.take(0) =~= Seq::empty());
        assert(views(ws@) =~= Seq::<WorkstreamView>::empty());
    }
    while i < contents.len()
        invariant
            i <= contents@.len(),
            files == text::texts(contents@),
            rows == rows_of_files(files.take(i as int)),
            is_collected(observations(rows, now), views(ws@)),
        decreases contents@.len() - i,
    {
        let more = csv_file::csv_data_rows(contents[i].as_str());
        let ghost these = csv_file::rows_view(more@);
        let ghost base = rows;
        proof {
            assert(files.take(i + 1).drop_last() =~= files.take(i as int));
            assert(files.take(i + 1).last() == contents@[i as int]@);
            assert(base + these.take(0) =~= base);
        }
        let mut j: usize = 0;
        while j < more.len()
            invariant
                j <= more@.len(),
                these == csv_file::rows_view(more@),
                rows == base + these.take(j as int),
                is_collected(observations(rows, now), views(ws@)),
            decreases more@.len() - j,
        {
            let ghost obs = observations(rows, now);
            collect_row(&mut ws, &more[j], now, Ghost(obs));
            proof {
                let next = rows.push(these[j as int]);
                assert(next.drop_last() =~= rows);
                assert(next =~= base + these.take(j + 1));
                rows = next;
            }
            j += 1;
        }
        assert(these.take(these.len() as int) =~= these);
        i += 1;
    }
    assert(files.take(files.len() as int) =~= files);
    let ghost collected = views(ws@);
    let sorted = sort_by_use(&ws);
    assert(is_collected(observations(rows_of_files(files), now), collected));
    WorkstreamRegistry { version: REGISTRY_VERSION, workstreams: sorted }
}

fn sort_by_use(ws: &Vec<Workstream>) -> (r: Vec<Workstream>)
    ensures
        views(r@) == sorting::sort_by(views(ws@), used_later()),
{
    let ghost all = views(ws@);
    let mut out: Vec<Workstream> = Vec::new();
    let mut i: usize = 0;
    assert(all.take(0) =~= Seq::empty());
    assert(views(out@) =~= Seq::<WorkstreamView>::empty());
    while i < ws.len()
        invariant
            i <= ws@.len(),
            all == views(ws@),
            views(out@) == sorting::sort_by(all.take(i as int), used_later()),
        decreases ws@.len() - i,
    {
        let w = ws[i].duplicate();
        let ghost outs = views(out@);
        let ghost x = w@;
        let mut at: usize = out.len();
        while at > 0 && !w.last_used_at.le(&out[at - 1].last_used_at)
            invariant
                at <= out@.len(),
                outs == views(out@),
                x == w@,
                forall|k: int| at <= k < out@.len() ==> used_later()(x, #[trigger] outs[k]),
            decreases at,
        {
            assert(outs[at - 1] == out@[at - 1]@);
            at -= 1;
        }
        proof {
            if at > 0 {
                assert(outs[at - 1] == out@[at - 1]@);
            }
            sorting::insert_at(outs, x, used_later(), at as int);
            assert(all.take(i + 1).drop_last() =~= all.take(i as int));
            assert(all.take(i + 1).last() == x);
        }
        out.insert(at, w);
        assert(views(out@) =~= outs.insert(at as int, x));
        i += 1;
    }
    assert(all.take(all.len() as int) =~= all);
    out
}

// ---- laws -----------------------------------------------------------------

/// A hexadecimal digit, in lower case.
pub open spec fn is_hex_digit(c: char) -> bool {
    '0' <= c <= '9' || 'a' <= c <= 'f'
}

proof fn lemma_low_hex(n: nat, width: nat)
    ensures
        low_hex(n, width).len() == width,
        forall|i: int| 0 <= i < width ==> is_hex_digit(#[trigger] low_hex(n, width)[i]),
    decreases width,
{
    if width > 0 {
        lemma_low_hex(n / 16, (width - 1) as nat);
    }
}

spec fn hex_bound(width: nat) -> nat
    decreases width,
{
    if width == 0 {
        1
    } else {
        16 * hex_bound((width - 1) as nat)
    }
}

proof fn lemma_hex_tells_apart(a: nat, b: nat, width: nat)
    requires
        a < hex_bound(width),
        b < hex_bound(width),
        low_hex(a, width) == low_hex(b, width),
    ensures
        a == b,
    decreases width,
{
    if width > 0 {
        let w = (width - 1) as nat;
        let x = low_hex(a / 16, w);
        let y = low_hex(b / 16, w);
        lemma_low_hex(a / 16, w);
        lemma_low_hex(b / 16, w);
        assert(x =~= x.push(hex_char(a)).drop_last());
        assert(y =~= y.push(hex_char(b)).drop_last());
        assert(x.push(hex_char(a)).last() == y.push(hex_char(b)).last());
        lemma_hex_tells_apart(a / 16, b / 16, w);
    }
}

/// Every id is `ws-` and sixteen hexadecimal digits.
pub proof fn ids_have_one_shape(client: Seq<char>, engagement: Seq<char>)
    ensures
        pair_id(client, engagement).len() == 19,
        pair_id(client, engagement).take(3) == "ws-"@,
        forall|i: int|
            3 <= i < 19 ==> is_hex_digit(#[trigger] pair_id(client, engagement)[i]),
{
    reveal_strlit("ws-");
    let h = stable_hash(text::trim(client), 0, text::trim(engagement));
    lemma_low_hex(h as nat, 16);
    assert(pair_id(client, engagement).take(3) =~= "ws-"@);
}

/// Pairs whose hashes differ have different ids.
pub proof fn ids_tell_hashes_apart(g: u64, h: u64)
    requires
        id_text(g) == id_text(h),
    ensures
        g == h,
{
    assert(id_text(g).skip("ws-"@.len() as int) =~= low_hex(g as nat, 16));
    assert(id_text(h).skip("ws-"@.len() as int) =~= low_hex(h as nat, 16));
    assert(hex_bound(16) == 0x1_0000_0000_0000_0000) by {
        reveal_with_fuel(hex_bound, 17);
    }
    lemma_hex_tells_apart(g as nat, h as nat, 16);
}

/// White space around the names makes no other id.
pub proof fn ids_ignore_outer_white_space(client: Seq<char>, engagement: Seq<char>)
    ensures
        pair_id(text::trim(client), text::trim(engagement)) == pair_id(client, engagement),
{
    text::trim_is_idempotent(client);
    text::trim_is_idempotent(engagement);
}

/// Work for one pair twice leaves one workstream more than before the first time
/// at most: the second time it is there.
pub proof fn second_touch_finds_the_first(
    ws: Seq<WorkstreamView>,
    client: Seq<char>,
    engagement: Seq<char>,
    billable: bool,
    first: Stamp,
    second: Stamp,
)
    ensures
        ({
            let once = touched(ws, client, engagement, billable, first);
            let twice = touched(once, client, engagement, billable, second);
            &&& twice.len() == once.len()
            &&& find_id(once, pair_id(client, engagement)) matches Some(i) && 0 <= i < once.len()
                && twice == once.update(i, WorkstreamView { last_used_at: second, ..once[i] })
        }),
{
    let once = touched(ws, client, engagement, billable, first);
    lemma_touched_is_found(ws, client, engagement, billable, first);
    lemma_find_bounds(once, pair_id(client, engagement));
}

/// No two workstreams have one id.
pub open spec fn ids_differ(ws: Seq<WorkstreamView>) -> bool {
    forall|i: int, j: int|
        0 <= i < j < ws.len() ==> (#[trigger] ws[i]).id != (#[trigger] ws[j]).id
}

proof fn lemma_not_found(ws: Seq<WorkstreamView>, id: Seq<char>, i: int)
    requires
        find_id(ws, id) is None,
        0 <= i < ws.len(),
    ensures
        ws[i].id != id,
    decreases ws.len(),
{
    if i < ws.len() - 1 {
        lemma_not_found(ws.drop_last(), id, i);
    }
}

/// Work for a pair keeps the ids different: it finds the workstream of the pair or
/// adds one with an id that none had.
pub proof fn work_keeps_ids_different(
    ws: Seq<WorkstreamView>,
    client: Seq<char>,
    engagement: Seq<char>,
    billable: bool,
    now: Stamp,
)
    requires
        ids_differ(ws),
    ensures
        ids_differ(touched(ws, client, engagement, billable, now)),
{
    let id = pair_id(client, engagement);
    let after = touched(ws, client, engagement, billable, now);
    lemma_find_bounds(ws, id);
    assert forall|i: int, j: int| 0 <= i < j < after.len() implies (#[trigger] after[i]).id
        != (#[trigger] after[j]).id by {
        if j < ws.len() {
            assert(ws[i].id != ws[j].id);
        } else {
            lemma_not_found(ws, id, i);
        }
    }
}

/// Pinning changes the one workstream with the id, and keeps the ids different.
pub proof fn pinning_touches_one(ws: Seq<WorkstreamView>, id: Seq<char>, pinned: bool, j: int)
    requires
        ids_differ(ws),
        find_id(ws, id) is Some,
        0 <= j < ws.len(),
    ensures
        ({
            let i = find_id(ws, id)->0;
            let after = ws.update(i, WorkstreamView { pinned, ..ws[i] });
            &&& ids_differ(after)
            &&& after[j] == if ws[j].id == id {
                WorkstreamView { pinned, ..ws[j] }
            } else {
                ws[j]
            }
        }),
{
    lemma_find_bounds(ws, id);
    let i = find_id(ws, id)->0;
    let after = ws.update(i, WorkstreamView { pinned, ..ws[i] });
    assert forall|a: int, b: int| 0 <= a < b < after.len() implies (#[trigger] after[a]).id
        != (#[trigger] after[b]).id by {
        assert(ws[a].id != ws[b].id);
    }
    if j < i {
        assert(ws[j].id != ws[i].id);
    } else if i < j {
        assert(ws[i].id != ws[j].id);
    }
}

/// The shown order keeps every workstream, puts no unpinned one before a pinned
/// one, and no less recent one before a more recent one of its kind.
pub proof fn shown_order_is_sorted(ws: Seq<WorkstreamView>)
    ensures
        ({
            let s = sorting::sort_by(ws, shown_before());
            &&& s.to_multiset() == ws.to_multiset()
            &&& forall|i: int, j: int|
                0 <= i < j < s.len() ==> !((#[trigger] s[j]).pinned && !(#[trigger] s[i]).pinned)
            &&& forall|i: int, j: int|
                0 <= i < j < s.len() && (#[trigger] s[i]).pinned == (#[trigger] s[j]).pinned
                    ==> s[j].last_used_at.not_after(s[i].last_used_at)
        }),
{
    let before = shown_before();
    assert(sorting::is_weak_order(before)) by {
        assert forall|a: WorkstreamView, b: WorkstreamView| #[trigger] before(a, b) implies !before(
            b,
            a,
        ) by {}
        assert forall|a: WorkstreamView, b: WorkstreamView, c: WorkstreamView|
            !(#[trigger] before(b, a)) && !(#[trigger] before(c, b)) implies !before(c, a) by {}
    }
    sorting::sort_sorts(ws, before);
    let s = sorting::sort_by(ws, before);
    assert forall|i: int, j: int| 0 <= i < j < s.len() implies !((#[trigger] s[j]).pinned && !(
    #[trigger] s[i]).pinned) by {
        assert(!before(s[j], s[i]));
    }
    assert forall|i: int, j: int|
        0 <= i < j < s.len() && (#[trigger] s[i]).pinned == (#[trigger] s[j]).pinned implies s[j].last_used_at.not_after(
    s[i].last_used_at) by {
        assert(!before(s[j], s[i]));
    }
}

/// A number in sixteens: sixteen times a number and a digit more is its text with that
/// digit behind, which is a figure below ten and a small letter above.
pub proof fn hashes_are_written_in_sixteens(n: nat, d: nat, width: nat)
    requires
        d < 16,
    ensures
        low_hex(n * 16 + d, width + 1) == low_hex(n, width).push(hex_char(d)),
        low_hex(n, 0) == Seq::<char>::empty(),
        d < 10 ==> hex_char(d) as u32 == '0' as u32 + d,
        d >= 10 ==> hex_char(d) as u32 == 'a' as u32 + d - 10,
{
    assert((n * 16 + d) / 16 == n && (n * 16 + d) % 16 == d) by (nonlinear_arith)
        requires
            d < 16,
    ;
}

/// A workstream's id is made of the client and the engagement, without the white space
/// around them and with a nought between.
pub proof fn ids_are_made_of_the_pair(client: Seq<char>, engagement: Seq<char>)
    ensures
        pair_id(client, engagement) == seq!['w', 's', '-'] + low_hex(
            stable_hash(text::trim(client), 0, text::trim(engagement)) as nat,
            16,
        ),
{
    reveal_strlit("ws-");
    assert("ws-"@ =~= seq!['w', 's', '-']);
}

/// A workstream is found by its id: the first that has it, and none if none has it.
pub proof fn workstreams_are_found_by_their_ids(ws: Seq<WorkstreamView>, id: Seq<char>)
    ensures
        match find_id(ws, id) {
            Some(i) => 0 <= i < ws.len() && ws[i].id == id && forall|j: int|
                0 <= j < i ==> (#[trigger] ws[j]).id != id,
            None => forall|j: int| 0 <= j < ws.len() ==> (#[trigger] ws[j]).id != id,
        },
    decreases ws.len(),
{
    if ws.len() > 0 {
        let init = ws.drop_last();
        workstreams_are_found_by_their_ids(init, id);
        assert(forall|j: int| 0 <= j < init.len() ==> ws[j] == #[trigger] init[j]);
        assert forall|j: int| 0 <= j < init.len() && init[j].id != id implies (#[trigger] ws[j]).id
            != id by {
            assert(ws[j] == init[j]);
        }
    }
}

/// Work on a pair that has a workstream gives that one a new time of use and changes
/// nothing else; on another pair it adds a workstream that is not pinned, made and used
/// at that time.
pub proof fn work_finds_or_adds_a_workstream(
    ws: Seq<WorkstreamView>,
    client: Seq<char>,
    engagement: Seq<char>,
    billable: bool,
    now: Stamp,
    i: int,
)
    requires
        0 <= i < ws.len(),
    ensures
        ({
            let after = touched(ws, client, engagement, billable, now);
            let id = pair_id(client, engagement);
            match find_id(ws, id) {
                Some(k) => {
                    &&& after.len() == ws.len()
                    &&& i != k ==> after[i] == ws[i]
                    &&& after[k].id == ws[k].id
                    &&& after[k].client == ws[k].client
                    &&& after[k].engagement == ws[k].engagement
                    &&& after[k].billable_default == ws[k].billable_default
                    &&& after[k].pinned == ws[k].pinned
                    &&& after[k].created_at == ws[k].created_at
                    &&& after[k].last_used_at == now
                },
                None => {
                    &&& after.len() == ws.len() + 1
                    &&& after[i] == ws[i]
                    &&& after.last().id == id
                    &&& after.last().client == text::trim(client)
                    &&& after.last().engagement == text::trim(engagement)
                    &&& after.last().billable_default == billable
                    &&& !after.last().pinned
                    &&& after.last().created_at == now
                    &&& after.last().last_used_at == now
                },
            }
        }),
{
    workstreams_are_found_by_their_ids(ws, pair_id(client, engagement));
}

/// What a row tells of its workstream: the client and the engagement in their columns,
/// its flag, and the beginning of the day in its first column, or else the time now. A
/// row of fewer than nine columns and one without a client tell nothing.
pub proof fn rows_tell_of_their_workstream(f: Seq<Seq<char>>, now: Stamp)
    ensures
        observed(f, now) is Some <==> f.len() >= 9 && text::trim(f[2]).len() > 0,
        observed(f, now) matches Some(o) ==> {
            &&& o.client == text::trim(f[2])
            &&& o.engagement == text::trim(f[3])
            &&& o.billable == text::same_but_case(f[7], seq!['t', 'r', 'u', 'e'])
            &&& match datefmt::entry_date(f[0]) {
                Some(d) => o.when == dates::day_start(entries::date_from(d)),
                None => o.when == now,
            }
        },
{
    reveal_strlit("true");
    assert("true"@ =~= seq!['t', 'r', 'u', 'e']);
}

/// All rows of all files are looked at, in their order.
pub proof fn rows_of_all_files_are_looked_at(
    rows: Seq<Seq<Seq<char>>>,
    row: Seq<Seq<char>>,
    contents: Seq<Seq<char>>,
    content: Seq<char>,
    now: Stamp,
)
    ensures
        observations(Seq::empty(), now) == Seq::<Observed>::empty(),
        observations(rows.push(row), now) == match observed(row, now) {
            Some(o) => observations(rows, now).push(o),
            None => observations(rows, now),
        },
        rows_of_files(Seq::empty()) == Seq::<Seq<Seq<char>>>::empty(),
        rows_of_files(contents.push(content)) == rows_of_files(contents) + csv_file::data_rows(
            content,
        ),
{
    assert(rows.push(row).drop_last() =~= rows);
    assert(contents.push(content).drop_last() =~= contents);
}

/// Of what the rows tell of a pair, the newest counts, and of the newest the last one.
pub proof fn the_newest_row_of_a_pair_counts(
    obs: Seq<Observed>,
    client: Seq<char>,
    engagement: Seq<char>,
) -> (at: int)
    ensures
        match newest_for(obs, client, engagement) {
            Some(o) => {
                &&& 0 <= at < obs.len()
                &&& obs[at] == o
                &&& o.client == client
                &&& o.engagement == engagement
                &&& forall|k: int|
                    0 <= k < obs.len() && (#[trigger] obs[k]).client == client && obs[k].engagement
                        == engagement ==> obs[k].when.not_after(o.when) && (k > at
                        ==> !o.when.not_after(obs[k].when))
            },
            None => forall|k: int|
                0 <= k < obs.len() ==> (#[trigger] obs[k]).client != client || obs[k].engagement
                    != engagement,
        },
    decreases obs.len(),
{
    if obs.len() == 0 {
        0
    } else {
        let init = obs.drop_last();
        let last = obs.len() - 1;
        let before = the_newest_row_of_a_pair_counts(init, client, engagement);
        assert(forall|k: int| 0 <= k < last ==> obs[k] == #[trigger] init[k]);
        let now = newest_for(obs, client, engagement);
        let o = obs[last];
        if o.client == client && o.engagement == engagement && now == Some(o) && (newest_for(
            init,
            client,
            engagement,
        ) matches Some(p) ==> p.when.not_after(o.when)) {
            assert forall|k: int|
                0 <= k < obs.len() && (#[trigger] obs[k]).client == client && obs[k].engagement
                    == engagement implies obs[k].when.not_after(o.when) && (k > last
                ==> !o.when.not_after(obs[k].when)) by {
                if k < last {
                    assert(init[k] == obs[k]);
                }
            }
            last
        } else {
            match now {
                Some(p) => {
                    assert(newest_for(init, client, engagement) == now);
                    assert(obs[before] == init[before]);
                    assert forall|k: int|
                        0 <= k < obs.len() && (#[trigger] obs[k]).client == client
                            && obs[k].engagement == engagement implies obs[k].when.not_after(p.when)
                        && (k > before ==> !p.when.not_after(obs[k].when)) by {
                        if k < last {
                            assert(init[k] == obs[k]);
                        }
                    }
                },
                None => {
                    assert forall|k: int| 0 <= k < obs.len() implies (#[trigger] obs[k]).client
                        != client || obs[k].engagement != engagement by {
                        if k < last {
                            assert(init[k] == obs[k]);
                        }
                    }
                },
            }
            before
        }
    }
}

/// The workstreams made of rows are one for every pair in them and no more; each is not
/// pinned, and made and used when the newest row of its pair was.
pub proof fn every_pair_gets_one_workstream(
    obs: Seq<Observed>,
    ws: Seq<WorkstreamView>,
    client: Seq<char>,
    engagement: Seq<char>,
)
    requires
        is_collected(obs, ws),
    ensures
        (exists|i: int|
            0 <= i < ws.len() && (#[trigger] ws[i]).client == client && ws[i].engagement
                == engagement) == (exists|k: int|
            0 <= k < obs.len() && (#[trigger] obs[k]).client == client && obs[k].engagement
                == engagement),
        forall|i: int, j: int|
            0 <= i < j < ws.len() ==> (#[trigger] ws[i]).client != (#[trigger] ws[j]).client
                || ws[i].engagement != ws[j].engagement,
        forall|i: int|
            0 <= i < ws.len() ==> match newest_for(
                obs,
                (#[trigger] ws[i]).client,
                ws[i].engagement,
            ) {
                Some(o) => {
                    &&& ws[i].id == pair_id(ws[i].client, ws[i].engagement)
                    &&& ws[i].billable_default == o.billable
                    &&& !ws[i].pinned
                    &&& ws[i].created_at == o.when
                    &&& ws[i].last_used_at == o.when
                },
                None => false,
            },
{
    if exists|i: int|
        0 <= i < ws.len() && (#[trigger] ws[i]).client == client && ws[i].engagement == engagement {
        let i = choose|i: int|
            0 <= i < ws.len() && (#[trigger] ws[i]).client == client && ws[i].engagement
                == engagement;
        let k = the_newest_row_of_a_pair_counts(obs, client, engagement);
        assert(newest_for(obs, ws[i].client, ws[i].engagement) is Some);
        assert(obs[k].client == client);
    }
    if exists|k: int|
        0 <= k < obs.len() && (#[trigger] obs[k]).client == client && obs[k].engagement
            == engagement {
        let k = choose|k: int|
            0 <= k < obs.len() && (#[trigger] obs[k]).client == client && obs[k].engagement
                == engagement;
        let i = choose|i: int|
            0 <= i < ws.len() && obs[k].client == (#[trigger] ws[i]).client && obs[k].engagement
                == ws[i].engagement;
        assert(ws[i].client == client);
    }
    assert forall|i: int, j: int| 0 <= i < j < ws.len() implies (#[trigger] ws[i]).client != (
    #[trigger] ws[j]).client || ws[i].engagement != ws[j].engagement by {
        sorting::texts_are_ordered(ws[i].client, ws[j].client);
        sorting::texts_are_ordered(ws[i].engagement, ws[j].engagement);
    }
    assert forall|i: int| 0 <= i < ws.len() implies match newest_for(
        obs,
        (#[trigger] ws[i]).client,
        ws[i].engagement,
    ) {
        Some(o) => {
            &&& ws[i].id == pair_id(ws[i].client, ws[i].engagement)
            &&& ws[i].billable_default == o.billable
            &&& !ws[i].pinned
            &&& ws[i].created_at == o.when
            &&& ws[i].last_used_at == o.when
        },
        None => false,
    } by {
        let k = the_newest_row_of_a_pair_counts(obs, ws[i].client, ws[i].engagement);
    }
}

/// Workstreams made of rows are listed with the one used last in front, none left out
/// and none added.
pub proof fn made_workstreams_are_listed_by_use(ws: Seq<WorkstreamView>)
    ensures
        ({
            let listed = sorting::sort_by(ws, used_later());
            &&& listed.to_multiset() == ws.to_multiset()
            &&& forall|i: int, j: int|
                0 <= i < j < listed.len() ==> (#[trigger] listed[j]).last_used_at.not_after(
                    (#[trigger] listed[i]).last_used_at,
                )
        }),
{
    let before = used_later();
    sorting::sort_sorts(ws, before);
    let listed = sorting::sort_by(ws, before);
    assert forall|i: int, j: int| 0 <= i < j < listed.len() implies (
    #[trigger] listed[j]).last_used_at.not_after((#[trigger] listed[i]).last_used_at) by {
        assert(!before(listed[j], listed[i]));
    }
}

} // verus!
