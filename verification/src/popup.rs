//! The entry popup and the timer behind it: what is shown, what a submission asks
//! for, and what follows once the entry is written or is not.
//!
//! Writing an entry is done outside. A request hands out the entry; once it is
//! written, the outcome is handed back.

use crate::autocomplete;
use crate::autocomplete::Cache;
use crate::csv_writer::Entry;
use crate::csv_writer::EntryMethod;
use crate::csv_writer::LocalTime;
use crate::csv_writer::WriteResult;
use crate::dates::Stamp;
use crate::decimal;
use crate::duration;
use crate::text;
use crate::timer;
use crate::timer::ContinuationState;
use crate::timer::RunningTimer;
use crate::timer::Timer;
use crate::workstream;
use crate::workstream::WorkstreamRegistry;
use vstd::prelude::*;

verus! {

/// How long a toast is shown, in milliseconds.
pub const TOAST_MILLIS: u64 = 1500;

/// What the popup is for.
#[derive(Debug, Clone, Copy, PartialEq, Eq, Structural)]
pub enum PopupMode {
    QuickEntry,
    TimerStart,
    TimerStop,
}

impl PopupMode {
    /// The heading.
    pub fn title(self) -> (r: &'static str)
        ensures
            r@ == match self {
                PopupMode::QuickEntry => "Quick entry"@,
                PopupMode::TimerStart => "Start timer"@,
                PopupMode::TimerStop => "Stop timer"@,
            },
    {
        match self {
            PopupMode::QuickEntry => "Quick entry",
            PopupMode::TimerStart => "Start timer",
            PopupMode::TimerStop => "Stop timer",
        }
    }

    /// A timer is started without a duration.
    pub fn shows_duration_field(self) -> (r: bool)
        ensures
            r == (self != PopupMode::TimerStart),
    {
        match self {
            PopupMode::TimerStart => false,
            _ => true,
        }
    }
}

/// What is in the form.
#[derive(Debug, Clone)]
pub struct Fields {
    pub client: String,
    pub engagement: String,
    pub narrative: String,
    pub duration_input: String,
    pub billable: bool,
    pub error: Option<String>,
}

/// What is in the form, as texts.
#[verifier::ext_equal]
pub struct FieldsView {
    pub client: Seq<char>,
    pub engagement: Seq<char>,
    pub narrative: Seq<char>,
    pub duration_input: Seq<char>,
    pub billable: bool,
    pub error: Option<Seq<char>>,
}

pub open spec fn text_of(s: Option<String>) -> Option<Seq<char>> {
    match s {
        Some(t) => Some(t@),
        None => None,
    }
}

impl View for Fields {
    type V = FieldsView;

    open spec fn view(&self) -> FieldsView {
        FieldsView {
            client: self.client@,
            engagement: self.engagement@,
            narrative: self.narrative@,
            duration_input: self.duration_input@,
            billable: self.billable,
            error: text_of(self.error),
        }
    }
}

/// An empty form.
pub open spec fn empty_form(billable: bool) -> FieldsView {
    FieldsView {
        client: ""@,
        engagement: ""@,
        narrative: ""@,
        duration_input: ""@,
        billable,
        error: None,
    }
}

impl Fields {
    /// An empty form.
    pub fn blank(billable: bool) -> (r: Fields)
        ensures
            r@ == empty_form(billable),
    {
        Fields {
            client: text::copy(""),
            engagement: text::copy(""),
            narrative: text::copy(""),
            duration_input: text::copy(""),
            billable,
            error: None,
        }
    }

    /// Empties the form.
    pub fn reset(&mut self, billable_default: bool)
        ensures
            final(self)@ == empty_form(billable_default),
    {
        *self = Fields::blank(billable_default);
    }
}

// ---- what is told to others ----------------------------------------------

/// What is broadcast to the pages.
pub enum BusEvent {
    TimerStarted { client: String, engagement: String, narrative: String },
    TimerStopped { client: String, minutes: u32 },
    EntryLogged {
        staff: String,
        client: String,
        engagement: String,
        narrative: String,
        minutes: u32,
        billable: bool,
        method: EntryMethod,
    },
    WorkstreamSwitched { from_engagement: String, client: String, engagement: String },
}

/// What is broadcast to the pages, as texts.
pub enum BusView {
    TimerStarted { client: Seq<char>, engagement: Seq<char>, narrative: Seq<char> },
    TimerStopped { client: Seq<char>, minutes: u32 },
    EntryLogged {
        staff: Seq<char>,
        client: Seq<char>,
        engagement: Seq<char>,
        narrative: Seq<char>,
        minutes: u32,
        billable: bool,
        method: EntryMethod,
    },
    WorkstreamSwitched { from_engagement: Seq<char>, client: Seq<char>, engagement: Seq<char> },
}

impl View for BusEvent {
    type V = BusView;

    open spec fn view(&self) -> BusView {
        match *self {
            BusEvent::TimerStarted { client, engagement, narrative } => BusView::TimerStarted {
                client: client@,
                engagement: engagement@,
                narrative: narrative@,
            },
            BusEvent::TimerStopped { client, minutes } => BusView::TimerStopped {
                client: client@,
                minutes,
            },
            BusEvent::EntryLogged {
                staff,
                client,
                engagement,
                narrative,
                minutes,
                billable,
                method,
            } => BusView::EntryLogged {
                staff: staff@,
                client: client@,
                engagement: engagement@,
                narrative: narrative@,
                minutes,
                billable,
                method,
            },
            BusEvent::WorkstreamSwitched {
                from_engagement,
                client,
                engagement,
            } => BusView::WorkstreamSwitched {
                from_engagement: from_engagement@,
                client: client@,
                engagement: engagement@,
            },
        }
    }
}

pub open spec fn broadcasts(events: Seq<BusEvent>) -> Seq<BusView> {
    Seq::new(events.len(), |i: int| events[i]@)
}

/// What is recorded of use.
#[derive(Debug, Clone, Copy, PartialEq, Eq, Structural)]
pub enum UsageEvent {
    EntryWritten { method: EntryMethod, minutes: u32, billable: bool },
    EntryQueued,
}

/// What follows the outcome of a write.
pub struct Report {
    pub events: Vec<BusEvent>,
    pub usage: Option<UsageEvent>,
}

pub open spec fn stopped(e: Entry) -> BusView {
    BusView::TimerStopped { client: e.client@, minutes: e.minutes }
}

pub open spec fn logged(e: Entry) -> BusView {
    BusView::EntryLogged {
        staff: e.staff@,
        client: e.client@,
        engagement: e.engagement@,
        narrative: e.narrative@,
        minutes: e.minutes,
        billable: e.billable,
        method: e.entry_method,
    }
}

/// What is broadcast after a write: that the timer stopped, if it did, and that the
/// entry is logged, but only once it is in the file.
pub open spec fn told(e: Entry, was_timer: bool, result: WriteResult) -> Seq<BusView> {
    let stop = if was_timer { seq![stopped(e)] } else { seq![] };
    match result {
        WriteResult::Written => stop.push(logged(e)),
        WriteResult::Queued => stop,
        WriteResult::Error(_) => seq![],
    }
}

/// What is recorded of use after a write.
pub open spec fn recorded(e: Entry, result: WriteResult) -> Option<UsageEvent> {
    match result {
        WriteResult::Written => Some(
            UsageEvent::EntryWritten {
                method: e.entry_method,
                minutes: e.minutes,
                billable: e.billable,
            },
        ),
        WriteResult::Queued => Some(UsageEvent::EntryQueued),
        WriteResult::Error(_) => None,
    }
}

fn report(e: &Entry, was_timer: bool, result: &WriteResult) -> (r: Report)
    ensures
        broadcasts(r.events@) == told(*e, was_timer, *result),
        r.usage == recorded(*e, *result),
{
    let mut events: Vec<BusEvent> = Vec::new();
    match result {
        WriteResult::Error(_) => {
            assert(broadcasts(events@) =~= seq![]);
            return Report { events, usage: None };
        },
        _ => {},
    }
    if was_timer {
        events.push(BusEvent::TimerStopped { client: e.client.clone(), minutes: e.minutes });
    }
    let ghost stop = if was_timer {
        seq![stopped(*e)]
    } else {
        seq![]
    };
    assert(broadcasts(events@) =~= stop);
    match result {
        WriteResult::Written => {
            events.push(
                BusEvent::EntryLogged {
                    staff: e.staff.clone(),
                    client: e.client.clone(),
                    engagement: e.engagement.clone(),
                    narrative: e.narrative.clone(),
                    minutes: e.minutes,
                    billable: e.billable,
                    method: e.entry_method,
                },
            );
            assert(broadcasts(events@) =~= stop.push(logged(*e)));
            Report {
                events,
                usage: Some(
                    UsageEvent::EntryWritten {
                        method: e.entry_method,
                        minutes: e.minutes,
                        billable: e.billable,
                    },
                ),
            }
        },
        _ => Report { events, usage: Some(UsageEvent::EntryQueued) },
    }
}

// ---- the popup ------------------------------------------------------------

/// The popup, and the timer and the names that it works on.
pub struct Popup {
    pub timer: Timer,
    pub cache: Cache,
    pub staff: String,
    /// What the billable box of an empty form is set to.
    pub billable_default: bool,
    pub mode: PopupMode,
    pub visible: bool,
    pub fields: Fields,
    pub toast: Option<String>,
}

/// Some tenths of an hour with one digit behind the point.
pub open spec fn tenths_text(t: nat) -> Seq<char> {
    text::dec(t / 10).push('.') + text::dec(t % 10)
}

fn write_tenths(t: u64) -> (r: String)
    ensures
        r@ == tenths_text(t as nat),
{
    let mut out = text::u64_text(t / 10);
    out.push('.');
    let d = text::u64_text(t % 10);
    text::push_text(&mut out, d.as_str());
    out
}

/// Minutes to the nearest tenth of an hour, halves upwards.
pub open spec fn nearest_tenth(minutes: nat) -> nat {
    (minutes + 3) / 6
}

pub open spec fn shown_minutes(t: RunningTimer, now: Stamp) -> nat {
    let raw = timer::minutes_between(t.started_at, now);
    if raw > timer::SANITY_CAP_MINUTES {
        timer::SANITY_CAP_MINUTES as nat
    } else {
        raw as nat
    }
}

/// The form for stopping a timer: what was started, and the time that it ran.
pub open spec fn stop_form(t: RunningTimer, now: Stamp) -> FieldsView {
    FieldsView {
        client: t.client@,
        engagement: t.engagement@,
        narrative: t.narrative@,
        duration_input: tenths_text(nearest_tenth(shown_minutes(t, now))),
        billable: t.billable,
        error: if timer::minutes_between(t.started_at, now) > timer::SANITY_CAP_MINUTES {
            Some("Timer running >12h \u{2014} confirm or edit."@)
        } else {
            None
        },
    }
}

/// The warning in place of the form: a timer is started while one runs, or stopped
/// while none does.
pub open spec fn warning(mode: PopupMode, current: Option<RunningTimer>) -> Option<Seq<char>> {
    match (mode, current) {
        (PopupMode::TimerStart, Some(t)) => Some(
            "Timer already running for "@ + t.client@ + ". Press Ctrl+Shift+' to stop."@,
        ),
        (PopupMode::TimerStop, None) => Some("No timer running. Press Ctrl+Shift+; to start."@),
        _ => None,
    }
}

/// What the form begins with.
pub open spec fn first_form(
    mode: PopupMode,
    current: Option<RunningTimer>,
    billable: bool,
    now: Stamp,
) -> FieldsView {
    match (mode, current) {
        (PopupMode::TimerStop, Some(t)) => stop_form(t, now),
        _ => empty_form(billable),
    }
}

// ---- starting and stopping ------------------------------------------------

/// The timer that runs from now.
pub open spec fn runs(
    current: Option<RunningTimer>,
    client: Seq<char>,
    engagement: Seq<char>,
    narrative: Seq<char>,
    billable: bool,
    now: Stamp,
) -> bool {
    current matches Some(t) && t.client@ == client && t.engagement@ == engagement && t.narrative@
        == narrative && t.billable == billable && t.started_at == now && t.reminder_base is None
        && !t.reminded
}

/// The names with those of a client and an engagement.
pub open spec fn observed(
    before: Cache,
    after: Cache,
    client: Seq<char>,
    engagement: Seq<char>,
) -> bool {
    &&& text::texts(after.clients@) == autocomplete::with_name(
        text::texts(before.clients@),
        client,
    )
    &&& text::texts(after.engagements@) == autocomplete::with_name(
        text::texts(before.engagements@),
        engagement,
    )
}

/// The workstream of a pair is used now, or made.
pub open spec fn used(
    before: WorkstreamRegistry,
    after: WorkstreamRegistry,
    client: Seq<char>,
    engagement: Seq<char>,
    billable: bool,
    now: Stamp,
) -> bool {
    &&& workstream::views(after.workstreams@) == workstream::touched(
        workstream::views(before.workstreams@),
        client,
        engagement,
        billable,
        now,
    )
    &&& after.version == before.version
}

/// The entry says this, and names the workstream of its pair.
pub open spec fn entry_is(
    e: Entry,
    at: LocalTime,
    staff: Seq<char>,
    client: Seq<char>,
    engagement: Seq<char>,
    narrative: Seq<char>,
    minutes: nat,
    billable: bool,
    method: EntryMethod,
) -> bool {
    &&& e.timestamp == at
    &&& e.staff@ == staff
    &&& e.client@ == client
    &&& e.engagement@ == engagement
    &&& e.narrative@ == narrative
    &&& e.minutes == minutes
    &&& e.billable == billable
    &&& e.entry_method == method
    &&& (e.workstream_id matches Some(id) && id@ == workstream::pair_id(client, engagement))
}

/// What became of a command to start a timer.
pub enum Command {
    /// A timer runs: nothing is done.
    Busy,
    /// The client is blank: nothing is done.
    Ignored,
    /// The timer is started; what is broadcast.
    Started(Vec<BusEvent>),
}

/// What a tick asks for.
#[derive(Debug, Clone, Copy, PartialEq, Eq, Structural)]
pub enum Tick {
    /// Only to keep the timer's state on disk.
    Persist,
    /// To show the reminder.
    Remind,
    /// To stop the timer and log what ran.
    StopAndLog,
}

/// What a submission asks for.
pub enum Submission {
    /// The form is not complete; it says why.
    Refused,
    /// The timer is started; what is broadcast.
    Started(Vec<BusEvent>),
    /// The entry has to be written.
    Write(Entry),
}

/// Why the form cannot be submitted.
pub open spec fn submit_error(p: Popup) -> Option<Seq<char>> {
    if text::trim(p.fields.client@).len() == 0 {
        Some("Client is required"@)
    } else if text::trim(p.fields.narrative@).len() == 0 {
        Some("Narrative is required"@)
    } else if p.mode == PopupMode::TimerStart {
        if p.timer.current is Some {
            Some("Timer: timer already running"@)
        } else {
            None
        }
    } else {
        match duration::duration(p.fields.duration_input@) {
            Ok(_) => None,
            Err(e) => Some("Duration: "@ + e),
        }
    }
}

/// The minutes in the form.
pub open spec fn typed_minutes(p: Popup) -> nat {
    duration::duration(p.fields.duration_input@)->Ok_0
}

/// The toast after a write.
pub open spec fn written_toast(e: Entry, result: WriteResult) -> Seq<char> {
    match result {
        WriteResult::Written => "Logged "@ + tenths_text(decimal::hour_tenths(e.minutes as nat))
            + "h to "@ + e.client@,
        _ => "CSV locked - queued, will retry"@,
    }
}

/// The entry of the timer that runs: what it ran, a minute at least.
pub open spec fn stopped_entry(p: Popup, now: Stamp, at: LocalTime, e: Entry) -> bool {
    p.timer.current matches Some(t) && {
        let ran = shown_minutes(t, now);
        entry_is(
            e,
            at,
            p.staff@,
            t.client@,
            t.engagement@,
            t.narrative@,
            if ran == 0 {
                1
            } else {
                ran
            },
            t.billable,
            EntryMethod::Timer,
        )
    }
}

impl Popup {
    /// The popup at the start: hidden, with an empty form.
    pub fn new(cache: Cache, timer: Timer, staff: String, billable_default: bool) -> (r: Popup)
        ensures
            r.cache == cache,
            r.timer == timer,
            r.staff == staff,
            r.billable_default == billable_default,
            r.mode == PopupMode::QuickEntry,
            !r.visible,
            r.fields@ == empty_form(billable_default),
            r.toast is None,
    {
        Popup {
            timer,
            cache,
            staff,
            billable_default,
            mode: PopupMode::QuickEntry,
            visible: false,
            fields: Fields::blank(billable_default),
            toast: None,
        }
    }

    /// The popup is shown.
    pub fn is_visible(&self) -> (r: bool)
        ensures
            r == self.visible,
    {
        self.visible
    }

    /// Shows the popup. `false` where it shows only a warning: a timer is started
    /// while one runs, or stopped while none does.
    pub fn show(&mut self, mode: PopupMode, now: &Stamp) -> (r: bool)
        ensures
            r == (warning(mode, old(self).timer.current) is None),
            text_of(final(self).toast) == match warning(mode, old(self).timer.current) {
                Some(w) => Some(w),
                None => text_of(old(self).toast),
            },
            final(self).fields@ == first_form(
                mode,
                old(self).timer.current,
                old(self).billable_default,
                *now,
            ),
            *final(self) == (Popup {
                mode,
                visible: true,
                fields: final(self).fields,
                toast: final(self).toast,
                ..*old(self)
            }),
    {
        self.fields.reset(self.billable_default);
        self.mode = mode;
        self.visible = true;
        match (mode, &self.timer.current) {
            (PopupMode::TimerStart, Some(t)) => {
                let mut w = text::copy("Timer already running for ");
                text::push_text(&mut w, t.client.as_str());
                text::push_text(&mut w, ". Press Ctrl+Shift+' to stop.");
                self.toast = Some(w);
                false
            },
            (PopupMode::TimerStop, None) => {
                self.toast = Some(text::copy("No timer running. Press Ctrl+Shift+; to start."));
                false
            },
            (PopupMode::TimerStop, Some(t)) => {
                let (minutes, exceeded_cap) = t.elapsed_minutes(now);
                let tenth: u64 = (minutes as u64 + 3) / 6;
                let error: Option<String> = if exceeded_cap {
                    Some(text::copy("Timer running >12h \u{2014} confirm or edit."))
                } else {
                    None
                };
                let form = Fields {
                    client: t.client.clone(),
                    engagement: t.engagement.clone(),
                    narrative: t.narrative.clone(),
                    duration_input: write_tenths(tenth),
                    billable: t.billable,
                    error,
                };
                assert(form@ =~= stop_form(*t, *now));
                self.fields = form;
                true
            },
            _ => true,
        }
    }

    /// Hides the popup; whether it was shown.
    pub fn close(&mut self) -> (r: bool)
        ensures
            r == old(self).visible,
            *final(self) == (Popup { visible: false, ..*old(self) }),
    {
        let was = self.visible;
        self.visible = false;
        was
    }

    /// Where the timer that runs stands in its window.
    pub fn continuation_state(&self, now: &Stamp) -> (r: Option<ContinuationState>)
        ensures
            r == match self.timer.current {
                Some(t) => Some(t.continuation(*now)),
                None => None,
            },
    {
        self.timer.continuation_state(now)
    }

    /// What the tick asks for: a reminder four hours into the window, the end of the
    /// timer an hour later.
    pub fn tick(&self, now: &Stamp) -> (r: Tick)
        ensures
            r == match self.timer.current {
                Some(t) => match t.continuation(*now) {
                    ContinuationState::RemindDue => Tick::Remind,
                    ContinuationState::AutoStopDue => Tick::StopAndLog,
                    ContinuationState::Fine => Tick::Persist,
                },
                None => Tick::Persist,
            },
    {
        match self.timer.continuation_state(now) {
            Some(ContinuationState::RemindDue) => Tick::Remind,
            Some(ContinuationState::AutoStopDue) => Tick::StopAndLog,
            _ => Tick::Persist,
        }
    }

    /// The client and the engagement of the timer that runs.
    pub fn running_summary(&self) -> (r: Option<(String, String)>)
        ensures
            match r {
                Some((c, e)) => self.timer.current matches Some(t) && c@ == t.client@ && e@
                    == t.engagement@,
                None => self.timer.current is None,
            },
    {
        match &self.timer.current {
            Some(t) => Some((t.client.clone(), t.engagement.clone())),
            None => None,
        }
    }

    /// The reminder of the present window has been shown.
    pub fn mark_reminded(&mut self)
        ensures
            final(self).timer.current == match old(self).timer.current {
                Some(t) => Some(RunningTimer { reminded: true, ..t }),
                None => None,
            },
            *final(self) == (Popup { timer: final(self).timer, ..*old(self) }),
    {
        self.timer.mark_reminded();
    }

    /// The timer is confirmed: its window begins anew.
    pub fn ack_continue(&mut self, now: Stamp)
        ensures
            final(self).timer.current == match old(self).timer.current {
                Some(t) => Some(RunningTimer { reminder_base: Some(now), reminded: false, ..t }),
                None => None,
            },
            *final(self) == (Popup { timer: final(self).timer, ..*old(self) }),
    {
        self.timer.ack_continue(now);
    }

    /// The entry of the timer that runs, to be written: what it ran, at least a
    /// minute. Its workstream is used now. Nothing while no timer runs.
    pub fn cmd_timer_stop(
        &self,
        registry: &mut WorkstreamRegistry,
        now: &Stamp,
        at: LocalTime,
    ) -> (r: Option<Entry>)
        ensures
            match self.timer.current {
                None => r is None && *final(registry) == *old(registry),
                Some(t) => {
                    &&& (r matches Some(e) && stopped_entry(*self, *now, at, e))
                    &&& used(*old(registry), *final(registry), t.client@, t.engagement@, t.billable, *now)
                },
            },
    {
        match &self.timer.current {
            None => None,
            Some(t) => {
                let ran: u32 = t.elapsed_minutes(now).0;
                let minutes: u32 = if ran == 0 {
                    1
                } else {
                    ran
                };
                let (id, _created) = registry.touch_or_create(
                    t.client.as_str(),
                    t.engagement.as_str(),
                    t.billable,
                    *now,
                );
                Some(
                    Entry {
                        timestamp: at,
                        staff: self.staff.clone(),
                        client: t.client.clone(),
                        engagement: t.engagement.clone(),
                        narrative: t.narrative.clone(),
                        minutes,
                        billable: t.billable,
                        entry_method: EntryMethod::Timer,
                        workstream_id: Some(id),
                    },
                )
            },
        }
    }

    /// The entry of the timer was written, or queued: the timer stops. Where it is
    /// neither, the timer runs on, so that no time is lost.
    pub fn stop_running_and_log(&mut self, entry: &Entry, result: &WriteResult) -> (r: Report)
        ensures
            broadcasts(r.events@) == told(*entry, true, *result),
            r.usage == recorded(*entry, *result),
            match *result {
                WriteResult::Error(_) => *final(self) == *old(self),
                _ => final(self).timer.current is None && *final(self) == (Popup {
                    timer: final(self).timer,
                    ..*old(self)
                }),
            },
    {
        match result {
            WriteResult::Error(_) => {},
            _ => {
                let _ = self.timer.stop();
            },
        }
        report(entry, true, result)
    }

    fn begin(
        &mut self,
        registry: &mut WorkstreamRegistry,
        client: &str,
        engagement: &str,
        narrative: &str,
        billable: bool,
        now: Stamp,
    ) -> (r: BusEvent)
        requires
            old(self).timer.current is None,
        ensures
            runs(final(self).timer.current, client@, engagement@, narrative@, billable, now),
            observed(old(self).cache, final(self).cache, client@, engagement@),
            *final(self) == (Popup {
                timer: final(self).timer,
                cache: final(self).cache,
                ..*old(self)
            }),
            used(*old(registry), *final(registry), client@, engagement@, billable, now),
            r@ == (BusView::TimerStarted {
                client: client@,
                engagement: engagement@,
                narrative: narrative@,
            }),
    {
        let _ = self.timer.start(
            text::copy(client),
            text::copy(engagement),
            text::copy(narrative),
            billable,
            now,
        );
        self.cache.observe(client, engagement);
        let _ = registry.touch_or_create(client, engagement, billable, now);
        BusEvent::TimerStarted {
            client: text::copy(client),
            engagement: text::copy(engagement),
            narrative: text::copy(narrative),
        }
    }

    /// Starts a timer on a pair, without a narrative. While one runs, it has to be
    /// switched.
    pub fn cmd_timer_start(
        &mut self,
        registry: &mut WorkstreamRegistry,
        client: &str,
        engagement: &str,
        billable: bool,
        now: Stamp,
    ) -> (r: Command)
        ensures
            ({
                let c = text::trim(client@);
                let e = text::trim(engagement@);
                match r {
                    Command::Busy => old(self).timer.current is Some && *final(self) == *old(self)
                        && *final(registry) == *old(registry),
                    Command::Ignored => old(self).timer.current is None && c.len() == 0
                        && *final(self) == *old(self) && *final(registry) == *old(registry),
                    Command::Started(events) => {
                        &&& old(self).timer.current is None
                        &&& c.len() > 0
                        &&& runs(final(self).timer.current, c, e, ""@, billable, now)
                        &&& observed(old(self).cache, final(self).cache, c, e)
                        &&& *final(self) == (Popup {
                            timer: final(self).timer,
                            cache: final(self).cache,
                            ..*old(self)
                        })
                        &&& used(*old(registry), *final(registry), c, e, billable, now)
                        &&& broadcasts(events@) == seq![
                            BusView::TimerStarted { client: c, engagement: e, narrative: ""@ },
                        ]
                    },
                }
            }),
    {
        if self.timer.is_running() {
            return Command::Busy;
        }
        let c = text::trim_text(client);
        let e = text::trim_text(engagement);
        if text::chars_of(c.as_str()).len() == 0 {
            return Command::Ignored;
        }
        let started = self.begin(registry, c.as_str(), e.as_str(), "", billable, now);
        let ghost told = started@;
        let mut events: Vec<BusEvent> = Vec::new();
        events.push(started);
        assert(broadcasts(events@) =~= seq![told]);
        Command::Started(events)
    }

    /// Starts a timer in place of one that was stopped before. While that one still
    /// runs, because its entry could not be written, nothing is done.
    pub fn cmd_timer_switch(
        &mut self,
        registry: &mut WorkstreamRegistry,
        from_engagement: &str,
        client: &str,
        engagement: &str,
        billable: bool,
        now: Stamp,
    ) -> (r: Command)
        ensures
            ({
                let c = text::trim(client@);
                let e = text::trim(engagement@);
                match r {
                    Command::Busy => old(self).timer.current is Some && *final(self) == *old(self)
                        && *final(registry) == *old(registry),
                    Command::Ignored => old(self).timer.current is None && c.len() == 0
                        && *final(self) == *old(self) && *final(registry) == *old(registry),
                    Command::Started(events) => {
                        &&& old(self).timer.current is None
                        &&& c.len() > 0
                        &&& runs(final(self).timer.current, c, e, ""@, billable, now)
                        &&& observed(old(self).cache, final(self).cache, c, e)
                        &&& *final(self) == (Popup {
                            timer: final(self).timer,
                            cache: final(self).cache,
                            ..*old(self)
                        })
                        &&& used(*old(registry), *final(registry), c, e, billable, now)
                        &&& broadcasts(events@) == seq![
                            BusView::TimerStarted { client: c, engagement: e, narrative: ""@ },
                            BusView::WorkstreamSwitched {
                                from_engagement: from_engagement@,
                                client: c,
                                engagement: e,
                            },
                        ]
                    },
                }
            }),
    {
        match self.cmd_timer_start(registry, client, engagement, billable, now) {
            Command::Started(events) => {
                let mut events = events;
                let ghost first = broadcasts(events@);
                let ghost switched = BusView::WorkstreamSwitched {
                    from_engagement: from_engagement@,
                    client: text::trim(client@),
                    engagement: text::trim(engagement@),
                };
                events.push(
                    BusEvent::WorkstreamSwitched {
                        from_engagement: text::copy(from_engagement),
                        client: text::trim_text(client),
                        engagement: text::trim_text(engagement),
                    },
                );
                assert(broadcasts(events@) =~= first.push(switched));
                assert(first.push(switched) =~= seq![first[0], switched]);
                Command::Started(events)
            },
            other => other,
        }
    }

    // ---- submitting -------------------------------------------------------

    fn refuse(&mut self, message: String)
        ensures
            text_of(final(self).fields.error) == Some(message@),
            *final(self) == (Popup {
                fields: (Fields { error: final(self).fields.error, ..old(self).fields }),
                ..*old(self)
            }),
    {
        self.fields.error = Some(message);
    }

    /// Submits the form: the timer is started, or there is an entry to write, or the
    /// form says what is wrong with it.
    pub fn try_submit(
        &mut self,
        registry: &mut WorkstreamRegistry,
        now: Stamp,
        at: LocalTime,
    ) -> (r: Submission)
        ensures
            ({
                let c = text::trim(old(self).fields.client@);
                let e = text::trim(old(self).fields.engagement@);
                let n = text::trim(old(self).fields.narrative@);
                let b = old(self).fields.billable;
                match r {
                    Submission::Refused => {
                        &&& submit_error(*old(self)) is Some
                        &&& text_of(final(self).fields.error) == submit_error(*old(self))
                        &&& *final(self) == (Popup {
                            fields: (Fields {
                                error: final(self).fields.error,
                                ..old(self).fields
                            }),
                            ..*old(self)
                        })
                        &&& *final(registry) == *old(registry)
                    },
                    Submission::Started(events) => {
                        &&& submit_error(*old(self)) is None
                        &&& old(self).mode == PopupMode::TimerStart
                        &&& runs(final(self).timer.current, c, e, n, b, now)
                        &&& observed(old(self).cache, final(self).cache, c, e)
                        &&& used(*old(registry), *final(registry), c, e, b, now)
                        &&& text_of(final(self).toast) == Some("Timer started for "@ + c)
                        &&& *final(self) == (Popup {
                            timer: final(self).timer,
                            cache: final(self).cache,
                            toast: final(self).toast,
                            visible: false,
                            ..*old(self)
                        })
                        &&& broadcasts(events@) == seq![
                            BusView::TimerStarted { client: c, engagement: e, narrative: n },
                        ]
                    },
                    Submission::Write(entry) => {
                        &&& submit_error(*old(self)) is None
                        &&& old(self).mode != PopupMode::TimerStart
                        &&& *final(self) == *old(self)
                        &&& entry_is(
                            entry,
                            at,
                            old(self).staff@,
                            c,
                            e,
                            n,
                            typed_minutes(*old(self)),
                            b,
                            if old(self).mode == PopupMode::TimerStop {
                                EntryMethod::Timer
                            } else {
                                EntryMethod::Quick
                            },
                        )
                        &&& used(*old(registry), *final(registry), c, e, b, now)
                    },
                }
            }),
    {
        let client = text::trim_text(self.fields.client.as_str());
        if text::chars_of(client.as_str()).len() == 0 {
            self.refuse(text::copy("Client is required"));
            return Submission::Refused;
        }
        let narrative = text::trim_text(self.fields.narrative.as_str());
        if text::chars_of(narrative.as_str()).len() == 0 {
            self.refuse(text::copy("Narrative is required"));
            return Submission::Refused;
        }
        let engagement = text::trim_text(self.fields.engagement.as_str());
        let billable = self.fields.billable;
        let method = match self.mode {
            PopupMode::TimerStart => {
                if self.timer.is_running() {
                    self.refuse(text::copy("Timer: timer already running"));
                    return Submission::Refused;
                }
                let started = self.begin(
                    registry,
                    client.as_str(),
                    engagement.as_str(),
                    narrative.as_str(),
                    billable,
                    now,
                );
                let ghost told = started@;
                let mut toast = text::copy("Timer started for ");
                text::push_text(&mut toast, client.as_str());
                self.toast = Some(toast);
                self.visible = false;
                let mut events: Vec<BusEvent> = Vec::new();
                events.push(started);
                assert(broadcasts(events@) =~= seq![told]);
                return Submission::Started(events);
            },
            PopupMode::QuickEntry => EntryMethod::Quick,
            PopupMode::TimerStop => EntryMethod::Timer,
        };
        let minutes: u32 = match duration::parse(self.fields.duration_input.as_str()) {
            Ok(m) => m,
            Err(e) => {
                let mut message = text::copy("Duration: ");
                text::push_text(&mut message, e.0.as_str());
                self.refuse(message);
                return Submission::Refused;
            },
        };
        let (id, _created) = registry.touch_or_create(
            client.as_str(),
            engagement.as_str(),
            billable,
            now,
        );
        Submission::Write(
            Entry {
                timestamp: at,
                staff: self.staff.clone(),
                client,
                engagement,
                narrative,
                minutes,
                billable,
                entry_method: method,
                workstream_id: Some(id),
            },
        )
    }

    /// The entry that was submitted is written, or queued: the popup closes, and the
    /// timer stops if it was stopped here. Where it is neither, the popup stays and
    /// says why.
    pub fn submitted(&mut self, entry: &Entry, result: &WriteResult) -> (r: Report)
        ensures
            broadcasts(r.events@) == told(
                *entry,
                old(self).mode == PopupMode::TimerStop,
                *result,
            ),
            r.usage == recorded(*entry, *result),
            match *result {
                WriteResult::Error(msg) => {
                    &&& text_of(final(self).fields.error) == Some("Write failed: "@ + msg@)
                    &&& *final(self) == (Popup {
                        fields: (Fields { error: final(self).fields.error, ..old(self).fields }),
                        ..*old(self)
                    })
                },
                _ => {
                    &&& final(self).timer.current == if old(self).mode == PopupMode::TimerStop {
                        None
                    } else {
                        old(self).timer.current
                    }
                    &&& observed(
                        old(self).cache,
                        final(self).cache,
                        entry.client@,
                        entry.engagement@,
                    )
                    &&& text_of(final(self).toast) == Some(written_toast(*entry, *result))
                    &&& *final(self) == (Popup {
                        timer: final(self).timer,
                        cache: final(self).cache,
                        toast: final(self).toast,
                        visible: false,
                        ..*old(self)
                    })
                },
            },
    {
        let was_timer = match self.mode {
            PopupMode::TimerStop => true,
            _ => false,
        };
        match result {
            WriteResult::Error(msg) => {
                let mut message = text::copy("Write failed: ");
                text::push_text(&mut message, msg.as_str());
                self.refuse(message);
                return report(entry, was_timer, result);
            },
            _ => {},
        }
        self.cache.observe(entry.client.as_str(), entry.engagement.as_str());
        if was_timer {
            let _ = self.timer.stop();
        }
        let toast = match result {
            WriteResult::Written => {
                let mut t = text::copy("Logged ");
                let hours = write_tenths(decimal::tenths_of_hours(entry.minutes));
                text::push_text(&mut t, hours.as_str());
                text::push_text(&mut t, "h to ");
                text::push_text(&mut t, entry.client.as_str());
                t
            },
            _ => text::copy("CSV locked - queued, will retry"),
        };
        self.toast = Some(toast);
        self.visible = false;
        report(entry, was_timer, result)
    }
}

// ---- the form -------------------------------------------------------------

/// Suggestions are shown for something typed, unless the only one is just that.
pub fn suggestions_shown(query: &str, suggestions: &Vec<String>) -> (r: bool)
    ensures
        r == {
            let q = text::trim(query@);
            &&& q.len() > 0
            &&& suggestions@.len() > 0
            &&& !(suggestions@.len() == 1 && text::same_but_case(suggestions@[0]@, q))
        },
{
    let q = text::trim_text(query);
    if text::chars_of(q.as_str()).len() == 0 || suggestions.len() == 0 {
        return false;
    }
    !(suggestions.len() == 1 && text::eq_ignore_case(suggestions[0].as_str(), q.as_str()))
}

/// What was done with the form in one frame.
#[derive(Debug, Clone, Copy, PartialEq, Eq, Structural)]
pub enum FormAction {
    Nothing,
    Cancel,
    Submit,
}

/// Escape or the button cancels; Enter without Shift and Ctrl, or the button,
/// submits. Cancelling comes first.
pub fn form_action(
    escape: bool,
    cancel_clicked: bool,
    enter: bool,
    shift: bool,
    ctrl: bool,
    submit_clicked: bool,
) -> (r: FormAction)
    ensures
        r == if escape || cancel_clicked {
            FormAction::Cancel
        } else if submit_clicked || (enter && !shift && !ctrl) {
            FormAction::Submit
        } else {
            FormAction::Nothing
        },
{
    if escape || cancel_clicked {
        FormAction::Cancel
    } else if submit_clicked || (enter && !shift && !ctrl) {
        FormAction::Submit
    } else {
        FormAction::Nothing
    }
}

// ---- laws -----------------------------------------------------------------

/// The time in the form for stopping a timer is the nearest tenth of an hour to the
/// time that it ran, and is read as just that once it is submitted. A timer that ran
/// less than three minutes shows no time, and the form asks for one.
pub proof fn stop_form_can_be_submitted(t: RunningTimer, now: Stamp)
    ensures
        ({
            let ran = shown_minutes(t, now);
            let tenth = nearest_tenth(ran);
            &&& -3 < 6 * tenth - ran <= 3
            &&& ran >= 3 ==> duration::duration(stop_form(t, now).duration_input) == Ok::<
                nat,
                Seq<char>,
            >(6 * tenth)
        }),
{
    let tenth = nearest_tenth(shown_minutes(t, now));
    if shown_minutes(t, now) >= 3 {
        duration::tenths_read_back(tenth);
    }
}

/// What is started is what is logged: the entry of a timer that was started for a
/// pair is for that pair, and for the whole minutes since, a minute at least and
/// twelve hours at most.
pub proof fn started_timers_are_logged(
    p: Popup,
    client: Seq<char>,
    engagement: Seq<char>,
    narrative: Seq<char>,
    billable: bool,
    started: Stamp,
    now: Stamp,
    at: LocalTime,
    e: Entry,
)
    requires
        runs(p.timer.current, client, engagement, narrative, billable, started),
        stopped_entry(p, now, at, e),
    ensures
        e.client@ == client,
        e.engagement@ == engagement,
        e.narrative@ == narrative,
        e.billable == billable,
        1 <= e.minutes <= timer::SANITY_CAP_MINUTES,
        ({
            let ran = timer::minutes_between(started, now);
            1 <= ran <= timer::SANITY_CAP_MINUTES ==> e.minutes == ran
        }),
{
    assert(timer::minutes_between(started, now) >= 0);
}

/// An empty form: nothing is typed, and no error is shown.
pub proof fn empty_forms_are_empty(billable: bool)
    ensures
        empty_form(billable).client.len() == 0,
        empty_form(billable).engagement.len() == 0,
        empty_form(billable).narrative.len() == 0,
        empty_form(billable).duration_input.len() == 0,
        empty_form(billable).billable == billable,
        empty_form(billable).error is None,
{
    reveal_strlit("");
}

/// What is told of an entry: that its timer stopped, where it had one and the entry was
/// not lost, and then that it was logged, if it was written; of one that is lost nothing
/// is told.
pub proof fn what_is_told_of_an_entry(e: Entry, was_timer: bool, result: WriteResult)
    ensures
        ({
            let stop = BusView::TimerStopped { client: e.client@, minutes: e.minutes };
            let log = BusView::EntryLogged {
                staff: e.staff@,
                client: e.client@,
                engagement: e.engagement@,
                narrative: e.narrative@,
                minutes: e.minutes,
                billable: e.billable,
                method: e.entry_method,
            };
            &&& result is Written && was_timer ==> told(e, was_timer, result) == seq![stop, log]
            &&& result is Written && !was_timer ==> told(e, was_timer, result) == seq![log]
            &&& result is Queued && was_timer ==> told(e, was_timer, result) == seq![stop]
            &&& result is Queued && !was_timer ==> told(e, was_timer, result).len() == 0
            &&& result is Error ==> told(e, was_timer, result).len() == 0
            &&& result is Written ==> recorded(e, result) == Some(
                UsageEvent::EntryWritten {
                    method: e.entry_method,
                    minutes: e.minutes,
                    billable: e.billable,
                },
            )
            &&& result is Queued ==> recorded(e, result) == Some(UsageEvent::EntryQueued)
            &&& result is Error ==> recorded(e, result) is None
        }),
{
}

/// The form that stops a timer shows what was typed when it was started, and how long it
/// ran, twelve hours at most; it warns if it ran longer.
pub proof fn stop_forms_show_the_timer(t: RunningTimer, now: Stamp)
    ensures
        ({
            let f = stop_form(t, now);
            let ran = timer::minutes_between(t.started_at, now);
            &&& f.client == t.client@
            &&& f.engagement == t.engagement@
            &&& f.narrative == t.narrative@
            &&& f.billable == t.billable
            &&& f.error is Some <==> ran > 12 * 60
            &&& ran > 12 * 60 ==> shown_minutes(t, now) == 12 * 60
            &&& ran <= 12 * 60 ==> shown_minutes(t, now) == ran
        }),
{
    timer::minutes_grow(t.started_at, now, now);
    timer::minutes_are_whole_minutes(t.started_at, now);
}

/// Starting warns if a timer runs, and stopping if none does; the form then shown is
/// empty, but for that of a timer that can be stopped.
pub proof fn forms_fit_the_timer(
    mode: PopupMode,
    current: Option<RunningTimer>,
    billable: bool,
    now: Stamp,
)
    ensures
        warning(mode, current) is Some <==> (mode is TimerStart && current is Some) || (
        mode is TimerStop && current is None),
        match current {
            Some(t) => first_form(mode, current, billable, now) == if mode is TimerStop {
                stop_form(t, now)
            } else {
                empty_form(billable)
            },
            None => first_form(mode, current, billable, now) == empty_form(billable),
        },
{
}

/// Tenths are written as whole hours, a point and one digit.
pub proof fn tenths_are_written_with_one_digit(h: nat, d: nat)
    requires
        d < 10,
    ensures
        tenths_text(10 * h + d) == text::dec(h) + seq!['.', (d + 48) as char],
{
    assert((10 * h + d) / 10 == h && (10 * h + d) % 10 == d);
    text::numbers_are_written_digit_by_digit(0, d);
    assert(text::dec(d) =~= seq![(d + 48) as char]);
    assert(tenths_text(10 * h + d) =~= text::dec(h) + seq!['.', (d + 48) as char]);
}

/// A timer that runs has what it was started with and has not been asked about yet.
pub proof fn running_timers_hold_what_they_were_started_with(
    current: Option<RunningTimer>,
    client: Seq<char>,
    engagement: Seq<char>,
    narrative: Seq<char>,
    billable: bool,
    now: Stamp,
)
    requires
        runs(current, client, engagement, narrative, billable, now),
    ensures
        current is Some,
        current->0.client@ == client,
        current->0.engagement@ == engagement,
        current->0.narrative@ == narrative,
        current->0.billable == billable,
        current->0.started_at == now,
        current->0.reminder_base is None,
        !current->0.reminded,
{
}

/// A form can be submitted if client and narrative are not blank, and either a timer is
/// to be started and none runs, or the duration can be read.
pub proof fn complete_forms_can_be_submitted(p: Popup)
    ensures
        submit_error(p) is None <==> {
            &&& text::trim(p.fields.client@).len() > 0
            &&& text::trim(p.fields.narrative@).len() > 0
            &&& p.mode is TimerStart ==> p.timer.current is None
            &&& !(p.mode is TimerStart) ==> duration::duration(p.fields.duration_input@) is Ok
        },
        text::trim(p.fields.client@).len() == 0 ==> submit_error(p) == Some("Client is required"@),
        text::trim(p.fields.client@).len() > 0 && text::trim(p.fields.narrative@).len() == 0
            ==> submit_error(p) == Some("Narrative is required"@),
        duration::duration(p.fields.duration_input@) matches Ok(m) ==> typed_minutes(p) == m,
{
}

/// A stopped timer's entry has what the timer was started with, and the minutes that it
/// ran: one at least and twelve hours at most.
pub proof fn stopped_timers_are_logged_as_they_ran(p: Popup, now: Stamp, at: LocalTime, e: Entry)
    requires
        stopped_entry(p, now, at, e),
    ensures
        p.timer.current is Some,
        ({
            let t = p.timer.current->0;
            let ran = timer::minutes_between(t.started_at, now);
            &&& e.timestamp == at
            &&& e.staff@ == p.staff@
            &&& e.client@ == t.client@
            &&& e.engagement@ == t.engagement@
            &&& e.narrative@ == t.narrative@
            &&& e.billable == t.billable
            &&& e.entry_method is Timer
            &&& (e.workstream_id matches Some(id) && id@ == workstream::pair_id(
                t.client@,
                t.engagement@,
            ))
            &&& ran < 1 ==> e.minutes == 1
            &&& 1 <= ran <= 720 ==> e.minutes == ran
            &&& ran > 720 ==> e.minutes == 720
        }),
{
    let t = p.timer.current->0;
    timer::minutes_are_whole_minutes(t.started_at, now);
    timer::minutes_grow(t.started_at, now, now);
}

/// An entry is what it is said to be, field by field.
pub proof fn entries_hold_their_fields(
    e: Entry,
    at: LocalTime,
    staff: Seq<char>,
    client: Seq<char>,
    engagement: Seq<char>,
    narrative: Seq<char>,
    minutes: nat,
    billable: bool,
    method: EntryMethod,
)
    requires
        entry_is(e, at, staff, client, engagement, narrative, minutes, billable, method),
    ensures
        e.timestamp == at,
        e.staff@ == staff,
        e.client@ == client,
        e.engagement@ == engagement,
        e.narrative@ == narrative,
        e.minutes == minutes,
        e.billable == billable,
        e.entry_method == method,
        e.workstream_id is Some,
        e.workstream_id->0@ == workstream::pair_id(client, engagement),
{
}

/// After an entry the toast tells the hours to a tenth and the client, if it was written,
/// and else that it waits.
pub proof fn toasts_tell_what_became_of_the_entry(e: Entry, result: WriteResult)
    ensures
        result is Written ==> written_toast(e, result) == seq!['L', 'o', 'g', 'g', 'e', 'd', ' ']
            + tenths_text(decimal::hour_tenths(e.minutes as nat)) + seq!['h', ' ', 't', 'o', ' ']
            + e.client@,
        !(result is Written) ==> written_toast(e, result) == "CSV locked - queued, will retry"@,
{
    reveal_strlit("Logged ");
    reveal_strlit("h to ");
    assert("Logged "@ =~= seq!['L', 'o', 'g', 'g', 'e', 'd', ' ']);
    assert("h to "@ =~= seq!['h', ' ', 't', 'o', ' ']);
}

/// Work that is logged or timed is work on its workstream, and its client and engagement
/// are suggested from then on.
pub proof fn work_is_remembered(
    before: WorkstreamRegistry,
    after: WorkstreamRegistry,
    cache: Cache,
    now_cached: Cache,
    client: Seq<char>,
    engagement: Seq<char>,
    billable: bool,
    now: Stamp,
)
    requires
        used(before, after, client, engagement, billable, now),
        observed(cache, now_cached, client, engagement),
    ensures
        after.version == before.version,
        workstream::views(after.workstreams@) == workstream::touched(
            workstream::views(before.workstreams@),
            client,
            engagement,
            billable,
            now,
        ),
        text::trim(client).len() > 0 ==> exists|i: int|
            0 <= i < now_cached.clients@.len() && text::lower(
                (#[trigger] now_cached.clients@[i])@,
            ) == text::lower(text::trim(client)),
        text::trim(engagement).len() > 0 ==> exists|i: int|
            0 <= i < now_cached.engagements@.len() && text::lower(
                (#[trigger] now_cached.engagements@[i])@,
            ) == text::lower(text::trim(engagement)),
{
    lemma_name_is_known(text::texts(cache.clients@), client);
    lemma_name_is_known(text::texts(cache.engagements@), engagement);
    let clients = text::texts(now_cached.clients@);
    let engagements = text::texts(now_cached.engagements@);
    if text::trim(client).len() > 0 {
        let i = choose|i: int|
            0 <= i < clients.len() && text::lower(#[trigger] clients[i]) == text::lower(
                text::trim(client),
            );
        assert(now_cached.clients@[i]@ == clients[i]);
    }
    if text::trim(engagement).len() > 0 {
        let i = choose|i: int|
            0 <= i < engagements.len() && text::lower(#[trigger] engagements[i]) == text::lower(
                text::trim(engagement),
            );
        assert(now_cached.engagements@[i]@ == engagements[i]);
    }
}

proof fn lemma_name_is_known(values: Seq<Seq<char>>, name: Seq<char>)
    ensures
        text::trim(name).len() > 0 ==> exists|i: int|
            0 <= i < autocomplete::with_name(values, name).len() && text::lower(
                #[trigger] autocomplete::with_name(values, name)[i],
            ) == text::lower(text::trim(name)),
{
    broadcast use vstd::seq_lib::group_to_multiset_ensures;

    autocomplete::observing_adds_one_name(values, name);
    let t = text::trim(name);
    let now = autocomplete::with_name(values, name);
    if t.len() > 0 {
        if exists|i: int| 0 <= i < values.len() && text::lower(#[trigger] values[i]) == text::lower(t) {
            let i = choose|i: int|
                0 <= i < values.len() && text::lower(#[trigger] values[i]) == text::lower(t);
            assert(text::lower(now[i]) == text::lower(t));
        } else {
            let more = values.push(t);
            assert(more[values.len() as int] == t);
            assert(more.contains(t));
            assert(more.to_multiset().count(t) > 0);
            assert(now.to_multiset().count(t) > 0);
            assert(now.contains(t));
            let i = choose|i: int| 0 <= i < now.len() && now[i] == t;
            assert(text::lower(now[i]) == text::lower(t));
        }
    }
}

} // verus!
