//! The running timer: how long it has run, and when to ask whether it still should.
//!
//! The clock is read outside; every function here takes the present as an instant.

use crate::dates::Stamp;
use vstd::prelude::*;

verus! {

/// A timer that has run longer shows this many minutes: twelve hours.
pub const SANITY_CAP_MINUTES: u32 = 720;

/// After this many minutes without a confirmation a reminder is due.
pub const REMIND_AFTER_MIN: i64 = 240;

/// After this many minutes without a confirmation the timer is stopped.
pub const AUTOSTOP_AFTER_MIN: i64 = 300;

/// What the tick should do about the running timer.
#[derive(Debug, Clone, Copy, PartialEq, Eq, Structural)]
pub enum ContinuationState {
    /// Too early to ask, or asked and still in the hour of grace.
    Fine,
    /// Four hours into the window, and not asked yet.
    RemindDue,
    /// Five hours into the window without a confirmation: stop and log.
    AutoStopDue,
}

/// A timer that runs.
#[derive(Debug, Clone)]
pub struct RunningTimer {
    pub client: String,
    pub engagement: String,
    pub narrative: String,
    pub billable: bool,
    pub started_at: Stamp,
    /// When the timer was last confirmed; never: the window begins at the start.
    pub reminder_base: Option<Stamp>,
    /// The reminder of the present window has been shown.
    pub reminded: bool,
}

pub open spec fn billion() -> int {
    1_000_000_000
}

/// Nanoseconds since the start of 1970.
pub open spec fn instant(t: Stamp) -> int {
    t.secs * billion() + t.nanos
}

/// Whole minutes from one instant to another; none if it is earlier.
pub open spec fn minutes_between(from: Stamp, to: Stamp) -> int {
    if instant(to) < instant(from) {
        0
    } else {
        (instant(to) - instant(from)) / (60 * billion())
    }
}

/// Whole minutes from one instant to another; none if it is earlier.
pub fn whole_minutes(from: &Stamp, to: &Stamp) -> (r: i64)
    ensures
        r == minutes_between(*from, *to),
{
    let a: i128 = from.secs as i128 * 1_000_000_000 + from.nanos as i128;
    let b: i128 = to.secs as i128 * 1_000_000_000 + to.nanos as i128;
    if b < a {
        0
    } else {
        let d: i128 = b - a;
        assert(d / 60_000_000_000 <= i64::MAX);
        (d / 60_000_000_000) as i64
    }
}

impl RunningTimer {
    /// The start of the present window: the last confirmation, or the start.
    pub open spec fn base(self) -> Stamp {
        match self.reminder_base {
            Some(t) => t,
            None => self.started_at,
        }
    }

    /// Where the timer stands in its window.
    pub open spec fn continuation(self, now: Stamp) -> ContinuationState {
        let mins = minutes_between(self.base(), now);
        if mins >= AUTOSTOP_AFTER_MIN {
            ContinuationState::AutoStopDue
        } else if mins >= REMIND_AFTER_MIN && !self.reminded {
            ContinuationState::RemindDue
        } else {
            ContinuationState::Fine
        }
    }

    /// The minutes that the timer has run, up to the cap, and whether it is over it.
    pub fn elapsed_minutes(&self, now: &Stamp) -> (r: (u32, bool))
        ensures
            ({
                let raw = minutes_between(self.started_at, *now);
                &&& r.1 == (raw > SANITY_CAP_MINUTES)
                &&& r.0 == if raw > SANITY_CAP_MINUTES {
                    SANITY_CAP_MINUTES as int
                } else {
                    raw
                }
            }),
    {
        let raw: i64 = whole_minutes(&self.started_at, now);
        if raw > SANITY_CAP_MINUTES as i64 {
            (SANITY_CAP_MINUTES, true)
        } else {
            (raw as u32, false)
        }
    }

    /// The minutes that the timer has run, as the day's list shows them: at most a day.
    pub fn running_minutes(&self, now: &Stamp) -> (r: i64)
        ensures
            r == if minutes_between(self.started_at, *now) > 1440 {
                1440
            } else {
                minutes_between(self.started_at, *now)
            },
    {
        let raw: i64 = whole_minutes(&self.started_at, now);
        if raw > 1440 {
            1440
        } else {
            raw
        }
    }

    /// Where the timer stands in its window.
    pub fn continuation_state(&self, now: &Stamp) -> (r: ContinuationState)
        ensures
            r == self.continuation(*now),
    {
        let base = match self.reminder_base {
            Some(t) => t,
            None => self.started_at,
        };
        let mins: i64 = whole_minutes(&base, now);
        if mins >= AUTOSTOP_AFTER_MIN {
            ContinuationState::AutoStopDue
        } else if mins >= REMIND_AFTER_MIN && !self.reminded {
            ContinuationState::RemindDue
        } else {
            ContinuationState::Fine
        }
    }
}

/// One timer, running or not.
#[derive(Debug)]
pub struct Timer {
    pub current: Option<RunningTimer>,
}

impl Default for Timer {
    /// No timer runs.
    fn default() -> (r: Timer)
        ensures
            r.current is None,
    {
        Timer { current: None }
    }
}

impl Timer {
    /// A timer runs.
    pub fn is_running(&self) -> (r: bool)
        ensures
            r == (self.current is Some),
    {
        self.current.is_some()
    }

    /// The timer that runs.
    pub fn peek(&self) -> (r: Option<&RunningTimer>)
        ensures
            match r {
                Some(t) => self.current == Some(*t),
                None => self.current is None,
            },
    {
        match &self.current {
            Some(t) => Some(t),
            None => None,
        }
    }

    /// Starts a timer; refused while one runs.
    pub fn start(
        &mut self,
        client: String,
        engagement: String,
        narrative: String,
        billable: bool,
        now: Stamp,
    ) -> (r: Result<(), &'static str>)
        ensures
            match r {
                Ok(_) => old(self).current is None && final(self).current == Some(
                    RunningTimer {
                        client,
                        engagement,
                        narrative,
                        billable,
                        started_at: now,
                        reminder_base: None,
                        reminded: false,
                    },
                ),
                Err(e) => old(self).current is Some && e@ == "timer already running"@
                    && final(self).current == old(self).current,
            },
    {
        if self.current.is_some() {
            return Err("timer already running");
        }
        self.current = Some(
            RunningTimer {
                client,
                engagement,
                narrative,
                billable,
                started_at: now,
                reminder_base: None,
                reminded: false,
            },
        );
        Ok(())
    }

    /// Where the timer that runs stands in its window.
    pub fn continuation_state(&self, now: &Stamp) -> (r: Option<ContinuationState>)
        ensures
            r == match self.current {
                Some(t) => Some(t.continuation(*now)),
                None => None,
            },
    {
        match &self.current {
            Some(t) => Some(t.continuation_state(now)),
            None => None,
        }
    }

    /// The reminder of the present window has been shown.
    pub fn mark_reminded(&mut self)
        ensures
            final(self).current == match old(self).current {
                Some(t) => Some(RunningTimer { reminded: true, ..t }),
                None => None,
            },
    {
        let cur = self.current.take();
        self.current = match cur {
            Some(t) => {
                let mut t = t;
                t.reminded = true;
                Some(t)
            },
            None => None,
        };
    }

    /// The timer is confirmed: its window begins anew.
    pub fn ack_continue(&mut self, now: Stamp)
        ensures
            final(self).current == match old(self).current {
                Some(t) => Some(RunningTimer { reminder_base: Some(now), reminded: false, ..t }),
                None => None,
            },
    {
        let cur = self.current.take();
        self.current = match cur {
            Some(t) => {
                let mut t = t;
                t.reminder_base = Some(now);
                t.reminded = false;
                Some(t)
            },
            None => None,
        };
    }

    /// Stops the timer and hands it over.
    pub fn stop(&mut self) -> (r: Option<RunningTimer>)
        ensures
            r == old(self).current,
            final(self).current is None,
    {
        self.current.take()
    }
}

/// What is done with the file that the timer's state is kept in.
#[derive(Debug, Clone, Copy, PartialEq, Eq, Structural)]
pub enum StateFile {
    Write,
    Remove,
}

/// The file holds the timer that runs, and is gone while none does.
pub fn state_file_action(t: &Timer) -> (r: StateFile)
    ensures
        r == if t.current is Some {
            StateFile::Write
        } else {
            StateFile::Remove
        },
{
    match &t.current {
        Some(_) => StateFile::Write,
        None => StateFile::Remove,
    }
}

// ---- laws -----------------------------------------------------------------

/// A confirmation buys four hours: until then nothing is due, whatever came before.
pub proof fn confirmation_rebases_the_window(t: RunningTimer, acked: Stamp, now: Stamp)
    requires
        minutes_between(acked, now) < REMIND_AFTER_MIN,
    ensures
        (RunningTimer { reminder_base: Some(acked), reminded: false, ..t }).continuation(now)
            == ContinuationState::Fine,
{
}

/// A timer that nobody confirms is stopped after five hours, reminded or not.
pub proof fn autostop_needs_no_reminder(t: RunningTimer, now: Stamp)
    requires
        minutes_between(t.base(), now) >= AUTOSTOP_AFTER_MIN,
    ensures
        t.continuation(now) == ContinuationState::AutoStopDue,
        (RunningTimer { reminded: true, ..t }).continuation(now) == ContinuationState::AutoStopDue,
{
    let u = RunningTimer { reminded: true, ..t };
    assert(u.base() == t.base());
}

/// One window is reminded of once: after the reminder nothing is due in the hour
/// of grace.
pub proof fn reminded_once(t: RunningTimer, now: Stamp)
    requires
        minutes_between(t.base(), now) < AUTOSTOP_AFTER_MIN,
    ensures
        (RunningTimer { reminded: true, ..t }).continuation(now) == ContinuationState::Fine,
{
    let u = RunningTimer { reminded: true, ..t };
    assert(u.base() == t.base());
}

/// Time only adds minutes.
pub proof fn minutes_grow(from: Stamp, a: Stamp, b: Stamp)
    requires
        instant(a) <= instant(b),
    ensures
        0 <= minutes_between(from, a) <= minutes_between(from, b),
{
    if instant(a) >= instant(from) {
        vstd::arithmetic::div_mod::lemma_div_is_ordered(
            instant(a) - instant(from),
            instant(b) - instant(from),
            60 * billion(),
        );
    }
}

/// The minutes between two moments are the whole ones that have passed, and none where
/// the second is not after the first.
pub proof fn minutes_are_whole_minutes(from: Stamp, to: Stamp)
    ensures
        ({
            let m = minutes_between(from, to);
            let passed = (to.secs - from.secs) * 1_000_000_000 + to.nanos - from.nanos;
            &&& passed >= 0 ==> m * 60_000_000_000 <= passed < (m + 1) * 60_000_000_000
            &&& passed < 0 ==> m == 0
        }),
{
    let b = billion();
    assert(b == 1_000_000_000 && 60 * b == 60_000_000_000);
    assert(from.secs * b == from.secs * 1_000_000_000) by (nonlinear_arith)
        requires
            b == 1_000_000_000,
    ;
    assert(to.secs * b == to.secs * 1_000_000_000) by (nonlinear_arith)
        requires
            b == 1_000_000_000,
    ;
    let passed = instant(to) - instant(from);
    assert(passed / (60 * b) == passed / 60_000_000_000);
}

/// A timer is fine up to four hours after it was started or last confirmed; from then
/// on a reminder is due until it was shown, and from five hours on the timer stops.
pub proof fn timers_ask_after_four_hours_and_stop_after_five(t: RunningTimer, now: Stamp)
    ensures
        ({
            let since = match t.reminder_base {
                Some(b) => b,
                None => t.started_at,
            };
            let m = minutes_between(since, now);
            &&& t.continuation(now) is AutoStopDue <==> m >= 5 * 60
            &&& t.continuation(now) is RemindDue <==> 4 * 60 <= m < 5 * 60 && !t.reminded
            &&& t.continuation(now) is Fine <==> m < 4 * 60 || (m < 5 * 60 && t.reminded)
        }),
{
}

} // verus!
