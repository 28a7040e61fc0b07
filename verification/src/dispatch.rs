//! What a key combination, a menu item, a message or a page asks for.

use crate::config;
use crate::config::ComboView;
use crate::config::HotkeyCombo;
use crate::popup::PopupMode;
use crate::text;
use vstd::prelude::*;

verus! {

// ---- messages -------------------------------------------------------------

/// What a second instance asks for: the popup in a mode.
pub open spec fn asked_mode(msg: Seq<char>) -> Option<PopupMode> {
    if msg == "show_quick_entry"@ {
        Some(PopupMode::QuickEntry)
    } else if msg == "show_timer_start"@ {
        Some(PopupMode::TimerStart)
    } else if msg == "show_timer_stop"@ {
        Some(PopupMode::TimerStop)
    } else {
        None
    }
}

/// What a second instance asks for; nothing for an unknown message.
pub fn pipe_request(msg: &str) -> (r: Option<PopupMode>)
    ensures
        r == asked_mode(msg@),
{
    if text::same_text(msg, "show_quick_entry") {
        Some(PopupMode::QuickEntry)
    } else if text::same_text(msg, "show_timer_start") {
        Some(PopupMode::TimerStart)
    } else if text::same_text(msg, "show_timer_stop") {
        Some(PopupMode::TimerStop)
    } else {
        None
    }
}

/// What the popover's page asks for.
#[derive(Debug, Clone, Copy, PartialEq, Eq, Structural)]
pub enum PageRequest {
    Hide,
    OpenRecorded,
    /// The page is this high.
    Resize(u32),
}

/// What the popover's page asks for.
pub open spec fn page_asks(body: Seq<char>) -> Option<PageRequest> {
    let b = text::trim(body);
    if b == "hide"@ {
        Some(PageRequest::Hide)
    } else if b == "open-recorded"@ {
        Some(PageRequest::OpenRecorded)
    } else if text::has_prefix(b, "resize:"@) {
        match text::parse_nat(text::trim(b.skip("resize:"@.len() as int))) {
            Some(h) => if h <= u32::MAX {
                Some(PageRequest::Resize(h as u32))
            } else {
                None
            },
            None => None,
        }
    } else {
        None
    }
}

/// What the popover's page asks for; nothing for an unknown message.
pub fn page_request(body: &str) -> (r: Option<PageRequest>)
    ensures
        r == page_asks(body@),
{
    let b = text::trim_text(body);
    if text::same_text(b.as_str(), "hide") {
        return Some(PageRequest::Hide);
    }
    if text::same_text(b.as_str(), "open-recorded") {
        return Some(PageRequest::OpenRecorded);
    }
    if !text::text_starts_with(b.as_str(), "resize:") {
        return None;
    }
    let v = text::chars_of(b.as_str());
    let p = text::chars_of("resize:");
    let rest = text::piece(v.as_slice(), p.len(), v.len());
    assert(rest@ =~= b@.skip("resize:"@.len() as int));
    let rest_text = text::text_of(rest.as_slice());
    let number = text::trim_text(rest_text.as_str());
    match text::parse_u64(number.as_str(), u32::MAX as u64) {
        Some(h) => Some(PageRequest::Resize(h as u32)),
        None => None,
    }
}

// ---- key combinations and the menu ----------------------------------------

/// The actions that have a key combination.
#[derive(Debug, Clone, Copy, PartialEq, Eq, Structural)]
pub enum HotkeySlot {
    AddWorkstream,
    TimerStart,
    TimerStop,
    PopoverToggle,
}

impl HotkeySlot {
    /// The name under which registration and use are recorded.
    pub open spec fn name(self) -> Seq<char> {
        match self {
            HotkeySlot::AddWorkstream => "add_workstream"@,
            HotkeySlot::TimerStart => "timer_start"@,
            HotkeySlot::TimerStop => "timer_stop"@,
            HotkeySlot::PopoverToggle => "popover_toggle"@,
        }
    }

    /// The name under which registration and use are recorded.
    pub fn which(self) -> (r: &'static str)
        ensures
            r@ == self.name(),
    {
        match self {
            HotkeySlot::AddWorkstream => "add_workstream",
            HotkeySlot::TimerStart => "timer_start",
            HotkeySlot::TimerStop => "timer_stop",
            HotkeySlot::PopoverToggle => "popover_toggle",
        }
    }

    /// The built-in combination and what it does, in words.
    pub open spec fn words(self) -> Seq<char> {
        match self {
            HotkeySlot::AddWorkstream => "Ctrl+Shift+H (add workstream)"@,
            HotkeySlot::TimerStart => "Ctrl+Shift+; (timer start)"@,
            HotkeySlot::TimerStop => "Ctrl+Shift+' (timer stop)"@,
            HotkeySlot::PopoverToggle => "Ctrl+Shift+/ (popover)"@,
        }
    }

    /// The built-in combination and what it does, in words.
    pub fn label(self) -> (r: &'static str)
        ensures
            r@ == self.words(),
    {
        match self {
            HotkeySlot::AddWorkstream => "Ctrl+Shift+H (add workstream)",
            HotkeySlot::TimerStart => "Ctrl+Shift+; (timer start)",
            HotkeySlot::TimerStop => "Ctrl+Shift+' (timer stop)",
            HotkeySlot::PopoverToggle => "Ctrl+Shift+/ (popover)",
        }
    }

    /// The code of the built-in key.
    pub open spec fn key(self) -> Seq<char> {
        match self {
            HotkeySlot::AddWorkstream => "KeyH"@,
            HotkeySlot::TimerStart => "Semicolon"@,
            HotkeySlot::TimerStop => "Quote"@,
            HotkeySlot::PopoverToggle => "Slash"@,
        }
    }

    /// The code of the built-in key.
    pub fn default_key(self) -> (r: &'static str)
        ensures
            r@ == self.key(),
    {
        match self {
            HotkeySlot::AddWorkstream => "KeyH",
            HotkeySlot::TimerStart => "Semicolon",
            HotkeySlot::TimerStop => "Quote",
            HotkeySlot::PopoverToggle => "Slash",
        }
    }
}

/// The built-in combination of a slot.
pub open spec fn built_in(slot: HotkeySlot) -> ComboView {
    ComboView { ctrl: true, alt: false, shift: true, win: false, key: slot.key() }
}

/// The combination of a slot: the configured one, where it can be read, or the
/// built-in one. Whether it is the configured one.
pub fn binding(slot: HotkeySlot, configured: &Option<String>) -> (r: (HotkeyCombo, bool))
    ensures
        match *configured {
            Some(s) => match config::combo_of(s@) {
                Some(c) => r.0@ == c && r.1,
                None => r.0@ == built_in(slot) && !r.1,
            },
            None => r.0@ == built_in(slot) && !r.1,
        },
{
    match configured {
        Some(s) => match config::parse_hotkey_combo(s.as_str()) {
            Some(c) => {
                return (c, true);
            },
            None => {},
        },
        None => {},
    }
    let c = HotkeyCombo {
        ctrl: true,
        alt: false,
        shift: true,
        win: false,
        key: text::copy(slot.default_key()),
    };
    (c, false)
}

/// The popover's window.
#[derive(Debug, Clone, Copy, PartialEq, Eq, Structural)]
pub enum Popover {
    /// It could not be made: a browser stands in.
    Missing,
    Hidden,
    Visible,
}

/// What the popover opens on.
#[derive(Debug, Clone, Copy, PartialEq, Eq, Structural)]
pub enum Page {
    /// What was there last.
    Plain,
    /// The form for a new workstream.
    Add,
    /// The filter of the workstreams.
    Find,
}

/// What is done with the popover.
#[derive(Debug, Clone, Copy, PartialEq, Eq, Structural)]
pub enum PopoverStep {
    Leave,
    Show(Page),
    Hide,
    /// The page is opened in the browser.
    Browse(Page),
}

/// What follows a key press or a menu item.
#[derive(Debug, Clone, Copy, PartialEq, Eq, Structural)]
pub struct Reaction {
    /// The slot whose press is announced to the pages, if one is.
    pub announced: Option<HotkeySlot>,
    pub stop_timer: bool,
    pub popover: PopoverStep,
    pub popup: Option<PopupMode>,
    pub exit: bool,
}

pub open spec fn nothing() -> Reaction {
    Reaction {
        announced: None,
        stop_timer: false,
        popover: PopoverStep::Leave,
        popup: None,
        exit: false,
    }
}

/// A new workstream: a popover in view keeps its state and its page opens the form;
/// one that is not is opened on it.
pub open spec fn adding(popover: Popover) -> Reaction {
    match popover {
        Popover::Visible => Reaction {
            announced: Some(HotkeySlot::AddWorkstream),
            popover: PopoverStep::Show(Page::Plain),
            ..nothing()
        },
        Popover::Hidden => Reaction { popover: PopoverStep::Show(Page::Add), ..nothing() },
        Popover::Missing => Reaction {
            announced: Some(HotkeySlot::AddWorkstream),
            popover: PopoverStep::Browse(Page::Add),
            ..nothing()
        },
    }
}

/// The popover on a page, or the page in the browser.
pub open spec fn opening(popover: Popover, page: Page) -> PopoverStep {
    match popover {
        Popover::Missing => PopoverStep::Browse(page),
        _ => PopoverStep::Show(page),
    }
}

/// What a key press does.
pub open spec fn key_reaction(slot: HotkeySlot, popover: Popover) -> Reaction {
    match slot {
        HotkeySlot::AddWorkstream => adding(popover),
        HotkeySlot::TimerStart => Reaction {
            announced: Some(HotkeySlot::TimerStop),
            stop_timer: true,
            ..nothing()
        },
        HotkeySlot::TimerStop => Reaction { popover: opening(popover, Page::Find), ..nothing() },
        HotkeySlot::PopoverToggle => Reaction {
            announced: Some(HotkeySlot::PopoverToggle),
            popover: if popover == Popover::Visible {
                PopoverStep::Hide
            } else {
                opening(popover, Page::Plain)
            },
            ..nothing()
        },
    }
}

/// What a key press does. The first timer key stops the running timer and writes the
/// entry; the second opens the popover on its filter; starting is done there.
pub fn hotkey_reaction(slot: HotkeySlot, popover: Popover) -> (r: Reaction)
    ensures
        r == key_reaction(slot, popover),
{
    match slot {
        HotkeySlot::AddWorkstream => add_reaction(popover),
        HotkeySlot::TimerStart => Reaction {
            announced: Some(HotkeySlot::TimerStop),
            stop_timer: true,
            popover: PopoverStep::Leave,
            popup: None,
            exit: false,
        },
        HotkeySlot::TimerStop => Reaction {
            announced: None,
            stop_timer: false,
            popover: open_step(popover, Page::Find),
            popup: None,
            exit: false,
        },
        HotkeySlot::PopoverToggle => Reaction {
            announced: Some(HotkeySlot::PopoverToggle),
            stop_timer: false,
            popover: match popover {
                Popover::Visible => PopoverStep::Hide,
                _ => open_step(popover, Page::Plain),
            },
            popup: None,
            exit: false,
        },
    }
}

fn open_step(popover: Popover, page: Page) -> (r: PopoverStep)
    ensures
        r == opening(popover, page),
{
    match popover {
        Popover::Missing => PopoverStep::Browse(page),
        _ => PopoverStep::Show(page),
    }
}

fn add_reaction(popover: Popover) -> (r: Reaction)
    ensures
        r == adding(popover),
{
    let (announced, step) = match popover {
        Popover::Visible => (Some(HotkeySlot::AddWorkstream), PopoverStep::Show(Page::Plain)),
        Popover::Hidden => (None, PopoverStep::Show(Page::Add)),
        Popover::Missing => (Some(HotkeySlot::AddWorkstream), PopoverStep::Browse(Page::Add)),
    };
    Reaction { announced, stop_timer: false, popover: step, popup: None, exit: false }
}

/// The items of the tray menu.
#[derive(Debug, Clone, Copy, PartialEq, Eq, Structural)]
pub enum MenuItem {
    AddWorkstream,
    TimerStart,
    TimerStop,
    LogBlock,
    OpenPopover,
    Hide,
    Exit,
}

/// What a menu item does.
pub open spec fn item_reaction(item: MenuItem, popover: Popover) -> Reaction {
    match item {
        MenuItem::AddWorkstream => adding(popover),
        MenuItem::TimerStart => Reaction { popup: Some(PopupMode::TimerStart), ..nothing() },
        MenuItem::TimerStop => Reaction { stop_timer: true, ..nothing() },
        MenuItem::LogBlock => Reaction { popup: Some(PopupMode::QuickEntry), ..nothing() },
        MenuItem::OpenPopover => Reaction {
            popover: opening(popover, Page::Plain),
            ..nothing()
        },
        MenuItem::Hide => Reaction {
            popover: if popover == Popover::Visible {
                PopoverStep::Hide
            } else {
                PopoverStep::Leave
            },
            ..nothing()
        },
        MenuItem::Exit => Reaction { exit: true, ..nothing() },
    }
}

/// What a menu item does.
pub fn menu_reaction(item: MenuItem, popover: Popover) -> (r: Reaction)
    ensures
        r == item_reaction(item, popover),
{
    let mut r = Reaction {
        announced: None,
        stop_timer: false,
        popover: PopoverStep::Leave,
        popup: None,
        exit: false,
    };
    match item {
        MenuItem::AddWorkstream => {
            return add_reaction(popover);
        },
        MenuItem::TimerStart => {
            r.popup = Some(PopupMode::TimerStart);
        },
        MenuItem::TimerStop => {
            r.stop_timer = true;
        },
        MenuItem::LogBlock => {
            r.popup = Some(PopupMode::QuickEntry);
        },
        MenuItem::OpenPopover => {
            r.popover = open_step(popover, Page::Plain);
        },
        MenuItem::Hide => {
            match popover {
                Popover::Visible => {
                    r.popover = PopoverStep::Hide;
                },
                _ => {},
            }
        },
        MenuItem::Exit => {
            r.exit = true;
        },
    }
    r
}

/// The address of a page of the popover.
pub open spec fn address(page: Page) -> Seq<char> {
    match page {
        Page::Plain => "http://localhost:17893/popover"@,
        Page::Add => "http://localhost:17893/popover?add=1"@,
        Page::Find => "http://localhost:17893/popover?find=1"@,
    }
}

/// The address of a page of the popover.
pub fn page_url(page: Page) -> (r: &'static str)
    ensures
        r@ == address(page),
{
    match page {
        Page::Plain => "http://localhost:17893/popover",
        Page::Add => "http://localhost:17893/popover?add=1",
        Page::Find => "http://localhost:17893/popover?find=1",
    }
}

// ---- registration ---------------------------------------------------------

/// The bulleted lines of a list.
pub open spec fn bullets(items: Seq<Seq<char>>) -> Seq<char>
    decreases items.len(),
{
    if items.len() == 0 {
        Seq::empty()
    } else if items.len() == 1 {
        "    \u{2022} "@ + items[0]
    } else {
        bullets(items.drop_last()) + seq!['\n'] + ("    \u{2022} "@ + items.last())
    }
}

/// What is said of combinations that could not be registered.
pub open spec fn conflict_text(failures: Seq<Seq<char>>) -> Seq<char> {
    "Some hotkeys could not register on this machine, usually because another app already claimed the combo (Excel, Logitech Options, AHK, IME):\n\n"@
        + bullets(failures)
        + "\n\nThe tracker will still run \u{2014} affected hotkeys won't fire. To rebind, edit:\n\n%LOCALAPPDATA%\\TimeTracker\\config.toml\n\n(Or use the tray menu / right-click options to access the same actions.)"@
}

/// What is said of combinations that could not be registered; nothing where all were.
pub fn conflict_notice(failures: &Vec<String>) -> (r: Option<String>)
    ensures
        match r {
            Some(t) => failures@.len() > 0 && t@ == conflict_text(text::texts(failures@)),
            None => failures@.len() == 0,
        },
{
    if failures.len() == 0 {
        return None;
    }
    let ghost all = text::texts(failures@);
    let mut list = String::new();
    let mut i: usize = 0;
    while i < failures.len()
        invariant
            i <= failures@.len(),
            all == text::texts(failures@),
            list@ == bullets(all.take(i as int)),
        decreases failures@.len() - i,
    {
        proof {
            assert(all.take(i + 1).drop_last() =~= all.take(i as int));
            assert(all.take(i + 1).last() == failures@[i as int]@);
            assert(all.take(i + 1)[0] == all[0]);
            assert(all.take(0) =~= Seq::empty());
        }
        let ghost before = list@;
        if i > 0 {
            list.push('\n');
        }
        text::push_text(&mut list, "    \u{2022} ");
        text::push_text(&mut list, failures[i].as_str());
        let ghost line = "    \u{2022} "@ + failures@[i as int]@;
        if i > 0 {
            assert(list@ =~= before + seq!['\n'] + line);
        } else {
            assert(list@ =~= line);
        }
        i += 1;
    }
    assert(all.take(all.len() as int) =~= all);
    let mut out = text::copy(
        "Some hotkeys could not register on this machine, usually because another app already claimed the combo (Excel, Logitech Options, AHK, IME):\n\n",
    );
    text::push_text(&mut out, list.as_str());
    text::push_text(
        &mut out,
        "\n\nThe tracker will still run \u{2014} affected hotkeys won't fire. To rebind, edit:\n\n%LOCALAPPDATA%\\TimeTracker\\config.toml\n\n(Or use the tray menu / right-click options to access the same actions.)",
    );
    Some(out)
}

/// The outcomes of registration.
pub struct Registration {
    pub outcomes: Vec<(HotkeySlot, bool)>,
    /// The labels of those that failed.
    pub failures: Vec<String>,
}

/// The labels of the slots that failed.
pub open spec fn failed_labels(outcomes: Seq<(HotkeySlot, bool)>) -> Seq<Seq<char>>
    decreases outcomes.len(),
{
    if outcomes.len() == 0 {
        Seq::empty()
    } else if outcomes.last().1 {
        failed_labels(outcomes.drop_last())
    } else {
        failed_labels(outcomes.drop_last()).push(outcomes.last().0.words())
    }
}

impl Registration {
    /// Nothing is registered yet.
    pub fn empty() -> (r: Registration)
        ensures
            r.outcomes@ == Seq::<(HotkeySlot, bool)>::empty(),
            text::texts(r.failures@) == failed_labels(r.outcomes@),
    {
        let r = Registration { outcomes: Vec::new(), failures: Vec::new() };
        assert(text::texts(r.failures@) =~= Seq::<Seq<char>>::empty());
        r
    }

    /// One more slot was registered, or was not.
    pub fn record(&mut self, slot: HotkeySlot, ok: bool)
        requires
            text::texts(old(self).failures@) == failed_labels(old(self).outcomes@),
        ensures
            final(self).outcomes@ == old(self).outcomes@.push((slot, ok)),
            text::texts(final(self).failures@) == failed_labels(final(self).outcomes@),
    {
        let ghost before = text::texts(self.failures@);
        let ghost was = self.outcomes@;
        self.outcomes.push((slot, ok));
        assert(self.outcomes@.drop_last() =~= was);
        if !ok {
            self.failures.push(text::copy(slot.label()));
            assert(text::texts(self.failures@) =~= before.push(slot.words()));
        }
    }
}

// ---- laws -----------------------------------------------------------------

/// Pressing the popover's combination twice leaves the popover as it was.
pub proof fn toggling_twice_is_nothing(popover: Popover)
    requires
        popover != Popover::Missing,
    ensures
        after(after(popover, key_reaction(HotkeySlot::PopoverToggle, popover).popover), key_reaction(
            HotkeySlot::PopoverToggle,
            after(popover, key_reaction(HotkeySlot::PopoverToggle, popover).popover),
        ).popover) == popover,
{
}

/// The popover's window after a step.
pub open spec fn after(popover: Popover, step: PopoverStep) -> Popover {
    match step {
        PopoverStep::Leave => popover,
        PopoverStep::Show(_) => Popover::Visible,
        PopoverStep::Hide => Popover::Hidden,
        PopoverStep::Browse(_) => popover,
    }
}

/// Only one menu item ends the app, and no key combination does.
pub proof fn only_exit_exits(slot: HotkeySlot, item: MenuItem, popover: Popover)
    ensures
        !key_reaction(slot, popover).exit,
        item_reaction(item, popover).exit == (item == MenuItem::Exit),
{
}

/// A page that tells its height is resized to it, and one that asks for nothing known
/// gets nothing; white space around what it asks is passed over.
pub proof fn pages_are_resized_to_what_they_tell(h: nat, body: Seq<char>)
    ensures
        page_asks(body) == page_asks(text::trim(body)),
        h <= u32::MAX ==> page_asks(seq!['r', 'e', 's', 'i', 'z', 'e', ':'] + text::dec(h)) == Some(
            PageRequest::Resize(h as u32),
        ),
        page_asks(seq!['h', 'i', 'd', 'e']) == Some(PageRequest::Hide),
        text::trim(body).len() == 0 ==> page_asks(body) is None,
{
    text::trim_is_idempotent(body);
    reveal_strlit("hide");
    reveal_strlit("open-recorded");
    reveal_strlit("resize:");
    let hide = seq!['h', 'i', 'd', 'e'];
    assert("hide"@ =~= hide);
    text::plain_white_space('h');
    text::plain_white_space('e');
    text::trim_leaves(hide);
    let word = seq!['r', 'e', 's', 'i', 'z', 'e', ':'];
    assert("resize:"@ =~= word);
    let d = text::dec(h);
    let b = word + d;
    text::dec_is_digits(h);
    text::dec_reads_back(h);
    text::plain_white_space('r');
    assert(text::is_digit(d[0]));
    assert(text::is_digit(d[d.len() - 1]));
    assert(b[0] == 'r');
    assert(b.last() == d[d.len() - 1]);
    text::trim_leaves(b);
    text::trim_leaves(d);
    assert(b.take(7) =~= word);
    assert(b.skip(7) =~= d);
    assert("hide"@[0] == 'h' && "open-recorded"@[0] == 'o');
}

/// What a key does: adding a workstream shows its form, the second key stops the timer,
/// the third shows the filter, and the last one shows the popover or hides it. Where the
/// popover is missing, the browser stands in.
pub proof fn keys_do_what_they_are_for(slot: HotkeySlot, popover: Popover)
    ensures
        ({
            let r = key_reaction(slot, popover);
            let missing = popover is Missing;
            &&& r.popup is None
            &&& r.stop_timer == (slot is TimerStart)
            &&& slot is AddWorkstream ==> r.popover == match popover {
                Popover::Visible => PopoverStep::Show(Page::Plain),
                Popover::Hidden => PopoverStep::Show(Page::Add),
                Popover::Missing => PopoverStep::Browse(Page::Add),
            }
            &&& slot is TimerStart ==> r.popover is Leave
            &&& slot is TimerStop ==> r.popover == if missing {
                PopoverStep::Browse(Page::Find)
            } else {
                PopoverStep::Show(Page::Find)
            }
            &&& slot is PopoverToggle ==> r.popover == match popover {
                Popover::Visible => PopoverStep::Hide,
                Popover::Hidden => PopoverStep::Show(Page::Plain),
                Popover::Missing => PopoverStep::Browse(Page::Plain),
            }
            &&& r.announced == match slot {
                HotkeySlot::AddWorkstream => if popover is Hidden {
                    None
                } else {
                    Some(HotkeySlot::AddWorkstream)
                },
                HotkeySlot::TimerStart => Some(HotkeySlot::TimerStop),
                HotkeySlot::TimerStop => None,
                HotkeySlot::PopoverToggle => Some(HotkeySlot::PopoverToggle),
            }
        }),
{
}

/// What an item of the menu does: the two forms, the stop of the timer, the popover and
/// its form, its going, and the end of the program, each its own and nothing else.
pub proof fn items_do_what_they_are_for(item: MenuItem, popover: Popover)
    ensures
        ({
            let r = item_reaction(item, popover);
            &&& item is AddWorkstream ==> r == key_reaction(HotkeySlot::AddWorkstream, popover)
            &&& !(item is AddWorkstream) ==> r.announced is None
            &&& r.stop_timer == (item is TimerStop)
            &&& r.popup == match item {
                MenuItem::TimerStart => Some(PopupMode::TimerStart),
                MenuItem::LogBlock => Some(PopupMode::QuickEntry),
                _ => None,
            }
            &&& item is OpenPopover ==> r.popover == if popover is Missing {
                PopoverStep::Browse(Page::Plain)
            } else {
                PopoverStep::Show(Page::Plain)
            }
            &&& item is Hide ==> r.popover == if popover is Visible {
                PopoverStep::Hide
            } else {
                PopoverStep::Leave
            }
            &&& item is TimerStart || item is TimerStop || item is LogBlock || item is Exit
                ==> r.popover is Leave
        }),
{
}

/// A list has a line for each of its items, in their order, each behind a bullet.
pub proof fn bullets_stand_line_by_line(items: Seq<Seq<char>>, item: Seq<char>)
    ensures
        ({
            let line = seq![' ', ' ', ' ', ' ', '\u{2022}', ' '] + item;
            &&& bullets(Seq::empty()) == Seq::<char>::empty()
            &&& bullets(seq![item]) == line
            &&& items.len() > 0 ==> bullets(items.push(item)) == bullets(items) + seq!['\n'] + line
        }),
{
    reveal_strlit("    \u{2022} ");
    assert("    \u{2022} "@ =~= seq![' ', ' ', ' ', ' ', '\u{2022}', ' ']);
    assert(items.push(item).drop_last() =~= items);
}

/// The labels told are those of the keys that could not be had, all of them and in their
/// order.
pub proof fn failures_are_the_keys_that_could_not_be_had(
    outcomes: Seq<(HotkeySlot, bool)>,
    slot: HotkeySlot,
    ok: bool,
)
    ensures
        failed_labels(Seq::empty()) == Seq::<Seq<char>>::empty(),
        failed_labels(outcomes.push((slot, ok))) == if ok {
            failed_labels(outcomes)
        } else {
            failed_labels(outcomes).push(slot.words())
        },
{
    assert(outcomes.push((slot, ok)).drop_last() =~= outcomes);
}

/// Each key has its own combination: all four are with Ctrl and Shift alone, and no two
/// share a key.
pub proof fn keys_differ(a: HotkeySlot, b: HotkeySlot)
    requires
        a != b,
    ensures
        built_in(a).key != built_in(b).key,
        built_in(a).ctrl && built_in(a).shift && !built_in(a).alt && !built_in(a).win,
        a.name() != b.name(),
{
    reveal_strlit("KeyH");
    reveal_strlit("Semicolon");
    reveal_strlit("Quote");
    reveal_strlit("Slash");
    reveal_strlit("add_workstream");
    reveal_strlit("timer_start");
    reveal_strlit("timer_stop");
    reveal_strlit("popover_toggle");
    assert("KeyH"@.len() == 4 && "Semicolon"@.len() == 9 && "Quote"@.len() == 5 && "Slash"@.len()
        == 5);
    assert("Quote"@[0] == 'Q' && "Slash"@[0] == 'S');
    assert("add_workstream"@.len() == 14 && "timer_start"@.len() == 11 && "timer_stop"@.len() == 10
        && "popover_toggle"@.len() == 14);
    assert("add_workstream"@[0] == 'a' && "popover_toggle"@[0] == 'p');
}

/// Each message asks for its own form, and no other message for any.
pub proof fn messages_ask_for_their_forms(msg: Seq<char>)
    ensures
        asked_mode(msg) == Some(PopupMode::QuickEntry) <==> msg == "show_quick_entry"@,
        asked_mode(msg) == Some(PopupMode::TimerStart) <==> msg == "show_timer_start"@,
        asked_mode(msg) == Some(PopupMode::TimerStop) <==> msg == "show_timer_stop"@,
{
    reveal_strlit("show_quick_entry");
    reveal_strlit("show_timer_start");
    reveal_strlit("show_timer_stop");
    assert("show_quick_entry"@[5] == 'q');
    assert("show_timer_start"@.len() == 16 && "show_timer_stop"@.len() == 15);
    assert("show_timer_start"@[5] == 't');
    assert("show_quick_entry"@.len() == 16);
}

} // verus!
