//! Settings: what they are without a file, the file that a first launch leaves, and
//! the key combinations that can be written in it.

use crate::text;
use vstd::prelude::*;

verus! {

/// All settings.
#[derive(Debug, Clone)]
pub struct Config {
    pub identity: Identity,
    pub defaults: Defaults,
    pub hotkeys: Hotkeys,
    pub startup: Startup,
}

/// Who records.
#[derive(Debug, Clone)]
pub struct Identity {
    pub staff: String,
}

/// What a new entry begins with.
#[derive(Debug, Clone)]
pub struct Defaults {
    pub billable: bool,
}

/// Key combinations in place of the built-in ones.
#[derive(Debug, Clone)]
pub struct Hotkeys {
    pub quick_entry: Option<String>,
    pub timer_start: Option<String>,
    pub timer_stop: Option<String>,
    pub popover_toggle: Option<String>,
}

/// Whether the app arranges to be started with the session.
#[derive(Debug, Clone)]
pub struct Startup {
    pub enabled: bool,
}

impl Default for Defaults {
    /// Billable.
    fn default() -> (r: Defaults)
        ensures
            r.billable,
    {
        Defaults { billable: true }
    }
}

impl Default for Startup {
    /// Enabled.
    fn default() -> (r: Startup)
        ensures
            r.enabled,
    {
        Startup { enabled: true }
    }
}

impl Default for Hotkeys {
    /// The built-in ones.
    fn default() -> (r: Hotkeys)
        ensures
            r.quick_entry is None,
            r.timer_start is None,
            r.timer_stop is None,
            r.popover_toggle is None,
    {
        Hotkeys { quick_entry: None, timer_start: None, timer_stop: None, popover_toggle: None }
    }
}

/// Who records, where no file says so: the user name of the session.
pub open spec fn session_user(username: Option<String>, user: Option<String>) -> Seq<char> {
    match username {
        Some(u) => u@,
        None => match user {
            Some(u) => u@,
            None => "user"@,
        },
    }
}

/// Who records, where no file says so, from the two variables that may name the user.
pub fn default_staff(username: &Option<String>, user: &Option<String>) -> (r: String)
    ensures
        r@ == session_user(*username, *user),
{
    match username {
        Some(u) => u.clone(),
        None => match user {
            Some(u) => u.clone(),
            None => text::copy("user"),
        },
    }
}

impl Config {
    /// The settings without a file.
    pub fn with_staff(staff: String) -> (r: Config)
        ensures
            r.identity.staff@ == staff@,
            r.defaults.billable,
            r.startup.enabled,
            r.hotkeys.quick_entry is None,
            r.hotkeys.timer_start is None,
            r.hotkeys.timer_stop is None,
            r.hotkeys.popover_toggle is None,
    {
        Config {
            identity: Identity { staff },
            defaults: Defaults::default(),
            hotkeys: Hotkeys::default(),
            startup: Startup::default(),
        }
    }
}

// ---- key combinations -----------------------------------------------------

/// A key with its modifiers; the key by the name of its code.
#[derive(Debug, Clone, PartialEq, Eq)]
pub struct HotkeyCombo {
    pub ctrl: bool,
    pub alt: bool,
    pub shift: bool,
    pub win: bool,
    pub key: String,
}

#[verifier::ext_equal]
pub struct ComboView {
    pub ctrl: bool,
    pub alt: bool,
    pub shift: bool,
    pub win: bool,
    pub key: Seq<char>,
}

impl View for HotkeyCombo {
    type V = ComboView;

    open spec fn view(&self) -> ComboView {
        ComboView {
            ctrl: self.ctrl,
            alt: self.alt,
            shift: self.shift,
            win: self.win,
            key: self.key@,
        }
    }
}

/// A modifier key.
#[derive(Debug, Clone, Copy, PartialEq, Eq, Structural)]
pub enum Modifier {
    Ctrl,
    Alt,
    Shift,
    Win,
}

/// The modifier that a word names, in any case.
pub open spec fn modifier_of(word: Seq<char>) -> Option<Modifier> {
    let w = text::lower(word);
    if w == "ctrl"@ || w == "control"@ {
        Some(Modifier::Ctrl)
    } else if w == "alt"@ {
        Some(Modifier::Alt)
    } else if w == "shift"@ {
        Some(Modifier::Shift)
    } else if w == "win"@ || w == "super"@ || w == "meta"@ || w == "cmd"@ {
        Some(Modifier::Win)
    } else {
        None
    }
}

fn modifier(word: &str) -> (r: Option<Modifier>)
    ensures
        r == modifier_of(word@),
{
    let low = text::lower_text(word);
    let w = low.as_str();
    if text::same_text(w, "ctrl") || text::same_text(w, "control") {
        Some(Modifier::Ctrl)
    } else if text::same_text(w, "alt") {
        Some(Modifier::Alt)
    } else if text::same_text(w, "shift") {
        Some(Modifier::Shift)
    } else if text::same_text(w, "win") || text::same_text(w, "super") || text::same_text(w, "meta")
        || text::same_text(w, "cmd") {
        Some(Modifier::Win)
    } else {
        None
    }
}

/// The code of a key that is one punctuation mark.
pub open spec fn mark_code(c: char) -> Option<Seq<char>> {
    if c == ';' {
        Some("Semicolon"@)
    } else if c == '\'' {
        Some("Quote"@)
    } else if c == '/' {
        Some("Slash"@)
    } else if c == '\\' {
        Some("Backslash"@)
    } else if c == ',' {
        Some("Comma"@)
    } else if c == '.' {
        Some("Period"@)
    } else if c == '-' {
        Some("Minus"@)
    } else if c == '=' {
        Some("Equal"@)
    } else if c == '[' {
        Some("BracketLeft"@)
    } else if c == ']' {
        Some("BracketRight"@)
    } else if c == '`' {
        Some("Backquote"@)
    } else {
        None
    }
}

/// The code of a key that is named by a word, in capitals; function keys name themselves.
pub open spec fn word_code(w: Seq<char>) -> Option<Seq<char>> {
    if w == "SEMICOLON"@ {
        Some("Semicolon"@)
    } else if w == "QUOTE"@ || w == "APOSTROPHE"@ {
        Some("Quote"@)
    } else if w == "SLASH"@ {
        Some("Slash"@)
    } else if w == "BACKSLASH"@ {
        Some("Backslash"@)
    } else if w == "COMMA"@ {
        Some("Comma"@)
    } else if w == "PERIOD"@ || w == "DOT"@ {
        Some("Period"@)
    } else if w == "SPACE"@ {
        Some("Space"@)
    } else if w == "ENTER"@ || w == "RETURN"@ {
        Some("Enter"@)
    } else if w == "TAB"@ {
        Some("Tab"@)
    } else if w == "BACKQUOTE"@ || w == "GRAVE"@ {
        Some("Backquote"@)
    } else if w == "MINUS"@ {
        Some("Minus"@)
    } else if w == "EQUAL"@ || w == "EQUALS"@ {
        Some("Equal"@)
    } else if w.len() > 1 && w[0] == 'F' && text::all_digits(w.skip(1)) {
        Some(w)
    } else {
        None
    }
}

/// The code of a key: `KeyH`, `Digit1`, `Semicolon`, `F2`.
pub open spec fn key_code(token: Seq<char>) -> Option<Seq<char>> {
    let t = text::trim(token);
    if t.len() == 1 {
        let c = t[0];
        if text::is_upper(c) || text::is_lower(c) {
            Some("Key"@.push(text::to_upper(c)))
        } else if text::is_digit(c) {
            Some("Digit"@.push(c))
        } else {
            mark_code(c)
        }
    } else {
        word_code(text::upper(t))
    }
}

fn code_of_mark(c: char) -> (r: Option<String>)
    ensures
        match r {
            Some(s) => mark_code(c) == Some(s@),
            None => mark_code(c) is None,
        },
{
    let code = if c == ';' {
        "Semicolon"
    } else if c == '\'' {
        "Quote"
    } else if c == '/' {
        "Slash"
    } else if c == '\\' {
        "Backslash"
    } else if c == ',' {
        "Comma"
    } else if c == '.' {
        "Period"
    } else if c == '-' {
        "Minus"
    } else if c == '=' {
        "Equal"
    } else if c == '[' {
        "BracketLeft"
    } else if c == ']' {
        "BracketRight"
    } else if c == '`' {
        "Backquote"
    } else {
        return None;
    };
    Some(text::copy(code))
}

fn code_of_word(w: &str) -> (r: Option<String>)
    ensures
        match r {
            Some(s) => word_code(w@) == Some(s@),
            None => word_code(w@) is None,
        },
{
    let code = if text::same_text(w, "SEMICOLON") {
        "Semicolon"
    } else if text::same_text(w, "QUOTE") || text::same_text(w, "APOSTROPHE") {
        "Quote"
    } else if text::same_text(w, "SLASH") {
        "Slash"
    } else if text::same_text(w, "BACKSLASH") {
        "Backslash"
    } else if text::same_text(w, "COMMA") {
        "Comma"
    } else if text::same_text(w, "PERIOD") || text::same_text(w, "DOT") {
        "Period"
    } else if text::same_text(w, "SPACE") {
        "Space"
    } else if text::same_text(w, "ENTER") || text::same_text(w, "RETURN") {
        "Enter"
    } else if text::same_text(w, "TAB") {
        "Tab"
    } else if text::same_text(w, "BACKQUOTE") || text::same_text(w, "GRAVE") {
        "Backquote"
    } else if text::same_text(w, "MINUS") {
        "Minus"
    } else if text::same_text(w, "EQUAL") || text::same_text(w, "EQUALS") {
        "Equal"
    } else {
        let v = text::chars_of(w);
        if v.len() > 1 && v[0] == 'F' {
            let rest = text::piece(v.as_slice(), 1, v.len());
            assert(rest@ =~= w@.skip(1));
            if text::digits_only(rest.as_slice()) {
                return Some(text::copy(w));
            }
        }
        return None;
    };
    Some(text::copy(code))
}

/// The code of a key.
pub fn key_token_to_code(tok: &str) -> (r: Option<String>)
    ensures
        match r {
            Some(s) => key_code(tok@) == Some(s@),
            None => key_code(tok@) is None,
        },
{
    let t = text::trim_text(tok);
    let v = text::chars_of(t.as_str());
    if v.len() == 1 {
        let c = v[0];
        if ('A' <= c && c <= 'Z') || ('a' <= c && c <= 'z') {
            let mut out = text::copy("Key");
            out.push(text::upper_char(c));
            Some(out)
        } else if text::digit(c) {
            let mut out = text::copy("Digit");
            out.push(c);
            Some(out)
        } else {
            code_of_mark(c)
        }
    } else {
        let w = text::upper_text(t.as_str());
        code_of_word(w.as_str())
    }
}

/// The words between plus signs: trimmed, without empty ones.
pub open spec fn words(parts: Seq<Seq<char>>) -> Seq<Seq<char>>
    decreases parts.len(),
{
    if parts.len() == 0 {
        Seq::empty()
    } else {
        let t = text::trim(parts.last());
        if t.len() == 0 {
            words(parts.drop_last())
        } else {
            words(parts.drop_last()).push(t)
        }
    }
}

/// Some word names the modifier.
pub open spec fn names(ws: Seq<Seq<char>>, m: Modifier) -> bool {
    exists|i: int| 0 <= i < ws.len() && modifier_of(#[trigger] ws[i]) == Some(m)
}

/// What a combination says: modifiers, at least one, and a key in the end.
pub open spec fn combo_of(s: Seq<char>) -> Option<ComboView> {
    let all = words(text::split_on(s, '+'));
    let mods = all.drop_last();
    if all.len() < 2 || (exists|i: int|
        0 <= i < mods.len() && modifier_of(#[trigger] mods[i]) is None) {
        None
    } else {
        match key_code(all.last()) {
            Some(key) => Some(
                ComboView {
                    ctrl: names(mods, Modifier::Ctrl),
                    alt: names(mods, Modifier::Alt),
                    shift: names(mods, Modifier::Shift),
                    win: names(mods, Modifier::Win),
                    key,
                },
            ),
            None => None,
        }
    }
}

fn split_words(s: &str) -> (r: Vec<String>)
    ensures
        text::texts(r@) == words(text::split_on(s@, '+')),
{
    let parts = text::split(text::chars_of(s).as_slice(), '+');
    let ghost all = text::texts(parts@);
    let mut out: Vec<String> = Vec::new();
    let mut i: usize = 0;
    assert(all.take(0) =~= Seq::empty());
    assert(text::texts(out@) =~= Seq::<Seq<char>>::empty());
    while i < parts.len()
        invariant
            i <= parts@.len(),
            all == text::texts(parts@),
            text::texts(out@) == words(all.take(i as int)),
        decreases parts@.len() - i,
    {
        proof {
            assert(all.take(i + 1).drop_last() =~= all.take(i as int));
            assert(all.take(i + 1).last() == parts@[i as int]@);
        }
        let ghost outs = text::texts(out@);
        let t = text::trim_text(parts[i].as_str());
        if text::chars_of(t.as_str()).len() > 0 {
            let ghost x = t@;
            out.push(t);
            assert(text::texts(out@) =~= outs.push(x));
        }
        i += 1;
    }
    assert(all.take(all.len() as int) =~= all);
    out
}

/// Parses `Ctrl+Shift+H` and the like. A key without a modifier is refused: it
/// would be taken from every other program.
pub fn parse_hotkey_combo(s: &str) -> (r: Option<HotkeyCombo>)
    ensures
        match r {
            Some(c) => combo_of(s@) == Some(c@),
            None => combo_of(s@) is None,
        },
{
    let parts = split_words(s);
    let ghost all = text::texts(parts@);
    let ghost mods = all.drop_last();
    assert(all.len() == parts@.len());
    if parts.len() < 2 {
        return None;
    }
    let n: usize = parts.len() - 1;
    let mut ctrl = false;
    let mut alt = false;
    let mut shift = false;
    let mut win = false;
    let mut i: usize = 0;
    while i < n
        invariant
            i <= n,
            n == parts@.len() - 1,
            all == text::texts(parts@),
            mods == all.drop_last(),
            all == words(text::split_on(s@, '+')),
            forall|k: int| 0 <= k < i ==> modifier_of(#[trigger] mods[k]) is Some,
            ctrl == exists|k: int|
                0 <= k < i && modifier_of(#[trigger] mods[k]) == Some(Modifier::Ctrl),
            alt == exists|k: int|
                0 <= k < i && modifier_of(#[trigger] mods[k]) == Some(Modifier::Alt),
            shift == exists|k: int|
                0 <= k < i && modifier_of(#[trigger] mods[k]) == Some(Modifier::Shift),
            win == exists|k: int|
                0 <= k < i && modifier_of(#[trigger] mods[k]) == Some(Modifier::Win),
        decreases n - i,
    {
        assert(mods[i as int] == parts@[i as int]@);
        match modifier(parts[i].as_str()) {
            Some(Modifier::Ctrl) => {
                ctrl = true;
            },
            Some(Modifier::Alt) => {
                alt = true;
            },
            Some(Modifier::Shift) => {
                shift = true;
            },
            Some(Modifier::Win) => {
                win = true;
            },
            None => {
                return None;
            },
        }
        i += 1;
    }
    assert(all.last() == parts@[n as int]@);
    match key_token_to_code(parts[n].as_str()) {
        Some(key) => {
            let c = HotkeyCombo { ctrl, alt, shift, win, key };
            assert(c@ =~= combo_of(s@)->0);
            Some(c)
        },
        None => None,
    }
}

// ---- the file -------------------------------------------------------------

/// The file that a first launch leaves. The settings that can be changed stand in
/// it as comments.
pub open spec fn config_body(staff: Seq<char>, billable: bool) -> Seq<char> {
    "# Time Tracker \u{2014} settings. Quit and relaunch after editing.\n\n[identity]\nstaff = \""@
        + staff + "\"\n\n[defaults]\nbillable = "@ + text::bool_text(billable)
        + "\n\n# [hotkeys] \u{2014} uncomment + edit to rebind. Combo syntax: \"Ctrl+Shift+H\".\n# Use this if another app already claimed a combo (the app shows a\n# warning box on launch listing any that failed to register).\n# [hotkeys]\n# quick_entry    = \"Ctrl+Shift+H\"   # opens the popover's add-workstream form\n# timer_start    = \"Ctrl+Shift+;\"   # stops the running timer and writes the entry (no popup) \u{2014} starting happens via the popover\n# timer_stop     = \"Ctrl+Shift+'\"   # opens the popover's workstream filter (type to filter, \u{2193} to pick) \u{2014} was: stop timer\n# popover_toggle = \"Ctrl+Shift+/\"   # show / hide the popover\n\n# [startup] \u{2014} set enabled = false to stop the app arming autostart for\n# itself. (Windows also has its own toggle: Settings \u{2192} Apps \u{2192} Startup.)\n# [startup]\n# enabled = true\n"@
}

/// The file that a first launch leaves.
pub fn default_config_body(staff: &str, billable: bool) -> (r: String)
    ensures
        r@ == config_body(staff@, billable),
{
    let mut out = text::copy(
        "# Time Tracker \u{2014} settings. Quit and relaunch after editing.\n\n[identity]\nstaff = \"",
    );
    text::push_text(&mut out, staff);
    text::push_text(&mut out, "\"\n\n[defaults]\nbillable = ");
    let flag = text::flag_text(billable);
    text::push_text(&mut out, flag.as_str());
    text::push_text(
        &mut out,
        "\n\n# [hotkeys] \u{2014} uncomment + edit to rebind. Combo syntax: \"Ctrl+Shift+H\".\n# Use this if another app already claimed a combo (the app shows a\n# warning box on launch listing any that failed to register).\n# [hotkeys]\n# quick_entry    = \"Ctrl+Shift+H\"   # opens the popover's add-workstream form\n# timer_start    = \"Ctrl+Shift+;\"   # stops the running timer and writes the entry (no popup) \u{2014} starting happens via the popover\n# timer_stop     = \"Ctrl+Shift+'\"   # opens the popover's workstream filter (type to filter, \u{2193} to pick) \u{2014} was: stop timer\n# popover_toggle = \"Ctrl+Shift+/\"   # show / hide the popover\n\n# [startup] \u{2014} set enabled = false to stop the app arming autostart for\n# itself. (Windows also has its own toggle: Settings \u{2192} Apps \u{2192} Startup.)\n# [startup]\n# enabled = true\n",
    );
    out
}

// ---- laws -----------------------------------------------------------------

/// No combination is a bare key.
pub proof fn combos_have_a_modifier(s: Seq<char>)
    ensures
        combo_of(s) matches Some(c) ==> c.ctrl || c.alt || c.shift || c.win,
{
    let all = words(text::split_on(s, '+'));
    let mods = all.drop_last();
    if combo_of(s) is Some {
        let m = modifier_of(mods[0]);
        assert(m is Some);
    }
}

proof fn lemma_modifier_words()
    ensures
        "ctrl"@ =~= seq!['c', 't', 'r', 'l'],
        "control"@ =~= seq!['c', 'o', 'n', 't', 'r', 'o', 'l'],
        "alt"@ =~= seq!['a', 'l', 't'],
        "shift"@ =~= seq!['s', 'h', 'i', 'f', 't'],
        "win"@ =~= seq!['w', 'i', 'n'],
        "super"@ =~= seq!['s', 'u', 'p', 'e', 'r'],
        "meta"@ =~= seq!['m', 'e', 't', 'a'],
        "cmd"@ =~= seq!['c', 'm', 'd'],
{
    reveal_strlit("ctrl");
    reveal_strlit("control");
    reveal_strlit("alt");
    reveal_strlit("shift");
    reveal_strlit("win");
    reveal_strlit("super");
    reveal_strlit("meta");
    reveal_strlit("cmd");
}

/// The words for the modifiers, in any case: two for Ctrl, one for Alt, one for Shift and
/// four for the Windows key.
pub proof fn modifiers_have_their_words(word: Seq<char>)
    ensures
        ({
            let w = text::lower(word);
            &&& modifier_of(word) == Some(Modifier::Ctrl) <==> w == seq!['c', 't', 'r', 'l'] || w
                == seq!['c', 'o', 'n', 't', 'r', 'o', 'l']
            &&& modifier_of(word) == Some(Modifier::Alt) <==> w == seq!['a', 'l', 't']
            &&& modifier_of(word) == Some(Modifier::Shift) <==> w == seq!['s', 'h', 'i', 'f', 't']
            &&& modifier_of(word) == Some(Modifier::Win) <==> w == seq!['w', 'i', 'n'] || w
                == seq!['s', 'u', 'p', 'e', 'r'] || w == seq!['m', 'e', 't', 'a'] || w == seq!['c', 'm', 'd']
        }),
{
    lemma_modifier_words();
    let ctrl = seq!['c', 't', 'r', 'l'];
    let control = seq!['c', 'o', 'n', 't', 'r', 'o', 'l'];
    let alt = seq!['a', 'l', 't'];
    let shift = seq!['s', 'h', 'i', 'f', 't'];
    let win = seq!['w', 'i', 'n'];
    let sup = seq!['s', 'u', 'p', 'e', 'r'];
    let meta = seq!['m', 'e', 't', 'a'];
    let cmd = seq!['c', 'm', 'd'];
    assert(ctrl[0] == 'c' && alt[0] == 'a' && win[0] == 'w' && cmd[0] == 'c' && meta[0] == 'm');
    assert(shift[1] == 'h' && sup[1] == 'u');
    assert(ctrl.len() == 4 && control.len() == 7 && alt.len() == 3 && shift.len() == 5 && win.len()
        == 3 && sup.len() == 5 && meta.len() == 4 && cmd.len() == 3);
}

/// A letter in either case is the key of its capital, and a digit its own key; white
/// space around it is passed over.
pub proof fn letters_and_digits_are_keys(c: char, token: Seq<char>)
    requires
        text::trim(token) == seq![c],
    ensures
        'a' <= c <= 'z' ==> key_code(token) == Some(seq!['K', 'e', 'y', (c as u32 - 32) as char]),
        'A' <= c <= 'Z' ==> key_code(token) == Some(seq!['K', 'e', 'y', c]),
        '0' <= c <= '9' ==> key_code(token) == Some(seq!['D', 'i', 'g', 'i', 't', c]),
{
    reveal_strlit("Key");
    reveal_strlit("Digit");
    let t = seq![c];
    assert(t[0] == c);
    assert("Key"@.push(text::to_upper(c)) =~= seq!['K', 'e', 'y', text::to_upper(c)]);
    assert("Digit"@.push(c) =~= seq!['D', 'i', 'g', 'i', 't', c]);
}

/// The function keys are an `F`, in either case, and a number.
pub proof fn function_keys_are_numbered(n: nat)
    requires
        n > 0,
    ensures
        word_code(seq!['F'] + text::dec(n)) == Some(seq!['F'] + text::dec(n)),
{
    let w = seq!['F'] + text::dec(n);
    text::dec_is_digits(n);
    assert(w.skip(1) =~= text::dec(n));
    assert(w[0] == 'F');
    assert(text::is_digit(w[1])) by {
        assert(w[1] == text::dec(n)[0]);
    }
    reveal_strlit("SEMICOLON");
    reveal_strlit("QUOTE");
    reveal_strlit("APOSTROPHE");
    reveal_strlit("SLASH");
    reveal_strlit("BACKSLASH");
    reveal_strlit("COMMA");
    reveal_strlit("PERIOD");
    reveal_strlit("DOT");
    reveal_strlit("SPACE");
    reveal_strlit("ENTER");
    reveal_strlit("RETURN");
    reveal_strlit("TAB");
    reveal_strlit("BACKQUOTE");
    reveal_strlit("GRAVE");
    reveal_strlit("MINUS");
    reveal_strlit("EQUAL");
    reveal_strlit("EQUALS");
}

/// The words of a combination are what stands between its signs, each without the white
/// space around it; what is blank is passed over.
pub proof fn words_stand_between_the_signs(parts: Seq<Seq<char>>, part: Seq<char>)
    ensures
        words(Seq::empty()) == Seq::<Seq<char>>::empty(),
        words(parts.push(part)) == if text::trim(part).len() == 0 {
            words(parts)
        } else {
            words(parts).push(text::trim(part))
        },
{
    assert(parts.push(part).drop_last() =~= parts);
}

/// A combination is one modifier or more and a key behind them: it holds each modifier
/// that some word in front of the key names, and no other.
pub proof fn combinations_hold_what_they_name(s: Seq<char>)
    ensures
        ({
            let all = words(text::split_on(s, '+'));
            let n = all.len() - 1;
            &&& combo_of(s) is Some <==> n >= 1 && key_code(all[n]) is Some && forall|i: int|
                0 <= i < n ==> modifier_of(#[trigger] all[i]) is Some
            &&& combo_of(s) matches Some(c) ==> {
                &&& key_code(all[n]) == Some(c.key)
                &&& c.ctrl == exists|i: int|
                    0 <= i < n && modifier_of(#[trigger] all[i]) == Some(Modifier::Ctrl)
                &&& c.alt == exists|i: int|
                    0 <= i < n && modifier_of(#[trigger] all[i]) == Some(Modifier::Alt)
                &&& c.shift == exists|i: int|
                    0 <= i < n && modifier_of(#[trigger] all[i]) == Some(Modifier::Shift)
                &&& c.win == exists|i: int|
                    0 <= i < n && modifier_of(#[trigger] all[i]) == Some(Modifier::Win)
            }
        }),
{
    let all = words(text::split_on(s, '+'));
    let n = all.len() - 1;
    let mods = all.drop_last();
    if all.len() >= 2 {
        assert(forall|i: int| 0 <= i < n ==> #[trigger] all[i] == mods[i]);
        assert(forall|i: int| 0 <= i < n ==> all[i] == #[trigger] mods[i]);
        lemma_names(all, Modifier::Ctrl);
        lemma_names(all, Modifier::Alt);
        lemma_names(all, Modifier::Shift);
        lemma_names(all, Modifier::Win);
        if combo_of(s) is Some {
            assert forall|i: int| 0 <= i < n implies modifier_of(#[trigger] all[i]) is Some by {
                assert(modifier_of(mods[i]) is Some);
            }
        }
    }
}

proof fn lemma_names(all: Seq<Seq<char>>, m: Modifier)
    requires
        all.len() > 0,
    ensures
        names(all.drop_last(), m) == exists|i: int|
            0 <= i < all.len() - 1 && modifier_of(#[trigger] all[i]) == Some(m),
{
    let mods = all.drop_last();
    if names(mods, m) {
        let i = choose|i: int| 0 <= i < mods.len() && modifier_of(#[trigger] mods[i]) == Some(m);
        assert(all[i] == mods[i]);
    }
    if exists|i: int| 0 <= i < all.len() - 1 && modifier_of(#[trigger] all[i]) == Some(m) {
        let i = choose|i: int|
            0 <= i < all.len() - 1 && modifier_of(#[trigger] all[i]) == Some(m);
        assert(mods[i] == all[i]);
    }
}

/// The staff is the session's user by its first name, else by its second, else `user`.
pub proof fn staff_is_the_session_user(username: Option<String>, user: Option<String>)
    ensures
        username matches Some(u) ==> session_user(username, user) == u@,
        username is None ==> (user matches Some(u) ==> session_user(username, user) == u@),
        username is None && user is None ==> session_user(username, user) == seq!['u', 's', 'e', 'r'],
{
    reveal_strlit("user");
    assert("user"@ =~= seq!['u', 's', 'e', 'r']);
}

/// The keys of the marks.
pub proof fn marks_have_their_keys(c: char)
    ensures
        mark_code(';') == Some("Semicolon"@),
        mark_code('\'') == Some("Quote"@),
        mark_code('/') == Some("Slash"@),
        mark_code('\\') == Some("Backslash"@),
        mark_code(',') == Some("Comma"@),
        mark_code('.') == Some("Period"@),
        mark_code('-') == Some("Minus"@),
        mark_code('=') == Some("Equal"@),
        mark_code('[') == Some("BracketLeft"@),
        mark_code(']') == Some("BracketRight"@),
        mark_code('`') == Some("Backquote"@),
        mark_code(c) is Some ==> c == ';' || c == '\'' || c == '/' || c == '\\' || c == ',' || c == '.'
            || c == '-' || c == '=' || c == '[' || c == ']' || c == '`',
{
}

/// The words for keys, in capitals: each names its key, and with the function keys there
/// are no others.
pub proof fn words_have_their_keys(w: Seq<char>)
    requires
        w.len() == 0 || w[0] != 'F',
    ensures
        w == "SEMICOLON"@ ==> word_code(w) == Some("Semicolon"@),
        w == "QUOTE"@ || w == "APOSTROPHE"@ ==> word_code(w) == Some("Quote"@),
        w == "SLASH"@ ==> word_code(w) == Some("Slash"@),
        w == "BACKSLASH"@ ==> word_code(w) == Some("Backslash"@),
        w == "COMMA"@ ==> word_code(w) == Some("Comma"@),
        w == "PERIOD"@ || w == "DOT"@ ==> word_code(w) == Some("Period"@),
        w == "SPACE"@ ==> word_code(w) == Some("Space"@),
        w == "ENTER"@ || w == "RETURN"@ ==> word_code(w) == Some("Enter"@),
        w == "TAB"@ ==> word_code(w) == Some("Tab"@),
        w == "BACKQUOTE"@ || w == "GRAVE"@ ==> word_code(w) == Some("Backquote"@),
        w == "MINUS"@ ==> word_code(w) == Some("Minus"@),
        w == "EQUAL"@ || w == "EQUALS"@ ==> word_code(w) == Some("Equal"@),
        word_code(w) is Some ==> w == "SEMICOLON"@ || w == "QUOTE"@ || w == "APOSTROPHE"@ || w
            == "SLASH"@ || w == "BACKSLASH"@ || w == "COMMA"@ || w == "PERIOD"@ || w == "DOT"@ || w
            == "SPACE"@ || w == "ENTER"@ || w == "RETURN"@ || w == "TAB"@ || w == "BACKQUOTE"@ || w
            == "GRAVE"@ || w == "MINUS"@ || w == "EQUAL"@ || w == "EQUALS"@,
{
    reveal_strlit("SEMICOLON");
    reveal_strlit("QUOTE");
    reveal_strlit("APOSTROPHE");
    reveal_strlit("SLASH");
    reveal_strlit("BACKSLASH");
    reveal_strlit("COMMA");
    reveal_strlit("PERIOD");
    reveal_strlit("DOT");
    reveal_strlit("SPACE");
    reveal_strlit("ENTER");
    reveal_strlit("RETURN");
    reveal_strlit("TAB");
    reveal_strlit("BACKQUOTE");
    reveal_strlit("GRAVE");
    reveal_strlit("MINUS");
    reveal_strlit("EQUAL");
    reveal_strlit("EQUALS");
    assert("SEMICOLON"@[1] == 'E' && "SLASH"@[1] == 'L' && "SPACE"@[1] == 'P');
    assert("BACKSLASH"@[4] == 'S' && "BACKQUOTE"@[4] == 'Q');
    assert("QUOTE"@[0] == 'Q' && "APOSTROPHE"@[0] == 'A' && "COMMA"@[0] == 'C' && "PERIOD"@[0] == 'P'
        && "DOT"@[0] == 'D' && "ENTER"@[0] == 'E' && "RETURN"@[0] == 'R' && "TAB"@[0] == 'T'
        && "GRAVE"@[0] == 'G' && "MINUS"@[0] == 'M' && "EQUAL"@[0] == 'E' && "EQUALS"@[0] == 'E');
    assert("ENTER"@[1] == 'N' && "EQUAL"@[1] == 'Q' && "EQUALS"@[1] == 'Q');
    assert("EQUAL"@.len() == 5 && "EQUALS"@.len() == 6);
    assert("SEMICOLON"@[0] == 'S' && "SLASH"@[0] == 'S' && "SPACE"@[0] == 'S' && "BACKSLASH"@[0]
        == 'B' && "BACKQUOTE"@[0] == 'B');
}

} // verus!
