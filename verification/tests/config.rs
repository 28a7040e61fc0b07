use time_tracker::config::default_config_body;
use time_tracker::config::default_staff;
use time_tracker::config::key_token_to_code;
use time_tracker::config::parse_hotkey_combo;
use time_tracker::config::Config;
use time_tracker::config::HotkeyCombo;

#[test]
fn parse_combo_basic() {
    assert_eq!(
        parse_hotkey_combo("Ctrl+Shift+H"),
        Some(HotkeyCombo { ctrl: true, alt: false, shift: true, win: false, key: "KeyH".into() })
    );
    assert_eq!(
        parse_hotkey_combo("ctrl+alt+t"),
        Some(HotkeyCombo { ctrl: true, alt: true, shift: false, win: false, key: "KeyT".into() })
    );
    assert_eq!(
        parse_hotkey_combo("Ctrl+Shift+;").map(|c| c.key),
        Some("Semicolon".into())
    );
    assert_eq!(parse_hotkey_combo("Ctrl+Shift+'").map(|c| c.key), Some("Quote".into()));
    assert_eq!(parse_hotkey_combo("Ctrl+Shift+/").map(|c| c.key), Some("Slash".into()));
    assert_eq!(parse_hotkey_combo("Win+F2").map(|c| (c.win, c.key)), Some((true, "F2".into())));
    assert_eq!(parse_hotkey_combo("Ctrl+1").map(|c| c.key), Some("Digit1".into()));
}

#[test]
fn parse_combo_rejects_bad() {
    assert_eq!(parse_hotkey_combo(""), None);
    assert_eq!(parse_hotkey_combo("H"), None, "modifier-less is refused");
    assert_eq!(parse_hotkey_combo("Hyper+H"), None, "unknown modifier");
    assert_eq!(parse_hotkey_combo("Ctrl+"), None, "no key");
    assert_eq!(parse_hotkey_combo("Ctrl+\u{20ac}"), None, "non-ascii key");
}

#[test]
fn combos_take_every_modifier_name() {
    for (word, which) in [
        ("CTRL", 0), ("Control", 0), ("alt", 1), ("SHIFT", 2), ("win", 3), ("Super", 3),
        ("META", 3), ("cmd", 3),
    ] {
        let c = parse_hotkey_combo(&format!(" {word} + x ")).unwrap();
        assert_eq!(c.ctrl, which == 0);
        assert_eq!(c.alt, which == 1);
        assert_eq!(c.shift, which == 2);
        assert_eq!(c.win, which == 3);
        assert_eq!(c.key, "KeyX");
    }
}

#[test]
fn keys_have_codes() {
    for (token, code) in [
        ("a", "KeyA"), ("Z", "KeyZ"), ("0", "Digit0"), ("f12", "F12"), ("F24", "F24"),
        ("[", "BracketLeft"), ("semicolon", "Semicolon"), ("Space", "Space"), ("return", "Enter"),
    ] {
        assert_eq!(key_token_to_code(token).as_deref(), Some(code), "{token}");
    }
    for token in ["", "fx", "hh", "esc", "\u{e9}"] {
        assert_eq!(key_token_to_code(token), None, "{token}");
    }
}

#[test]
fn settings_without_a_file() {
    assert_eq!(default_staff(&Some("kim".into()), &Some("other".into())), "kim");
    assert_eq!(default_staff(&None, &Some("other".into())), "other");
    assert_eq!(default_staff(&None, &None), "user");
    let c = Config::with_staff("kim".to_string());
    assert_eq!(c.identity.staff, "kim");
    assert!(c.defaults.billable);
    assert!(c.startup.enabled, "[startup] absent -> enabled true");
    assert_eq!(c.hotkeys.quick_entry, None);
}

#[test]
fn the_first_settings_file_reads_as_the_defaults() {
    let body = default_config_body("kim", true);
    let v: toml::Table = toml::from_str(&body).unwrap();
    assert_eq!(v["identity"]["staff"].as_str(), Some("kim"));
    assert_eq!(v["defaults"]["billable"].as_bool(), Some(true));
    assert!(!v.contains_key("hotkeys"));
    assert!(!v.contains_key("startup"));
    let uncommented: String = body
        .lines()
        .filter(|l| l.starts_with("# quick_entry") || l.starts_with("# timer_") || l.starts_with("# popover_"))
        .map(|l| format!("{}\n", &l[2..]))
        .collect();
    let keys: toml::Table = toml::from_str(&uncommented).unwrap();
    for (name, code) in [
        ("quick_entry", "KeyH"), ("timer_start", "Semicolon"), ("timer_stop", "Quote"),
        ("popover_toggle", "Slash"),
    ] {
        let c = parse_hotkey_combo(keys[name].as_str().unwrap()).unwrap();
        assert!(c.ctrl && c.shift && !c.alt && !c.win);
        assert_eq!(c.key, code);
    }
}
