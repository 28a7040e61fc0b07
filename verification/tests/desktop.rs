use time_tracker::crash::find_recent_crash;
use time_tracker::crash::first_launch_self_test;
use time_tracker::crash::probe_payload;
use time_tracker::crash::report_file_name;
use time_tracker::crash::report_name_ok;
use time_tracker::crash::report_text;
use time_tracker::crash::surface_recent_crash;
use time_tracker::crash::url_escape;
use time_tracker::crash::Candidate;
use time_tracker::csv_writer::LocalTime;
use time_tracker::dates::Date;
use time_tracker::dates::Stamp;
use time_tracker::dispatch::binding;
use time_tracker::dispatch::conflict_notice;
use time_tracker::dispatch::hotkey_reaction;
use time_tracker::dispatch::menu_reaction;
use time_tracker::dispatch::page_request;
use time_tracker::dispatch::page_url;
use time_tracker::dispatch::pipe_request;
use time_tracker::dispatch::HotkeySlot;
use time_tracker::dispatch::MenuItem;
use time_tracker::dispatch::Page;
use time_tracker::dispatch::PageRequest;
use time_tracker::dispatch::Popover;
use time_tracker::dispatch::PopoverStep;
use time_tracker::dispatch::Registration;
use time_tracker::notify::show_continuation_reminder;
use time_tracker::notify::toast_action;
use time_tracker::notify::xml_escape;
use time_tracker::notify::ToastAction;
use time_tracker::paths::override_dir;
use time_tracker::paths::placeholders;
use time_tracker::placement::centered;
use time_tracker::placement::reposition;
use time_tracker::placement::work_area;
use time_tracker::placement::Area;
use time_tracker::placement::Placed;
use time_tracker::popover_window::PopoverWindow;
use time_tracker::popup::PopupMode;
use time_tracker::single_instance::instance_check;
use time_tracker::single_instance::pipe_message;
use time_tracker::single_instance::pipe_step;
use time_tracker::single_instance::InstanceCheck;
use time_tracker::single_instance::PipeStep;

#[test]
fn a_second_instance_asks_for_the_popup() {
    assert_eq!(pipe_request("show_quick_entry"), Some(PopupMode::QuickEntry));
    assert_eq!(pipe_request("show_timer_start"), Some(PopupMode::TimerStart));
    assert_eq!(pipe_request("show_timer_stop"), Some(PopupMode::TimerStop));
    assert_eq!(pipe_request("quit"), None);
    assert_eq!(instance_check(true, true), InstanceCheck::Second);
    assert_eq!(instance_check(true, false), InstanceCheck::First);
    assert_eq!(instance_check(false, true), InstanceCheck::First, "a launch is never blocked");
    assert_eq!(pipe_step(false, false, 0), PipeStep::WaitAndRetry);
    assert_eq!(pipe_step(true, false, 1), PipeStep::CloseAndRetry);
    assert_eq!(pipe_step(true, false, 535), PipeStep::Read);
    assert_eq!(pipe_step(true, true, 0), PipeStep::Read);
    assert_eq!(pipe_message(true, &b"hi\xff".to_vec()).as_deref(), Some("hi\u{fffd}"));
    assert_eq!(pipe_message(true, &Vec::new()), None);
    assert_eq!(pipe_message(false, &b"hi".to_vec()), None);
}

#[test]
fn the_page_asks_for_three_things() {
    assert_eq!(page_request(" hide "), Some(PageRequest::Hide));
    assert_eq!(page_request("open-recorded"), Some(PageRequest::OpenRecorded));
    assert_eq!(page_request("resize: 512 "), Some(PageRequest::Resize(512)));
    assert_eq!(page_request("resize:+5"), Some(PageRequest::Resize(5)));
    for bad in ["resize:-5", "resize:4294967296", "resize:", "resize:x", "Hide", ""] {
        assert_eq!(page_request(bad), None, "{bad}");
    }
}

#[test]
fn hotkeys_do_what_the_settings_file_says() {
    let r = hotkey_reaction(HotkeySlot::AddWorkstream, Popover::Hidden);
    assert_eq!((r.popover, r.announced), (PopoverStep::Show(Page::Add), None));
    let r = hotkey_reaction(HotkeySlot::AddWorkstream, Popover::Visible);
    assert_eq!(
        (r.popover, r.announced),
        (PopoverStep::Show(Page::Plain), Some(HotkeySlot::AddWorkstream))
    );
    let r = hotkey_reaction(HotkeySlot::AddWorkstream, Popover::Missing);
    assert_eq!(r.popover, PopoverStep::Browse(Page::Add));
    let r = hotkey_reaction(HotkeySlot::TimerStart, Popover::Visible);
    assert!(r.stop_timer);
    assert_eq!((r.popover, r.announced), (PopoverStep::Leave, Some(HotkeySlot::TimerStop)));
    let r = hotkey_reaction(HotkeySlot::TimerStop, Popover::Hidden);
    assert!(!r.stop_timer);
    assert_eq!(r.popover, PopoverStep::Show(Page::Find));
    assert_eq!(
        hotkey_reaction(HotkeySlot::PopoverToggle, Popover::Visible).popover,
        PopoverStep::Hide
    );
    assert_eq!(
        hotkey_reaction(HotkeySlot::PopoverToggle, Popover::Hidden).popover,
        PopoverStep::Show(Page::Plain)
    );
    assert_eq!(
        hotkey_reaction(HotkeySlot::PopoverToggle, Popover::Missing).popover,
        PopoverStep::Browse(Page::Plain)
    );
    assert_eq!(page_url(Page::Find), "http://localhost:17893/popover?find=1");
}

#[test]
fn only_one_menu_item_exits() {
    for item in [
        MenuItem::AddWorkstream, MenuItem::TimerStart, MenuItem::TimerStop, MenuItem::LogBlock,
        MenuItem::OpenPopover, MenuItem::Hide, MenuItem::Exit,
    ] {
        assert_eq!(menu_reaction(item, Popover::Hidden).exit, item == MenuItem::Exit);
    }
    assert_eq!(
        menu_reaction(MenuItem::LogBlock, Popover::Hidden).popup,
        Some(PopupMode::QuickEntry)
    );
    assert_eq!(
        menu_reaction(MenuItem::TimerStart, Popover::Hidden).popup,
        Some(PopupMode::TimerStart)
    );
    assert!(menu_reaction(MenuItem::TimerStop, Popover::Hidden).stop_timer);
    assert_eq!(menu_reaction(MenuItem::Hide, Popover::Visible).popover, PopoverStep::Hide);
    assert_eq!(menu_reaction(MenuItem::Hide, Popover::Hidden).popover, PopoverStep::Leave);
}

#[test]
fn combinations_can_be_rebound() {
    let (c, applied) = binding(HotkeySlot::TimerStop, &None);
    assert!(!applied && c.ctrl && c.shift && !c.alt && !c.win);
    assert_eq!(c.key, "Quote");
    let (c, applied) = binding(HotkeySlot::TimerStop, &Some("Alt+F9".to_string()));
    assert!(applied && c.alt && !c.ctrl);
    assert_eq!(c.key, "F9");
    let (c, applied) = binding(HotkeySlot::PopoverToggle, &Some("nonsense".to_string()));
    assert!(!applied);
    assert_eq!(c.key, "Slash");
}

#[test]
fn combinations_that_are_taken_are_listed() {
    let mut r = Registration::empty();
    r.record(HotkeySlot::AddWorkstream, false);
    r.record(HotkeySlot::TimerStart, true);
    r.record(HotkeySlot::PopoverToggle, false);
    assert_eq!(r.outcomes.len(), 3);
    assert_eq!(r.failures, ["Ctrl+Shift+H (add workstream)", "Ctrl+Shift+/ (popover)"]);
    let notice = conflict_notice(&r.failures).unwrap();
    assert!(notice.contains("\n\n    \u{2022} Ctrl+Shift+H (add workstream)\n    \u{2022} Ctrl+Shift+/ (popover)\n\n"));
    assert!(notice.contains("%LOCALAPPDATA%\\TimeTracker\\config.toml"));
    assert_eq!(conflict_notice(&Vec::new()), None);
    assert_eq!(HotkeySlot::TimerStart.which(), "timer_start");
}

#[test]
fn the_popover_stands_above_the_tray() {
    let area = Area { left: 0, top: 0, right: 1920, bottom: 1040 };
    assert_eq!(
        reposition(area, 384, 600, 240),
        Placed { x: 1524, y: 428, width: 384, height: 600 }
    );
    let low = Area { left: 0, top: 0, right: 1920, bottom: 400 };
    assert_eq!(reposition(low, 384, 600, 240), Placed { x: 1524, y: 12, width: 384, height: 376 });
    let tiny = Area { left: 10, top: 20, right: 100, bottom: 120 };
    assert_eq!(reposition(tiny, 384, 600, 240), Placed { x: 10, y: 20, width: 384, height: 240 });
    assert_eq!(work_area(Some(area), 1, 1), area);
    assert_eq!(work_area(None, 1920, 1080), Area { left: 0, top: 0, right: 1920, bottom: 1032 });
    assert_eq!(centered(area, 460, 280), (730, 380));
    assert_eq!(centered(tiny, 460, 280), (10, 20));
}

#[test]
fn the_popover_gives_the_focus_back() {
    let mut w = PopoverWindow::new();
    assert!(!w.is_visible());
    assert_eq!(w.dismiss(), None);
    assert_eq!(w.show(true, 7, 1), Some(Page::Add));
    assert_eq!(w.show(false, 1, 1), None);
    assert_eq!(w.prev_foreground, 7, "its own focus is not remembered");
    assert_eq!(w.dismiss(), Some(7));
    assert_eq!(w.show_find(0, 1), Page::Find);
    assert_eq!(w.toggle(9, 1), None);
    assert!(!w.is_visible());
    assert_eq!(w.toggle(9, 1), None);
    assert!(w.is_visible());
    assert_eq!(w.toggle(1, 1), Some(9));
    assert!(!w.set_content_height(600));
    assert!(w.set_content_height(100));
    assert_eq!(w.content_h, 240);
    assert!(!w.set_content_height(240));
}

#[test]
fn the_latest_crash_is_found() {
    let c = |name: &str, secs: Option<i64>| Candidate {
        name: name.to_string(),
        modified: secs.map(|secs| Stamp { secs, nanos: 0 }),
    };
    assert_eq!(find_recent_crash(&Vec::new()), None);
    assert_eq!(find_recent_crash(&vec![c("panic-1.log.seen", Some(9)), c(".keep", None)]), None);
    let files = vec![c("panic-1.log", Some(5)), c("panic-2.log", Some(9)), c("panic-3.log", Some(9)), c("x.log", Some(99)), c("panic-4.log", None)];
    assert_eq!(find_recent_crash(&files), Some(2));
    assert!(report_name_ok("panic-20260508-152311.log"));
    assert!(!report_name_ok("panic-20260508-152311.log.seen"));
    let t = LocalTime {
        date: Date { year: 2026, month: 5, day: 8 },
        hour: 9,
        minute: 3,
        second: 1,
        micros: 5,
    };
    assert_eq!(report_file_name(&t), "panic-20260508-090301.log");
}

#[test]
fn a_crash_is_reported_by_mail_if_at_all() {
    assert!(surface_recent_crash(&None).is_none());
    let n = surface_recent_crash(&Some(("C:\\x y".to_string(), Some("panic-1.log".to_string())))).unwrap();
    assert_eq!(n.title, "Time Tracker \u{2014} crash recovered");
    assert!(n.text.contains("\n\nA diagnostic was saved to:\nC:\\x y\n\n"));
    assert!(n.mailto.starts_with("mailto:?subject=Time%20Tracker%20crash%20report&body=Time%20Tracker%20crashed"));
    assert!(n.mailto.contains("C%3A%5Cx%20y"));
    assert_eq!(n.seen_name, "panic-1.log.seen");
    let n = surface_recent_crash(&Some(("p".to_string(), None))).unwrap();
    assert_eq!(n.seen_name, "panic.log.seen");
    assert_eq!(url_escape("a-b_c.d~e \u{e9}%"), "a-b_c.d~e%20%C3%A9%25");
    let r = report_text("t", "v", "p", "i", "b");
    assert_eq!(
        r,
        "Time Tracker panic\n===========================\ntimestamp:  t\nversion:    v\nplatform:   p\n\npanic info:\ni\n\nbacktrace:\nb\n"
    );
}

#[test]
fn the_first_launch_checks_the_folder() {
    let ok = first_launch_self_test(&Ok(probe_payload()), "dir");
    assert_eq!(ok, "Setup check passed: the time-log folder is writable.\n\ndir");
    let wrong = first_launch_self_test(&Ok(b"x".to_vec()), "dir");
    assert!(wrong.starts_with("Setup check FAILED: couldn't write to the time-log folder.\n\ndir\n\nthe file was written but read back wrong\n\n"));
    let failed = first_launch_self_test(&Err("denied".to_string()), "dir");
    assert!(failed.contains("\n\ndenied\n\n"));
}

#[test]
fn reminders_hold_no_markup_of_a_client() {
    assert_eq!(xml_escape("a<b>&\"c\""), "a&lt;b&gt;&amp;&quot;c&quot;");
    let xml = show_continuation_reminder("<Acme>", "Q&A");
    assert!(xml.contains("&lt;Acme&gt;"));
    assert!(xml.contains("Q&amp;A"));
    assert!(!xml.contains("<Acme>"));
    assert_eq!(toast_action("keep"), Some(ToastAction::KeepGoing));
    assert_eq!(toast_action("stop"), Some(ToastAction::Stop));
    assert_eq!(toast_action(""), None);
}

#[test]
fn folders_can_be_given() {
    assert_eq!(override_dir(&Some("d".to_string())).as_deref(), Some("d"));
    assert_eq!(override_dir(&Some(String::new())), None);
    assert_eq!(override_dir(&None), None);
    let names: Vec<(&str, &str)> = placeholders().iter().map(|p| (p.folder, p.name)).collect();
    assert_eq!(
        names,
        [
            ("", "usage.log"), ("", "autocomplete.json"), ("queue", ".keep"), ("logs", ".keep"),
            ("crashes", ".keep"),
        ]
    );
}
