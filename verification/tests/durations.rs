use time_tracker::decimal::minutes_of_decimal;
use time_tracker::duration::parse;
use time_tracker::duration::ParseError;

fn ok(s: &str) -> u32 {
    parse(s).unwrap_or_else(|e| panic!("expected ok for {s:?}, got {}", e.to_string()))
}

fn err_case(s: &str) {
    assert!(parse(s).is_err(), "expected error for {s:?}");
}

fn reason(s: &str) -> String {
    match parse(s) {
        Ok(m) => panic!("expected error for {s:?}, got {m}"),
        Err(ParseError(r)) => r,
    }
}

#[test]
fn decimal_03() {
    assert_eq!(ok("0.3"), 18);
}

#[test]
fn decimal_025() {
    assert_eq!(ok("0.25"), 15);
}

#[test]
fn decimal_15() {
    assert_eq!(ok("1.5"), 90);
}

#[test]
fn decimal_175() {
    assert_eq!(ok("1.75"), 105);
}

#[test]
fn minutes_18m() {
    assert_eq!(ok("18m"), 18);
}

#[test]
fn minutes_90m() {
    assert_eq!(ok("90m"), 90);
}

#[test]
fn hours_1h() {
    assert_eq!(ok("1h"), 60);
}

#[test]
fn hours_2h() {
    assert_eq!(ok("2h"), 120);
}

#[test]
fn hours_1h30m() {
    assert_eq!(ok("1h30m"), 90);
}

#[test]
fn hours_1h_space_30m() {
    assert_eq!(ok("1h 30m"), 90);
}

#[test]
fn hmm_1_15() {
    assert_eq!(ok("1:15"), 75);
}

#[test]
fn hmm_2_30() {
    assert_eq!(ok("2:30"), 150);
}

#[test]
fn upper_h() {
    assert_eq!(ok("1H"), 60);
}

#[test]
fn upper_hm() {
    assert_eq!(ok("1H30M"), 90);
}

#[test]
fn leading_trailing_ws() {
    assert_eq!(ok("  1h  "), 60);
}

#[test]
fn reject_hms() {
    err_case("1:15:30");
}

#[test]
fn reject_empty() {
    err_case("");
}

#[test]
fn reject_whitespace_only() {
    err_case("   ");
}

#[test]
fn reject_alpha() {
    err_case("abc");
}

#[test]
fn reject_zero_int() {
    err_case("0");
}

#[test]
fn reject_zero_decimal() {
    err_case("0.0");
}

#[test]
fn reject_zero_hmm() {
    err_case("00:00");
}

#[test]
fn reject_negative() {
    err_case("-0.5");
}

#[test]
fn reject_negative_int() {
    err_case("-1");
}

#[test]
fn reject_over_24h_decimal() {
    err_case("25");
}

#[test]
fn reject_over_24h_h() {
    err_case("25h");
}

#[test]
fn reject_minute_overflow_in_hmm() {
    err_case("1:60");
}

#[test]
fn reject_minute_overflow_99() {
    err_case("1:99");
}

#[test]
fn reject_no_unit_with_h_letter() {
    err_case("h");
}

#[test]
fn reject_trailing_garbage() {
    err_case("1h30");
}

#[test]
fn reject_double_h() {
    err_case("1h2h");
}

#[test]
fn reject_strange_separator() {
    err_case("1.30h");
}

#[test]
fn refused_durations_say_why() {
    assert_eq!(reason(""), "empty");
    assert_eq!(reason("   "), "empty");
    assert_eq!(reason("-0.5"), "negative not allowed");
    assert_eq!(reason("0"), "must be > 0");
    assert_eq!(reason("0.008"), "must be > 0");
    assert_eq!(reason("24.01"), "must be <= 24h");
    assert_eq!(reason("99999999h"), "must be <= 24h");
    assert_eq!(reason("abc"), "could not parse \"abc\"");
    assert_eq!(reason("a\"b"), "could not parse \"a\\\"b\"");
    assert_eq!(reason("inf"), "could not parse \"inf\"");
    assert_eq!(reason("NaN"), "could not parse \"NaN\"");
}

#[test]
fn durations_reach_from_a_minute_to_a_day() {
    assert_eq!(ok("1m"), 1);
    assert_eq!(ok("0.0084"), 1);
    assert_eq!(ok("24"), 1440);
    assert_eq!(ok("24h"), 1440);
    assert_eq!(ok("24:00"), 1440);
    assert_eq!(ok("1440m"), 1440);
    err_case("1441m");
    err_case("24:01");
}

#[test]
fn written_durations_read_back() {
    for m in 1..=1440u32 {
        assert_eq!(ok(&format!("{m}m")), m);
        assert_eq!(ok(&format!("{}h{}m", m / 60, m % 60)), m);
        assert_eq!(ok(&format!("{}m{}h", m % 60, m / 60)), m);
        assert_eq!(ok(&format!("{}:{:02}", m / 60, m % 60)), m);
    }
    for t in 1..=240u32 {
        assert_eq!(ok(&format!("{}.{}", t / 10, t % 10)), 6 * t);
    }
}

/// Minutes of decimal hours in the machine's own binary64 arithmetic.
fn by_machine(s: &str) -> u32 {
    let hours: f64 = s.parse().unwrap();
    let minutes = (hours * 60.0).round();
    if minutes > 1440.0 {
        1441
    } else {
        minutes as u32
    }
}

#[test]
fn decimal_hours_are_binary64_hours() {
    for n in 0..30000u32 {
        let s = format!("{}.{:03}", n / 1000, n % 1000);
        assert_eq!(minutes_of_decimal(&s), Some(by_machine(&s)), "{s}");
    }
    for n in 0..4000u32 {
        let s = format!("{}.{:07}", n % 24, (u64::from(n) * 104_729) % 10_000_000);
        assert_eq!(minutes_of_decimal(&s), Some(by_machine(&s)), "{s}");
    }
    for s in [
        "0.175", "0.0083333333333333333", "0.00833333333333333333333", "0.0083333333333333345",
        "0.00833333333333333399", "0.0083333333333333332", "1e0", "1.5E0", "15e-1", "+1.5", ".5",
        "5.", "1e-400", "1e-5", "0.0e999", "1000e-3", "0.4916666666666666667", "23.9916666666666666",
        "1e3", "99999999999999999999999999999999999999999999",
        "0.000000000000000000000000000000000000000000000000000000001",
    ] {
        assert_eq!(minutes_of_decimal(s), Some(by_machine(s)), "{s}");
    }
}

#[test]
fn decimal_hours_need_digits() {
    for s in ["", ".", "+", "e5", "1e", "1e+", "1.2.3", "0x10", "1_0", " 1", "--1", "1e5.5", "1e400"] {
        assert_eq!(minutes_of_decimal(s), None, "{s}");
    }
    assert_eq!(minutes_of_decimal("1.797693134862315807e308"), Some(1441));
    assert_eq!(minutes_of_decimal("1.797693134862315808e308"), None);
}
