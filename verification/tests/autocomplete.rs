use time_tracker::autocomplete::observe_one;
use time_tracker::autocomplete::parse_minimal_row;
use time_tracker::autocomplete::rank;
use time_tracker::autocomplete::rebuild_from_csvs;
use time_tracker::autocomplete::strip_quotes;
use time_tracker::autocomplete::Cache;
use time_tracker::autocomplete::Cutoff;
use time_tracker::dates::Date;
use time_tracker::dates::Stamp;

#[test]
fn rank_empty_returns_first_5() {
    let items = vec!["A", "B", "C", "D", "E", "F"]
        .into_iter()
        .map(String::from)
        .collect::<Vec<_>>();
    assert_eq!(rank(&items, ""), vec!["A", "B", "C", "D", "E"]);
}

#[test]
fn rank_prefix_before_substring() {
    let items: Vec<String> = vec!["Acme Client", "ClientCo", "MyClient"]
        .into_iter()
        .map(String::from)
        .collect();
    let r = rank(&items, "Cl");
    assert_eq!(r[0], "ClientCo", "prefix match ranks first");
    assert!(r.contains(&"Acme Client".to_string()));
    assert!(r.contains(&"MyClient".to_string()));
}

#[test]
fn rank_case_insensitive() {
    let items: Vec<String> = vec!["ClientCo", "DEFCorp"]
        .into_iter()
        .map(String::from)
        .collect();
    assert_eq!(rank(&items, "client"), vec!["ClientCo".to_string()]);
    assert_eq!(rank(&items, "DEF"), vec!["DEFCorp".to_string()]);
    assert_eq!(rank(&items, "def"), vec!["DEFCorp".to_string()]);
}

#[test]
fn rank_caps_at_5() {
    let items: Vec<String> = (0..20).map(|i| format!("Client{i:02}")).collect();
    let r = rank(&items, "Client");
    assert_eq!(r.len(), 5);
}

#[test]
fn rank_goes_by_lower_case_of_any_script() {
    let items: Vec<String> = vec!["\u{c9}cole".to_string(), "Stra\u{df}e".to_string()];
    assert_eq!(rank(&items, "\u{e9}C"), vec!["\u{c9}cole"]);
    assert_eq!(rank(&items, " STRA "), vec!["Stra\u{df}e"]);
    assert!(rank(&items, "strasse").is_empty());
}

#[test]
fn observe_dedupes_case_insensitive() {
    let mut v: Vec<String> = vec!["ClientCo".to_string()];
    observe_one(&mut v, "clientco"); // dup
    observe_one(&mut v, "Acme");
    observe_one(&mut v, "ClientCo"); // dup
    assert_eq!(v.len(), 2);
    assert!(v.contains(&"ClientCo".to_string()));
    assert!(v.contains(&"Acme".to_string()));
}

#[test]
fn observed_names_are_trimmed_and_sorted() {
    let mut c = Cache::empty();
    c.observe(" beta ", "x");
    c.observe("Alpha", "   ");
    c.observe("gamma", "Y");
    c.observe("BETA", "X");
    assert_eq!(c.clients, vec!["Alpha", "beta", "gamma"]);
    assert_eq!(c.engagements, vec!["x", "Y"]);
    assert_eq!(c.rank_clients("a"), vec!["Alpha", "beta", "gamma"]);
    assert_eq!(c.rank_engagements("y"), vec!["Y"]);
}

#[test]
fn parse_minimal_unquoted() {
    let line = "2026-05-08T15:23:11-07:00,Ryan,ClientCo,K-1,phone,18,0.30,true,quick";
    let (ts, client, eng) = parse_minimal_row(line).unwrap();
    assert_eq!(ts, "2026-05-08T15:23:11-07:00");
    assert_eq!(client, "ClientCo");
    assert_eq!(eng, "K-1");
}

#[test]
fn parse_minimal_quoted_with_comma() {
    let line = "2026-05-08T15:23:11-07:00,Ryan,\"ClientCo, LLC\",\"K-1, complex\",notes,18,0.30,true,quick";
    let (_ts, client, eng) = parse_minimal_row(line).unwrap();
    assert_eq!(client, "ClientCo, LLC");
    assert_eq!(eng, "K-1, complex");
}

#[test]
fn parse_minimal_too_few_fields() {
    let line = "ts,staff,client";
    assert!(parse_minimal_row(line).is_none());
}

#[test]
fn quotes_are_stripped_and_undoubled() {
    assert_eq!(strip_quotes("\"a \"\"b\"\"\""), "a \"b\"");
    assert_eq!(strip_quotes("plain"), "plain");
    assert_eq!(strip_quotes("\""), "\"");
}

#[test]
fn rebuilding_takes_recent_rows() {
    let cutoff = Cutoff {
        instant: Stamp { secs: 1_770_000_000, nanos: 0 }, // 2026-02-02T02:40:00Z
        date: Date { year: 2026, month: 2, day: 2 },
    };
    let new = "\u{feff}# time-tracker v0.3\r\ndate,staff,client,engagement,narrative,minutes,hours_decimal,billable,entry_method,workstream_id\r\n\
2026-02-02,R, Beta ,Audit,x,1,0.02,true,quick,\r\n\
2026-02-01,R,Old,Audit,x,1,0.02,true,quick,\r\n\
2026-02-03,R,\"Acme, Inc\",,x,1,0.02,true,quick,\r\n";
    let legacy = "\u{feff}timestamp_iso,staff,client,engagement,narrative\r\n\
2026-02-02T03:40:00+01:00,R,Edge,Tax,x\r\n\
2026-02-02T03:39:59+01:00,R,Late,Tax2,x\r\n\
garbage,R,Bad,Bad,x\r\n";
    let c = rebuild_from_csvs(
        &vec![new.as_bytes().to_vec(), legacy.as_bytes().to_vec()],
        &cutoff,
    );
    assert_eq!(c.clients, vec!["Acme, Inc", "Beta", "Edge"]);
    assert_eq!(c.engagements, vec!["Audit", "Tax"]);
}

#[test]
fn rebuilding_reads_what_is_not_utf8() {
    let cutoff = Cutoff {
        instant: Stamp { secs: 0, nanos: 0 },
        date: Date { year: 1970, month: 1, day: 1 },
    };
    let mut bytes = b"h\n2026-02-02,R,A".to_vec();
    bytes.push(0xff);
    bytes.extend_from_slice(b",E,x\n");
    let c = rebuild_from_csvs(&vec![bytes], &cutoff);
    assert_eq!(c.clients, vec!["A\u{fffd}"]);
}
