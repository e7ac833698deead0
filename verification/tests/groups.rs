use signal_timeline::dataset::{assign_default_visibility, lookup_default, read_entries, FileData};
use signal_timeline::event::{sort_events, DataFile, Event, EventKind, EventValue, LogEntry,
    VisibilityEntry};
use signal_timeline::group::{collect_names, ensure_group, ensure_signal, fill_members,
    resolve_groups, GroupData};
use signal_timeline::interval::Interval;
use signal_timeline::named::find_by_name;
use signal_timeline::signal::SignalData;
use signal_timeline::text::{rank, same_text, Rank};

fn marker(time: i64, name: &str, group: Option<&str>) -> Event {
    Event {
        time,
        kind: EventKind::Arrow,
        name: name.to_string(),
        group: group.map(|g| g.to_string()),
        value: EventValue::Other,
        comment: None,
    }
}

fn group(name: &str, members: &[&str]) -> GroupData {
    GroupData { name: name.to_string(), signals: members.iter().map(|m| m.to_string()).collect() }
}

fn entry(timestamp: &str, kind: &str, name: &str, group: Option<&str>, value: EventValue) -> LogEntry {
    LogEntry {
        timestamp: timestamp.to_string(),
        kind: kind.to_string(),
        name: name.to_string(),
        group: group.map(|g| g.to_string()),
        value,
        comment: None,
    }
}

#[test]
fn groups_and_members_are_in_name_order() {
    let events = vec![
        marker(0, "pump", Some("hydraulics")),
        marker(1, "valve", Some("hydraulics")),
        marker(2, "lamp", Some("electrics")),
        marker(3, "fuse", Some("electrics")),
        marker(4, "accumulator", Some("hydraulics")),
        marker(5, "pump", Some("hydraulics")),
    ];
    let (signals, groups) = resolve_groups(&events);
    assert_eq!(
        groups,
        vec![
            group("electrics", &["fuse", "lamp"]),
            group("hydraulics", &["accumulator", "pump", "valve"]),
        ]
    );
    let table: Vec<(&str, Option<&str>)> =
        signals.iter().map(|s| (s.name.as_str(), s.group.as_deref())).collect();
    assert_eq!(
        table,
        vec![
            ("accumulator", Some("hydraulics")),
            ("fuse", Some("electrics")),
            ("lamp", Some("electrics")),
            ("pump", Some("hydraulics")),
            ("valve", Some("hydraulics")),
        ]
    );
}

#[test]
fn first_group_wins() {
    let events = vec![
        marker(0, "s", None),
        marker(1, "s", Some("")),
        marker(2, "s", Some("first")),
        marker(3, "s", Some("second")),
    ];
    let (signals, groups) = resolve_groups(&events);
    assert_eq!(signals.len(), 1);
    assert_eq!(signals[0].group, Some("first".to_string()));
    assert_eq!(groups, vec![group("first", &["s"]), group("second", &[])]);
}

#[test]
fn ungrouped_signal_is_in_no_group() {
    let events = vec![marker(0, "a", Some("g")), marker(1, "b", None), marker(2, "c", Some(""))];
    let (signals, groups) = resolve_groups(&events);
    assert_eq!(groups, vec![group("g", &["a"])]);
    assert_eq!(signals[1].group, None);
    assert_eq!(signals[2].group, None);
    assert!(signals.iter().all(|s| !s.visible));
    assert!(signals.iter().all(|s| s.on_intervals.is_empty() && s.open_start.is_none()));
}

#[test]
fn group_order_does_not_depend_on_event_order() {
    let events = vec![
        marker(0, "d", Some("y")),
        marker(1, "b", Some("x")),
        marker(2, "a", Some("y")),
        marker(3, "c", Some("x")),
        marker(4, "e", None),
        marker(5, "a", Some("y")),
    ];
    let expected = vec![group("x", &["b", "c"]), group("y", &["a", "d"])];
    let (_, groups) = resolve_groups(&events);
    assert_eq!(groups, expected);
    let mut reversed = events.clone();
    reversed.reverse();
    let (_, groups) = resolve_groups(&reversed);
    assert_eq!(groups, expected);
    let mut rotated = events.clone();
    rotated.rotate_left(2);
    let (_, groups) = resolve_groups(&rotated);
    assert_eq!(groups, expected);
    let (_, again) = resolve_groups(&events);
    assert_eq!(again, expected);
}

#[test]
fn group_of_a_signal_with_two_groups_follows_the_first_event() {
    let forward = vec![marker(0, "s", Some("a")), marker(1, "s", Some("b"))];
    let backward = vec![marker(0, "s", Some("b")), marker(1, "s", Some("a"))];
    let (_, groups) = resolve_groups(&forward);
    assert_eq!(groups, vec![group("a", &["s"]), group("b", &[])]);
    let (_, groups) = resolve_groups(&backward);
    assert_eq!(groups, vec![group("a", &[]), group("b", &["s"])]);
}

#[test]
fn first_pass_leaves_groups_without_members() {
    let events = vec![marker(0, "a", Some("g")), marker(1, "b", Some("h"))];
    let (signals, groups) = collect_names(&events);
    assert_eq!(groups, vec![group("g", &[]), group("h", &[])]);
    assert_eq!(signals.len(), 2);
    let mut groups = groups;
    fill_members(&mut groups, &signals);
    assert_eq!(groups, vec![group("g", &["a"]), group("h", &["b"])]);
}

#[test]
fn second_pass_skips_signals_of_unknown_groups() {
    let signals = vec![
        SignalData::new("a".to_string(), Some("g".to_string()), false),
        SignalData::new("b".to_string(), Some("nowhere".to_string()), false),
        SignalData::new("c".to_string(), None, false),
        SignalData::new("d".to_string(), Some("g".to_string()), true),
    ];
    let mut groups = vec![group("g", &[]), group("h", &[])];
    fill_members(&mut groups, &signals);
    assert_eq!(groups, vec![group("g", &["a", "d"]), group("h", &[])]);
}

#[test]
fn ensure_signal_inserts_once_and_in_order() {
    let mut signals: Vec<SignalData> = Vec::new();
    assert_eq!(ensure_signal(&mut signals, &"m".to_string()), 0);
    assert_eq!(ensure_signal(&mut signals, &"a".to_string()), 0);
    assert_eq!(ensure_signal(&mut signals, &"z".to_string()), 2);
    assert_eq!(ensure_signal(&mut signals, &"m".to_string()), 1);
    let names: Vec<&str> = signals.iter().map(|s| s.name.as_str()).collect();
    assert_eq!(names, vec!["a", "m", "z"]);
}

#[test]
fn ensure_group_inserts_once_and_in_order() {
    let mut groups: Vec<GroupData> = Vec::new();
    ensure_group(&mut groups, &"m".to_string());
    ensure_group(&mut groups, &"a".to_string());
    ensure_group(&mut groups, &"m".to_string());
    assert_eq!(groups, vec![group("a", &[]), group("m", &[])]);
}

#[test]
fn find_by_name_tells_place_or_gap() {
    let names: Vec<String> = ["b", "d", "f"].iter().map(|s| s.to_string()).collect();
    assert_eq!(find_by_name(&names, "a"), Err(0));
    assert_eq!(find_by_name(&names, "b"), Ok(0));
    assert_eq!(find_by_name(&names, "c"), Err(1));
    assert_eq!(find_by_name(&names, "d"), Ok(1));
    assert_eq!(find_by_name(&names, "e"), Err(2));
    assert_eq!(find_by_name(&names, "f"), Ok(2));
    assert_eq!(find_by_name(&names, "g"), Err(3));
    assert_eq!(find_by_name(&Vec::<String>::new(), "a"), Err(0));
}

#[test]
fn rank_is_the_order_of_strings() {
    let words = ["", "a", "A", "ab", "abc", "b", "é", "z", "zz", "Z", "10", "9", "日本", "a b", "a-b"];
    for a in words {
        for b in words {
            let expected = if a < b {
                Rank::Before
            } else if a == b {
                Rank::Same
            } else {
                Rank::After
            };
            assert_eq!(rank(a, b), expected);
            assert_eq!(same_text(a, b), a == b);
        }
    }
}

#[test]
fn default_lookup_takes_the_last_match() {
    let entries = vec![
        VisibilityEntry { group: "g".to_string(), name: "a".to_string(), visible: true },
        VisibilityEntry { group: "g".to_string(), name: "b".to_string(), visible: true },
        VisibilityEntry { group: "g".to_string(), name: "a".to_string(), visible: false },
    ];
    assert!(!lookup_default(&entries, "g", "a"));
    assert!(lookup_default(&entries, "g", "b"));
    assert!(!lookup_default(&entries, "h", "b"));
    assert!(!lookup_default(&entries, "g", "c"));
    assert!(!lookup_default(&Vec::new(), "g", "a"));
}

#[test]
fn default_visibility_needs_a_group() {
    let entries = vec![
        VisibilityEntry { group: "g".to_string(), name: "a".to_string(), visible: true },
        VisibilityEntry { group: "g".to_string(), name: "b".to_string(), visible: true },
    ];
    let mut signals = vec![
        SignalData::new("a".to_string(), Some("g".to_string()), false),
        SignalData::new("b".to_string(), None, true),
        SignalData::new("c".to_string(), Some("g".to_string()), true),
    ];
    assign_default_visibility(&mut signals, &entries);
    let shown: Vec<bool> = signals.iter().map(|s| s.visible).collect();
    assert_eq!(shown, vec![true, false, false]);
}

#[test]
fn sort_events_is_stable() {
    let events = vec![
        marker(5, "a", None),
        marker(1, "b", None),
        marker(5, "c", None),
        marker(1, "d", None),
        marker(-3, "e", None),
        marker(5, "f", None),
    ];
    let sorted = sort_events(events);
    let order: Vec<(i64, &str)> = sorted.iter().map(|e| (e.time, e.name.as_str())).collect();
    assert_eq!(order, vec![(-3, "e"), (1, "b"), (1, "d"), (5, "a"), (5, "c"), (5, "f")]);
}

#[test]
fn read_entries_keeps_order_and_fields() {
    let entries = vec![
        entry("1970-01-01T00:00:02.000Z", "PULSE", "p", None, EventValue::Number(9)),
        entry("bad", "ONOFF", "q", Some("g"), EventValue::Text("ON".to_string())),
    ];
    let events = read_entries(entries);
    assert_eq!(events.len(), 2);
    assert_eq!((events[0].time, events[0].kind.clone(), events[0].name.as_str()), (2000, EventKind::Pulse, "p"));
    assert_eq!((events[1].time, events[1].kind.clone(), events[1].name.as_str()), (0, EventKind::OnOff, "q"));
    assert_eq!(events[1].group, Some("g".to_string()));
}

#[test]
fn dataset_from_file() {
    let file = DataFile {
        logs: vec![
            entry("2024-01-01T00:00:02.000Z", "ONOFF", "PUMP", Some("hydraulics"), EventValue::Text("OFF".to_string())),
            entry("2024-01-01T00:00:01.500Z", "ONOFF", "PUMP", Some("hydraulics"), EventValue::Text("ON".to_string())),
            entry("2024-01-01T00:00:03.000Z", "PULSE", "TICK", None, EventValue::Number(5)),
            entry("2024-01-01T00:00:01.000Z", "ARROW", "MARK", Some("notes"), EventValue::Other),
        ],
        default_visibility: Some(vec![VisibilityEntry {
            group: "hydraulics".to_string(),
            name: "PUMP".to_string(),
            visible: true,
        }]),
    };
    let data = FileData::from_data_file(file, "run7".to_string());
    assert_eq!(data.file_name, "run7");
    assert_eq!(data.min_time, 1_704_067_201_000);
    assert_eq!(data.max_time, 1_704_067_203_000);
    let times: Vec<i64> = data.logs.iter().map(|e| e.time - 1_704_067_200_000).collect();
    assert_eq!(times, vec![1000, 1500, 2000, 3000]);
    let summary: Vec<(&str, Option<&str>, bool, Vec<Interval>)> = data
        .signals
        .iter()
        .map(|s| (s.name.as_str(), s.group.as_deref(), s.visible, s.on_intervals.clone()))
        .collect();
    let base = 1_704_067_200_000;
    assert_eq!(
        summary,
        vec![
            ("MARK", Some("notes"), false, vec![Interval { start: base + 1000, end: base + 1200 }]),
            ("PUMP", Some("hydraulics"), true, vec![Interval { start: base + 1500, end: base + 2000 }]),
            ("TICK", None, false, vec![Interval { start: base + 3000, end: base + 3001 }]),
        ]
    );
    assert_eq!(data.groups, vec![group("hydraulics", &["PUMP"]), group("notes", &["MARK"])]);
}

#[test]
fn dataset_from_file_without_visibility_table_hides_everything() {
    let file = DataFile {
        logs: vec![entry("1970-01-01T00:00:01.000Z", "ARROW", "a", Some("g"), EventValue::Other)],
        default_visibility: None,
    };
    let data = FileData::from_data_file(file, "f".to_string());
    assert_eq!(data.signals.len(), 1);
    assert!(!data.signals[0].visible);
    assert!(data.visibility_defaults.is_empty());
}

#[test]
fn malformed_timestamps_sort_to_the_epoch() {
    let file = DataFile {
        logs: vec![
            entry("1970-01-01T00:00:01.000Z", "ARROW", "a", None, EventValue::Other),
            entry("not-a-date", "ARROW", "b", None, EventValue::Other),
        ],
        default_visibility: None,
    };
    let data = FileData::from_data_file(file, "f".to_string());
    let order: Vec<(i64, &str)> = data.logs.iter().map(|e| (e.time, e.name.as_str())).collect();
    assert_eq!(order, vec![(0, "b"), (1000, "a")]);
    assert_eq!(data.min_time, 0);
}
