use signal_timeline::dataset::FileData;
use signal_timeline::event::{Event, EventKind, EventValue, VisibilityEntry};
use signal_timeline::interval::Interval;
use signal_timeline::signal::{merge_on_intervals, update_signal_data, SignalData};

fn event(time: i64, kind: EventKind, name: &str, group: Option<&str>, value: EventValue) -> Event {
    Event {
        time,
        kind,
        name: name.to_string(),
        group: group.map(|g| g.to_string()),
        value,
        comment: None,
    }
}

fn on(time: i64, name: &str) -> Event {
    event(time, EventKind::OnOff, name, Some("g"), EventValue::Text("ON".to_string()))
}

fn off(time: i64, name: &str) -> Event {
    event(time, EventKind::OnOff, name, Some("g"), EventValue::Text("OFF".to_string()))
}

fn dataset(logs: Vec<Event>) -> FileData {
    let mut data = FileData {
        file_name: "run".to_string(),
        logs,
        signals: Vec::new(),
        groups: Vec::new(),
        visibility_defaults: Vec::new(),
        min_time: 0,
        max_time: 0,
    };
    data.recalc();
    data
}

fn iv(start: i64, end: i64) -> Interval {
    Interval { start, end }
}

#[test]
fn overlapping_on_off_pairs_fuse() {
    let data = dataset(vec![on(0, "X"), off(5000, "X"), on(3000, "X"), off(8000, "X")]);
    assert_eq!(data.signals.len(), 1);
    assert_eq!(data.signals[0].name, "X");
    assert_eq!(data.signals[0].on_intervals, vec![iv(0, 8000)]);
}

#[test]
fn disjoint_on_off_pairs_stay_apart() {
    let data = dataset(vec![on(0, "X"), off(1000, "X"), on(5000, "X"), off(6000, "X")]);
    assert_eq!(data.signals[0].on_intervals, vec![iv(0, 1000), iv(5000, 6000)]);
}

#[test]
fn pulse_has_fixed_width_whatever_the_payload() {
    for payload in [0i64, 1, 250, -7, i64::MAX] {
        let data = dataset(vec![event(
            2000,
            EventKind::Pulse,
            "P",
            None,
            EventValue::Number(payload),
        )]);
        assert_eq!(data.signals[0].on_intervals, vec![iv(2000, 2001)]);
    }
}

#[test]
fn pulse_without_a_number_adds_nothing() {
    let data = dataset(vec![
        event(2000, EventKind::Pulse, "P", None, EventValue::Text("5".to_string())),
        event(3000, EventKind::Pulse, "P", None, EventValue::Other),
    ]);
    assert_eq!(data.signals.len(), 1);
    assert_eq!(data.signals[0].on_intervals, Vec::<Interval>::new());
}

#[test]
fn off_without_on_is_dropped() {
    let data = dataset(vec![off(1000, "X")]);
    assert_eq!(data.signals.len(), 1);
    assert_eq!(data.signals[0].on_intervals, Vec::<Interval>::new());
    assert_eq!(data.signals[0].open_start, None);
}

#[test]
fn empty_event_list_gives_fallback_range() {
    let data = dataset(Vec::new());
    assert_eq!(data.min_time, 0);
    assert_eq!(data.max_time, 10_000);
    assert_eq!(data.signals.len(), 0);
    assert_eq!(data.groups.len(), 0);
}

#[test]
fn time_range_is_first_and_last_event() {
    let data = dataset(vec![on(1500, "A"), off(2000, "A"), on(2500, "B")]);
    assert_eq!(data.min_time, 1500);
    assert_eq!(data.max_time, 2500);
}

#[test]
fn last_on_wins() {
    let data = dataset(vec![on(0, "X"), on(2000, "X"), off(5000, "X")]);
    assert_eq!(data.signals[0].on_intervals, vec![iv(2000, 5000)]);
    assert_eq!(data.signals[0].open_start, None);
}

#[test]
fn unmatched_on_stays_pending() {
    let data = dataset(vec![on(0, "X"), off(1000, "X"), on(4000, "X")]);
    assert_eq!(data.signals[0].on_intervals, vec![iv(0, 1000)]);
    assert_eq!(data.signals[0].open_start, Some(4000));
}

#[test]
fn on_off_with_other_values_changes_nothing() {
    let data = dataset(vec![
        on(0, "X"),
        event(500, EventKind::OnOff, "X", None, EventValue::Text("on".to_string())),
        event(600, EventKind::OnOff, "X", None, EventValue::Number(1)),
        event(700, EventKind::OnOff, "X", None, EventValue::Other),
        off(1000, "X"),
    ]);
    assert_eq!(data.signals[0].on_intervals, vec![iv(0, 1000)]);
}

#[test]
fn arrow_and_unknown_kinds_have_arrow_width() {
    let data = dataset(vec![
        event(1000, EventKind::Arrow, "A", None, EventValue::Other),
        event(1000, EventKind::Other("NOTE".to_string()), "N", None, EventValue::Number(3)),
    ]);
    assert_eq!(data.signals[0].name, "A");
    assert_eq!(data.signals[0].on_intervals, vec![iv(1000, 1200)]);
    assert_eq!(data.signals[1].name, "N");
    assert_eq!(data.signals[1].on_intervals, vec![iv(1000, 1200)]);
}

#[test]
fn arrows_closer_than_their_width_fuse() {
    let data = dataset(vec![
        event(1000, EventKind::Arrow, "A", None, EventValue::Other),
        event(1100, EventKind::Arrow, "A", None, EventValue::Other),
        event(1300, EventKind::Arrow, "A", None, EventValue::Other),
        event(1501, EventKind::Arrow, "A", None, EventValue::Other),
    ]);
    assert_eq!(data.signals[0].on_intervals, vec![iv(1000, 1500), iv(1501, 1701)]);
}

#[test]
fn signals_are_in_name_order_and_unique() {
    let data = dataset(vec![on(0, "b"), on(1, "a"), on(2, "c"), off(3, "a"), on(4, "B")]);
    let names: Vec<&str> = data.signals.iter().map(|s| s.name.as_str()).collect();
    assert_eq!(names, vec!["B", "a", "b", "c"]);
}

#[test]
fn event_for_unknown_signal_changes_nothing() {
    let mut signals = vec![SignalData::new("A".to_string(), None, false)];
    update_signal_data(&mut signals, &on(0, "Z"));
    update_signal_data(&mut signals, &event(5, EventKind::Arrow, "Z", None, EventValue::Other));
    assert_eq!(signals, vec![SignalData::new("A".to_string(), None, false)]);
}

#[test]
fn update_touches_only_the_named_signal() {
    let mut signals = vec![
        SignalData::new("A".to_string(), None, false),
        SignalData::new("B".to_string(), None, true),
    ];
    update_signal_data(&mut signals, &on(10, "B"));
    update_signal_data(&mut signals, &off(30, "B"));
    assert_eq!(signals[0], SignalData::new("A".to_string(), None, false));
    assert_eq!(signals[1].on_intervals, vec![iv(10, 30)]);
    assert!(signals[1].visible);
}

#[test]
fn merging_a_signal_keeps_the_rest_of_it() {
    let mut sig = SignalData {
        name: "S".to_string(),
        group: Some("g".to_string()),
        on_intervals: vec![iv(5, 9), iv(0, 5)],
        open_start: Some(12),
        visible: true,
    };
    merge_on_intervals(&mut sig);
    assert_eq!(sig.on_intervals, vec![iv(0, 9)]);
    assert_eq!(sig.name, "S");
    assert_eq!(sig.group, Some("g".to_string()));
    assert_eq!(sig.open_start, Some(12));
    assert!(sig.visible);
}

#[test]
fn recalc_is_repeatable() {
    let mut data = dataset(vec![on(0, "X"), off(5000, "X"), on(3000, "Y"), off(8000, "Y")]);
    let first = data.clone();
    data.recalc();
    assert_eq!(data, first);
}

#[test]
fn from_events_sorts_by_time_and_keeps_ties() {
    let events = vec![
        event(3000, EventKind::Arrow, "late", None, EventValue::Other),
        on(1000, "X"),
        off(1000, "X"),
        event(0, EventKind::Arrow, "early", None, EventValue::Other),
    ];
    let data = FileData::from_events("f".to_string(), events, Vec::new());
    let order: Vec<(i64, &str)> = data.logs.iter().map(|e| (e.time, e.name.as_str())).collect();
    assert_eq!(order, vec![(0, "early"), (1000, "X"), (1000, "X"), (3000, "late")]);
    assert_eq!(data.logs[1].value, EventValue::Text("ON".to_string()));
    assert_eq!(data.logs[2].value, EventValue::Text("OFF".to_string()));
    assert_eq!(data.min_time, 0);
    assert_eq!(data.max_time, 3000);
    let x = data.signals.iter().find(|s| s.name == "X").unwrap();
    assert_eq!(x.on_intervals, vec![iv(1000, 1000)]);
}

#[test]
fn default_visibility_comes_from_the_table() {
    let entries = vec![
        VisibilityEntry { group: "g".to_string(), name: "A".to_string(), visible: true },
        VisibilityEntry { group: "h".to_string(), name: "B".to_string(), visible: true },
        VisibilityEntry { group: "g".to_string(), name: "C".to_string(), visible: true },
        VisibilityEntry { group: "g".to_string(), name: "C".to_string(), visible: false },
        VisibilityEntry { group: "".to_string(), name: "U".to_string(), visible: true },
    ];
    let events = vec![on(0, "A"), on(1, "B"), on(2, "C"), on(3, "D"),
        event(4, EventKind::Arrow, "U", None, EventValue::Other)];
    let data = FileData::from_events("f".to_string(), events, entries);
    let shown: Vec<(&str, bool)> = data.signals.iter().map(|s| (s.name.as_str(), s.visible)).collect();
    assert_eq!(shown, vec![("A", true), ("B", false), ("C", false), ("D", false), ("U", false)]);
}
