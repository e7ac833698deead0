use signal_timeline::dataset::FileData;
use signal_timeline::event::{Event, EventKind, EventValue, VisibilityEntry};
use signal_timeline::interval::Interval;
use signal_timeline::layout::{assign_layout, label_at, make_label, shown_signals, LayoutSlot,
    ShownSignal, MAX_SLOTS, PALETTE_SIZE};
use signal_timeline::visibility::{are_members_visible, global_time_range, set_members_visible};
use signal_timeline::signal::SignalData;
use signal_timeline::wave::{build_digital_wave, WavePoint};

fn marker(time: i64, name: &str, group: Option<&str>) -> Event {
    Event {
        time,
        kind: EventKind::Arrow,
        name: name.to_string(),
        group: group.map(|g| g.to_string()),
        value: EventValue::Other,
        comment: None,
    }
}

fn shown_entry(group: &str, name: &str) -> VisibilityEntry {
    VisibilityEntry { group: group.to_string(), name: name.to_string(), visible: true }
}

fn sample(file_name: &str) -> FileData {
    let events = vec![
        marker(100, "pump", Some("hydraulics")),
        marker(200, "valve", Some("hydraulics")),
        marker(300, "lamp", Some("electrics")),
        marker(400, "fuse", Some("electrics")),
        marker(500, "loose", None),
    ];
    let entries = vec![
        shown_entry("hydraulics", "pump"),
        shown_entry("hydraulics", "valve"),
        shown_entry("electrics", "lamp"),
    ];
    FileData::from_events(file_name.to_string(), events, entries)
}

fn shown(file_index: usize, name: &str, label: &str) -> ShownSignal {
    ShownSignal { file_index, name: name.to_string(), label: label.to_string() }
}

fn p(x: i64, y: u64) -> WavePoint {
    WavePoint { x, y }
}

fn iv(start: i64, end: i64) -> Interval {
    Interval { start, end }
}

fn names(list: &[&str]) -> Vec<String> {
    list.iter().map(|s| s.to_string()).collect()
}

#[test]
fn visible_order_walks_groups_then_members() {
    let data = sample("f");
    assert_eq!(data.visible_order(), names(&["lamp", "pump", "valve"]));
}

#[test]
fn visible_order_leaves_out_ungrouped_signals() {
    let mut data = sample("f");
    data.set_all_visible(true);
    assert!(data.signals.iter().all(|s| s.visible));
    assert_eq!(data.visible_order(), names(&["fuse", "lamp", "pump", "valve"]));
}

#[test]
fn labels_join_dataset_and_signal() {
    assert_eq!(make_label(&"run".to_string(), &"pump".to_string()), "run / pump");
    assert_eq!(make_label(&"".to_string(), &"".to_string()), " / ");
}

#[test]
fn shown_signals_go_dataset_by_dataset() {
    let mut second = sample("two");
    second.set_group_visible("hydraulics", false);
    let files = vec![sample("one"), second];
    assert_eq!(
        shown_signals(&files),
        vec![
            shown(0, "lamp", "one / lamp"),
            shown(0, "pump", "one / pump"),
            shown(0, "valve", "one / valve"),
            shown(1, "lamp", "two / lamp"),
        ]
    );
    assert_eq!(shown_signals(&Vec::new()), Vec::<ShownSignal>::new());
}

#[test]
fn offsets_count_down_in_steps_of_two() {
    let slots = assign_layout(vec![shown(0, "a", "f / a"), shown(0, "b", "f / b"), shown(0, "c", "f / c")]);
    let offsets: Vec<u64> = slots.iter().map(|s| s.offset).collect();
    assert_eq!(offsets, vec![5, 3, 1]);
    assert_eq!(
        slots[1],
        LayoutSlot {
            file_index: 0,
            name: "b".to_string(),
            label: "f / b".to_string(),
            color_index: 1,
            offset: 3,
        }
    );
}

#[test]
fn offsets_are_distinct_odd_and_in_range() {
    for n in [0usize, 1, 2, 7, 40] {
        let list: Vec<ShownSignal> = (0..n).map(|i| shown(i % 3, "s", "l")).collect();
        let slots = assign_layout(list);
        assert_eq!(slots.len(), n);
        let mut offsets: Vec<u64> = slots.iter().map(|s| s.offset).collect();
        for (i, o) in offsets.iter().enumerate() {
            assert_eq!(*o, ((n - i) * 2 - 1) as u64);
            assert!(*o % 2 == 1 && 1 <= *o && *o <= (2 * n - 1) as u64);
        }
        offsets.sort();
        offsets.dedup();
        assert_eq!(offsets.len(), n);
    }
}

#[test]
fn colors_go_round_the_palette() {
    let list: Vec<ShownSignal> = (0..10).map(|i| shown(if i < 6 { 0 } else { 3 }, "s", "l")).collect();
    let slots = assign_layout(list);
    let colors: Vec<usize> = slots.iter().map(|s| s.color_index).collect();
    assert_eq!(colors, vec![0, 1, 2, 3, 4, 5, 1, 2, 3, 4]);
    assert_eq!(PALETTE_SIZE, 8);
    assert_eq!(MAX_SLOTS, 1 << 30);
}

#[test]
fn colors_do_not_overflow() {
    let slots = assign_layout(vec![shown(usize::MAX, "a", "l"), shown(usize::MAX, "b", "l")]);
    assert_eq!(slots[0].color_index, usize::MAX % 8);
    assert_eq!(slots[1].color_index, (usize::MAX % 8 + 1) % 8);
}

#[test]
fn label_lookup_by_offset() {
    let slots = assign_layout(vec![shown(0, "a", "f / a"), shown(0, "b", "f / b")]);
    assert_eq!(label_at(&slots, 3), Some("f / a".to_string()));
    assert_eq!(label_at(&slots, 1), Some("f / b".to_string()));
    assert_eq!(label_at(&slots, 2), None);
    assert_eq!(label_at(&slots, 0), None);
    assert_eq!(label_at(&slots, -1), None);
    assert_eq!(label_at(&slots, 5), None);
    assert_eq!(label_at(&Vec::new(), 1), None);
}

#[test]
fn wave_of_no_intervals_is_a_baseline() {
    assert_eq!(build_digital_wave(&Vec::new(), 0, 10, 3), vec![p(0, 3), p(10, 3)]);
    assert_eq!(build_digital_wave(&Vec::new(), 10, 10, 3), vec![p(10, 3)]);
    assert_eq!(build_digital_wave(&Vec::new(), 10, 0, 3), vec![p(10, 3)]);
}

#[test]
fn wave_steps_up_and_down() {
    let wave = build_digital_wave(&vec![iv(2, 4), iv(7, 8)], 0, 10, 1);
    assert_eq!(
        wave,
        vec![
            p(0, 1), p(2, 1), p(2, 2), p(4, 2), p(4, 1),
            p(7, 1), p(7, 2), p(8, 2), p(8, 1), p(10, 1),
        ]
    );
}

#[test]
fn wave_without_gaps_at_the_ends() {
    let wave = build_digital_wave(&vec![iv(0, 10)], 0, 10, 5);
    assert_eq!(wave, vec![p(0, 5), p(0, 6), p(10, 6), p(10, 5)]);
}

#[test]
fn wave_that_outruns_the_range() {
    let wave = build_digital_wave(&vec![iv(-5, 3), iv(8, 20)], 0, 10, 0);
    assert_eq!(
        wave,
        vec![p(0, 0), p(-5, 1), p(3, 1), p(3, 0), p(8, 0), p(8, 1), p(20, 1), p(20, 0)]
    );
}

#[test]
fn single_signal_visibility() {
    let mut data = sample("f");
    data.set_signal_visible("fuse", true);
    data.set_signal_visible("pump", false);
    data.set_signal_visible("nobody", true);
    let table: Vec<(&str, bool)> = data.signals.iter().map(|s| (s.name.as_str(), s.visible)).collect();
    assert_eq!(
        table,
        vec![("fuse", true), ("lamp", true), ("loose", false), ("pump", false), ("valve", true)]
    );
}

#[test]
fn group_visibility() {
    let mut data = sample("f");
    assert!(data.group_all_visible("hydraulics"));
    assert!(!data.group_all_visible("electrics"));
    assert!(data.group_all_visible("no such group"));
    data.set_group_visible("electrics", true);
    assert!(data.group_all_visible("electrics"));
    data.set_group_visible("hydraulics", false);
    data.set_group_visible("no such group", true);
    let table: Vec<(&str, bool)> = data.signals.iter().map(|s| (s.name.as_str(), s.visible)).collect();
    assert_eq!(
        table,
        vec![("fuse", true), ("lamp", true), ("loose", false), ("pump", false), ("valve", false)]
    );
    assert!(!data.all_visible());
}

#[test]
fn dataset_visibility() {
    let mut data = sample("f");
    assert!(!data.all_visible());
    data.set_all_visible(true);
    assert!(data.all_visible());
    data.set_all_visible(false);
    assert!(data.signals.iter().all(|s| !s.visible));
    let before = sample("f");
    assert_eq!(data.groups, before.groups);
    assert_eq!(data.logs, before.logs);
    let intervals: Vec<&Vec<Interval>> = data.signals.iter().map(|s| &s.on_intervals).collect();
    let expected: Vec<&Vec<Interval>> = before.signals.iter().map(|s| &s.on_intervals).collect();
    assert_eq!(intervals, expected);
}

#[test]
fn empty_dataset_is_all_visible() {
    let data = FileData::from_events("f".to_string(), Vec::new(), Vec::new());
    assert!(data.all_visible());
    assert_eq!(data.visible_order(), Vec::<String>::new());
}

#[test]
fn members_visibility_on_tables() {
    let mut signals = vec![
        SignalData::new("a".to_string(), None, false),
        SignalData::new("b".to_string(), None, false),
        SignalData::new("c".to_string(), None, true),
    ];
    assert!(are_members_visible(&signals, &names(&["c", "zz"])));
    assert!(!are_members_visible(&signals, &names(&["c", "a"])));
    assert!(are_members_visible(&signals, &Vec::new()));
    set_members_visible(&mut signals, &names(&["a", "zz", "c"]), true);
    let table: Vec<bool> = signals.iter().map(|s| s.visible).collect();
    assert_eq!(table, vec![true, false, true]);
    set_members_visible(&mut signals, &names(&["c"]), false);
    let table: Vec<bool> = signals.iter().map(|s| s.visible).collect();
    assert_eq!(table, vec![true, false, false]);
}

#[test]
fn time_range_over_datasets() {
    assert_eq!(global_time_range(&Vec::new()), (0, 10_000));
    let a = FileData::from_events("a".to_string(), vec![marker(500, "s", None), marker(900, "s", None)], Vec::new());
    let b = FileData::from_events("b".to_string(), vec![marker(-200, "s", None), marker(700, "s", None)], Vec::new());
    assert_eq!(global_time_range(&vec![a.clone()]), (500, 900));
    assert_eq!(global_time_range(&vec![a, b.clone()]), (-200, 900));
    let past = FileData::from_events("p".to_string(), vec![marker(-900, "s", None), marker(-100, "s", None)], Vec::new());
    assert_eq!(global_time_range(&vec![past]), (-900, 10_000));
    let empty = FileData::from_events("e".to_string(), Vec::new(), Vec::new());
    assert_eq!(global_time_range(&vec![empty.clone()]), (0, 10_000));
    assert_eq!(global_time_range(&vec![b, empty]), (-200, 10_000));
}

#[test]
fn layout_follows_visibility() {
    let mut data = sample("run");
    let before = assign_layout(shown_signals(&vec![data.clone()]));
    let offsets: Vec<(&str, u64)> = before.iter().map(|s| (s.name.as_str(), s.offset)).collect();
    assert_eq!(offsets, vec![("lamp", 5), ("pump", 3), ("valve", 1)]);
    data.set_signal_visible("pump", false);
    let after = assign_layout(shown_signals(&vec![data.clone()]));
    let offsets: Vec<(&str, u64)> = after.iter().map(|s| (s.name.as_str(), s.offset)).collect();
    assert_eq!(offsets, vec![("lamp", 3), ("valve", 1)]);
    data.set_signal_visible("pump", true);
    assert_eq!(assign_layout(shown_signals(&vec![data])), before);
}
