use signal_timeline::interval::{merge_intervals, sort_by_start, sweep_sorted, Interval};

fn iv(start: i64, end: i64) -> Interval {
    Interval { start, end }
}

fn covers(list: &[Interval], half: i64) -> bool {
    list.iter().any(|i| 2 * i.start <= half && half <= 2 * i.end)
}

#[test]
fn merge_of_nothing_is_nothing() {
    assert_eq!(merge_intervals(&Vec::new()), Vec::<Interval>::new());
}

#[test]
fn touching_intervals_fuse() {
    assert_eq!(merge_intervals(&vec![iv(0, 1), iv(1, 2)]), vec![iv(0, 2)]);
}

#[test]
fn intervals_one_apart_do_not_fuse() {
    assert_eq!(merge_intervals(&vec![iv(0, 1), iv(2, 3)]), vec![iv(0, 1), iv(2, 3)]);
}

#[test]
fn contained_interval_is_absorbed() {
    assert_eq!(merge_intervals(&vec![iv(0, 10), iv(2, 3), iv(4, 10)]), vec![iv(0, 10)]);
}

#[test]
fn merge_sorts_by_start() {
    assert_eq!(
        merge_intervals(&vec![iv(50, 60), iv(-5, -1), iv(10, 20), iv(15, 30)]),
        vec![iv(-5, -1), iv(10, 30), iv(50, 60)]
    );
}

#[test]
fn merge_is_idempotent() {
    let raw = vec![iv(7, 9), iv(0, 3), iv(3, 5), iv(20, 20), iv(8, 12)];
    let once = merge_intervals(&raw);
    assert_eq!(once, vec![iv(0, 5), iv(7, 12), iv(20, 20)]);
    assert_eq!(merge_intervals(&once), once);
}

#[test]
fn merge_does_not_depend_on_order() {
    let raw = vec![iv(0, 3), iv(2, 6), iv(6, 6), iv(10, 11), iv(9, 10), iv(10, 10)];
    let expected = vec![iv(0, 6), iv(9, 11)];
    let mut order: Vec<usize> = (0..raw.len()).collect();
    // Walk through all orderings by repeated next-permutation steps.
    let mut count = 0;
    loop {
        let permuted: Vec<Interval> = order.iter().map(|&i| raw[i]).collect();
        assert_eq!(merge_intervals(&permuted), expected);
        count += 1;
        let mut i = order.len() - 1;
        while i > 0 && order[i - 1] >= order[i] {
            i -= 1;
        }
        if i == 0 {
            break;
        }
        let mut j = order.len() - 1;
        while order[j] <= order[i - 1] {
            j -= 1;
        }
        order.swap(i - 1, j);
        order[i..].reverse();
    }
    assert_eq!(count, 720);
}

#[test]
fn merge_keeps_coverage_and_separates() {
    let raw = vec![iv(4, 8), iv(1, 2), iv(2, 3), iv(12, 15), iv(14, 14), iv(-3, -3)];
    let out = merge_intervals(&raw);
    for half in -10..40 {
        assert_eq!(covers(&raw, half), covers(&out, half));
    }
    for input in &raw {
        assert!(out.iter().any(|o| o.start <= input.start && input.end <= o.end));
    }
    for pair in out.windows(2) {
        assert!(pair[0].end < pair[1].start);
    }
    for o in &out {
        assert!(o.start <= o.end);
    }
}

#[test]
fn sort_by_start_is_stable() {
    let raw = vec![iv(5, 1), iv(2, 9), iv(5, 7), iv(2, 3), iv(5, 0)];
    assert_eq!(sort_by_start(&raw), vec![iv(2, 9), iv(2, 3), iv(5, 1), iv(5, 7), iv(5, 0)]);
}

#[test]
fn sweep_extends_the_tail_only_forward() {
    assert_eq!(sweep_sorted(&vec![iv(0, 10), iv(1, 4), iv(5, 12), iv(13, 14)]),
        vec![iv(0, 12), iv(13, 14)]);
}

#[test]
fn merge_at_the_ends_of_the_range() {
    let raw = vec![iv(i64::MAX - 1, i64::MAX), iv(i64::MIN, i64::MIN + 1), iv(i64::MIN + 1, 0)];
    assert_eq!(merge_intervals(&raw), vec![iv(i64::MIN, 0), iv(i64::MAX - 1, i64::MAX)]);
}
