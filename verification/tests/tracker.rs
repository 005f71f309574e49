use topfiles::tracker::{FileSizes, SizeGroup};

fn group(size: usize, paths: &[&str]) -> SizeGroup {
    SizeGroup { size, paths: paths.iter().map(|p| p.to_string()).collect() }
}

fn fed(capacity: usize, inputs: &[(usize, &str)]) -> FileSizes {
    let mut tracker = FileSizes::new(capacity);
    for (size, path) in inputs {
        tracker.add_file(*size, path);
    }
    tracker
}

/// The groups that a run calls for, worked out the long way: sort the
/// distinct sizes, keep the largest, and collect the paths of each.
fn expected(capacity: usize, inputs: &[(usize, &str)]) -> Vec<SizeGroup> {
    let mut sizes: Vec<usize> = inputs.iter().map(|o| o.0).collect();
    sizes.sort();
    sizes.dedup();
    let skip = sizes.len().saturating_sub(capacity);
    sizes[skip..]
        .iter()
        .map(|s| SizeGroup {
            size: *s,
            paths: inputs.iter().filter(|o| o.0 == *s).map(|o| o.1.to_string()).collect(),
        })
        .collect()
}

#[test]
fn new_tracker_is_empty() {
    let tracker = FileSizes::new(3);
    assert_eq!(tracker.capacity(), 3);
    assert_eq!(tracker.distinct_count(), 0);
    assert_eq!(tracker.floor(), None);
    assert!(tracker.results().is_empty());
}

#[test]
fn smaller_file_is_dropped_when_full() {
    let tracker = fed(2, &[(10, "a"), (20, "b"), (5, "c")]);
    assert_eq!(tracker.results(), vec![group(10, &["a"]), group(20, &["b"])]);
    assert_eq!(tracker.floor(), Some(10));
}

#[test]
fn equal_sizes_share_a_group() {
    let mut tracker = FileSizes::new(2);
    tracker.add_file(10, "a");
    assert_eq!(tracker.distinct_count(), 1);
    tracker.add_file(10, "b");
    assert_eq!(tracker.distinct_count(), 1);
    tracker.add_file(20, "c");
    assert_eq!(tracker.distinct_count(), 2);
    assert_eq!(tracker.results(), vec![group(10, &["a", "b"]), group(20, &["c"])]);
}

#[test]
fn floor_group_is_evicted_whole() {
    let tracker = fed(1, &[(5, "a"), (5, "b"), (3, "c"), (7, "d")]);
    assert_eq!(tracker.results(), vec![group(7, &["d"])]);
}

#[test]
fn capacity_zero_retains_nothing() {
    let mut tracker = FileSizes::new(0);
    assert!(tracker.results().is_empty());
    tracker.add_file(0, "empty");
    assert!(tracker.results().is_empty());
    tracker.add_file(4096, "page");
    tracker.add_file(usize::MAX, "huge");
    assert!(tracker.results().is_empty());
    assert_eq!(tracker.distinct_count(), 0);
    assert_eq!(tracker.floor(), None);
}

#[test]
fn distinct_sizes_never_exceed_capacity() {
    let inputs: [(usize, &str); 9] = [
        (7, "a"),
        (3, "b"),
        (9, "c"),
        (3, "d"),
        (1, "e"),
        (12, "f"),
        (9, "g"),
        (0, "h"),
        (15, "i"),
    ];
    for capacity in 0..5 {
        let mut tracker = FileSizes::new(capacity);
        for (size, path) in inputs {
            tracker.add_file(size, path);
            assert!(tracker.distinct_count() <= capacity);
            assert_eq!(tracker.distinct_count(), tracker.results().len());
        }
    }
}

#[test]
fn retains_the_largest_sizes_with_all_their_paths() {
    let inputs: [(usize, &str); 10] = [
        (40, "a"),
        (10, "b"),
        (30, "c"),
        (40, "d"),
        (20, "e"),
        (50, "f"),
        (10, "g"),
        (30, "h"),
        (60, "i"),
        (40, "j"),
    ];
    for capacity in 0..8 {
        for upto in 0..=inputs.len() {
            let run = &inputs[..upto];
            assert_eq!(fed(capacity, run).results(), expected(capacity, run));
        }
    }
}

#[test]
fn three_largest_of_a_mixed_run() {
    let tracker = fed(
        3,
        &[(40, "a"), (10, "b"), (30, "c"), (40, "d"), (20, "e"), (50, "f"), (30, "g")],
    );
    assert_eq!(
        tracker.results(),
        vec![group(30, &["c", "g"]), group(40, &["a", "d"]), group(50, &["f"])]
    );
}

#[test]
fn paths_keep_discovery_order() {
    let tracker = fed(2, &[(8, "z"), (8, "m"), (8, "a"), (9, "q"), (8, "k")]);
    assert_eq!(tracker.results(), vec![group(8, &["z", "m", "a", "k"]), group(9, &["q"])]);
}

#[test]
fn same_path_twice_is_kept_twice() {
    let tracker = fed(1, &[(8, "x"), (8, "x")]);
    assert_eq!(tracker.results(), vec![group(8, &["x", "x"])]);
}

#[test]
fn eviction_leaves_no_part_of_a_group() {
    let mut tracker = fed(2, &[(5, "a"), (5, "b"), (5, "c"), (6, "d")]);
    tracker.add_file(7, "e");
    let after = tracker.results();
    assert!(after.iter().all(|g| g.size != 5));
    assert_eq!(after, vec![group(6, &["d"]), group(7, &["e"])]);
}

#[test]
fn evicted_size_does_not_return() {
    let mut tracker = fed(1, &[(5, "a"), (7, "b")]);
    tracker.add_file(5, "c");
    assert_eq!(tracker.results(), vec![group(7, &["b"])]);
}

#[test]
fn size_equal_to_floor_joins_when_full() {
    let tracker = fed(2, &[(5, "a"), (9, "b"), (5, "c")]);
    assert_eq!(tracker.results(), vec![group(5, &["a", "c"]), group(9, &["b"])]);
}

#[test]
fn floor_moves_up_after_eviction() {
    let mut tracker = fed(2, &[(5, "a"), (9, "b"), (7, "c")]);
    assert_eq!(tracker.floor(), Some(7));
    assert_eq!(tracker.results(), vec![group(7, &["c"]), group(9, &["b"])]);
    tracker.add_file(6, "d");
    assert_eq!(tracker.results(), vec![group(7, &["c"]), group(9, &["b"])]);
    tracker.add_file(8, "e");
    assert_eq!(tracker.results(), vec![group(8, &["e"]), group(9, &["b"])]);
}

#[test]
fn floor_moves_down_while_filling() {
    let mut filling = FileSizes::new(3);
    filling.add_file(9, "a");
    assert_eq!(filling.floor(), Some(9));
    filling.add_file(4, "b");
    assert_eq!(filling.floor(), Some(4));
    let tracker = fed(3, &[(9, "a"), (4, "b"), (6, "c"), (5, "d"), (3, "e")]);
    assert_eq!(tracker.floor(), Some(5));
    assert_eq!(
        tracker.results(),
        vec![group(5, &["d"]), group(6, &["c"]), group(9, &["a"])]
    );
}

#[test]
fn descending_run_keeps_the_first_sizes() {
    let tracker = fed(2, &[(9, "a"), (8, "b"), (7, "c"), (6, "d")]);
    assert_eq!(tracker.results(), vec![group(8, &["b"]), group(9, &["a"])]);
}

#[test]
fn ascending_run_keeps_the_last_sizes() {
    let tracker = fed(2, &[(6, "a"), (7, "b"), (8, "c"), (9, "d")]);
    assert_eq!(tracker.results(), vec![group(8, &["c"]), group(9, &["d"])]);
}

#[test]
fn zero_sized_files_are_tracked() {
    let tracker = fed(2, &[(0, "a"), (0, "b"), (1, "c")]);
    assert_eq!(tracker.results(), vec![group(0, &["a", "b"]), group(1, &["c"])]);
}

#[test]
fn reading_twice_gives_the_same() {
    let tracker = fed(2, &[(10, "a"), (10, "b"), (20, "c"), (30, "d")]);
    let first = tracker.results();
    let second = tracker.results();
    assert_eq!(first, second);
    assert_eq!(first, vec![group(20, &["c"]), group(30, &["d"])]);
}

#[test]
fn results_ascend_by_size() {
    let tracker = fed(4, &[(30, "a"), (10, "b"), (40, "c"), (20, "d")]);
    let sizes: Vec<usize> = tracker.results().iter().map(|g| g.size).collect();
    assert_eq!(sizes, vec![10, 20, 30, 40]);
}
