use topfiles::report::{group_lines, pad_left, render};
use topfiles::tracker::{FileSizes, SizeGroup};

fn strings(items: &[&str]) -> Vec<String> {
    items.iter().map(|s| s.to_string()).collect()
}

#[test]
fn pad_left_fills_the_column() {
    assert_eq!(pad_left("1 KiB", 10), "     1 KiB");
    assert_eq!(pad_left("", 3), "   ");
    assert_eq!(pad_left(" ", 11), "           ");
}

#[test]
fn pad_left_leaves_a_full_text_alone() {
    assert_eq!(pad_left("0123456789", 10), "0123456789");
    assert_eq!(pad_left("0123456789ab", 10), "0123456789ab");
    assert_eq!(pad_left("abc", 0), "abc");
}

#[test]
fn pad_left_counts_characters_not_bytes() {
    assert_eq!(pad_left("äö", 4), "  äö");
}

#[test]
fn group_of_one_path_is_one_line() {
    assert_eq!(group_lines("10 B", &strings(&["/tmp/a"])), strings(&["      10 B /tmp/a"]));
}

#[test]
fn further_paths_are_indented() {
    assert_eq!(
        group_lines("1.50 KiB", &strings(&["a", "b", "c"])),
        strings(&["  1.50 KiB a", "           b", "           c"])
    );
}

#[test]
fn long_label_pushes_the_path_right() {
    assert_eq!(group_lines("123456789012", &strings(&["a"])), strings(&["123456789012 a"]));
}

#[test]
fn render_writes_binary_units() {
    let groups = vec![
        SizeGroup { size: 10, paths: strings(&["small"]) },
        SizeGroup { size: 1536, paths: strings(&["x", "y"]) },
    ];
    assert_eq!(
        render(&groups, false),
        strings(&["      10 B small", "  1.50 KiB x", "           y"])
    );
}

#[test]
fn render_writes_decimal_units() {
    let groups = vec![
        SizeGroup { size: 1024, paths: strings(&["k"]) },
        SizeGroup { size: 1_000_000, paths: strings(&["m"]) },
    ];
    assert_eq!(render(&groups, true), strings(&["   1.02 kB k", "      1 MB m"]));
    assert_eq!(render(&groups, false), strings(&["     1 KiB k", "976.56 KiB m"]));
}

#[test]
fn render_of_nothing_is_nothing() {
    assert!(render(&Vec::new(), false).is_empty());
}

#[test]
fn show_results_lists_groups_by_ascending_size() {
    let mut tracker = FileSizes::new(2);
    tracker.add_file(2048, "b");
    tracker.add_file(100, "dropped");
    tracker.add_file(1024, "a");
    tracker.add_file(2048, "c");
    assert_eq!(
        tracker.show_results(false),
        strings(&["     1 KiB a", "     2 KiB b", "           c"])
    );
    assert_eq!(
        tracker.show_results(true),
        strings(&["   1.02 kB a", "   2.05 kB b", "           c"])
    );
}

#[test]
fn show_results_of_an_empty_tracker() {
    assert!(FileSizes::new(5).show_results(false).is_empty());
    assert!(FileSizes::new(0).show_results(true).is_empty());
}
