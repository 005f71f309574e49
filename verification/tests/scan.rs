use topfiles::scan::{is_hidden, missing_root, Action, Scan, WalkEvent};
use topfiles::tracker::SizeGroup;

fn found(name: &str) -> WalkEvent {
    WalkEvent::Found { file_name: name.to_string(), is_dir: false, is_root: false }
}

fn found_dir(name: &str) -> WalkEvent {
    WalkEvent::Found { file_name: name.to_string(), is_dir: true, is_root: false }
}

fn found_root(name: &str) -> WalkEvent {
    WalkEvent::Found { file_name: name.to_string(), is_dir: true, is_root: true }
}

fn sized(is_file: bool, size: usize, path: &str) -> WalkEvent {
    WalkEvent::Sized { is_file, size, path: path.to_string() }
}

fn group(size: usize, paths: &[&str]) -> SizeGroup {
    SizeGroup { size, paths: paths.iter().map(|p| p.to_string()).collect() }
}

#[test]
fn leading_period_marks_hidden() {
    assert!(is_hidden(".git"));
    assert!(is_hidden("."));
    assert!(is_hidden(".."));
    assert!(!is_hidden("src"));
    assert!(!is_hidden("a.b"));
    assert!(!is_hidden(""));
}

#[test]
fn new_scan_is_clean() {
    let scan = Scan::new(4, false);
    assert_eq!(scan.exit_code(), 0);
    assert_eq!(scan.files().capacity(), 4);
    assert!(scan.files().results().is_empty());
}

#[test]
fn found_entry_has_its_metadata_read() {
    let mut scan = Scan::new(2, false);
    assert_eq!(scan.step(found("notes.txt")), Action::ReadMetadata);
    assert_eq!(scan.step(found(".profile")), Action::ReadMetadata);
    assert_eq!(scan.step(found_dir("src")), Action::ReadMetadata);
    assert_eq!(scan.step(found_dir(".git")), Action::ReadMetadata);
    assert_eq!(scan.step(found_root(".")), Action::ReadMetadata);
}

#[test]
fn hidden_directory_is_passed_over_with_all_below_it() {
    let mut scan = Scan::new(2, true);
    assert_eq!(scan.step(found_dir(".git")), Action::SkipSubtree);
    assert_eq!(scan.step(found_dir("src")), Action::ReadMetadata);
    assert!(scan.files().results().is_empty());
    assert_eq!(scan.exit_code(), 0);
}

#[test]
fn root_is_walked_whatever_its_name() {
    let mut scan = Scan::new(2, true);
    assert_eq!(scan.step(found_root(".")), Action::ReadMetadata);
    assert_eq!(scan.step(found_root(".config")), Action::ReadMetadata);
    assert_eq!(scan.step(found_root("home")), Action::ReadMetadata);
}

#[test]
fn first_missing_root_is_named() {
    assert_eq!(missing_root(&vec![]), None);
    assert_eq!(missing_root(&vec![true]), None);
    assert_eq!(missing_root(&vec![true, true, true]), None);
    assert_eq!(missing_root(&vec![false]), Some(0));
    assert_eq!(missing_root(&vec![true, false, true, false]), Some(1));
    assert_eq!(missing_root(&vec![true, true, false]), Some(2));
}

#[test]
fn hidden_entry_is_passed_over_on_request() {
    let mut scan = Scan::new(2, true);
    assert_eq!(scan.step(found(".profile")), Action::NextEntry);
    assert_eq!(scan.step(found("notes.txt")), Action::ReadMetadata);
    assert!(scan.files().results().is_empty());
    assert_eq!(scan.exit_code(), 0);
}

#[test]
fn regular_file_feeds_the_tracker() {
    let mut scan = Scan::new(2, false);
    assert_eq!(scan.step(sized(true, 10, "/r/a")), Action::NextEntry);
    assert_eq!(scan.step(sized(true, 20, "/r/b")), Action::NextEntry);
    assert_eq!(scan.step(sized(true, 5, "/r/c")), Action::NextEntry);
    assert_eq!(scan.files().results(), vec![group(10, &["/r/a"]), group(20, &["/r/b"])]);
}

#[test]
fn other_entries_are_not_tracked() {
    let mut scan = Scan::new(2, false);
    assert_eq!(scan.step(sized(false, 4096, "/r/dir")), Action::NextEntry);
    assert!(scan.files().results().is_empty());
}

#[test]
fn unreadable_metadata_is_counted() {
    let mut scan = Scan::new(2, false);
    assert_eq!(scan.step(WalkEvent::Unreadable), Action::NextEntry);
    assert_eq!(scan.exit_code(), 1);
    assert!(scan.files().results().is_empty());
}

#[test]
fn exit_code_counts_both_kinds_of_error() {
    let mut scan = Scan::new(2, false);
    scan.step(WalkEvent::Failed);
    scan.step(WalkEvent::Unreadable);
    scan.step(sized(true, 7, "/r/a"));
    scan.step(WalkEvent::Unreadable);
    scan.step(WalkEvent::Failed);
    scan.step(WalkEvent::Failed);
    assert_eq!(scan.exit_code(), 5);
    assert_eq!(scan.files().results(), vec![group(7, &["/r/a"])]);
}

#[test]
fn walk_failures_make_the_exit_code() {
    let mut scan = Scan::new(2, false);
    assert_eq!(scan.step(WalkEvent::Failed), Action::NextEntry);
    assert_eq!(scan.exit_code(), 1);
    scan.step(sized(true, 1, "/r/a"));
    scan.step(WalkEvent::Failed);
    scan.step(WalkEvent::Failed);
    assert_eq!(scan.exit_code(), 3);
    assert_eq!(scan.files().results(), vec![group(1, &["/r/a"])]);
}

#[test]
fn whole_scan_reports_the_largest() {
    let mut scan = Scan::new(1, true);
    // name, directory, depth, size, path: a walk in the order of a tree
    let entries: [(&str, bool, usize, usize, &str); 7] = [
        (".r", true, 0, 4096, "/.r"),
        (".cache", false, 1, 900, "/.r/.cache"),
        (".h", true, 1, 4096, "/.r/.h"),
        ("x", false, 2, 9000, "/.r/.h/x"),
        ("sub", true, 2, 4096, "/.r/.h/sub"),
        ("a", false, 1, 1024, "/.r/a"),
        ("b", false, 1, 512, "/.r/b"),
    ];
    let mut skip_below: Option<usize> = None;
    for (name, is_dir, depth, size, path) in entries {
        if let Some(pruned) = skip_below {
            if depth > pruned {
                continue;
            }
            skip_below = None;
        }
        let event =
            WalkEvent::Found { file_name: name.to_string(), is_dir, is_root: depth == 0 };
        match scan.step(event) {
            Action::ReadMetadata => {
                scan.step(sized(!is_dir, size, path));
            }
            Action::NextEntry => {}
            Action::SkipSubtree => skip_below = Some(depth),
        }
    }
    assert_eq!(scan.files().show_results(false), vec!["     1 KiB /.r/a".to_string()]);
    assert_eq!(scan.exit_code(), 0);
}
