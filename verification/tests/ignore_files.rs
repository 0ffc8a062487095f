//! Ignore files, one directory at a time and through a whole tree.

use artools::ignore_files::{
    build_dir_gitignore, enter_directory, is_path_ignored, present_ignore_files,
};
use artools::paths::DirEntry;
use ignore::Match;
use std::sync::Arc;

fn lines(text: &str) -> Vec<String> {
    text.lines().map(|l| l.to_string()).collect()
}

fn entry(name: &str, is_dir: bool) -> DirEntry {
    DirEntry {
        name: name.to_string(),
        is_dir,
        is_symlink: false,
    }
}

#[test]
fn lib_build_dir_gitignore_touches_nothing_when_no_files_present() {
    let result = build_dir_gitignore("/definitely/does/not/exist", &vec![]).0;
    assert!(result.is_none());
}

#[test]
fn lib_build_dir_gitignore_builds_from_present_gitignore() {
    let gi = build_dir_gitignore("/tmp/dir", &vec![lines("*.log\n")]).0;
    assert!(gi.is_some());
}

#[test]
fn lib_build_dir_gitignore_ignores_unlisted_files_even_if_present() {
    // Only the .gitignore is handed over; an .ignore with "*.tmp" lies beside it.
    let gi = build_dir_gitignore("/tmp/dir", &vec![lines("*.log\n")])
        .0
        .unwrap();
    assert!(matches!(
        gi.matched("/tmp/dir/a.log", false),
        Match::Ignore(_)
    ));
    assert!(matches!(gi.matched("/tmp/dir/a.tmp", false), Match::None));
}

#[test]
fn lib_build_dir_gitignore_returns_none_for_empty_ignore_file() {
    let gi = build_dir_gitignore("/tmp/dir", &vec![lines("# just a comment\n")]).0;
    assert!(gi.is_none());
}

#[test]
fn a_line_that_cannot_be_read_is_reported_and_passed_over() {
    let (gi, faults) = build_dir_gitignore("/tmp/dir", &vec![lines("[z-a]\n*.log\n")]);
    assert_eq!(faults.len(), 1);
    assert_eq!(faults[0].at, Some((0, 1)));
    let stack = vec![Arc::new(gi.unwrap())];
    assert!(is_path_ignored(&stack, "/tmp/dir/x.log", false));
    assert!(!is_path_ignored(&stack, "/tmp/dir/z", false));
}

#[test]
fn a_fault_is_told_with_its_file_and_line() {
    let files = vec![lines("*.log\n"), lines("# comment\n[z-a]\n*.tmp\n[b-a]\n")];
    let (gi, faults) = build_dir_gitignore("/tmp/dir", &files);
    assert!(gi.is_some());
    let places: Vec<_> = faults.iter().map(|f| f.at).collect();
    assert_eq!(places, vec![Some((1, 2)), Some((1, 4))]);
    let told = faults[1].message("/tmp/dir/.ignore");
    assert_eq!(told, format!("/tmp/dir/.ignore: line 4: {}", faults[1].text));
    assert!(faults[1].text.contains("[b-a]"));
}

#[test]
fn a_byte_order_mark_is_not_part_of_the_first_line() {
    let (gi, faults) = build_dir_gitignore("/tmp/dir", &vec![lines("\u{feff}*.log\n")]);
    assert!(faults.is_empty());
    let stack = vec![Arc::new(gi.unwrap())];
    assert!(is_path_ignored(&stack, "/tmp/dir/x.log", false));
}

#[test]
fn no_layers_ignore_nothing() {
    assert!(!is_path_ignored(&vec![], "/tmp/dir/x.log", false));
}

#[test]
fn deeper_files_overrule_the_ones_above() {
    let top = build_dir_gitignore("/r", &vec![lines("*.txt\n")]).0.unwrap();
    let sub = build_dir_gitignore("/r/keep", &vec![lines("!*.txt\n")])
        .0
        .unwrap();
    let silent = build_dir_gitignore("/r/keep/x", &vec![lines("*.log\n")])
        .0
        .unwrap();
    let mut stack = vec![Arc::new(top)];
    assert!(is_path_ignored(&stack, "/r/a.txt", false));
    stack.push(Arc::new(sub));
    assert!(!is_path_ignored(&stack, "/r/keep/b.txt", false));
    stack.push(Arc::new(silent));
    assert!(!is_path_ignored(&stack, "/r/keep/x/b.txt", false));
    assert!(is_path_ignored(&stack, "/r/keep/x/b.log", false));
}

#[test]
fn patterns_for_directories_leave_files_alone() {
    let gi = build_dir_gitignore("/r", &vec![lines("out/\n")]).0.unwrap();
    let stack = vec![Arc::new(gi)];
    assert!(is_path_ignored(&stack, "/r/out", true));
    assert!(!is_path_ignored(&stack, "/r/out", false));
}

#[test]
fn both_files_of_a_directory_count() {
    let (gi, _) = build_dir_gitignore("/r", &vec![lines("*.log\n"), lines("!keep.log\n")]);
    let stack = vec![Arc::new(gi.unwrap())];
    assert!(is_path_ignored(&stack, "/r/a.log", false));
    assert!(!is_path_ignored(&stack, "/r/keep.log", false));
}

#[test]
fn entering_a_directory_adds_its_rules() {
    let outer = Arc::new(vec![]);
    let (inner, faults) = enter_directory(&outer, true, "/r", &vec![lines("*.log\n")]);
    assert_eq!(inner.len(), 1);
    assert!(faults.is_empty());
    let (same, _) = enter_directory(&inner, true, "/r/a", &vec![]);
    assert_eq!(same.len(), 1);
    assert!(is_path_ignored(&same, "/r/a/x.log", false));
    let (none, _) = enter_directory(&outer, false, "/r", &vec![lines("*.log\n")]);
    assert!(none.is_empty());
}

#[test]
fn ignore_files_are_found_in_the_listing() {
    let entries = vec![
        entry(".ignore", false),
        entry("a.txt", false),
        entry(".gitignore", false),
    ];
    assert_eq!(
        present_ignore_files(&entries),
        vec![".gitignore".to_string(), ".ignore".to_string()]
    );
    assert!(present_ignore_files(&vec![entry("a", true)]).is_empty());
}
