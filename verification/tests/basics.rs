//! Paths, texts, colours, workers and the other pieces that the tools share.

use artools::ardisk::scan::{weigh_directory, Links, Metadata};
use artools::argrep::cli::build_config;
use artools::argrep::{grep_file, Args};
use artools::globs::any_matches;
use artools::paint::{plain, render, with_style, Style};
use artools::paths::{depth_of, hidden_name, join, lies_under, name_of, parent_of, tidy};
use artools::pool::{next_move, Move, Poll};
use artools::text::{strip_terminator, trim, trim_end};
use glob::Pattern;
use std::collections::HashSet;
use std::path::Path;

const PATHS: [&str; 13] = [
    "/", "/a", "/a/b", "/a/b/c.txt", "a", "a/b", "", ".", "..", "/a/..", "/a/.hidden", "a/.",
    "/usr/share/doc",
];

#[test]
fn paths_are_taken_apart_as_the_standard_library_does() {
    for p in PATHS {
        let path = Path::new(p);
        assert_eq!(
            name_of(p),
            path.file_name().map(|n| n.to_string_lossy().to_string()),
            "name of {:?}",
            p
        );
    }
    for p in ["/", "/a", "/a/b", "/a/b/c.txt", "a", "a/b", "/usr/share/doc"] {
        let path = Path::new(p);
        assert_eq!(
            depth_of(p),
            path.components().count() as u128,
            "depth of {:?}",
            p
        );
        assert_eq!(
            parent_of(p),
            path.parent().map(|q| q.to_string_lossy().to_string()),
            "parent of {:?}",
            p
        );
        for base in ["/", "/a", "/a/b", "a"] {
            assert_eq!(
                lies_under(p, base),
                path.starts_with(base),
                "{:?} under {:?}",
                p,
                base
            );
        }
    }
}

const UNTIDY: [&str; 24] = [
    "/", "//", "/r", "/r/", "/r//", "/r/.", "/r/a", "/r/a/", "/./r", "a", "a/b", "a//b", "a/./b",
    "a/b/", "a/.", "./a", ".//a", ".", "./", "./.", "..", "a/..", "", "/a/../b//",
];

#[test]
fn paths_are_told_by_their_components() {
    for p in UNTIDY {
        let path = Path::new(p);
        assert_eq!(depth_of(p), path.components().count() as u128, "depth of {:?}", p);
        assert_eq!(
            parent_of(p).map(|q| Path::new(&q).to_path_buf()),
            path.parent().map(|q| q.to_path_buf()),
            "parent of {:?}",
            p
        );
        for q in UNTIDY {
            assert_eq!(tidy(p) == tidy(q), path == Path::new(q), "{:?} and {:?}", p, q);
            assert_eq!(lies_under(p, q), path.starts_with(q), "{:?} under {:?}", p, q);
        }
    }
}

#[test]
fn tidied_paths_are_written_out_once() {
    assert_eq!(tidy("/r/"), "/r");
    assert_eq!(tidy("a//b"), "a/b");
    assert_eq!(tidy("a/./b/."), "a/b");
    assert_eq!(tidy("./a"), "./a");
    assert_eq!(tidy("//"), "/");
    assert_eq!(tidy(""), "");
    assert_eq!(tidy("/a/../b"), "/a/../b");
    for p in UNTIDY {
        assert_eq!(tidy(&tidy(p)), tidy(p));
        assert_eq!(tidy(&join(p, "x")), join(&tidy(p), "x"));
    }
}

#[test]
fn a_parent_lies_one_level_higher() {
    for p in ["/a", "/a/b", "/a/b/c.txt", "a/b"] {
        let parent = parent_of(p).unwrap();
        assert_eq!(depth_of(&parent) + 1, depth_of(p));
        assert!(parent.len() < p.len());
    }
}

#[test]
fn names_are_joined_to_directories() {
    assert_eq!(join("/a", "b"), "/a/b");
    assert_eq!(join("/", "b"), "/b");
    assert_eq!(join("", "b"), "b");
    assert!(hidden_name(".git"));
    assert!(!hidden_name("git"));
    assert!(!hidden_name(""));
}

#[test]
fn texts_are_trimmed_as_the_standard_library_does() {
    for s in ["", " ", "a", " a ", "\t a b\r\n", "\u{3000}x\u{a0}", "\u{200b}x"] {
        assert_eq!(trim(s), s.trim());
        assert_eq!(trim_end(s), s.trim_end());
    }
    assert_eq!(strip_terminator("a\r\n"), "a");
    assert_eq!(strip_terminator("a\n"), "a");
    assert_eq!(strip_terminator("a\r"), "a\r");
    assert_eq!(strip_terminator("a\n\n"), "a\n");
    assert_eq!(strip_terminator(""), "");
}

#[test]
fn one_matching_pattern_is_enough() {
    let patterns: Vec<Pattern> = ["*.rs", "build*"]
        .iter()
        .map(|p| Pattern::new(p).unwrap())
        .collect();
    assert!(any_matches(&patterns, "main.rs"));
    assert!(any_matches(&patterns, "build-tools"));
    assert!(!any_matches(&patterns, "main.py"));
    assert!(!any_matches(&vec![], "main.rs"));
}

#[test]
fn pieces_without_a_style_are_kept_as_they_are() {
    let pieces = vec![plain("a".to_string()), plain("\u{1b}[0mb".to_string())];
    assert_eq!(render(&pieces), "a\u{1b}[0mb");
    assert_eq!(render(&vec![]), "");
}

#[test]
fn colours_are_all_or_nothing() {
    for (style, start) in [
        (Style::Magenta, "\u{1b}[35m"),
        (Style::MagentaBold, "\u{1b}[1;35m"),
        (Style::Cyan, "\u{1b}[36m"),
        (Style::Green, "\u{1b}[32m"),
        (Style::RedBold, "\u{1b}[1;31m"),
        (Style::BlueBold, "\u{1b}[1;34m"),
    ] {
        colored::control::set_override(true);
        assert_eq!(
            render(&vec![with_style("x".to_string(), style)]),
            format!("{}x\u{1b}[0m", start)
        );
        assert_eq!(
            render(&vec![with_style("x\u{1b}[0my".to_string(), style)]),
            format!("{}x\u{1b}[0m{}y\u{1b}[0m", start, start)
        );
        colored::control::set_override(false);
        assert_eq!(render(&vec![with_style("x".to_string(), style)]), "x");
        colored::control::unset_override();
    }
}

#[test]
fn workers_stop_only_when_nothing_is_left() {
    assert_eq!(next_move(Poll::Task, 0), Move::Run);
    assert_eq!(next_move(Poll::Task, 3), Move::Run);
    assert_eq!(next_move(Poll::Closed, 3), Move::Stop);
    assert_eq!(next_move(Poll::Empty, 1), Move::Yield);
    assert_eq!(next_move(Poll::Empty, 0), Move::Stop);
}

fn linked(dev: u64, ino: u64, nlink: u64, len: u64) -> Option<Metadata> {
    Some(Metadata {
        len,
        blocks: None,
        links: Some(Links { nlink, dev, ino }),
    })
}

fn weigh(files: &[Option<Metadata>], seen: &mut HashSet<u128>) -> u64 {
    weigh_directory(&files.to_vec(), &None, false, seen)
        .unwrap()
        .content
}

#[test]
fn only_the_same_file_is_counted_once() {
    let mut seen = HashSet::new();
    assert_eq!(weigh(&[linked(1, 2, 2, 5), linked(2, 1, 2, 5)], &mut seen), 10);
    assert_eq!(weigh(&[linked(1, 2, 2, 5), linked(1, 3, 2, 5)], &mut seen), 5);
    assert_eq!(weigh(&[linked(1, 9, 1, 5), linked(1, 9, 1, 5)], &mut seen), 10);
}

#[test]
fn files_weigh_the_same_in_one_directory_or_two_and_in_any_order() {
    let a = linked(1, 1, 2, 3);
    let b = linked(1, 2, 1, 4);
    let c = linked(1, 1, 2, 3);
    let together = weigh(&[a, b, c], &mut HashSet::new());
    assert_eq!(together, 7);
    let mut seen = HashSet::new();
    assert_eq!(weigh(&[a, b], &mut seen) + weigh(&[c], &mut seen), together);
    let mut seen = HashSet::new();
    assert_eq!(weigh(&[c], &mut seen) + weigh(&[b, a], &mut seen), together);
}

#[test]
fn lines_behind_the_end_of_a_search_change_nothing() {
    let args = Args {
        max_count: Some(1),
        after_context: Some(1),
        ..Args::new(4)
    };
    let config = build_config(&args, "x").unwrap();
    let short = grep_file("/f", &config, &b"x1\na\n".to_vec(), false);
    let long = grep_file("/f", &config, &b"x1\na\nx2\nb\nx3\n".to_vec(), false);
    assert_eq!(short.matched_lines, long.matched_lines);
    assert_eq!(format!("{:?}", short.rows), format!("{:?}", long.rows));
}
