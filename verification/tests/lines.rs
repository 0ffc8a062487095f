//! One file, line by line, and what is printed for it.

use artools::argrep::cli::build_config;
use artools::argrep::content::{cost_of_line, is_binary, is_text_line, SNIFF_LEN};
use artools::argrep::display::highlight_pieces;
use artools::argrep::matcher::line_matches;
use artools::argrep::scan::decompresses;
use artools::argrep::{
    build_matcher, grep_file, grep_stdin, highlight_matches, print_result, print_stdin_line, Args,
    FileSearch, MatchOptions, MatchResult, SearchConfig,
};

fn config(change: impl Fn(&mut Args), query: &str) -> SearchConfig {
    let mut args = Args::new(4);
    change(&mut args);
    build_config(&args, query).unwrap()
}

fn plain(query: &str) -> SearchConfig {
    config(|_| {}, query)
}

fn row(path: &str, num: usize, text: &str) -> MatchResult {
    MatchResult {
        file_path: path.to_string(),
        line_num: num,
        line_content: text.to_string(),
        count: None,
        is_context: false,
        is_separator: false,
    }
}

/// The text of a row without the escape sequences that color it.
fn uncolored(s: &str) -> String {
    let mut out = String::new();
    let mut rest = s;
    while let Some(at) = rest.find('\u{1b}') {
        out.push_str(&rest[..at]);
        let end = rest[at..].find('m').unwrap();
        rest = &rest[at + end + 1..];
    }
    out.push_str(rest);
    out
}

#[test]
fn only_the_start_of_a_file_tells_whether_it_is_binary() {
    assert!(is_binary(b"a\0b"));
    assert!(!is_binary(b"ab"));
    assert!(!is_binary(b""));
    let mut content = vec![b'x'; SNIFF_LEN];
    content.extend_from_slice(b"\0\nneedle\n");
    let outcome = grep_file("/f", &plain("needle"), &content, false);
    assert_eq!(outcome.matched_lines, 1);
    content[SNIFF_LEN - 1] = 0;
    let outcome = grep_file("/f", &plain("needle"), &content, false);
    assert_eq!(outcome.matched_lines, 0);
    assert!(outcome.rows.is_empty());
}

#[test]
fn line_ends_do_not_belong_to_the_lines() {
    let config = config(|a| a.whole_line = true, "one");
    let outcome = grep_file("/f", &config, &b"one\r\ntwo\none".to_vec(), false);
    assert_eq!(outcome.matched_lines, 2);
    assert_eq!(outcome.rows[0].line_num, 1);
    assert_eq!(outcome.rows[1].line_num, 3);
    assert_eq!(outcome.bytes_read, 12 + 12);
    assert!(!outcome.io_error);
}

#[test]
fn a_failure_to_read_is_told() {
    let outcome = grep_file("/f", &plain("one"), &b"one\n".to_vec(), true);
    assert!(outcome.io_error);
    assert_eq!(outcome.matched_lines, 1);
    assert_eq!(outcome.rows.len(), 1);
    let counting = config(|a| a.count_per_file = true, "one");
    let outcome = grep_file("/f", &counting, &b"one\n".to_vec(), true);
    assert_eq!(outcome.rows[0].count, Some(1));
    let outcome = grep_file("/f", &counting, &vec![], true);
    assert!(outcome.io_error && outcome.rows.is_empty());
    let outcome = grep_file("/f", &counting, &vec![], false);
    assert_eq!(outcome.rows[0].count, Some(0));
}

#[test]
fn a_line_in_the_middle_of_which_reading_fails_is_lost() {
    let outcome = grep_file("/f", &plain("needle"), &b"aaa\nneedle".to_vec(), true);
    assert!(outcome.io_error);
    assert_eq!(outcome.matched_lines, 0);
    assert!(outcome.rows.is_empty());
    assert_eq!(outcome.bytes_read, 10 + 4);
    let outcome = grep_file("/f", &plain("needle"), &b"aaa\nneedle".to_vec(), false);
    assert!(!outcome.io_error);
    assert_eq!(outcome.rows.len(), 1);
    assert_eq!(outcome.bytes_read, 10 + 10);
    let counting = config(|a| a.count_per_file = true, "needle");
    let outcome = grep_file("/f", &counting, &b"needle".to_vec(), true);
    assert!(outcome.io_error);
    assert_eq!(outcome.rows.len(), 1);
    assert_eq!(outcome.rows[0].count, Some(0));
    let missing = config(|a| a.files_without_match = true, "needle");
    let outcome = grep_file("/f", &missing, &b"aaa\nbb".to_vec(), true);
    assert!(outcome.io_error && outcome.rows.is_empty());
}

#[test]
fn only_gzip_files_are_decompressed_and_only_when_asked_to() {
    let asked = config(|a| a.search_compressed = true, "x");
    assert!(decompresses(&asked, "/d/log.gz"));
    assert!(!decompresses(&asked, "/d/log.txt"));
    assert!(!decompresses(&asked, "/d/all.tar.gz"));
    assert!(!decompresses(&asked, "/d/.gz"));
    assert!(!decompresses(&plain("x"), "/d/log.gz"));
}

#[test]
fn a_search_takes_no_more_lines_than_it_wants() {
    let config = config(|a| a.files_with_matches = true, "x");
    let mut search = FileSearch::new("/f", config.rules());
    assert!(search.wants_line());
    assert!(search.feed_line(&config, "a").is_empty());
    assert!(search.wants_line());
    assert_eq!(search.feed_line(&config, "x").len(), 1);
    assert!(!search.wants_line());
    assert_eq!(search.lines_read(), 2);
    assert_eq!(search.match_count(), 1);
    assert!(search.finish(false).is_empty());
}

#[test]
fn rows_already_reported_stay() {
    let config = config(|a| a.context = Some(1), "x");
    let mut search = FileSearch::new("/f", config.rules());
    let mut seen = Vec::new();
    for line in ["a", "x", "b", "c", "d", "x"] {
        for r in search.feed_line(&config, line) {
            seen.push((r.line_num, r.is_context, r.is_separator));
        }
    }
    assert_eq!(
        seen,
        vec![
            (1, true, false),
            (2, false, false),
            (3, true, false),
            (0, false, true),
            (5, true, false),
            (6, false, false),
        ]
    );
    assert!(search.finish(false).is_empty());
}

#[test]
fn bytes_that_are_no_text_are_replaced() {
    let config = plain("a");
    let mut search = FileSearch::new("/f", config.rules());
    let rows = search.feed_bytes(&config, b"a\xff\n");
    assert_eq!(rows.len(), 1);
    assert!(rows[0].line_content.starts_with("a\u{fffd}"));
}

#[test]
fn printed_lines_hold_no_control_characters() {
    let outcome = grep_file("/f", &plain("bell"), &b"a\x07bell\n".to_vec(), false);
    assert_eq!(outcome.rows[0].line_content.trim_end(), "a\\x07bell");
}

#[test]
fn standard_input_is_searched_like_a_file() {
    let input = b"foo bar\nbaz\nfoo\n".to_vec();
    let outcome = grep_stdin(&plain("foo"), &input);
    assert_eq!(outcome.matched_lines, 2);
    assert_eq!(outcome.lines.len(), 2);
    assert_eq!(uncolored(&outcome.lines[0]), "foo bar");
    assert_eq!(outcome.bytes_read, 16);
    let outcome = grep_stdin(&config(|a| a.only_matching = true, "foo"), &b"foo bar foo\n".to_vec());
    assert_eq!(
        outcome.lines.iter().map(|l| uncolored(l)).collect::<Vec<_>>(),
        vec!["foo", "foo"]
    );
    let outcome = grep_stdin(&config(|a| a.quiet = true, "foo"), &input);
    assert_eq!(outcome.matched_lines, 1);
    assert!(outcome.lines.is_empty());
}

#[test]
fn standard_input_ends_at_a_line_that_is_no_text() {
    assert!(is_text_line("f\u{f6}\u{f6}\n".as_bytes()));
    assert!(!is_text_line(b"f\xff\n"));
    let input = b"foo 1\nfoo \xff\nfoo 3\n".to_vec();
    let outcome = grep_stdin(&plain("foo"), &input);
    assert_eq!(outcome.matched_lines, 1);
    assert_eq!(outcome.lines.len(), 1);
    assert_eq!(outcome.bytes_read, 6);
    let outcome = grep_stdin(&config(|a| a.count_per_file = true, "foo"), &input);
    assert_eq!(uncolored(&outcome.lines[0]), "<stdin>:1");
    let outcome = grep_stdin(&config(|a| a.files_without_match = true, "bar"), &input);
    assert_eq!(uncolored(&outcome.lines[0]), "<stdin>");
    let outcome = grep_file("/f", &plain("foo"), &input, false);
    assert_eq!(outcome.matched_lines, 3);
}

#[test]
fn standard_input_and_a_file_report_the_same() {
    let content = b"foo bar\nbaz\n\nfoo foo\nlast".to_vec();
    let changes: [fn(&mut Args); 6] = [
        |_| {},
        |a| a.count_per_file = true,
        |a| a.files_with_matches = true,
        |a| a.files_without_match = true,
        |a| a.invert = true,
        |a| a.only_matching = true,
    ];
    for change in changes {
        let config = config(change, "foo");
        let file = grep_file("<stdin>", &config, &content, false);
        let stdin = grep_stdin(&config, &content);
        assert_eq!(stdin.matched_lines, file.matched_lines);
        let printed: Vec<String> = file.rows.iter().map(|r| print_stdin_line(r, &config)).collect();
        assert_eq!(stdin.lines, printed);
    }
}

#[test]
fn lines_of_standard_input_cost_their_length_and_one() {
    assert_eq!(cost_of_line(b"foo\n"), 4);
    assert_eq!(cost_of_line(b"foo"), 4);
}

#[test]
fn rows_are_printed_with_file_and_number() {
    let config = config(|a| a.line_number = true, "foo");
    assert_eq!(uncolored(&print_result(&row("/f", 3, "foo bar"), &config)), "/f:3:foo bar");
    let context = MatchResult {
        is_context: true,
        ..row("/f", 4, "baz")
    };
    assert_eq!(uncolored(&print_result(&context, &config)), "/f-4-baz");
    let parting = MatchResult {
        is_separator: true,
        ..row("", 0, "")
    };
    assert_eq!(uncolored(&print_result(&parting, &config)), "--");
}

#[test]
fn counts_and_names_are_printed_alone() {
    let counting = config(|a| a.count_per_file = true, "foo");
    let counted = MatchResult {
        count: Some(7),
        ..row("/f", 0, "")
    };
    assert_eq!(uncolored(&print_result(&counted, &counting)), "/f: 7");
    let naming = config(|a| a.files_with_matches = true, "foo");
    assert_eq!(uncolored(&print_result(&row("/f", 0, ""), &naming)), "/f");
}

#[test]
fn lines_of_standard_input_are_printed_without_a_name() {
    let config = config(|a| a.line_number = true, "foo");
    assert_eq!(uncolored(&print_stdin_line(&row("x", 3, "foo"), &config)), "3:foo");
}

#[test]
fn matches_are_marked_and_nothing_is_lost() {
    let regex = build_matcher("o+", MatchOptions::default()).unwrap();
    assert_eq!(uncolored(&highlight_matches("foo böo", &regex)), "foo böo");
    let pieces = highlight_pieces("foo böo", &vec![(1, 3), (7, 8)]);
    assert_eq!(pieces.len(), 5);
}

#[test]
fn literal_queries_are_found_where_they_stand() {
    let literal = MatchOptions {
        fixed_strings: true,
        ..Default::default()
    };
    let re = build_matcher("a.(b", literal).unwrap();
    assert!(line_matches(&re, "xa.(by"));
    assert!(!line_matches(&re, "xaz(by"));
    let line = build_matcher(
        "a.b",
        MatchOptions {
            whole_line: true,
            ..literal
        },
    )
    .unwrap();
    assert!(line_matches(&line, "a.b"));
    assert!(!line_matches(&line, "a.b."));
    let folding = build_matcher(
        "STRASSE",
        MatchOptions {
            ignore_case: true,
            ..literal
        },
    )
    .unwrap();
    assert!(line_matches(&folding, "strasse"));
}

#[test]
fn a_query_has_to_be_an_expression_before_it_is_wrapped() {
    let plain = MatchOptions::default();
    let fault = build_matcher("a)|(b", plain).unwrap_err();
    for (whole_word, whole_line) in [(true, false), (false, true), (true, true)] {
        let opts = MatchOptions {
            whole_word,
            whole_line,
            ..plain
        };
        assert_eq!(build_matcher("a)|(b", opts).unwrap_err(), fault);
        let literal = MatchOptions {
            fixed_strings: true,
            ..opts
        };
        assert!(build_matcher("a)|(b", literal).is_ok());
    }
    let mut args = Args::new(4);
    args.whole_line = true;
    assert_eq!(build_config(&args, "a)|(b").err(), Some(fault));
}

#[test]
fn what_is_wrong_with_a_pattern_is_told() {
    let fault = build_matcher("foo(bar", MatchOptions::default()).unwrap_err();
    assert!(fault.starts_with("Invalid pattern 'foo(bar': "));
}
