//! Searching directory trees held in memory.

use artools::argrep::cli::build_config;
use artools::argrep::scan::{plan_root_file, Action, Step};
use artools::argrep::{
    build_ignore_dirs, build_matcher, emit_file_listing, grep_file, is_gzip_target, scan_and_grep,
    Args, MatchOptions, MatchResult, SearchConfig, SearchStats, Task,
};
use artools::ignore_files::present_ignore_files;
use artools::paths::DirEntry;
use artools::pool::{next_move, Move, Poll};
use glob::Pattern;
use std::collections::{BTreeMap, VecDeque};
use std::sync::Arc;

#[derive(Clone)]
enum Node {
    File(Vec<u8>),
    /// A file that cannot be opened.
    Blocked,
    Dir,
    /// A link to another path.
    Link(String),
}

struct Tree {
    nodes: BTreeMap<String, Node>,
}

const ROOT: &str = "/tmp/tree";

impl Tree {
    fn new() -> Tree {
        let mut nodes = BTreeMap::new();
        nodes.insert(ROOT.to_string(), Node::Dir);
        Tree { nodes }
    }

    fn add(&mut self, rel: &str, node: Node) {
        let mut path = ROOT.to_string();
        if let Some((parents, _)) = rel.rsplit_once('/') {
            for part in parents.split('/') {
                path = format!("{}/{}", path, part);
                self.nodes.entry(path.clone()).or_insert(Node::Dir);
            }
        }
        self.nodes.insert(format!("{}/{}", ROOT, rel), node);
    }

    /// What a path leads to, links followed.
    fn resolve(&self, path: &str) -> (String, Node) {
        match &self.nodes[path] {
            Node::Link(target) => self.resolve(target),
            node => (path.to_string(), node.clone()),
        }
    }

    fn children(&self, dir: &str) -> Vec<(String, Node)> {
        let prefix = format!("{}/", dir);
        let mut out = Vec::new();
        for (path, node) in &self.nodes {
            if let Some(name) = path.strip_prefix(prefix.as_str()) {
                if !name.contains('/') {
                    out.push((name.to_string(), node.clone()));
                }
            }
        }
        out
    }
}

fn make_tree(files: &[(&str, &str)]) -> Tree {
    let mut tree = Tree::new();
    for (rel, content) in files {
        tree.add(rel, Node::File(content.as_bytes().to_vec()));
    }
    tree
}

struct Run {
    rows: Vec<MatchResult>,
    stats: SearchStats,
}

impl Run {
    fn take(&mut self, step: &Step) {
        let counts = step.counts();
        self.stats.total_files += counts.total_files;
        self.stats.files_discovered += counts.files_discovered;
        self.stats.files_skipped += counts.files_skipped;
    }

    fn search(&mut self, tree: &Tree, path: &str, config: &SearchConfig) {
        match tree.resolve(path).1 {
            Node::File(content) => {
                let outcome = grep_file(path, config, &content, false);
                self.stats.matched_lines += outcome.matched_lines;
                self.stats.bytes_read += outcome.bytes_read;
                self.rows.extend(outcome.rows);
            }
            _ => self.stats.io_errors += 1,
        }
    }
}

/// Searches from a path on, with as many workers taking turns at the queue.
fn search(tree: &Tree, root: &str, workers: usize, config: &SearchConfig) -> Run {
    let mut run = Run {
        rows: Vec::new(),
        stats: SearchStats::new(),
    };
    if !matches!(tree.resolve(root).1, Node::Dir) {
        let step = plan_root_file(config, root);
        run.take(&step);
        match &step.action {
            Action::Search(path) => run.search(tree, path, config),
            Action::List(path) => run.rows.extend(emit_file_listing(config, path)),
            _ => unreachable!(),
        }
        return run;
    }
    let mut queue: VecDeque<Task> = VecDeque::new();
    queue.push_back(Task {
        path: tree.resolve(root).0,
        ignore_stack: Arc::new(vec![]),
    });
    let mut active = 1;
    let mut running = vec![true; workers];
    while running.iter().any(|r| *r) {
        for worker in 0..workers {
            if !running[worker] {
                continue;
            }
            let task = if worker % 2 == 0 {
                queue.pop_front()
            } else {
                queue.pop_back()
            };
            let poll = if task.is_some() {
                Poll::Task
            } else {
                Poll::Empty
            };
            match next_move(poll, active) {
                Move::Run => {
                    let task = task.unwrap();
                    run.stats.total_dirs += 1;
                    let children = tree.children(&task.path);
                    let entries: Vec<DirEntry> = children
                        .iter()
                        .map(|(name, node)| DirEntry {
                            name: name.clone(),
                            is_dir: matches!(node, Node::Dir),
                            is_symlink: matches!(node, Node::Link(_)),
                        })
                        .collect();
                    let mut ignore_lines = Vec::new();
                    for name in present_ignore_files(&entries) {
                        if let Some(Node::File(content)) =
                            tree.nodes.get(&format!("{}/{}", task.path, name))
                        {
                            let text = String::from_utf8_lossy(content).to_string();
                            ignore_lines.push(text.lines().map(|l| l.to_string()).collect());
                        }
                    }
                    let outcome = scan_and_grep(&task, config, &entries, &ignore_lines);
                    for step in outcome.steps {
                        if config.is_settled(run.stats.matched_lines) {
                            break;
                        }
                        run.take(&step);
                        match step.action {
                            Action::Pass => {}
                            Action::Descend(sub) => {
                                active += 1;
                                queue.push_back(sub);
                            }
                            Action::Search(path) => run.search(tree, &path, config),
                            Action::List(path) => {
                                run.rows.extend(emit_file_listing(config, &path))
                            }
                        }
                    }
                    active -= 1;
                }
                Move::Yield => {}
                Move::Stop => running[worker] = false,
            }
        }
    }
    run
}

fn base_name(path: &str) -> String {
    path.rsplit('/').next().unwrap().to_string()
}

fn config_with(query: &str, opts: MatchOptions) -> SearchConfig {
    SearchConfig {
        regex: build_matcher(query, opts).unwrap(),
        query: query.to_string(),
        ignore_case: opts.ignore_case,
        line_number: false,
        ignore_dirs: build_ignore_dirs(false, &vec![]).unwrap().0,
        ignore_dir_patterns: Vec::new(),
        debug: false,
        invert: false,
        files_with_matches: false,
        files_without_match: false,
        count_per_file: false,
        include_pattern: None,
        exclude_patterns: Vec::new(),
        type_patterns: Vec::new(),
        type_not_patterns: Vec::new(),
        before_context: 0,
        after_context: 0,
        respect_gitignore: true,
        hidden: false,
        files_only: false,
        search_compressed: false,
        quiet: false,
        only_matching: false,
        max_count: None,
    }
}

fn plain(query: &str) -> SearchConfig {
    config_with(query, MatchOptions::default())
}

fn default_config(query: &str, ignore_case: bool) -> SearchConfig {
    config_with(
        query,
        MatchOptions {
            ignore_case,
            ..Default::default()
        },
    )
}

fn names_of(rows: &[MatchResult]) -> Vec<String> {
    let mut names: Vec<String> = rows.iter().map(|r| base_name(&r.file_path)).collect();
    names.sort();
    names
}

fn lines_of(rows: &[MatchResult]) -> Vec<String> {
    rows.iter()
        .map(|r| r.line_content.trim_end().to_string())
        .collect()
}

fn sorted_lines(rows: &[MatchResult]) -> Vec<String> {
    let mut lines = lines_of(rows);
    lines.sort();
    lines
}

fn collect_from(
    tree: &Tree,
    root: &str,
    query: &str,
    ignore_case: bool,
) -> (Vec<String>, Vec<String>) {
    let rows = search(tree, root, 4, &default_config(query, ignore_case)).rows;
    (names_of(&rows), sorted_lines(&rows))
}

fn collect_matches(tree: &Tree, query: &str, ignore_case: bool) -> (Vec<String>, Vec<String>) {
    collect_from(tree, ROOT, query, ignore_case)
}

fn run(tree: &Tree, config: &SearchConfig) -> Vec<String> {
    names_of(&search(tree, ROOT, 4, config).rows)
}

fn rows(tree: &Tree, config: &SearchConfig) -> Vec<MatchResult> {
    search(tree, ROOT, 4, config).rows
}

#[test]
fn finds_exact_match_in_single_file() {
    let tree = make_tree(&[("file.txt", "hello world\nfoo bar\n")]);
    let (names, lines) = collect_matches(&tree, "hello", false);
    assert_eq!(names, vec!["file.txt"]);
    assert_eq!(lines, vec!["hello world"]);
}

#[test]
fn finds_matches_across_multiple_files() {
    let tree = make_tree(&[
        ("a.txt", "needle here\n"),
        ("b.txt", "nothing here\n"),
        ("c.txt", "another needle\n"),
    ]);
    let (names, _) = collect_matches(&tree, "needle", false);
    assert_eq!(names, vec!["a.txt", "c.txt"]);
}

#[test]
fn no_match_returns_empty() {
    let tree = make_tree(&[("file.txt", "hello world\n")]);
    let (names, lines) = collect_matches(&tree, "zzznomatch", false);
    assert!(names.is_empty());
    assert!(lines.is_empty());
}

#[test]
fn finds_multiple_matching_lines_in_one_file() {
    let tree = make_tree(&[("file.txt", "match one\nskip\nmatch two\n")]);
    let (_, lines) = collect_matches(&tree, "match", false);
    assert_eq!(lines, vec!["match one", "match two"]);
}

#[test]
fn finds_match_in_subdirectory() {
    let tree = make_tree(&[("sub/deep.txt", "hidden needle\n")]);
    let (names, lines) = collect_matches(&tree, "needle", false);
    assert_eq!(names, vec!["deep.txt"]);
    assert_eq!(lines, vec!["hidden needle"]);
}

#[test]
fn case_insensitive_matches_uppercase() {
    let tree = make_tree(&[("file.txt", "TODO: fix this\n")]);
    let (names, lines) = collect_matches(&tree, "todo", true);
    assert_eq!(names, vec!["file.txt"]);
    assert_eq!(lines, vec!["TODO: fix this"]);
}

#[test]
fn case_insensitive_matches_mixed_case() {
    let tree = make_tree(&[("file.txt", "RuSt Is Great\n")]);
    let (names, _) = collect_matches(&tree, "rust", true);
    assert_eq!(names, vec!["file.txt"]);
}

#[test]
fn case_sensitive_does_not_match_wrong_case() {
    let tree = make_tree(&[("file.txt", "TODO: fix this\n")]);
    let (names, _) = collect_matches(&tree, "todo", false);
    assert!(names.is_empty());
}

#[test]
fn binary_file_with_null_byte_is_skipped() {
    let mut tree = Tree::new();
    tree.add(
        "binary.bin",
        Node::File(b"some text\x00binary data\nfoo\n".to_vec()),
    );
    let (names, _) = collect_matches(&tree, "foo", false);
    assert!(names.is_empty(), "binary file should be skipped");
}

#[test]
fn text_file_without_null_bytes_is_searched() {
    let tree = make_tree(&[("text.txt", "no null bytes here\nfoo bar\n")]);
    let (names, _) = collect_matches(&tree, "foo", false);
    assert_eq!(names, vec!["text.txt"]);
}

#[test]
fn invalid_utf8_line_does_not_truncate_remaining_matches() {
    let mut content = Vec::new();
    content.extend_from_slice(b"match line one\n");
    content.extend_from_slice(&[0xFF, 0xFE, b'\n']);
    content.extend_from_slice(b"match line two\n");
    let mut tree = Tree::new();
    tree.add("mixed.txt", Node::File(content));

    let (names, lines) = collect_matches(&tree, "match", false);
    assert_eq!(
        names,
        vec!["mixed.txt", "mixed.txt"],
        "both matches around the invalid-UTF-8 line must still be found, \
         not silently dropped after the bad line"
    );
    assert_eq!(
        lines,
        vec!["match line one", "match line two"],
        "scanning must continue past an invalid-UTF-8 line instead of \
         stopping there"
    );
}

#[test]
fn unreadable_file_is_skipped_but_other_matches_are_still_found() {
    let mut tree = make_tree(&[
        ("readable_one.txt", "needle before\n"),
        ("readable_two.txt", "needle after\n"),
    ]);
    tree.add("blocked.txt", Node::Blocked);
    let found = search(&tree, ROOT, 4, &default_config("needle", false));
    assert_eq!(
        names_of(&found.rows),
        vec!["readable_one.txt", "readable_two.txt"],
        "the readable files' matches must still be reported even though \
         one file in the tree was unreadable"
    );
    assert!(
        found.stats.io_errors > 0,
        "an unreadable file must be counted as an io error, not silently \
         treated as a file with no matches"
    );
}

#[test]
fn symlinked_subdirectory_found_during_traversal_is_not_followed() {
    let mut tree = make_tree(&[("real_target/data.txt", "needle inside target\n")]);
    tree.add(
        "search_here/link_to_target",
        Node::Link(format!("{}/real_target", ROOT)),
    );
    let (names, _) = collect_from(&tree, "/tmp/tree/search_here", "needle", false);
    assert!(
        names.is_empty(),
        "a symlinked directory discovered during traversal must not be \
         followed — found matches: {:?}",
        names
    );
}

#[test]
fn explicit_symlink_to_file_argument_is_followed() {
    let mut tree = make_tree(&[("target.txt", "needle in the real file\n")]);
    tree.add("link.txt", Node::Link(format!("{}/target.txt", ROOT)));
    let (names, lines) = collect_from(&tree, "/tmp/tree/link.txt", "needle", false);
    assert_eq!(
        names,
        vec!["link.txt"],
        "an explicitly-named symlink-to-file must be followed and searched"
    );
    assert_eq!(lines, vec!["needle in the real file"]);
}

#[test]
fn explicit_symlink_to_directory_argument_is_followed() {
    let mut tree = make_tree(&[("real_dir/data.txt", "needle via linked root\n")]);
    tree.add("link_dir", Node::Link(format!("{}/real_dir", ROOT)));
    let (names, lines) = collect_from(&tree, "/tmp/tree/link_dir", "needle", false);
    assert_eq!(
        names,
        vec!["data.txt"],
        "an explicitly-named symlink-to-directory must be followed and \
         its contents searched"
    );
    assert_eq!(lines, vec!["needle via linked root"]);
}

#[test]
fn hidden_files_are_skipped() {
    let tree = make_tree(&[
        (".secret", "needle inside hidden file\n"),
        ("visible.txt", "no match here\n"),
    ]);
    let (names, _) = collect_matches(&tree, "needle", false);
    assert!(names.is_empty(), ".secret should be skipped");
}

#[test]
fn hidden_directories_are_skipped() {
    let tree = make_tree(&[
        (".hidden/file.txt", "needle in hidden dir\n"),
        ("visible.txt", "nothing\n"),
    ]);
    let (names, _) = collect_matches(&tree, "needle", false);
    assert!(names.is_empty());
}

fn hidden_config(query: &str, hidden: bool, no_ignore: bool) -> SearchConfig {
    SearchConfig {
        ignore_dirs: build_ignore_dirs(no_ignore, &vec![]).unwrap().0,
        respect_gitignore: !no_ignore,
        hidden,
        ..plain(query)
    }
}

#[test]
fn hidden_flag_includes_hidden_files() {
    let tree = make_tree(&[
        (".secret", "needle inside hidden file\n"),
        ("visible.txt", "needle in visible file\n"),
    ]);
    let names = run(&tree, &hidden_config("needle", true, false));
    assert_eq!(
        names,
        vec![".secret", "visible.txt"],
        "--hidden must include dotfiles that are skipped by default"
    );
}

#[test]
fn hidden_flag_includes_hidden_directories() {
    let tree = make_tree(&[
        (".hidden/file.txt", "needle in hidden dir\n"),
        ("visible.txt", "nothing here\n"),
    ]);
    let names = run(&tree, &hidden_config("needle", true, false));
    assert_eq!(
        names,
        vec!["file.txt"],
        "--hidden must walk into dot-prefixed directories, not just \
         dot-prefixed files"
    );
}

#[test]
fn hidden_flag_does_not_disable_default_ignore_dirs() {
    let tree = make_tree(&[
        (".git/config", "needle should stay hidden\n"),
        ("visible.txt", "nothing here\n"),
    ]);
    let names = run(&tree, &hidden_config("needle", true, false));
    assert!(
        names.is_empty(),
        "--hidden by itself must not reveal .git's contents — that's a \
         DEFAULT_IGNORES entry, a different filtering layer entirely"
    );
}

#[test]
fn hidden_and_no_ignore_together_reveal_everything() {
    let tree = make_tree(&[
        (".git/config", "needle in git config\n"),
        (".env", "needle in dotenv\n"),
        ("visible.txt", "needle in visible file\n"),
    ]);
    let names = run(&tree, &hidden_config("needle", true, true));
    assert_eq!(
        names,
        vec![".env", "config", "visible.txt"],
        "--hidden + --no-ignore together must search everything, \
         including .git's own contents"
    );
}

#[test]
fn no_ignore_alone_does_not_reveal_hidden_files() {
    let tree = make_tree(&[
        (".secret", "needle here\n"),
        ("visible.txt", "needle there\n"),
    ]);
    let names = run(&tree, &hidden_config("needle", false, true));
    assert_eq!(
        names,
        vec!["visible.txt"],
        "--no-ignore without --hidden must still skip dotfiles"
    );
}

#[test]
fn explicit_hidden_root_path_is_always_searched_regardless_of_hidden_flag() {
    let tree = make_tree(&[(".explicit/file.txt", "needle here\n")]);
    let config = hidden_config("needle", false, false);
    let names = names_of(&search(&tree, "/tmp/tree/.explicit", 4, &config).rows);
    assert_eq!(
        names,
        vec!["file.txt"],
        "a hidden directory passed explicitly as the root must be \
         searched even without --hidden"
    );
}

fn patterns(globs: &[&str]) -> Vec<Pattern> {
    globs.iter().map(|g| Pattern::new(g).unwrap()).collect()
}

fn type_config(
    query: &str,
    type_globs: &[&str],
    type_not_globs: &[&str],
    only: Option<&str>,
) -> SearchConfig {
    SearchConfig {
        include_pattern: only.map(|p| Pattern::new(p).unwrap()),
        type_patterns: patterns(type_globs),
        type_not_patterns: patterns(type_not_globs),
        ..plain(query)
    }
}

#[test]
fn type_filters_to_a_single_extension() {
    let tree = make_tree(&[
        ("main.rs", "needle in rust\n"),
        ("script.py", "needle in python\n"),
        ("readme.md", "needle in markdown\n"),
    ]);
    let names = run(&tree, &type_config("needle", &["*.rs"], &[], None));
    assert_eq!(names, vec!["main.rs"]);
}

#[test]
fn type_with_multiple_extensions_matches_any_of_them() {
    let tree = make_tree(&[
        ("mod.py", "needle here\n"),
        ("mod.pyi", "needle here too\n"),
        ("mod.rs", "needle irrelevant\n"),
    ]);
    let names = run(&tree, &type_config("needle", &["*.py", "*.pyi"], &[], None));
    assert_eq!(names, vec!["mod.py", "mod.pyi"]);
}

#[test]
fn multiple_types_are_unioned() {
    let tree = make_tree(&[
        ("a.rs", "needle\n"),
        ("b.py", "needle\n"),
        ("c.js", "needle\n"),
    ]);
    let names = run(
        &tree,
        &type_config("needle", &["*.rs", "*.py", "*.pyi"], &[], None),
    );
    assert_eq!(names, vec!["a.rs", "b.py"]);
}

#[test]
fn type_not_excludes_matching_files() {
    let tree = make_tree(&[("app.js", "needle in js\n"), ("app.py", "needle in py\n")]);
    let names = run(
        &tree,
        &type_config("needle", &[], &["*.js", "*.jsx", "*.mjs", "*.cjs"], None),
    );
    assert_eq!(names, vec!["app.py"]);
}

#[test]
fn type_not_wins_over_type_on_the_same_file() {
    let tree = make_tree(&[("main.rs", "needle\n")]);
    let names = run(&tree, &type_config("needle", &["*.rs"], &["*.rs"], None));
    assert!(
        names.is_empty(),
        "--type-not must win when the same file matches both --type and \
         --type-not"
    );
}

#[test]
fn type_is_anded_with_include() {
    let tree = make_tree(&[
        ("src/main.rs", "needle in src\n"),
        ("vendor/lib.rs", "needle in vendor\n"),
    ]);
    let names = run(
        &tree,
        &type_config("needle", &["*.rs"], &[], Some("main.rs")),
    );
    assert_eq!(
        names,
        vec!["main.rs"],
        "--type rust --include main.rs must only match files satisfying \
         both filters"
    );
}

#[test]
fn empty_type_patterns_means_no_type_filter() {
    let tree = make_tree(&[
        ("a.rs", "needle\n"),
        ("b.py", "needle\n"),
        ("c.txt", "needle\n"),
    ]);
    let names = run(&tree, &type_config("needle", &[], &[], None));
    assert_eq!(names, vec!["a.rs", "b.py", "c.txt"]);
}

#[test]
fn target_dir_is_ignored_by_default() {
    let tree = make_tree(&[
        ("target/release/binary.txt", "needle in target\n"),
        ("src/main.rs", "clean source\n"),
    ]);
    let (names, _) = collect_matches(&tree, "needle", false);
    assert!(names.is_empty(), "target/ should be ignored");
}

#[test]
fn custom_ignore_dir_is_excluded() {
    let tree = make_tree(&[
        ("vendor/lib.txt", "needle in vendor\n"),
        ("main.txt", "clean\n"),
    ]);
    let config = SearchConfig {
        ignore_dirs: build_ignore_dirs(false, &vec!["vendor".to_string()])
            .unwrap()
            .0,
        ..plain("needle")
    };
    assert!(run(&tree, &config).is_empty());
}

#[test]
fn stats_counts_are_accurate() {
    let tree = make_tree(&[
        ("a.txt", "TARGET: found it\n"),
        ("b.txt", "nothing relevant here\n"),
        ("sub/c.txt", "TARGET: found it again\n"),
    ]);
    let stats = search(&tree, ROOT, 4, &plain("TARGET")).stats;
    assert!(stats.total_dirs >= 2);
    assert_eq!(stats.total_files, 3);
    assert_eq!(stats.matched_lines, 2);
}

#[test]
fn counters_add_up() {
    let tree = make_tree(&[
        ("a.txt", "one\ntwo\n"),
        ("b.md", "three\n"),
        (".c.txt", "four\n"),
        ("sub/d.txt", "five\n"),
    ]);
    let config = SearchConfig {
        exclude_patterns: patterns(&["*.md"]),
        ..plain("o")
    };
    let stats = search(&tree, ROOT, 2, &config).stats;
    assert_eq!(stats.files_discovered, 4);
    assert_eq!(stats.files_skipped, 2);
    assert_eq!(stats.total_files, 2);
    assert_eq!(stats.total_dirs, 2);
    assert_eq!(stats.matched_lines, 2);
    assert_eq!(stats.bytes_read, 13 + 13);
}

#[test]
fn any_number_of_workers_gives_the_same_rows_and_counters() {
    let tree = make_tree(&[
        ("a/x.txt", "needle 1\nhay\nneedle 2\n"),
        ("a/b/y.txt", "hay\n"),
        ("c/z.txt", "needle 3\nneedle 4\n"),
        ("c/d/e/w.txt", "needle 5"),
        ("c/skipped.log", "needle"),
    ]);
    let mut config = plain("needle");
    config.exclude_patterns = vec![Pattern::new("*.log").unwrap()];
    let of = |run: &Run, path: &str| -> Vec<(usize, String)> {
        let rows = run.rows.iter().filter(|r| r.file_path == path);
        rows.map(|r| (r.line_num, r.line_content.clone())).collect()
    };
    let one = search(&tree, ROOT, 1, &config);
    assert_eq!(one.stats.files_discovered, one.stats.total_files + one.stats.files_skipped);
    for workers in 2..6 {
        let other = search(&tree, ROOT, workers, &config);
        assert_eq!(sorted_lines(&one.rows), sorted_lines(&other.rows));
        for row in &one.rows {
            assert_eq!(of(&one, &row.file_path), of(&other, &row.file_path));
        }
        assert_eq!(one.stats.total_files, other.stats.total_files);
        assert_eq!(one.stats.total_dirs, other.stats.total_dirs);
        assert_eq!(one.stats.matched_lines, other.stats.matched_lines);
        assert_eq!(one.stats.io_errors, other.stats.io_errors);
        assert_eq!(one.stats.files_discovered, other.stats.files_discovered);
        assert_eq!(one.stats.files_skipped, other.stats.files_skipped);
        assert_eq!(one.stats.bytes_read, other.stats.bytes_read);
    }
}

#[test]
fn multiple_workers_find_same_matches_as_single_worker() {
    let tree = make_tree(&[
        ("a.txt", "needle\n"),
        ("b.txt", "nothing\n"),
        ("sub1/c.txt", "needle here\n"),
        ("sub2/d.txt", "needle too\n"),
    ]);
    let run = |workers: usize| sorted_lines(&search(&tree, ROOT, workers, &plain("needle")).rows);
    assert_eq!(run(1), run(8));
}

#[test]
fn empty_file_produces_no_matches() {
    let tree = make_tree(&[("empty.txt", "")]);
    let (names, _) = collect_matches(&tree, "anything", false);
    assert!(names.is_empty());
}

#[test]
fn empty_directory_produces_no_matches() {
    let tree = make_tree(&[]);
    let (names, _) = collect_matches(&tree, "anything", false);
    assert!(names.is_empty());
}

#[test]
fn match_on_last_line_without_newline() {
    let tree = make_tree(&[("file.txt", "first line\nneedle no newline")]);
    let (names, lines) = collect_matches(&tree, "needle", false);
    assert_eq!(names, vec!["file.txt"]);
    assert_eq!(lines, vec!["needle no newline"]);
}

#[test]
fn invert_returns_non_matching_lines() {
    let tree = make_tree(&[("file.txt", "match this\nskip this\nmatch again\n")]);
    let config = SearchConfig {
        invert: true,
        ..plain("match")
    };
    assert_eq!(sorted_lines(&rows(&tree, &config)), vec!["skip this"]);
}

#[test]
fn invert_with_no_matches_returns_all_lines() {
    let tree = make_tree(&[("file.txt", "line one\nline two\n")]);
    let config = SearchConfig {
        invert: true,
        ..plain("zzznomatch")
    };
    assert_eq!(
        sorted_lines(&rows(&tree, &config)),
        vec!["line one", "line two"]
    );
}

#[test]
fn files_with_matches_returns_only_filenames() {
    let tree = make_tree(&[
        ("a.txt", "needle here\n"),
        ("b.txt", "nothing\n"),
        ("c.txt", "needle again\n"),
    ]);
    let config = SearchConfig {
        files_with_matches: true,
        ..plain("needle")
    };
    assert_eq!(run(&tree, &config), vec!["a.txt", "c.txt"]);
}

#[test]
fn files_with_matches_emits_each_file_once() {
    let tree = make_tree(&[("file.txt", "needle\nneedle again\nneedle third\n")]);
    let config = SearchConfig {
        files_with_matches: true,
        ..plain("needle")
    };
    assert_eq!(
        run(&tree, &config).len(),
        1,
        "file should appear exactly once"
    );
}

#[test]
fn files_without_match_returns_only_unmatched_filenames() {
    let tree = make_tree(&[
        ("a.txt", "needle here\n"),
        ("b.txt", "nothing\n"),
        ("c.txt", "needle again\n"),
        ("d.txt", "still nothing\n"),
    ]);
    let config = SearchConfig {
        files_without_match: true,
        ..plain("needle")
    };
    assert_eq!(
        run(&tree, &config),
        vec!["b.txt", "d.txt"],
        "-L must list exactly the files with zero matching lines, and \
         exclude every file that has at least one"
    );
}

#[test]
fn files_without_match_emits_nothing_when_every_file_matches() {
    let tree = make_tree(&[("a.txt", "needle here\n"), ("b.txt", "needle there\n")]);
    let config = SearchConfig {
        files_without_match: true,
        ..plain("needle")
    };
    assert!(
        run(&tree, &config).is_empty(),
        "-L must report nothing when every file in the tree has a match"
    );
}

#[test]
fn files_without_match_with_invert_reports_files_where_every_line_matches() {
    let tree = make_tree(&[
        ("all_needle.txt", "needle\nneedle\n"),
        ("mixed.txt", "needle\nother\n"),
        ("no_needle.txt", "nothing\nnothing else\n"),
    ]);
    let config = SearchConfig {
        invert: true,
        files_without_match: true,
        ..plain("needle")
    };
    assert_eq!(
        run(&tree, &config),
        vec!["all_needle.txt"],
        "-L -v must list only files where every line matched the query \
         (so nothing was left over to select under -v)"
    );
}

#[test]
fn files_without_match_stops_reading_after_first_match() {
    let config = SearchConfig {
        files_without_match: true,
        ..plain("needle")
    };
    let content = b"needle\nneedle\nneedle\n".to_vec();
    let outcome = grep_file("/tmp/tree/file.txt", &config, &content, false);
    assert!(
        outcome.rows.is_empty(),
        "a file that has a match must never be reported by -L"
    );
    assert_eq!(
        outcome.matched_lines, 1,
        "-L must stop reading (and stop counting matches) as soon as the \
         first matching line disqualifies the file — it must not scan the \
         other two matching lines in this file"
    );
    assert_eq!(outcome.bytes_read, 21 + 7);
}

#[test]
fn files_without_match_excludes_unreadable_files() {
    let mut tree = make_tree(&[("clean.txt", "nothing matches here\n")]);
    tree.add("blocked.txt", Node::Blocked);
    let config = SearchConfig {
        files_without_match: true,
        ..plain("needle")
    };
    let found = search(&tree, ROOT, 4, &config);
    assert_eq!(
        names_of(&found.rows),
        vec!["clean.txt"],
        "an unreadable file must never show up in -L output, even though \
         it technically produced no matches — its content is unknown, not \
         confirmed empty of matches"
    );
    assert!(
        found.stats.io_errors > 0,
        "the unreadable file must still be counted as an io error so the \
         exit code reflects an incomplete search"
    );
    let half_read = grep_file("/f", &config, &b"nothing\n".to_vec(), true);
    assert!(half_read.io_error);
    assert!(half_read.rows.is_empty());
}

#[test]
fn files_without_match_quiet_produces_no_output() {
    let tree = make_tree(&[("a.txt", "nothing relevant here\n")]);
    let config = SearchConfig {
        files_without_match: true,
        quiet: true,
        ..plain("zzznomatch")
    };
    let found = search(&tree, ROOT, 2, &config);
    assert_eq!(
        found.rows.len(),
        0,
        "-q -L must never send a MatchResult, even for a file -L would \
         otherwise report"
    );
    assert_eq!(
        found.stats.matched_lines, 0,
        "no line matched anywhere, so the -q exit code must be 1 (no \
         match), unaffected by -L being set"
    );
}

fn counts(tree: &Tree, config: &SearchConfig) -> Vec<(String, usize)> {
    let mut counts: Vec<(String, usize)> = rows(tree, config)
        .iter()
        .map(|r| (base_name(&r.file_path), r.count.unwrap_or(0)))
        .collect();
    counts.sort_by_key(|(name, _)| name.clone());
    counts
}

#[test]
fn count_per_file_returns_correct_counts() {
    let tree = make_tree(&[
        ("a.txt", "needle\nneedle\nother\n"),
        ("b.txt", "nothing\n"),
        ("c.txt", "needle\n"),
    ]);
    let config = SearchConfig {
        count_per_file: true,
        ..plain("needle")
    };
    assert_eq!(
        counts(&tree, &config),
        vec![
            ("a.txt".to_string(), 2),
            ("b.txt".to_string(), 0),
            ("c.txt".to_string(), 1),
        ]
    );
}

#[test]
fn count_per_file_emits_result_for_every_file() {
    let tree = make_tree(&[("match.txt", "needle\n"), ("nomatch.txt", "nothing\n")]);
    let config = SearchConfig {
        count_per_file: true,
        ..plain("needle")
    };
    assert_eq!(
        run(&tree, &config).len(),
        2,
        "both files should emit a count"
    );
}

#[test]
fn invert_with_count_counts_non_matching_lines() {
    let tree = make_tree(&[
        ("a.txt", "needle\nother\nneedle\n"),
        ("b.txt", "needle\nneedle\n"),
        ("c.txt", "nothing\nstill nothing\n"),
    ]);
    let config = SearchConfig {
        invert: true,
        count_per_file: true,
        ..plain("needle")
    };
    assert_eq!(
        counts(&tree, &config),
        vec![
            ("a.txt".to_string(), 1),
            ("b.txt".to_string(), 0),
            ("c.txt".to_string(), 2),
        ],
        "-v -c must count lines that DON'T match the query, per file"
    );
}

#[test]
fn invert_with_files_with_matches_returns_files_with_a_non_matching_line() {
    let tree = make_tree(&[
        ("all_needle.txt", "needle\nneedle\n"),
        ("mixed.txt", "needle\nother\n"),
        ("no_needle.txt", "nothing\nnothing else\n"),
    ]);
    let config = SearchConfig {
        invert: true,
        files_with_matches: true,
        ..plain("needle")
    };
    assert_eq!(
        run(&tree, &config),
        vec!["mixed.txt", "no_needle.txt"],
        "-v -l must list files with at least one line that DOESN'T match, \
         and must exclude a file where every line matches"
    );
}

fn shape(rows: &[MatchResult]) -> Vec<(String, bool)> {
    rows.iter()
        .map(|r| (r.line_content.trim_end().to_string(), r.is_context))
        .collect()
}

#[test]
fn invert_with_context_builds_context_around_inverted_matches() {
    let tree = make_tree(&[(
        "file.txt",
        "MATCH one\nplain a\nplain b\nMATCH two\nplain c\nplain d\nplain e\n",
    )]);
    let config = SearchConfig {
        invert: true,
        before_context: 1,
        after_context: 1,
        ..plain("MATCH")
    };
    assert_eq!(
        shape(&rows(&tree, &config)),
        vec![
            ("MATCH one".to_string(), true),
            ("plain a".to_string(), false),
            ("plain b".to_string(), false),
            ("MATCH two".to_string(), true),
            ("plain c".to_string(), false),
            ("plain d".to_string(), false),
            ("plain e".to_string(), false),
        ],
        "context must be built around the inverted matches (physical \
         neighbors), including a literal query-matching line shown purely \
         as context — not re-filtered against the original query"
    );
}

#[test]
fn include_pattern_searches_only_matching_files() {
    let tree = make_tree(&[
        ("main.rs", "needle in rust\n"),
        ("readme.md", "needle in markdown\n"),
        ("config.toml", "needle in toml\n"),
    ]);
    let config = SearchConfig {
        include_pattern: Some(Pattern::new("*.rs").unwrap()),
        ..plain("needle")
    };
    assert_eq!(run(&tree, &config), vec!["main.rs"]);
}

#[test]
fn include_pattern_no_files_match_returns_empty() {
    let tree = make_tree(&[("main.rs", "needle\n"), ("lib.rs", "needle\n")]);
    let config = SearchConfig {
        include_pattern: Some(Pattern::new("*.txt").unwrap()),
        ..plain("needle")
    };
    assert!(run(&tree, &config).is_empty());
}

#[test]
fn include_wildcard_matches_all_files() {
    let tree = make_tree(&[("a.rs", "needle\n"), ("b.txt", "needle\n")]);
    let config_all = plain("needle");
    let config_wild = SearchConfig {
        include_pattern: Some(Pattern::new("*").unwrap()),
        ..plain("needle")
    };
    assert_eq!(
        run(&tree, &config_all),
        run(&tree, &config_wild),
        "'*' include should match same as no filter"
    );
}

fn numbered(rows: &[MatchResult]) -> Vec<(usize, String, bool)> {
    rows.iter()
        .filter(|r| !r.is_separator)
        .map(|r| {
            (
                r.line_num,
                r.line_content.trim_end().to_string(),
                r.is_context,
            )
        })
        .collect()
}

#[test]
fn before_context_includes_leading_lines() {
    let tree = make_tree(&[("file.txt", "line1\nline2\nline3\nMATCH\nline5\n")]);
    let config = SearchConfig {
        line_number: true,
        before_context: 2,
        ..plain("MATCH")
    };
    assert_eq!(
        numbered(&rows(&tree, &config)),
        vec![
            (2, "line2".to_string(), true),
            (3, "line3".to_string(), true),
            (4, "MATCH".to_string(), false),
        ]
    );
}

#[test]
fn after_context_includes_trailing_lines() {
    let tree = make_tree(&[("file.txt", "line1\nMATCH\nline3\nline4\nline5\n")]);
    let config = SearchConfig {
        line_number: true,
        after_context: 2,
        ..plain("MATCH")
    };
    assert_eq!(
        numbered(&rows(&tree, &config)),
        vec![
            (2, "MATCH".to_string(), false),
            (3, "line3".to_string(), true),
            (4, "line4".to_string(), true),
        ]
    );
}

#[test]
fn context_both_and_group_separator() {
    let tree = make_tree(&[(
        "file.txt",
        "line1\nline2\nMATCH1\nline4\nline5\nline6\nline7\nline8\nMATCH2\nline10\n",
    )]);
    let config = SearchConfig {
        line_number: true,
        before_context: 1,
        after_context: 1,
        ..plain("MATCH")
    };
    let res: Vec<String> = rows(&tree, &config)
        .iter()
        .map(|item| {
            if item.is_separator {
                "--".to_string()
            } else {
                let sep = if item.is_context { "-" } else { ":" };
                format!("{}{}{}", item.line_num, sep, item.line_content.trim_end())
            }
        })
        .collect();
    assert_eq!(
        res,
        vec![
            "2-line2",
            "3:MATCH1",
            "4-line4",
            "--",
            "8-line8",
            "9:MATCH2",
            "10-line10",
        ]
    );
}

#[test]
fn query_is_a_regex_by_default() {
    let tree = make_tree(&[("a.txt", "foo.bar\nfooXbar\nfooZZbar\n")]);
    assert_eq!(
        sorted_lines(&rows(&tree, &plain("foo.bar"))),
        vec!["foo.bar", "fooXbar"]
    );
}

#[test]
fn fixed_strings_mode_matches_literally() {
    let tree = make_tree(&[("a.txt", "foo.bar\nfooXbar\nfooZZbar\n")]);
    let config = config_with(
        "foo.bar",
        MatchOptions {
            fixed_strings: true,
            ..Default::default()
        },
    );
    assert_eq!(lines_of(&rows(&tree, &config)), vec!["foo.bar"]);
}

#[test]
fn invalid_regex_returns_error() {
    let result = build_matcher("foo(bar", MatchOptions::default());
    assert!(result.is_err());
}

#[test]
fn whole_word_matches_only_word_boundaries() {
    let tree = make_tree(&[("a.txt", "cat\nthe cat sat\ncategory\nconcatenate\n")]);
    let config = config_with(
        "cat",
        MatchOptions {
            whole_word: true,
            ..Default::default()
        },
    );
    assert_eq!(
        sorted_lines(&rows(&tree, &config)),
        vec!["cat", "the cat sat"]
    );
}

#[test]
fn whole_line_matches_only_exact_line() {
    let tree = make_tree(&[("a.txt", "ERROR\nERROR: disk full\nan ERROR occurred\n")]);
    let config = config_with(
        "ERROR",
        MatchOptions {
            whole_line: true,
            ..Default::default()
        },
    );
    assert_eq!(lines_of(&rows(&tree, &config)), vec!["ERROR"]);
}

#[test]
fn quiet_mode_produces_no_output() {
    let tree = make_tree(&[
        ("a.txt", "needle here\n"),
        ("b.txt", "needle there\n"),
        ("c.txt", "needle everywhere\n"),
    ]);
    let config = SearchConfig {
        quiet: true,
        ..plain("needle")
    };
    let found = search(&tree, ROOT, 2, &config);
    assert_eq!(
        found.rows.len(),
        0,
        "-q must never send a MatchResult, no matter how many files match"
    );
    assert!(found.stats.matched_lines > 0);
    assert_eq!(found.stats.total_files, 1);
}

#[test]
fn quiet_mode_with_no_matches_reports_zero() {
    let tree = make_tree(&[("a.txt", "nothing relevant here\n")]);
    let config = SearchConfig {
        quiet: true,
        ..plain("zzznomatch")
    };
    let found = search(&tree, ROOT, 2, &config);
    assert_eq!(found.rows.len(), 0);
    assert_eq!(found.stats.matched_lines, 0);
}

#[test]
fn only_matching_emits_one_row_per_occurrence() {
    let tree = make_tree(&[("a.txt", "foo bar foo\nno match here\n")]);
    let config = SearchConfig {
        only_matching: true,
        ..plain("foo")
    };
    let res: Vec<(usize, String)> = rows(&tree, &config)
        .iter()
        .map(|r| (r.line_num, r.line_content.clone()))
        .collect();
    assert_eq!(res, vec![(1, "foo".to_string()), (1, "foo".to_string())]);
}

#[test]
fn count_per_file_takes_priority_over_only_matching() {
    let tree = make_tree(&[("a.txt", "foo bar foo\n")]);
    let config = SearchConfig {
        count_per_file: true,
        only_matching: true,
        ..plain("foo")
    };
    let res: Vec<Option<usize>> = rows(&tree, &config).iter().map(|r| r.count).collect();
    assert_eq!(res, vec![Some(1)]);
}

#[test]
fn max_count_stops_after_n_matching_lines() {
    let tree = make_tree(&[("a.txt", "match1\nno\nmatch2\nno\nmatch3\nno\nmatch4\n")]);
    let config = SearchConfig {
        max_count: Some(2),
        ..plain("match")
    };
    assert_eq!(lines_of(&rows(&tree, &config)), vec!["match1", "match2"]);
}

#[test]
fn max_count_caps_the_count_per_file_total() {
    let tree = make_tree(&[("a.txt", "match\nmatch\nmatch\nmatch\n")]);
    let config = SearchConfig {
        count_per_file: true,
        max_count: Some(2),
        ..plain("match")
    };
    let res: Vec<Option<usize>> = rows(&tree, &config).iter().map(|r| r.count).collect();
    assert_eq!(res, vec![Some(2)]);
}

#[test]
fn max_count_with_only_matching_counts_lines_not_occurrences() {
    let tree = make_tree(&[("a.txt", "foo foo foo\nfoo\nfoo\n")]);
    let config = SearchConfig {
        only_matching: true,
        max_count: Some(1),
        ..plain("foo")
    };
    let res: Vec<String> = rows(&tree, &config)
        .iter()
        .map(|r| r.line_content.clone())
        .collect();
    assert_eq!(res, vec!["foo", "foo", "foo"]);
}

#[test]
fn max_count_still_flushes_trailing_context() {
    let tree = make_tree(&[("a.txt", "before\nmatch1\nafter1\nmore\nmatch2\nafter2\n")]);
    let config = SearchConfig {
        after_context: 1,
        max_count: Some(1),
        ..plain("match")
    };
    assert_eq!(
        shape(&rows(&tree, &config)),
        vec![("match1".to_string(), false), ("after1".to_string(), true),]
    );
}

#[test]
fn after_the_limit_a_matching_line_is_only_context() {
    let tree = make_tree(&[("a.txt", "match1\nmatch2\nmatch3\n")]);
    let config = SearchConfig {
        after_context: 1,
        max_count: Some(1),
        ..plain("match")
    };
    assert_eq!(
        shape(&rows(&tree, &config)),
        vec![("match1".to_string(), false), ("match2".to_string(), true)]
    );
}

#[test]
fn exclude_skips_matching_files() {
    let tree = make_tree(&[("a.min.js", "needle\n"), ("a.js", "needle\n")]);
    let config = SearchConfig {
        exclude_patterns: patterns(&["*.min.js"]),
        ..plain("needle")
    };
    assert_eq!(run(&tree, &config), vec!["a.js"]);
}

#[test]
fn exclude_wins_over_include_on_overlap() {
    let tree = make_tree(&[("a.txt", "needle\n")]);
    let config = SearchConfig {
        include_pattern: Some(Pattern::new("*.txt").unwrap()),
        exclude_patterns: patterns(&["*.txt"]),
        ..plain("needle")
    };
    assert!(run(&tree, &config).is_empty());
}

#[test]
fn exclude_dir_glob_skips_matching_directories() {
    let tree = make_tree(&[
        ("build/output.txt", "needle\n"),
        ("build-tools/notes.txt", "needle\n"),
        ("src/main.txt", "needle\n"),
    ]);
    let config = SearchConfig {
        ignore_dir_patterns: patterns(&["build*"]),
        ..plain("needle")
    };
    assert_eq!(run(&tree, &config), vec!["main.txt"]);
}

#[test]
fn ignore_files_hold_for_the_search() {
    let tree = make_tree(&[
        (".gitignore", "*.log\n"),
        ("sub/.ignore", "!keep.log\n"),
        ("a.log", "needle\n"),
        ("sub/keep.log", "needle\n"),
        ("sub/b.log", "needle\n"),
        ("c.txt", "needle\n"),
    ]);
    assert_eq!(run(&tree, &plain("needle")), vec!["c.txt", "keep.log"]);
    let config = SearchConfig {
        respect_gitignore: false,
        ..plain("needle")
    };
    assert_eq!(
        run(&tree, &config),
        vec!["a.log", "b.log", "c.txt", "keep.log"]
    );
}

#[test]
fn files_are_listed_without_being_read() {
    let mut tree = make_tree(&[("a.txt", "x\n"), ("sub/b.txt", "y\n")]);
    tree.add("blocked.txt", Node::Blocked);
    let args = Args {
        files: true,
        ..Args::new(4)
    };
    let config = build_config(&args, "").unwrap();
    let found = search(&tree, ROOT, 2, &config);
    assert_eq!(
        names_of(&found.rows),
        vec!["a.txt", "b.txt", "blocked.txt"]
    );
    assert_eq!(found.stats.io_errors, 0);
    assert_eq!(found.stats.bytes_read, 0);
    let quiet = SearchConfig {
        quiet: true,
        ..config
    };
    assert!(search(&tree, ROOT, 2, &quiet).rows.is_empty());
    assert_eq!(
        names_of(&search(&tree, "/tmp/tree/a.txt", 2, &build_config(&args, "").unwrap()).rows),
        vec!["a.txt"]
    );
}

#[test]
fn gzip_files_are_told_by_their_names() {
    assert!(is_gzip_target("/var/log/syslog.1.gz"));
    assert!(is_gzip_target("a.gz"));
    assert!(!is_gzip_target("a.tar.gz"));
    assert!(!is_gzip_target("a.tgz"));
    assert!(!is_gzip_target("a.gzip"));
    assert!(!is_gzip_target("/x/.gz"));
    assert!(!is_gzip_target("gz"));
}
