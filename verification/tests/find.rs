//! Searching for entries in directory trees held in memory.

use artools::arfind::scan::{
    consider_root, print_match, root_entry, settle_entry, Facts, FindOutcome,
};
use artools::arfind::{
    build_ignore_dirs, scan_directory, MatchResult, SearchConfig, SearchStats, SizeFilter, Task,
};
use artools::ignore_files::present_ignore_files;
use artools::paths::DirEntry;
use artools::pool::{next_move, Move, Poll};
use glob::Pattern;
use std::collections::{BTreeMap, VecDeque};

/// A file's bytes, or a directory.
enum Node {
    File(Vec<u8>),
    Dir,
    Link,
}

struct Tree {
    nodes: BTreeMap<String, Node>,
}

const ROOT: &str = "/tmp/.tmpRoot";

impl Tree {
    fn new() -> Tree {
        let mut nodes = BTreeMap::new();
        nodes.insert(ROOT.to_string(), Node::Dir);
        Tree { nodes }
    }

    fn add_dirs(&mut self, rel: &str) {
        let mut path = ROOT.to_string();
        for part in rel.split('/') {
            path = format!("{}/{}", path, part);
            self.nodes.entry(path.clone()).or_insert(Node::Dir);
        }
    }

    fn add_file(&mut self, rel: &str, content: &[u8]) {
        if let Some((parent, _)) = rel.rsplit_once('/') {
            self.add_dirs(parent);
        }
        self.nodes
            .insert(format!("{}/{}", ROOT, rel), Node::File(content.to_vec()));
    }

    fn children(&self, dir: &str) -> Vec<(String, &Node)> {
        let prefix = format!("{}/", dir);
        let mut out = Vec::new();
        for (path, node) in &self.nodes {
            if let Some(name) = path.strip_prefix(prefix.as_str()) {
                if !name.contains('/') {
                    out.push((name.to_string(), node));
                }
            }
        }
        out
    }

    fn facts(&self, path: &str) -> Facts {
        match self.nodes.get(path) {
            Some(Node::File(content)) => Facts {
                len: Some(content.len() as u64),
                childless: false,
            },
            Some(Node::Dir) => Facts {
                len: Some(4096),
                childless: self.children(path).is_empty(),
            },
            _ => Facts {
                len: Some(7),
                childless: false,
            },
        }
    }

    fn scan(&self, task: &Task, config: &SearchConfig) -> FindOutcome {
        let mut entries = Vec::new();
        let mut facts = Vec::new();
        for (name, node) in self.children(&task.path) {
            facts.push(self.facts(&format!("{}/{}", task.path, name)));
            entries.push(DirEntry {
                name,
                is_dir: matches!(node, Node::Dir),
                is_symlink: matches!(node, Node::Link),
            });
        }
        let mut ignore_lines = Vec::new();
        for name in present_ignore_files(&entries) {
            if let Some(Node::File(content)) = self.nodes.get(&format!("{}/{}", task.path, name)) {
                let text = String::from_utf8_lossy(content).to_string();
                ignore_lines.push(text.lines().map(|l| l.to_string()).collect());
            }
        }
        scan_directory(task, config, &entries, &facts, &ignore_lines)
    }
}

fn make_tree(files: &[&str]) -> Tree {
    let mut tree = Tree::new();
    for rel in files {
        tree.add_file(rel, b"");
    }
    tree
}

fn make_tree_with_content(files: &[(&str, &[u8])]) -> Tree {
    let mut tree = Tree::new();
    for (rel, content) in files {
        tree.add_file(rel, content);
    }
    tree
}

/// Walks the whole tree, with as many workers taking turns at the queue.
fn find(tree: &Tree, workers: usize, config: &SearchConfig) -> (Vec<MatchResult>, SearchStats) {
    let mut found = Vec::new();
    let mut stats = SearchStats::new();
    let mut queue: VecDeque<Task> = VecDeque::new();
    let entry = root_entry(ROOT, true);
    let considered = consider_root(config, ROOT, &entry);
    if settle_entry(config, &entry, &considered, &tree.facts(ROOT)) {
        stats.matched_count += 1;
        found.push(MatchResult {
            path: ROOT.to_string(),
            is_dir: true,
        });
    }
    let mut active = 0;
    if let Some(task) = considered.subtask {
        active += 1;
        queue.push_back(task);
    }
    let mut running = vec![true; workers];
    while running.iter().any(|r| *r) {
        for worker in 0..workers {
            if !running[worker] {
                continue;
            }
            let task = if worker % 2 == 0 {
                queue.pop_front()
            } else {
                queue.pop_back()
            };
            let poll = match task {
                Some(_) => Poll::Task,
                None => Poll::Empty,
            };
            match next_move(poll, active) {
                Move::Run => {
                    let outcome = tree.scan(&task.unwrap(), config);
                    stats.total_dirs += 1;
                    stats.total_files += outcome.total_files;
                    stats.matched_count += outcome.matches.len();
                    found.extend(outcome.matches);
                    for sub in outcome.subtasks {
                        active += 1;
                        queue.push_back(sub);
                    }
                    active -= 1;
                }
                Move::Yield => {}
                Move::Stop => running[worker] = false,
            }
        }
    }
    (found, stats)
}

fn base_name(path: &str) -> String {
    path.rsplit('/').next().unwrap().to_string()
}

fn root_name() -> String {
    base_name(ROOT)
}

fn names(found: Vec<MatchResult>) -> Vec<String> {
    let mut v: Vec<String> = found.iter().map(|m| base_name(&m.path)).collect();
    v.sort();
    v
}

fn plain_config(pattern: &str) -> SearchConfig {
    SearchConfig {
        pattern: Pattern::new(pattern).unwrap(),
        ignore_dirs: build_ignore_dirs(false, &vec![]),
        max_depth: None,
        file_type: None,
        hidden: false,
        debug: false,
        size_filter: None,
        empty_only: false,
        case_insensitive: false,
        respect_gitignore: false,
    }
}

fn collect_names(
    tree: &Tree,
    pattern: &str,
    max_depth: Option<usize>,
    file_type: Option<&str>,
    hidden: bool,
    extra_ignores: &[&str],
) -> Vec<String> {
    let extra: Vec<String> = extra_ignores.iter().map(|s| s.to_string()).collect();
    let config = SearchConfig {
        ignore_dirs: build_ignore_dirs(false, &extra),
        max_depth,
        file_type: file_type.map(|s| s.to_string()),
        hidden,
        ..plain_config(pattern)
    };
    names(find(tree, 4, &config).0)
}

fn collect_with_config(tree: &Tree, config: &SearchConfig) -> Vec<String> {
    names(find(tree, 4, config).0)
}

fn has(names: &[String], name: &str) -> bool {
    names.contains(&name.to_string())
}

#[test]
fn finds_all_files_with_wildcard() {
    let tree = make_tree(&["a.txt", "b.txt", "sub/c.txt"]);
    let names = collect_names(&tree, "*", None, None, false, &[]);
    assert!(has(&names, "a.txt"));
    assert!(has(&names, "b.txt"));
    assert!(has(&names, "c.txt"));
}

#[test]
fn glob_pattern_filters_by_extension() {
    let tree = make_tree(&["a.txt", "b.rs", "c.txt"]);
    let names = collect_names(&tree, "*.txt", None, None, false, &[]);
    assert_eq!(names, vec!["a.txt", "c.txt"]);
}

#[test]
fn glob_pattern_no_match_returns_empty() {
    let tree = make_tree(&["a.rs", "b.rs"]);
    let names = collect_names(&tree, "*.txt", None, None, false, &[]);
    assert!(names.is_empty());
}

#[test]
fn exact_name_match() {
    let tree = make_tree(&["Cargo.toml", "src/main.rs", "src/lib.rs"]);
    let names = collect_names(&tree, "Cargo.toml", None, None, false, &[]);
    assert_eq!(names, vec!["Cargo.toml"]);
}

#[test]
fn type_f_returns_only_files() {
    let tree = make_tree(&["file.txt", "sub/nested.txt"]);
    let names = collect_names(&tree, "*", None, Some("f"), false, &[]);
    assert!(!has(&names, "sub"));
    assert!(has(&names, "file.txt"));
    assert!(has(&names, "nested.txt"));
}

#[test]
fn type_d_returns_only_directories() {
    let tree = make_tree(&["alpha/file.txt", "beta/file.txt"]);
    let names = collect_names(&tree, "*", None, Some("d"), false, &[]);
    assert!(has(&names, "alpha"));
    assert!(has(&names, "beta"));
    assert!(!has(&names, "file.txt"));
}

#[test]
fn type_d_with_name_pattern() {
    let tree = make_tree(&["src/lib.rs", "tests/mod.rs"]);
    let names = collect_names(&tree, "src", None, Some("d"), false, &[]);
    assert_eq!(names, vec!["src"]);
}

#[test]
fn type_l_returns_only_symlinks() {
    let mut tree = make_tree(&["file.txt", "sub/nested.txt"]);
    tree.nodes.insert(format!("{}/link", ROOT), Node::Link);
    let names = collect_names(&tree, "*", None, Some("l"), false, &[]);
    assert_eq!(names, vec!["link"]);
}

#[test]
fn max_depth_zero_examines_root_only() {
    let tree = make_tree(&["top.txt", "sub/deep.txt"]);
    let names = collect_names(&tree, "*.txt", Some(0), None, false, &[]);
    assert!(names.is_empty());
}

#[test]
fn max_depth_zero_still_matches_the_root_itself() {
    let tree = make_tree(&["top.txt", "sub/deep.txt"]);
    let names = collect_names(&tree, &root_name(), Some(0), None, false, &[]);
    assert_eq!(names, vec![root_name()]);
}

#[test]
fn max_depth_one_reaches_direct_children_only() {
    let tree = make_tree(&["top.txt", "sub/deep.txt"]);
    let names = collect_names(&tree, "*.txt", Some(1), None, false, &[]);
    assert!(has(&names, "top.txt"));
    assert!(!has(&names, "deep.txt"));
}

#[test]
fn max_depth_two_reaches_grandchildren() {
    let tree = make_tree(&["a/b.txt", "a/c/d.txt"]);
    let names = collect_names(&tree, "*.txt", Some(2), None, false, &[]);
    assert!(has(&names, "b.txt"));
    assert!(!has(&names, "d.txt"));
}

#[test]
fn no_max_depth_finds_deeply_nested_files() {
    let tree = make_tree(&["a/b/c/d/e/deep.txt"]);
    let names = collect_names(&tree, "*.txt", None, None, false, &[]);
    assert!(has(&names, "deep.txt"));
}

#[test]
fn hidden_files_skipped_by_default() {
    let tree = make_tree(&[".env", "visible.txt"]);
    let names = collect_names(&tree, "*", None, None, false, &[]);
    assert!(!has(&names, ".env"));
    assert!(has(&names, "visible.txt"));
}

#[test]
fn hidden_flag_includes_dot_files() {
    let tree = make_tree(&[".env", "visible.txt"]);
    let names = collect_names(&tree, "*", None, None, true, &[]);
    assert!(has(&names, ".env"));
    assert!(has(&names, "visible.txt"));
}

#[test]
fn hidden_dirs_skipped_by_default() {
    let tree = make_tree(&[".hidden_dir/secret.txt", "public.txt"]);
    let names = collect_names(&tree, "*", None, None, false, &[]);
    assert!(!has(&names, "secret.txt"));
    assert!(has(&names, "public.txt"));
}

#[test]
fn default_ignore_skips_git_dir() {
    let tree = make_tree(&[".git/HEAD", "src/main.rs"]);
    let names = collect_names(&tree, "*", None, None, true, &[]);
    assert!(!has(&names, "HEAD"));
    assert!(has(&names, "main.rs"));
}

#[test]
fn custom_ignore_skips_specified_directory() {
    let tree = make_tree(&["vendor/lib.rs", "src/main.rs"]);
    let names = collect_names(&tree, "*.rs", None, None, false, &["vendor"]);
    assert!(!has(&names, "lib.rs"));
    assert!(has(&names, "main.rs"));
}

#[test]
fn stats_count_files_and_dirs_correctly() {
    let tree = make_tree(&["a.txt", "b.txt", "sub/c.txt"]);
    let config = SearchConfig {
        ignore_dirs: build_ignore_dirs(false, &vec!["node_modules".to_string()]),
        ..plain_config("*")
    };
    let (_, stats) = find(&tree, 4, &config);
    assert_eq!(stats.total_dirs, 2);
    assert_eq!(stats.total_files, 3);
    assert_eq!(stats.matched_count, 5);
}

#[test]
fn root_itself_matches_when_name_equals_root_basename() {
    let tree = make_tree(&["a.txt"]);
    let names = collect_names(&tree, &root_name(), None, None, false, &[]);
    assert!(
        names.contains(&root_name()),
        "expected root directory itself to be reported as a match"
    );
}

#[test]
fn root_itself_excluded_when_name_does_not_match() {
    let tree = make_tree(&["a.txt"]);
    let names = collect_names(
        &tree,
        "definitely-not-the-root-name",
        None,
        None,
        false,
        &[],
    );
    assert!(!names.contains(&root_name()));
    assert!(names.is_empty());
}

#[test]
fn root_itself_excluded_by_type_filter() {
    let tree = make_tree(&["a.txt"]);
    let names = collect_names(&tree, &root_name(), None, Some("f"), false, &[]);
    assert!(!names.contains(&root_name()));
}

#[test]
fn root_itself_matches_type_filter_for_directories() {
    let tree = make_tree(&["a.txt"]);
    let names = collect_names(&tree, &root_name(), None, Some("d"), false, &[]);
    assert!(names.contains(&root_name()));
}

#[test]
fn root_itself_matched_only_once() {
    let tree = make_tree(&["a.txt"]);
    let names = collect_names(&tree, &root_name(), None, None, false, &[]);
    assert_eq!(names.iter().filter(|n| **n == root_name()).count(), 1);
}

#[test]
fn empty_directory_returns_no_child_results() {
    let tree = make_tree(&[]);
    let names = collect_names(&tree, "*", None, None, false, &[]);
    assert_eq!(names, vec![root_name()]);
}

#[test]
fn single_file_at_root_level() {
    let tree = make_tree(&["lone.txt"]);
    let names = collect_names(&tree, "*.txt", None, None, false, &[]);
    assert_eq!(names, vec!["lone.txt"]);
}

#[test]
fn multiple_workers_produce_same_results_as_single_worker() {
    let tree = make_tree(&[
        "a.txt",
        "b.txt",
        "c.txt",
        "sub1/d.txt",
        "sub1/e.txt",
        "sub2/f.txt",
        "sub2/sub3/g.txt",
    ]);
    let run = |workers: usize| names(find(&tree, workers, &plain_config("*.txt")).0);
    assert_eq!(run(1), run(8));
}

#[test]
fn size_min_filters_small_files() {
    let large = vec![b'x'; 2048];
    let small = vec![b'x'; 10];
    let tree = make_tree_with_content(&[("large.txt", &large), ("small.txt", &small)]);
    let config = SearchConfig {
        file_type: Some("f".to_string()),
        size_filter: Some(SizeFilter {
            min: Some(1024),
            max: None,
        }),
        ..plain_config("*")
    };
    let names = collect_with_config(&tree, &config);
    assert!(has(&names, "large.txt"), "large.txt should match +1KB");
    assert!(!has(&names, "small.txt"), "small.txt should be excluded");
}

#[test]
fn size_max_filters_large_files() {
    let large = vec![b'x'; 2048];
    let small = vec![b'x'; 10];
    let tree = make_tree_with_content(&[("large.txt", &large), ("small.txt", &small)]);
    let config = SearchConfig {
        file_type: Some("f".to_string()),
        size_filter: Some(SizeFilter {
            min: None,
            max: Some(1024),
        }),
        ..plain_config("*")
    };
    let names = collect_with_config(&tree, &config);
    assert!(has(&names, "small.txt"), "small.txt should match -1KB");
    assert!(!has(&names, "large.txt"), "large.txt should be excluded");
}

#[test]
fn size_bounds_are_strict() {
    let exact = vec![b'x'; 1024];
    let tree = make_tree_with_content(&[("exact.txt", &exact)]);
    for filter in [
        SizeFilter {
            min: Some(1024),
            max: None,
        },
        SizeFilter {
            min: None,
            max: Some(1024),
        },
    ] {
        let config = SearchConfig {
            size_filter: Some(filter),
            ..plain_config("*.txt")
        };
        assert!(collect_with_config(&tree, &config).is_empty());
    }
}

#[test]
fn size_filter_does_not_affect_directories() {
    let small = vec![b'x'; 1];
    let tree = make_tree_with_content(&[("subdir/file.txt", &small)]);
    let config = SearchConfig {
        file_type: Some("d".to_string()),
        size_filter: Some(SizeFilter {
            min: Some(99 * 1024 * 1024 * 1024),
            max: None,
        }),
        ..plain_config("*")
    };
    let names = collect_with_config(&tree, &config);
    assert!(
        has(&names, "subdir"),
        "dirs should not be filtered by --size"
    );
}

#[test]
fn empty_finds_zero_byte_files() {
    let tree = make_tree_with_content(&[("empty.txt", b""), ("nonempty.txt", b"hello")]);
    let config = SearchConfig {
        file_type: Some("f".to_string()),
        empty_only: true,
        ..plain_config("*")
    };
    assert_eq!(collect_with_config(&tree, &config), vec!["empty.txt"]);
}

#[test]
fn empty_finds_empty_directories() {
    let mut tree = Tree::new();
    tree.add_dirs("empty_dir");
    tree.add_file("nonempty_dir/file.txt", b"hi");
    let config = SearchConfig {
        file_type: Some("d".to_string()),
        empty_only: true,
        ..plain_config("*")
    };
    let names = collect_with_config(&tree, &config);
    assert!(has(&names, "empty_dir"), "empty_dir should match");
    assert!(
        !has(&names, "nonempty_dir"),
        "nonempty_dir should not match"
    );
}

#[test]
fn empty_false_returns_all_files() {
    let tree = make_tree_with_content(&[("empty.txt", b""), ("nonempty.txt", b"hello")]);
    let config = SearchConfig {
        file_type: Some("f".to_string()),
        ..plain_config("*.txt")
    };
    assert_eq!(
        collect_with_config(&tree, &config),
        vec!["empty.txt", "nonempty.txt"]
    );
}

fn config_with_gitignore(pattern: &str, respect_gitignore: bool) -> SearchConfig {
    SearchConfig {
        respect_gitignore,
        ..plain_config(pattern)
    }
}

#[test]
fn gitignore_excludes_matched_files() {
    let tree = make_tree_with_content(&[
        (".gitignore", b"*.log\n"),
        ("keep.txt", b""),
        ("build.log", b""),
    ]);
    let names = collect_with_config(&tree, &config_with_gitignore("*", true));
    assert!(has(&names, "keep.txt"));
    assert!(!has(&names, "build.log"));
}

#[test]
fn gitignore_excludes_matched_directories_and_their_contents() {
    let tree = make_tree_with_content(&[
        (".gitignore", b"/target\n"),
        ("src/main.rs", b""),
        ("target/debug/binary", b""),
    ]);
    let names = collect_with_config(&tree, &config_with_gitignore("*", true));
    assert!(has(&names, "main.rs"));
    assert!(!has(&names, "target"));
    assert!(!has(&names, "binary"));
}

#[test]
fn gitignore_negation_reincludes_file() {
    let tree = make_tree_with_content(&[
        (".gitignore", b"*.log\n!important.log\n"),
        ("a.log", b""),
        ("important.log", b""),
    ]);
    let names = collect_with_config(&tree, &config_with_gitignore("*", true));
    assert!(!has(&names, "a.log"));
    assert!(has(&names, "important.log"));
}

#[test]
fn no_ignore_flag_disables_gitignore_respect() {
    let tree = make_tree_with_content(&[
        (".gitignore", b"*.log\n"),
        ("keep.txt", b""),
        ("build.log", b""),
    ]);
    let names = collect_with_config(&tree, &config_with_gitignore("*", false));
    assert!(has(&names, "keep.txt"));
    assert!(
        has(&names, "build.log"),
        "build.log should be found when respect_gitignore is false"
    );
}

#[test]
fn nested_gitignore_can_override_parent() {
    let tree = make_tree_with_content(&[
        (".gitignore", b"*.txt\n"),
        ("keep/.gitignore", b"!*.txt\n"),
        ("a.txt", b""),
        ("keep/b.txt", b""),
    ]);
    let names = collect_with_config(&tree, &config_with_gitignore("*.txt", true));
    assert!(!has(&names, "a.txt"));
    assert!(has(&names, "b.txt"));
}

#[test]
fn dot_ignore_file_is_also_respected() {
    let tree = make_tree_with_content(&[
        (".ignore", b"secret.txt\n"),
        ("keep.txt", b""),
        ("secret.txt", b""),
    ]);
    let names = collect_with_config(&tree, &config_with_gitignore("*", true));
    assert!(has(&names, "keep.txt"));
    assert!(!has(&names, "secret.txt"));
}

#[test]
fn case_insensitive_names_match() {
    let tree = make_tree(&["README.md", "readme.txt", "other.txt"]);
    let config = SearchConfig {
        case_insensitive: true,
        ..plain_config("readme*")
    };
    assert_eq!(
        collect_with_config(&tree, &config),
        vec!["README.md", "readme.txt"]
    );
    assert_eq!(
        collect_with_config(&tree, &plain_config("readme*")),
        vec!["readme.txt"]
    );
}

#[test]
fn facts_are_asked_for_only_where_they_matter() {
    let tree = make_tree(&["a.txt", "sub/b.txt"]);
    let config = plain_config("*");
    let file = DirEntry {
        name: "a.txt".to_string(),
        is_dir: false,
        is_symlink: false,
    };
    let considered = consider_root(&config, "a.txt", &file);
    assert!(considered.candidate && !considered.needs_len && !considered.needs_children);
    let sized = SearchConfig {
        size_filter: Some(SizeFilter {
            min: Some(0),
            max: None,
        }),
        ..plain_config("*")
    };
    assert!(consider_root(&sized, "a.txt", &file).needs_len);
    assert!(!tree.facts(ROOT).childless);
}

#[test]
fn the_root_of_the_file_system_goes_by_its_path() {
    assert_eq!(root_entry("/", true).name, "/");
    assert_eq!(root_entry("/srv/data/", true).name, "data");
    assert_eq!(root_entry("/srv/data/.", true).name, "data");
    assert_eq!(root_entry("..", true).name, "..");
}

#[test]
fn matches_are_printed_with_their_paths() {
    let file = MatchResult {
        path: "/tmp/x.txt".to_string(),
        is_dir: false,
    };
    assert_eq!(print_match(&file), "/tmp/x.txt");
    let dir = MatchResult {
        path: "/tmp/d".to_string(),
        is_dir: true,
    };
    assert!(print_match(&dir).contains("/tmp/d"));
}
