//! Weighing directory trees held in memory.

use artools::ardisk::report::{report_line, root_total, select_report, ReportOptions};
use artools::ardisk::rollup::sizes_fit;
use artools::ardisk::scan::{plan_directory, weigh_directory, Links, Metadata};
use artools::ardisk::{
    aggregate_sizes, build_config, build_ignore_dirs, format_size, ScanConfig, SizeMap, Task,
};
use artools::ignore_files::present_ignore_files;
use artools::paths::DirEntry;
use artools::pool::{next_move, Move, Poll};
use glob::Pattern;
use std::collections::{BTreeMap, HashSet, VecDeque};
use std::sync::Arc;

const ROOT: &str = "/tmp/tree";
const BLOCK: u64 = 4096;

#[derive(Clone)]
enum Node {
    File(Metadata),
    Dir(Metadata),
    Link,
}

struct Tree {
    nodes: BTreeMap<String, Node>,
}

fn dir_metadata() -> Metadata {
    Metadata {
        len: 60,
        blocks: Some(BLOCK / 512),
        links: Some(Links {
            nlink: 2,
            dev: 1,
            ino: 1,
        }),
    }
}

/// Five bytes, in one block of the file system.
fn file_metadata(ino: u64, nlink: u64) -> Metadata {
    Metadata {
        len: 5,
        blocks: Some(BLOCK / 512),
        links: Some(Links { nlink, dev: 1, ino }),
    }
}

impl Tree {
    fn new() -> Tree {
        let mut nodes = BTreeMap::new();
        nodes.insert(ROOT.to_string(), Node::Dir(dir_metadata()));
        Tree { nodes }
    }

    fn add_dirs(&mut self, rel: &str) {
        let mut path = ROOT.to_string();
        for part in rel.split('/') {
            path = format!("{}/{}", path, part);
            self.nodes
                .entry(path.clone())
                .or_insert(Node::Dir(dir_metadata()));
        }
    }

    fn add(&mut self, rel: &str, node: Node) {
        if let Some((parent, _)) = rel.rsplit_once('/') {
            self.add_dirs(parent);
        }
        self.nodes.insert(format!("{}/{}", ROOT, rel), node);
    }

    fn children(&self, dir: &str) -> Vec<(String, Node)> {
        let prefix = format!("{}/", dir);
        let mut out = Vec::new();
        for (path, node) in &self.nodes {
            if let Some(name) = path.strip_prefix(prefix.as_str()) {
                if !name.contains('/') {
                    out.push((name.to_string(), node.clone()));
                }
            }
        }
        out
    }
}

fn make_tree(files: &[&str]) -> Tree {
    let mut tree = Tree::new();
    for (i, rel) in files.iter().enumerate() {
        tree.add(rel, Node::File(file_metadata(100 + i as u64, 1)));
    }
    tree
}

/// Scans the whole tree, with as many workers taking turns at the queue, and
/// gives the total and the content of every directory.
fn scan(tree: &Tree, workers: usize, config: &ScanConfig) -> (SizeMap, SizeMap) {
    let mut raw = SizeMap::new();
    let mut content = SizeMap::new();
    let mut seen: HashSet<u128> = HashSet::new();
    let mut queue: VecDeque<Task> = VecDeque::new();
    queue.push_back(Task {
        path: ROOT.to_string(),
        ignore_stack: Arc::new(vec![]),
    });
    let mut active = 1;
    let mut running = vec![true; workers];
    while running.iter().any(|r| *r) {
        for worker in 0..workers {
            if !running[worker] {
                continue;
            }
            let task = if worker % 2 == 0 {
                queue.pop_front()
            } else {
                queue.pop_back()
            };
            let poll = if task.is_some() {
                Poll::Task
            } else {
                Poll::Empty
            };
            match next_move(poll, active) {
                Move::Run => {
                    let task = task.unwrap();
                    let children = tree.children(&task.path);
                    let entries: Vec<DirEntry> = children
                        .iter()
                        .map(|(name, node)| DirEntry {
                            name: name.clone(),
                            is_dir: matches!(node, Node::Dir(_)),
                            is_symlink: matches!(node, Node::Link),
                        })
                        .collect();
                    assert!(present_ignore_files(&entries).is_empty());
                    let plan = plan_directory(&task, config, &entries, &vec![]);
                    let metadata = plan
                        .counted
                        .iter()
                        .map(|i| match &children[*i].1 {
                            Node::File(m) => Some(*m),
                            _ => None,
                        })
                        .collect();
                    let own = match &tree.nodes[&task.path] {
                        Node::Dir(m) => Some(*m),
                        _ => None,
                    };
                    let weight =
                        weigh_directory(&metadata, &own, config.apparent_size, &mut seen).unwrap();
                    raw.insert(&task.path, weight.total);
                    content.insert(&task.path, weight.content);
                    for sub in plan.subtasks {
                        active += 1;
                        queue.push_back(sub);
                    }
                    active -= 1;
                }
                Move::Yield => {}
                Move::Stop => running[worker] = false,
            }
        }
    }
    (raw, content)
}

fn rolled(map: &SizeMap) -> SizeMap {
    assert!(sizes_fit(map));
    aggregate_sizes(map, ROOT)
}

fn default_config() -> Arc<ScanConfig> {
    build_config(build_ignore_dirs(false, vec![]), None, false, false, true)
}

fn config_with_include(pattern: &str) -> Arc<ScanConfig> {
    build_config(
        build_ignore_dirs(false, vec![]),
        Some(Pattern::new(pattern).unwrap()),
        false,
        false,
        true,
    )
}

fn run(tree: &Tree) -> SizeMap {
    rolled(&scan(tree, 4, &default_config()).0)
}

fn at(rel: &str) -> String {
    if rel.is_empty() {
        ROOT.to_string()
    } else {
        format!("{}/{}", ROOT, rel)
    }
}

fn size(map: &SizeMap, rel: &str) -> u64 {
    map.get(&at(rel)).unwrap()
}

#[test]
fn root_size_equals_sum_of_all_files() {
    let tree = make_tree(&["a.txt", "b.txt", "sub/c.txt"]);
    let sizes = run(&tree);
    assert!(
        size(&sizes, "") >= size(&sizes, "sub"),
        "root must be >= any child"
    );
    assert!(size(&sizes, "") > 0, "root must have non-zero size");
    assert_eq!(size(&sizes, ""), 3 * BLOCK + 2 * BLOCK);
}

#[test]
fn nested_child_size_rolls_up_to_parent() {
    let tree = make_tree(&["deep/nested/file.txt"]);
    let sizes = run(&tree);
    assert!(size(&sizes, "") >= size(&sizes, "deep"));
    assert!(size(&sizes, "deep") >= size(&sizes, "deep/nested"));
    assert!(size(&sizes, "deep/nested") > 0);
}

#[test]
fn empty_directory_has_only_its_own_inode_size() {
    let mut tree = make_tree(&[]);
    tree.add_dirs("empty");
    let sizes = run(&tree);
    assert_eq!(sizes.get(&at("empty")).unwrap_or(0), BLOCK);
}

#[test]
fn sibling_dirs_are_independent() {
    let tree = make_tree(&["alpha/file.txt", "beta/file.txt"]);
    let sizes = run(&tree);
    assert_eq!(size(&sizes, "alpha"), size(&sizes, "beta"));
    assert!(size(&sizes, "") >= size(&sizes, "alpha") + size(&sizes, "beta"));
}

#[test]
fn deeply_nested_tree_rolls_up_correctly() {
    let tree = make_tree(&["a/b/c/d/e/leaf.txt"]);
    let sizes = run(&tree);
    let leaf_size = size(&sizes, "a/b/c/d/e");
    for ancestor in ["a/b/c/d", "a/b/c", "a/b", "a"] {
        assert!(
            size(&sizes, ancestor) >= leaf_size,
            "{} should be >= leaf dir size",
            ancestor
        );
    }
    assert!(size(&sizes, "") >= leaf_size);
}

#[test]
fn ignored_directory_is_excluded_from_scan() {
    let tree = make_tree(&["node_modules/package/index.js", "src/main.rs"]);
    let sizes = run(&tree);
    assert!(
        sizes.get(&at("node_modules")).is_none(),
        "node_modules should be absent from results"
    );
}

#[test]
fn custom_ignore_excludes_specified_dir() {
    let tree = make_tree(&["vendor/lib.rs", "src/main.rs"]);
    let config = build_config(
        build_ignore_dirs(false, vec!["vendor".to_string()]),
        None,
        false,
        false,
        true,
    );
    let sizes = rolled(&scan(&tree, 4, &config).0);
    assert!(sizes.get(&at("vendor")).is_none());
    assert!(sizes.get(&at("src")).is_some());
}

#[test]
fn symlinked_files_are_not_counted() {
    let mut tree = make_tree(&["real.txt"]);
    tree.add("link.txt", Node::Link);
    let (raw, _) = scan(&tree, 4, &default_config());
    assert_eq!(
        size(&raw, ""),
        BLOCK + BLOCK,
        "symlink should not be counted"
    );
}

#[test]
fn hard_linked_files_are_only_counted_once() {
    let mut tree = make_tree(&[]);
    tree.add("a/real.txt", Node::File(file_metadata(7, 2)));
    tree.add("b/linked.txt", Node::File(file_metadata(7, 2)));
    let sizes = run(&tree);
    assert_eq!(
        size(&sizes, ""),
        BLOCK + 3 * BLOCK,
        "hard-linked file should only be counted once across the whole tree"
    );
}

#[test]
fn raw_scan_produces_entry_for_every_directory() {
    let tree = make_tree(&["a/b/c.txt", "d/e.txt"]);
    let (raw, _) = scan(&tree, 4, &default_config());
    assert!(raw.get(&at("")).is_some());
    assert!(raw.get(&at("a")).is_some());
    assert!(raw.get(&at("a/b")).is_some());
    assert!(raw.get(&at("d")).is_some());
}

#[test]
fn multiple_workers_produce_same_aggregated_sizes() {
    let tree = make_tree(&["a/x.txt", "a/y.txt", "b/z.txt", "b/sub/w.txt"]);
    let run_with = |workers: usize| size(&rolled(&scan(&tree, workers, &default_config()).0), "");
    assert_eq!(run_with(1), run_with(8));
}

#[test]
fn the_grand_total_does_not_depend_on_which_name_comes_first() {
    let mut tree = make_tree(&["a/x.txt", "b/y.txt"]);
    tree.add("a/one", Node::File(file_metadata(7, 3)));
    tree.add("b/two", Node::File(file_metadata(7, 3)));
    tree.add("c/three", Node::File(file_metadata(7, 3)));
    let run_with = |workers: usize| size(&rolled(&scan(&tree, workers, &default_config()).0), "");
    assert_eq!(run_with(1), 3 * BLOCK + 4 * BLOCK);
    assert_eq!(run_with(2), 3 * BLOCK + 4 * BLOCK);
}

#[test]
fn without_links_every_directory_weighs_the_same_for_any_workers() {
    let tree = make_tree(&["a/x.txt", "a/y.txt", "b/z.txt", "b/sub/w.txt", "c/d/e/f.txt"]);
    let (raw, content) = scan(&tree, 1, &default_config());
    for workers in 2..6 {
        let (other_raw, other_content) = scan(&tree, workers, &default_config());
        assert_eq!(raw.len(), other_raw.len());
        assert_eq!(content.len(), other_content.len());
        for i in 0..raw.len() {
            assert_eq!(other_raw.get(raw.path_at(i)), Some(raw.size_at(i)));
            assert_eq!(other_content.get(content.path_at(i)), Some(content.size_at(i)));
        }
    }
}

#[test]
fn a_linked_file_is_credited_to_one_directory() {
    let mut tree = make_tree(&["a/x.txt", "b/y.txt"]);
    tree.add("a/one", Node::File(file_metadata(7, 2)));
    tree.add("b/two", Node::File(file_metadata(7, 2)));
    for workers in 1..4 {
        let (_, content) = scan(&tree, workers, &default_config());
        let (a, b) = (content.get(&at("a")).unwrap(), content.get(&at("b")).unwrap());
        assert_eq!(a + b, 3 * BLOCK);
        assert!(a == 2 * BLOCK || b == 2 * BLOCK);
    }
}

#[test]
fn include_pattern_counts_only_matching_files() {
    let tree = make_tree(&[
        "src/main.rs",
        "src/lib.rs",
        "src/README.md",
        "docs/guide.md",
    ]);
    let sizes = rolled(&scan(&tree, 4, &config_with_include("*.rs")).0);
    assert_eq!(
        size(&sizes, "docs"),
        BLOCK,
        "docs should equal only its own inode size — no .rs files"
    );
    assert!(
        size(&sizes, "src") > BLOCK,
        "src should have extra size from matching .rs files"
    );
}

#[test]
fn include_pattern_rolls_up_correctly_to_root() {
    let tree = make_tree(&["a/match.rs", "a/skip.txt", "b/match.rs", "b/skip.txt"]);
    let sizes_all = rolled(&scan(&tree, 4, &default_config()).0);
    let sizes_rs = rolled(&scan(&tree, 4, &config_with_include("*.rs")).0);
    assert!(
        size(&sizes_rs, "") < size(&sizes_all, ""),
        "filtered root size should be less than unfiltered"
    );
    assert!(size(&sizes_rs, "") > 0);
}

#[test]
fn include_pattern_no_match_gives_directory_self_size_only() {
    let tree = make_tree(&["a/file.txt", "b/other.md"]);
    let sizes = rolled(&scan(&tree, 4, &config_with_include("*.rs")).0);
    assert_eq!(
        size(&sizes, "a"),
        BLOCK,
        "a should equal only its own inode size — no .rs files"
    );
    assert_eq!(
        size(&sizes, "b"),
        BLOCK,
        "b should equal only its own inode size — no .rs files"
    );
    assert_eq!(
        size(&sizes, ""),
        3 * BLOCK,
        "root should roll up only inode costs, no file bytes"
    );
}

#[test]
fn include_pattern_wildcard_matches_all_files() {
    let tree = make_tree(&["a/x.txt", "b/y.rs"]);
    let sizes_wildcard = rolled(&scan(&tree, 4, &config_with_include("*")).0);
    let sizes_none = rolled(&scan(&tree, 4, &default_config()).0);
    assert_eq!(
        size(&sizes_wildcard, ""),
        size(&sizes_none, ""),
        "'*' include should match all files, same as no filter"
    );
}

#[test]
fn include_suppression_works_with_inode_costs() {
    let tree = make_tree(&[
        "src/main.rs",
        "src/lib.rs",
        "docs/guide.md",
        "assets/logo.png",
    ]);
    let (raw, content) = scan(&tree, 4, &config_with_include("*.rs"));
    let agg_total = rolled(&raw);
    let agg_content = rolled(&content);
    assert_eq!(
        size(&agg_content, "docs"),
        0,
        "docs content should be 0 — no .rs files"
    );
    assert_eq!(
        size(&agg_content, "assets"),
        0,
        "assets content should be 0 — no .rs files"
    );
    assert!(
        size(&agg_total, "src") > 0,
        "src total should be non-zero"
    );
    assert!(
        size(&agg_content, "src") > 0,
        "src content should be non-zero — has .rs files"
    );
    let opts = ReportOptions {
        top: 20,
        max_depth: None,
        threshold: None,
        filtered: true,
    };
    let shown = select_report(&agg_total, &agg_content, ROOT, &opts);
    let paths: Vec<&str> = shown.iter().map(|i| agg_total.path_at(*i)).collect();
    assert_eq!(paths, vec![ROOT, "/tmp/tree/src"]);
}

fn config_sized(apparent_size: bool) -> Arc<ScanConfig> {
    build_config(
        build_ignore_dirs(false, vec![]),
        None,
        false,
        apparent_size,
        true,
    )
}

#[test]
fn apparent_size_uses_logical_file_length() {
    let tree = make_tree(&["file.txt"]);
    let (raw, _) = scan(&tree, 4, &config_sized(true));
    assert_eq!(
        size(&raw, ""),
        5 + 60,
        "apparent size should equal logical file length plus root dir's own size"
    );
}

#[test]
fn apparent_size_false_uses_block_allocation() {
    let tree = make_tree(&["file.txt"]);
    let (raw, _) = scan(&tree, 4, &config_sized(false));
    assert!(
        size(&raw, "") >= 5,
        "block size should be >= logical size"
    );
    assert_eq!(size(&raw, ""), 2 * BLOCK);
}

#[test]
fn apparent_size_produces_smaller_or_equal_size_than_blocks() {
    let tree = make_tree(&["a.txt", "b.txt", "sub/c.txt"]);
    let apparent = rolled(&scan(&tree, 4, &config_sized(true)).0);
    let blocks = rolled(&scan(&tree, 4, &config_sized(false)).0);
    assert!(
        size(&apparent, "") <= size(&blocks, ""),
        "apparent size should be <= block allocation"
    );
}

#[test]
fn a_system_without_blocks_tells_the_length() {
    let m = Metadata {
        len: 9,
        blocks: None,
        links: None,
    };
    let mut seen = HashSet::new();
    let w = weigh_directory(&vec![Some(m), None, Some(m)], &None, false, &mut seen).unwrap();
    assert_eq!(w.total, 18);
    assert_eq!(w.content, 18);
    assert!(seen.is_empty());
}

#[test]
fn what_cannot_be_counted_gives_no_weight() {
    let m = Metadata {
        len: 0,
        blocks: Some(u64::MAX),
        links: None,
    };
    let mut seen = HashSet::new();
    assert!(weigh_directory(&vec![Some(m)], &None, false, &mut seen).is_none());
    assert!(weigh_directory(&vec![Some(m)], &None, true, &mut seen).is_some());
    let mut big = SizeMap::new();
    big.insert("/a", u64::MAX);
    assert!(sizes_fit(&big));
    big.insert("/b", 1);
    assert!(!sizes_fit(&big));
}

#[test]
fn sizes_stay_within_the_base() {
    let mut raw = SizeMap::new();
    raw.insert("/srv/data/a/b", 10);
    raw.insert("/srv/data/a", 5);
    raw.insert("/srv/data", 1);
    let sizes = aggregate_sizes(&raw, "/srv/data");
    assert_eq!(sizes.get("/srv/data/a/b"), Some(10));
    assert_eq!(sizes.get("/srv/data/a"), Some(15));
    assert_eq!(sizes.get("/srv/data"), Some(16));
    assert_eq!(sizes.get("/srv"), None);
    assert_eq!(sizes.get("/srv/database"), None);
}

#[test]
fn however_a_path_is_spelled_it_is_one_directory() {
    let mut raw = SizeMap::new();
    raw.insert("/r/", 1);
    raw.insert("/r/a", 2);
    let sizes = aggregate_sizes(&raw, "/r/");
    assert_eq!(sizes.get("/r"), Some(3));
    assert_eq!(sizes.get("/r/"), Some(3));
    assert_eq!(sizes.get("/r//a/"), Some(2));
    assert_eq!(root_total(&sizes, "/r/"), 3);

    let mut raw = SizeMap::new();
    raw.insert("/r/a/", 2);
    let sizes = aggregate_sizes(&raw, "/r");
    assert_eq!(sizes.len(), 2);
    assert_eq!(sizes.get("/r"), Some(2));

    let mut raw = SizeMap::new();
    raw.insert("a/./b", 4);
    raw.insert("a//b", 5);
    raw.insert("a", 1);
    assert_eq!(raw.len(), 2);
    let sizes = aggregate_sizes(&raw, "a/");
    assert_eq!(sizes.get("a"), Some(6));
    assert_eq!(sizes.get("a/b"), Some(5));
}

#[test]
fn recursive_sizes_do_not_depend_on_the_order_of_directories() {
    let sizes = [("/r", 1), ("/r/a", 2), ("/r/a/b", 4), ("/r/c", 8), ("/r/c/d/e", 16)];
    let mut forward = SizeMap::new();
    let mut backward = SizeMap::new();
    for (path, n) in sizes {
        forward.insert(path, n);
    }
    for (path, n) in sizes.iter().rev() {
        backward.insert(path, *n);
    }
    let (one, other) = (aggregate_sizes(&forward, "/r"), aggregate_sizes(&backward, "/r"));
    assert_eq!(one.len(), other.len());
    for i in 0..one.len() {
        assert_eq!(other.get(one.path_at(i)), Some(one.size_at(i)));
    }
    assert_eq!(one.get("/r"), Some(15));
    assert_eq!(one.get("/r/c/d"), Some(16));
}

#[test]
fn recursive_sizes_of_two_maps_add_up() {
    let mut first = SizeMap::new();
    let mut second = SizeMap::new();
    let mut both = SizeMap::new();
    for (path, a, b) in [("/r", 1, 100), ("/r/a", 2, 200), ("/r/a/b", 4, 400), ("/r/x/y", 8, 800)] {
        first.insert(path, a);
        second.insert(path, b);
        both.insert(path, a + b);
    }
    let (one, other) = (aggregate_sizes(&first, "/r"), aggregate_sizes(&second, "/r"));
    let all = aggregate_sizes(&both, "/r");
    assert_eq!(all.len(), one.len());
    assert_eq!(all.len(), other.len());
    for i in 0..all.len() {
        let path = all.path_at(i);
        assert_eq!(all.size_at(i), one.get(path).unwrap() + other.get(path).unwrap());
    }
    assert_eq!(all.get("/r"), Some(707));
}

#[test]
fn each_directory_weighs_itself_and_what_is_right_below_it() {
    let mut raw = SizeMap::new();
    for (path, n) in [("/r", 1), ("/r/a", 2), ("/r/b", 4), ("/r/a/c", 8), ("/r/a/c/d", 16)] {
        raw.insert(path, n);
    }
    let sizes = aggregate_sizes(&raw, "/r");
    assert_eq!(sizes.get("/r/a/c"), Some(8 + 16));
    assert_eq!(sizes.get("/r/a"), Some(2 + 24));
    assert_eq!(sizes.get("/r"), Some(1 + 26 + 4));
}

#[test]
fn a_gap_in_the_tree_stops_the_rollup() {
    let mut raw = SizeMap::new();
    raw.insert("/r/a/b/c", 10);
    raw.insert("/r", 1);
    let sizes = aggregate_sizes(&raw, "/r");
    assert_eq!(sizes.get("/r/a/b"), Some(10));
    assert_eq!(sizes.get("/r/a"), None);
    assert_eq!(sizes.get("/r"), Some(1));
}

#[test]
fn the_root_of_the_file_system_can_be_the_base() {
    let mut raw = SizeMap::new();
    raw.insert("/", 1);
    raw.insert("/usr", 2);
    raw.insert("/usr/bin", 4);
    let sizes = aggregate_sizes(&raw, "/");
    assert_eq!(sizes.get("/"), Some(7));
    assert_eq!(sizes.get("/usr"), Some(6));
}

#[test]
fn a_later_size_replaces_an_earlier_one() {
    let mut map = SizeMap::new();
    map.insert("/a", 1);
    map.insert("/b", 2);
    map.insert("/a", 3);
    assert_eq!(map.len(), 2);
    assert_eq!(map.get("/a"), Some(3));
    assert_eq!(map.path_at(1), "/b");
    assert_eq!(map.size_at(1), 2);
}

fn sample() -> SizeMap {
    let mut map = SizeMap::new();
    map.insert("/r", 100);
    map.insert("/r/a", 60);
    map.insert("/r/a/x", 50);
    map.insert("/r/b", 60);
    map.insert("/r/c", 10);
    map
}

fn shown_paths(opts: &ReportOptions) -> Vec<String> {
    let map = sample();
    select_report(&map, &map, "/r", opts)
        .iter()
        .map(|i| map.path_at(*i).to_string())
        .collect()
}

#[test]
fn the_report_shows_the_largest_first() {
    let opts = ReportOptions {
        top: 3,
        max_depth: None,
        threshold: None,
        filtered: false,
    };
    assert_eq!(shown_paths(&opts), vec!["/r", "/r/a", "/r/b"]);
}

#[test]
fn the_report_keeps_to_its_depth() {
    let opts = ReportOptions {
        top: 20,
        max_depth: Some(1),
        threshold: None,
        filtered: false,
    };
    assert_eq!(shown_paths(&opts), vec!["/r", "/r/a", "/r/b", "/r/c"]);
    let opts = ReportOptions {
        top: 20,
        max_depth: Some(0),
        threshold: None,
        filtered: false,
    };
    assert_eq!(shown_paths(&opts), vec!["/r"]);
}

#[test]
fn the_report_shows_what_is_larger_than_the_threshold() {
    let over = |threshold: u64| {
        shown_paths(&ReportOptions {
            top: 20,
            max_depth: None,
            threshold: Some(threshold),
            filtered: false,
        })
    };
    assert_eq!(over(59), vec!["/r", "/r/a", "/r/b"]);
    assert_eq!(over(60), vec!["/r"]);
    assert!(over(100).is_empty());
}

#[test]
fn a_report_of_nothing_is_empty() {
    let opts = ReportOptions {
        top: 0,
        max_depth: None,
        threshold: None,
        filtered: false,
    };
    assert!(shown_paths(&opts).is_empty());
    assert_eq!(root_total(&sample(), "/r"), 100);
    assert_eq!(root_total(&sample(), "/elsewhere"), 0);
}

#[test]
fn lines_of_the_report_are_aligned() {
    assert_eq!(report_line(512, "/tmp/x"), "     512 B  /tmp/x");
    assert_eq!(report_line(1536, "/tmp/x"), "   1.50 KB  /tmp/x");
    assert!(report_line(5 * 1024 * 1024, "/tmp/x").ends_with("  /tmp/x"));
    assert_eq!(format_size(1536), "1.50 KB");
}
