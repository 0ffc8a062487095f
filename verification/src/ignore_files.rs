//! Ignore files: matchers built from the lines of `.gitignore` and `.ignore`,
//! and the stack of them that a directory inherits.

use crate::decimal;
use crate::paths::DirEntry;
use ignore::gitignore::{Gitignore, GitignoreBuilder};
use std::sync::Arc;
use vstd::hash_set::StringHashSet;
use vstd::prelude::*;

verus! {

#[verifier::external_type_specification]
#[verifier::external_body]
pub struct ExGitignore(ignore::gitignore::Gitignore);

#[verifier::external_type_specification]
#[verifier::external_body]
pub struct ExGitignoreBuilder(ignore::gitignore::GitignoreBuilder);

/// The directory that a builder was made for.
pub uninterp spec fn builder_root(b: ignore::gitignore::GitignoreBuilder) -> Seq<char>;

/// The lines given to a builder so far.
pub uninterp spec fn builder_lines(b: ignore::gitignore::GitignoreBuilder) -> Seq<Seq<char>>;

/// The directory that a matcher was built for.
pub uninterp spec fn gitignore_root(g: ignore::gitignore::Gitignore) -> Seq<char>;

/// The lines that a matcher was built from.
pub uninterp spec fn gitignore_lines(g: ignore::gitignore::Gitignore) -> Seq<Seq<char>>;

/// What `GitignoreBuilder::add_line` objects to in a line; `None` where it
/// accepts it.
pub uninterp spec fn gitignore_line_fault(line: Seq<char>) -> Option<Seq<char>>;

/// What `GitignoreBuilder::build` objects to in the lines; `None` where it
/// builds.
pub uninterp spec fn gitignore_build_fault(lines: Seq<Seq<char>>) -> Option<Seq<char>>;

/// How many of the lines ignore something.
pub uninterp spec fn gitignore_ignores(lines: Seq<Seq<char>>) -> u64;

/// How many of the lines re-include something.
pub uninterp spec fn gitignore_whitelists(lines: Seq<Seq<char>>) -> u64;

/// What the lines, read relative to `root`, say of a path: `Some(true)` to
/// ignore it, `Some(false)` to keep it, `None` where no line speaks of it.
pub uninterp spec fn gitignore_verdict(
    root: Seq<char>,
    lines: Seq<Seq<char>>,
    path: Seq<char>,
    is_dir: bool,
) -> Option<bool>;

/// Every line is empty or a comment.
pub open spec fn all_inert(lines: Seq<Seq<char>>) -> bool {
    forall|i: int|
        0 <= i < lines.len() ==> (#[trigger] lines[i]).len() == 0 || lines[i][0] == '#'
}

/// Calls `GitignoreBuilder::new`: a builder for `dir` without any lines.
#[verifier::external_body]
fn new_builder(dir: &str) -> (b: GitignoreBuilder)
    ensures
        builder_root(b) == dir@,
        builder_lines(b) == Seq::<Seq<char>>::empty(),
{
    GitignoreBuilder::new(dir)
}

/// Calls `GitignoreBuilder::add_line`. The line joins those given before; what
/// comes back is the fault found in it, if any.
#[verifier::external_body]
fn add_line(b: &mut GitignoreBuilder, line: &str) -> (r: Option<String>)
    ensures
        builder_root(*final(b)) == builder_root(*old(b)),
        builder_lines(*final(b)) == builder_lines(*old(b)).push(line@),
        match r {
            Some(e) => gitignore_line_fault(line@) == Some(e@),
            None => gitignore_line_fault(line@) is None,
        },
{
    b.add_line(None, line).err().map(|e| e.to_string())
}

/// Calls `GitignoreBuilder::build`: a matcher for the builder's directory and
/// lines, or the fault found in them.
#[verifier::external_body]
fn build(b: &GitignoreBuilder) -> (r: Result<Gitignore, String>)
    ensures
        match r {
            Ok(g) => {
                &&& gitignore_root(g) == builder_root(*b)
                &&& gitignore_lines(g) == builder_lines(*b)
                &&& gitignore_build_fault(builder_lines(*b)) is None
            },
            Err(e) => gitignore_build_fault(builder_lines(*b)) == Some(e@),
        },
{
    b.build().map_err(|e| e.to_string())
}

/// Calls `Gitignore::num_ignores`. Empty lines and comments count for nothing.
#[verifier::external_body]
fn num_ignores(g: &Gitignore) -> (n: u64)
    ensures
        n == gitignore_ignores(gitignore_lines(*g)),
        all_inert(gitignore_lines(*g)) ==> n == 0,
{
    g.num_ignores()
}

/// Calls `Gitignore::num_whitelists`. Empty lines and comments count for
/// nothing.
#[verifier::external_body]
fn num_whitelists(g: &Gitignore) -> (n: u64)
    ensures
        n == gitignore_whitelists(gitignore_lines(*g)),
        all_inert(gitignore_lines(*g)) ==> n == 0,
{
    g.num_whitelists()
}

/// Calls `Gitignore::matched`, whose answer depends on the directory and the
/// lines the matcher was built from, the path, and whether it is a directory.
#[verifier::external_body]
fn verdict(g: &Gitignore, path: &str, is_dir: bool) -> (r: Option<bool>)
    ensures
        r == gitignore_verdict(gitignore_root(*g), gitignore_lines(*g), path@, is_dir),
{
    match g.matched(path, is_dir) {
        ignore::Match::None => None,
        ignore::Match::Ignore(_) => Some(true),
        ignore::Match::Whitelist(_) => Some(false),
    }
}

/// `Arc::clone` hands out the same shared value.
#[verifier::external_body]
pub(crate) fn share<T>(a: &Arc<T>) -> (r: Arc<T>)
    ensures
        r == *a,
{
    Arc::clone(a)
}

/// What a matcher amounts to: the directory it speaks for and the lines it
/// was built from.
pub ghost struct Layer {
    pub root: Seq<char>,
    pub lines: Seq<Seq<char>>,
}

impl Layer {
    /// What this layer says of a path.
    pub open spec fn verdict(self, path: Seq<char>, is_dir: bool) -> Option<bool> {
        gitignore_verdict(self.root, self.lines, path, is_dir)
    }
}

/// The layer of one matcher.
pub open spec fn layer_of(g: Gitignore) -> Layer {
    Layer { root: gitignore_root(g), lines: gitignore_lines(g) }
}

/// The layers of a stack of matchers, outermost directory first.
pub open spec fn layers(stack: Seq<Arc<Gitignore>>) -> Seq<Layer> {
    Seq::new(stack.len(), |i: int| layer_of(*stack[i]))
}

/// A path is ignored when the deepest layer that speaks of it says so.
pub open spec fn layers_ignore(layers: Seq<Layer>, path: Seq<char>, is_dir: bool) -> bool
    decreases layers.len(),
{
    if layers.len() == 0 {
        false
    } else {
        match layers.last().verdict(path, is_dir) {
            Some(ignored) => ignored,
            None => layers_ignore(layers.drop_last(), path, is_dir),
        }
    }
}

/// A text without the byte order marks at its start.
pub open spec fn without_bom(s: Seq<char>) -> Seq<char>
    decreases s.len(),
{
    if s.len() > 0 && s[0] == '\u{feff}' {
        without_bom(s.drop_first())
    } else {
        s
    }
}

/// The lines of one ignore file, the first without byte order marks.
pub open spec fn file_lines(lines: Seq<Seq<char>>) -> Seq<Seq<char>> {
    if lines.len() == 0 {
        lines
    } else {
        lines.update(0, without_bom(lines[0]))
    }
}

/// The lines of a directory's ignore files, one file after the other.
pub open spec fn dir_lines(files: Seq<Seq<Seq<char>>>) -> Seq<Seq<char>>
    decreases files.len(),
{
    if files.len() == 0 {
        seq![]
    } else {
        dir_lines(files.drop_last()) + file_lines(files.last())
    }
}

/// What is wrong with the ignore files of a directory.
pub struct Fault {
    /// The file, by its place among those read, and the line in it, counted
    /// from one; `None` for a fault of all lines taken together.
    pub at: Option<(usize, usize)>,
    pub text: String,
}

/// What a fault says.
pub ghost struct FaultView {
    pub at: Option<(int, int)>,
    pub text: Seq<char>,
}

impl DeepView for Fault {
    type V = FaultView;

    open spec fn deep_view(&self) -> FaultView {
        FaultView {
            at: match self.at {
                Some((file, line)) => Some((file as int, line as int)),
                None => None,
            },
            text: self.text@,
        }
    }
}

impl FaultView {
    /// The fault as it is told, where `path` is that of the file.
    pub open spec fn told(self, path: Seq<char>) -> Seq<char> {
        match self.at {
            Some((_, line)) => path + ": line "@ + decimal::decimal(line) + ": "@ + self.text,
            None => self.text,
        }
    }
}

impl Fault {
    /// The fault as it is told: behind the path of the file, which is left to
    /// the caller, and the number of the line.
    pub fn message(&self, path: &str) -> (r: String)
        ensures
            r@ == self.deep_view().told(path@),
    {
        match self.at {
            Some((_, line)) => path.to_string().concat(": line ").concat(
                decimal::to_decimal(line as u128).as_str(),
            ).concat(": ").concat(self.text.as_str()),
            None => self.text.clone(),
        }
    }
}

/// The faults found in the first `n` lines of a file, in their order.
pub open spec fn file_faults(lines: Seq<Seq<char>>, file: int, n: int) -> Seq<FaultView>
    decreases n,
{
    if n <= 0 {
        seq![]
    } else {
        let before = file_faults(lines, file, n - 1);
        match gitignore_line_fault(lines[n - 1]) {
            Some(text) => before.push(FaultView { at: Some((file, n)), text }),
            None => before,
        }
    }
}

/// The faults found in the lines of the first `n` files, in their order.
pub open spec fn line_faults(files: Seq<Seq<Seq<char>>>, n: int) -> Seq<FaultView>
    decreases n,
{
    if n <= 0 {
        seq![]
    } else {
        let lines = file_lines(files[n - 1]);
        line_faults(files, n - 1) + file_faults(lines, n - 1, lines.len() as int)
    }
}

/// Whether ignore files with these lines are worth a layer: the lines build,
/// and at least one of them ignores or re-includes something.
pub open spec fn lines_count(lines: Seq<Seq<char>>) -> bool {
    &&& gitignore_build_fault(lines) is None
    &&& gitignore_ignores(lines) > 0 || gitignore_whitelists(lines) > 0
}

/// Whether a directory with these ignore files adds a layer to the stack.
pub open spec fn adds_layer(files: Seq<Seq<Seq<char>>>) -> bool {
    files.len() > 0 && lines_count(dir_lines(files))
}

/// What is reported of the ignore files of a directory when they are read: the
/// faults of their lines, and then the one of all lines taken together.
pub open spec fn dir_faults(files: Seq<Seq<Seq<char>>>) -> Seq<FaultView> {
    let faults = line_faults(files, files.len() as int);
    match gitignore_build_fault(dir_lines(files)) {
        Some(text) if files.len() > 0 => faults.push(FaultView { at: None, text }),
        _ => faults,
    }
}

/// Drops the byte order marks at the start of a text.
fn strip_bom(s: &str) -> (r: String)
    ensures
        r@ == without_bom(s@),
{
    let mut out = String::new();
    let mut leading: bool = true;
    let ghost mut at: int = 0;
    assert(s@.subrange(0, s@.len() as int) =~= s@);
    for c in it: s.chars()
        invariant
            it.seq() == s@,
            leading ==> out@.len() == 0 && without_bom(s@) == without_bom(
                s@.subrange(it.index() as int, s@.len() as int),
            ),
            !leading ==> 0 <= at <= it.index() && out@ == s@.subrange(at, it.index() as int)
                && without_bom(s@) == s@.subrange(at, s@.len() as int),
    {
        let ghost k = it.index() as int;
        if leading {
            proof {
                let rest = s@.subrange(k, s@.len() as int);
                assert(rest[0] == c);
                assert(rest.drop_first() =~= s@.subrange(k + 1, s@.len() as int));
            }
            if c != '\u{feff}' {
                leading = false;
                proof {
                    at = k;
                }
                out.push(c);
                assert(out@ =~= s@.subrange(at, k + 1));
            }
        } else {
            out.push(c);
            assert(out@ =~= s@.subrange(at, k + 1));
        }
    }
    out
}

/// Builds a single matcher from the ignore files of `dir`. `files` holds the
/// lines of each file that is present, `.gitignore` before `.ignore`.
///
/// The result is `None` where there is no such file, or where the files
/// contribute no pattern, so that the stack need not grow. The second part
/// lists what is wrong with the files.
pub fn build_dir_gitignore(dir: &str, files: &Vec<Vec<String>>) -> (r: (
    Option<Gitignore>,
    Vec<Fault>,
))
    ensures
        r.0 is Some <==> adds_layer(files.deep_view()),
        r.0 matches Some(g) ==> layer_of(g) == (Layer {
            root: dir@,
            lines: dir_lines(files.deep_view()),
        }),
        all_inert(dir_lines(files.deep_view())) ==> r.0 is None,
        r.1.deep_view() == dir_faults(files.deep_view()),
{
    let ghost all = files.deep_view();
    let mut faults: Vec<Fault> = Vec::new();
    if files.len() == 0 {
        assert(faults.deep_view() =~= seq![]);
        return (None, faults);
    }
    let mut builder = new_builder(dir);
    let mut i: usize = 0;
    while i < files.len()
        invariant
            0 <= i <= files.len(),
            all == files.deep_view(),
            builder_root(builder) == dir@,
            builder_lines(builder) == dir_lines(all.take(i as int)),
            faults.deep_view() == line_faults(all, i as int),
        decreases files.len() - i,
    {
        let file = &files[i];
        let ghost before = builder_lines(builder);
        let ghost lines = file_lines(file.deep_view());
        let ghost known = faults.deep_view();
        assert(known + file_faults(lines, i as int, 0) =~= known);
        let mut j: usize = 0;
        while j < file.len()
            invariant
                0 <= j <= file.len(),
                lines == file_lines(file.deep_view()),
                builder_root(builder) == dir@,
                builder_lines(builder) == before + lines.take(j as int),
                faults.deep_view() == known + file_faults(lines, i as int, j as int),
            decreases file.len() - j,
        {
            let line: String = if j == 0 {
                strip_bom(file[j].as_str())
            } else {
                file[j].clone()
            };
            assert(line@ == lines[j as int]);
            let fault = add_line(&mut builder, line.as_str());
            assert(builder_lines(builder) =~= before + lines.take(j + 1));
            let ghost sofar = faults.deep_view();
            if let Some(text) = fault {
                let f = Fault { at: Some((i, j + 1)), text };
                faults.push(f);
                assert(faults.deep_view() =~= sofar.push(f.deep_view()));
            }
            assert(faults.deep_view() =~= known + file_faults(lines, i as int, j + 1));
            j += 1;
        }
        proof {
            assert(lines.take(file.len() as int) =~= lines);
            assert(all.take(i + 1).drop_last() =~= all.take(i as int));
            assert(all.take(i + 1).last() == file.deep_view());
            assert(all[i as int] == file.deep_view());
        }
        i += 1;
    }
    assert(all.take(files.len() as int) =~= all);
    match build(&builder) {
        Ok(g) => {
            if num_ignores(&g) > 0 || num_whitelists(&g) > 0 {
                (Some(g), faults)
            } else {
                (None, faults)
            }
        },
        Err(e) => {
            let ghost sofar = faults.deep_view();
            let f = Fault { at: None, text: e };
            faults.push(f);
            assert(faults.deep_view() =~= sofar.push(f.deep_view()));
            (None, faults)
        },
    }
}

/// Whether the stack of matchers, outermost directory first, ignores a path.
/// A deeper matcher overrules the shallower ones, so that the ignore file of a
/// subdirectory can re-include what an ancestor ignored.
pub fn is_path_ignored(stack: &Vec<Arc<Gitignore>>, path: &str, is_dir: bool) -> (b: bool)
    ensures
        b == layers_ignore(layers(stack@), path@, is_dir),
{
    let mut ignored: bool = false;
    let mut i: usize = 0;
    while i < stack.len()
        invariant
            0 <= i <= stack.len(),
            ignored == layers_ignore(layers(stack@).take(i as int), path@, is_dir),
        decreases stack.len() - i,
    {
        proof {
            let next = layers(stack@).take(i + 1);
            assert(next.drop_last() =~= layers(stack@).take(i as int));
        }
        match verdict(&stack[i], path, is_dir) {
            Some(b) => {
                ignored = b;
            },
            None => {},
        }
        i += 1;
    }
    assert(layers(stack@).take(stack.len() as int) =~= layers(stack@));
    ignored
}

/// The stack that applies inside `dir`: the inherited one, with the matcher of
/// the directory's own ignore files on top where they contribute one and
/// ignore files are respected at all.
pub open spec fn layers_inside(
    outer: Seq<Layer>,
    respect: bool,
    dir: Seq<char>,
    files: Seq<Seq<Seq<char>>>,
) -> Seq<Layer> {
    if respect && adds_layer(files) {
        outer.push(Layer { root: dir, lines: dir_lines(files) })
    } else {
        outer
    }
}

/// Extends an inherited stack for the inside of `dir`. The second part lists
/// what is wrong with the directory's ignore files.
pub fn enter_directory(
    outer: &Arc<Vec<Arc<Gitignore>>>,
    respect: bool,
    dir: &str,
    files: &Vec<Vec<String>>,
) -> (r: (Arc<Vec<Arc<Gitignore>>>, Vec<Fault>))
    ensures
        layers((*r.0)@) == layers_inside(layers((**outer)@), respect, dir@, files.deep_view()),
        r.1.deep_view() == (if respect {
            dir_faults(files.deep_view())
        } else {
            seq![]
        }),
{
    if !respect {
        let none: Vec<Fault> = Vec::new();
        assert(none.deep_view() =~= seq![]);
        return (share(outer), none);
    }
    let (own, faults) = build_dir_gitignore(dir, files);
    match own {
        None => (share(outer), faults),
        Some(g) => {
            let mut stack: Vec<Arc<Gitignore>> = Vec::new();
            let mut i: usize = 0;
            while i < outer.len()
                invariant
                    0 <= i <= outer.len(),
                    stack@ == outer@.take(i as int),
                decreases outer.len() - i,
            {
                stack.push(share(&outer[i]));
                assert(stack@ =~= outer@.take(i + 1));
                i += 1;
            }
            stack.push(Arc::new(g));
            assert(layers(stack@) =~= layers(outer@).push(layer_of(g)));
            (Arc::new(stack), faults)
        },
    }
}

/// A path of which no layer speaks is not ignored, however deep the stack.
pub proof fn silence_ignores_nothing(layers: Seq<Layer>, path: Seq<char>, is_dir: bool)
    requires
        forall|i: int| 0 <= i < layers.len() ==> (#[trigger] layers[i]).verdict(path, is_dir) is None,
    ensures
        !layers_ignore(layers, path, is_dir),
    decreases layers.len(),
{
    if layers.len() > 0 {
        assert(layers.last() == layers[layers.len() - 1]);
        assert forall|i: int| 0 <= i < layers.drop_last().len() implies (
        #[trigger] layers.drop_last()[i]).verdict(path, is_dir) is None by {
            assert(layers.drop_last()[i] == layers[i]);
        }
        silence_ignores_nothing(layers.drop_last(), path, is_dir);
    }
}

/// The ignore file of a subdirectory overrules everything above it: whatever
/// the outer layers say, a path that the innermost layer speaks of is treated
/// as that layer says, re-inclusion included.
pub proof fn deeper_layer_overrules(outer: Seq<Layer>, inner: Layer, path: Seq<char>, is_dir: bool)
    requires
        inner.verdict(path, is_dir) is Some,
    ensures
        layers_ignore(outer.push(inner), path, is_dir) == inner.verdict(path, is_dir)->0,
{
}

/// A subdirectory whose ignore file is silent on a path leaves the verdict of
/// the outer layers as it was.
pub proof fn silent_layer_changes_nothing(
    outer: Seq<Layer>,
    inner: Layer,
    path: Seq<char>,
    is_dir: bool,
)
    requires
        inner.verdict(path, is_dir) is None,
    ensures
        layers_ignore(outer.push(inner), path, is_dir) == layers_ignore(outer, path, is_dir),
{
    assert(outer.push(inner).drop_last() =~= outer);
}

/// Some entry of the listing has this name.
pub open spec fn lists(entries: Seq<DirEntry>, name: Seq<char>) -> bool {
    exists|i: int| 0 <= i < entries.len() && (#[trigger] entries[i]).name@ == name
}

fn listed(entries: &Vec<DirEntry>, name: &str) -> (b: bool)
    ensures
        b == lists(entries@, name@),
{
    let wanted = name.to_string();
    let mut i: usize = 0;
    while i < entries.len()
        invariant
            0 <= i <= entries.len(),
            wanted@ == name@,
            forall|j: int| 0 <= j < i ==> (#[trigger] entries@[j]).name@ != name@,
        decreases entries.len() - i,
    {
        if entries[i].name == wanted {
            assert(entries@[i as int].name@ == name@);
            return true;
        }
        i += 1;
    }
    false
}

/// The ignore files among the entries of a directory, in the order in which
/// they are read.
pub open spec fn ignore_file_names(entries: Seq<DirEntry>) -> Seq<Seq<char>> {
    let git = if lists(entries, ".gitignore"@) {
        seq![".gitignore"@]
    } else {
        seq![]
    };
    let own = if lists(entries, ".ignore"@) {
        seq![".ignore"@]
    } else {
        seq![]
    };
    git + own
}

/// The names of the ignore files that a listing shows to be present. Only
/// these are worth opening.
pub fn present_ignore_files(entries: &Vec<DirEntry>) -> (r: Vec<String>)
    ensures
        r.deep_view() == ignore_file_names(entries@),
{
    let mut out: Vec<String> = Vec::new();
    assert(out.deep_view() =~= seq![]);
    if listed(entries, ".gitignore") {
        out.push(".gitignore".to_string());
        assert(out.deep_view() =~= seq![".gitignore"@]);
    }
    let ghost git = out.deep_view();
    if listed(entries, ".ignore") {
        out.push(".ignore".to_string());
        assert(out.deep_view() =~= git + seq![".ignore"@]);
    } else {
        assert(out.deep_view() =~= git + Seq::<Seq<char>>::empty());
    }
    out
}

/// Adds names to a set.
pub(crate) fn insert_all(set: &mut StringHashSet, names: &Vec<String>)
    ensures
        final(set)@ == old(set)@.union(names.deep_view().to_set()),
{
    let ghost start = set@;
    let ghost all = names.deep_view();
    let mut i: usize = 0;
    assert(set@ =~= start.union(all.take(0).to_set()));
    while i < names.len()
        invariant
            0 <= i <= names.len(),
            all == names.deep_view(),
            set@ == start.union(all.take(i as int).to_set()),
        decreases names.len() - i,
    {
        let ghost before = set@;
        set.insert(names[i].clone());
        proof {
            let less = all.take(i as int);
            let more = all.take(i + 1);
            assert(more =~= less.push(all[i as int]));
            assert forall|k: Seq<char>| more.contains(k) == (less.contains(k) || k
                == all[i as int]) by {
                if less.contains(k) {
                    let j = choose|j: int| 0 <= j < less.len() && less[j] == k;
                    assert(more[j] == k);
                }
                if k == all[i as int] {
                    assert(more[i as int] == k);
                }
            }
            assert(set@ =~= start.union(more.to_set()));
        }
        i += 1;
    }
    assert(all.take(names.len() as int) =~= all);
}

} // verus!
