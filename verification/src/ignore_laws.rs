//! What holds of ignore files, however deep they lie.

use crate::ignore_files;
use crate::ignore_files::Layer;
use crate::paths::DirEntry;
use vstd::prelude::*;

verus! {

/// The deepest layer that speaks of a path decides whether it is ignored,
/// whatever the layers above it say. What a layer says depends on whether the
/// path is that of a directory.
pub proof fn the_deepest_layer_that_speaks_decides(
    layers: Seq<Layer>,
    path: Seq<char>,
    is_dir: bool,
    k: int,
)
    requires
        0 <= k < layers.len(),
        ignore_files::gitignore_verdict(layers[k].root, layers[k].lines, path, is_dir) is Some,
        forall|j: int|
            k < j < layers.len() ==> ignore_files::gitignore_verdict(
                (#[trigger] layers[j]).root,
                layers[j].lines,
                path,
                is_dir,
            ) is None,
    ensures
        ignore_files::layers_ignore(layers, path, is_dir) == ignore_files::gitignore_verdict(
            layers[k].root,
            layers[k].lines,
            path,
            is_dir,
        )->0,
    decreases layers.len(),
{
    let n = layers.len() - 1;
    if k < n {
        let fewer = layers.drop_last();
        assert(ignore_files::gitignore_verdict(
            layers[n].root,
            layers[n].lines,
            path,
            is_dir,
        ) is None);
        assert forall|j: int| k < j < fewer.len() implies ignore_files::gitignore_verdict(
            (#[trigger] fewer[j]).root,
            fewer[j].lines,
            path,
            is_dir,
        ) is None by {
            assert(fewer[j] == layers[j]);
        }
        the_deepest_layer_that_speaks_decides(fewer, path, is_dir, k);
    }
}

/// A path of which no layer speaks is not ignored.
pub proof fn what_no_layer_speaks_of_is_kept(layers: Seq<Layer>, path: Seq<char>, is_dir: bool)
    requires
        forall|j: int|
            0 <= j < layers.len() ==> ignore_files::gitignore_verdict(
                (#[trigger] layers[j]).root,
                layers[j].lines,
                path,
                is_dir,
            ) is None,
    ensures
        !ignore_files::layers_ignore(layers, path, is_dir),
    decreases layers.len(),
{
    if layers.len() > 0 {
        let fewer = layers.drop_last();
        assert(layers.last() == layers[layers.len() - 1]);
        assert forall|j: int| 0 <= j < fewer.len() implies ignore_files::gitignore_verdict(
            (#[trigger] fewer[j]).root,
            fewer[j].lines,
            path,
            is_dir,
        ) is None by {
            assert(fewer[j] == layers[j]);
        }
        what_no_layer_speaks_of_is_kept(fewer, path, is_dir);
    }
}

/// Inside a directory, the layers that came down to it apply, and one of its
/// own on top where its ignore files build and hold a pattern. Where ignore
/// files are not obeyed there is none.
pub proof fn layers_come_down(
    outer: Seq<Layer>,
    respect: bool,
    dir: Seq<char>,
    files: Seq<Seq<Seq<char>>>,
)
    ensures
        ({
            let inner = ignore_files::layers_inside(outer, respect, dir, files);
            let lines = ignore_files::dir_lines(files);
            let speaks = ignore_files::gitignore_build_fault(lines) is None && (
            ignore_files::gitignore_ignores(lines) > 0 || ignore_files::gitignore_whitelists(lines)
                > 0);
            &&& outer.is_prefix_of(inner)
            &&& inner.len() <= outer.len() + 1
            &&& inner.len() == outer.len() + 1 <==> respect && files.len() > 0 && speaks
            &&& inner.len() == outer.len() + 1 ==> inner.last().root == dir && inner.last().lines
                == lines
        }),
{
}

/// A text without the byte order marks at its start: nothing else is cut off,
/// and none is left there.
pub proof fn byte_order_marks_are_dropped(s: Seq<char>) -> (k: int)
    ensures
        0 <= k <= s.len(),
        ignore_files::without_bom(s) == s.skip(k),
        forall|i: int| 0 <= i < k ==> #[trigger] s[i] as int == 0xfeff,
        k < s.len() ==> s[k] as int != 0xfeff,
    decreases s.len(),
{
    if s.len() > 0 && s[0] == '\u{feff}' {
        let rest = s.drop_first();
        let j = byte_order_marks_are_dropped(rest);
        assert(rest.skip(j) =~= s.skip(j + 1));
        assert forall|i: int| 0 <= i < j + 1 implies #[trigger] s[i] as int == 0xfeff by {
            if i > 0 {
                assert(rest[i - 1] == s[i]);
            }
        }
        j + 1
    } else {
        assert(s.skip(0) =~= s);
        0
    }
}

/// The lines of a directory's ignore files are read one file after the other,
/// every line of each: as it is, but for the byte order marks at the start of a
/// file.
pub proof fn every_line_is_read(files: Seq<Seq<Seq<char>>>, file: Seq<Seq<char>>)
    ensures
        ({
            let before = ignore_files::dir_lines(files);
            let all = ignore_files::dir_lines(files.push(file));
            &&& all.len() == before.len() + file.len()
            &&& before.is_prefix_of(all)
            &&& forall|i: int|
                0 < i < file.len() ==> all[before.len() + i] == #[trigger] file[i]
            &&& file.len() > 0 ==> all[before.len() as int] == ignore_files::without_bom(file[0])
        }),
        ignore_files::dir_lines(seq![]).len() == 0,
{
    let before = ignore_files::dir_lines(files);
    let all = ignore_files::dir_lines(files.push(file));
    assert(files.push(file).drop_last() =~= files);
    assert(all == before + ignore_files::file_lines(file));
}

/// The ignore files of a directory are `.gitignore` and `.ignore`, where they
/// are, in that order, and no other.
pub proof fn ignore_files_of_a_directory(entries: Seq<DirEntry>, name: Seq<char>)
    ensures
        ({
            let names = ignore_files::ignore_file_names(entries);
            &&& names.contains(name) <==> (name == ".gitignore"@ || name == ".ignore"@)
                && exists|i: int| 0 <= i < entries.len() && (#[trigger] entries[i]).name@ == name
            &&& names.len() <= 2
            &&& names.len() == 2 ==> names[0] == ".gitignore"@ && names[1] == ".ignore"@
        }),
{
    reveal_strlit(".gitignore");
    reveal_strlit(".ignore");
    let names = ignore_files::ignore_file_names(entries);
    if ignore_files::lists(entries, ".gitignore"@) {
        assert(names[0] == ".gitignore"@);
    }
    if ignore_files::lists(entries, ".ignore"@) {
        assert(names[names.len() - 1] == ".ignore"@);
    }
    assert(".gitignore"@.len() != ".ignore"@.len());
}

/// A fault is told once for each line that has one, with the place of its file
/// and its number in it.
pub proof fn faults_are_told_with_their_place(
    files: Seq<Seq<Seq<char>>>,
    f: int,
    n: int,
)
    requires
        0 <= f < files.len(),
        0 < n < files[f].len(),
    ensures
        ignore_files::gitignore_line_fault(files[f][n]) matches Some(text)
            ==> ignore_files::dir_faults(files).contains(
            ignore_files::FaultView { at: Some((f, n + 1)), text },
        ),
{
    if let Some(text) = ignore_files::gitignore_line_fault(files[f][n]) {
        let fault = ignore_files::FaultView { at: Some((f, n + 1)), text };
        let lines = ignore_files::file_lines(files[f]);
        lemma_file_fault(lines, f, n, lines.len() as int);
        lemma_line_fault(files, f, files.len() as int, fault);
        let faults = ignore_files::line_faults(files, files.len() as int);
        let k = faults.index_of(fault);
        assert(ignore_files::dir_faults(files)[k] == fault);
    }
}

/// Nothing else is told: a fault with a place is that of the line there, and one
/// without a place comes last and is that of all lines taken together.
pub proof fn only_faults_are_told(files: Seq<Seq<Seq<char>>>, k: int)
    requires
        0 <= k < ignore_files::dir_faults(files).len(),
    ensures
        ({
            let fault = ignore_files::dir_faults(files)[k];
            &&& fault.at matches Some((f, n)) ==> {
                &&& 0 <= f < files.len() && 1 <= n <= files[f].len()
                &&& n > 1 ==> ignore_files::gitignore_line_fault(files[f][n - 1]) == Some(fault.text)
                &&& n == 1 ==> ignore_files::gitignore_line_fault(
                    ignore_files::without_bom(files[f][0]),
                ) == Some(fault.text)
            }
            &&& fault.at is None ==> {
                &&& k == ignore_files::dir_faults(files).len() - 1
                &&& ignore_files::gitignore_build_fault(ignore_files::dir_lines(files)) == Some(
                    fault.text,
                )
            }
        }),
        files.len() > 0 && ignore_files::gitignore_build_fault(
            ignore_files::dir_lines(files),
        ) is Some ==> ignore_files::dir_faults(files).last().at is None,
{
    let faults = ignore_files::line_faults(files, files.len() as int);
    if k < faults.len() {
        lemma_line_faults_hold(files, files.len() as int, k);
        assert(ignore_files::dir_faults(files)[k] == faults[k]);
    }
}

proof fn lemma_line_faults_hold(files: Seq<Seq<Seq<char>>>, m: int, k: int)
    requires
        0 <= m <= files.len(),
        0 <= k < ignore_files::line_faults(files, m).len(),
    ensures
        ({
            let fault = ignore_files::line_faults(files, m)[k];
            &&& fault.at matches Some((f, n)) && 0 <= f < m && 1 <= n <= files[f].len()
                && ignore_files::gitignore_line_fault(ignore_files::file_lines(files[f])[n - 1])
                == Some(fault.text)
        }),
    decreases m,
{
    let before = ignore_files::line_faults(files, m - 1);
    let lines = ignore_files::file_lines(files[m - 1]);
    if k < before.len() {
        lemma_line_faults_hold(files, m - 1, k);
        assert(ignore_files::line_faults(files, m)[k] == before[k]);
    } else {
        lemma_file_faults_hold(lines, m - 1, lines.len() as int, k - before.len());
    }
}

proof fn lemma_file_faults_hold(lines: Seq<Seq<char>>, f: int, n: int, k: int)
    requires
        0 <= n <= lines.len(),
        0 <= k < ignore_files::file_faults(lines, f, n).len(),
    ensures
        ({
            let fault = ignore_files::file_faults(lines, f, n)[k];
            &&& fault.at matches Some((g, at)) && g == f && 1 <= at <= n
                && ignore_files::gitignore_line_fault(lines[at - 1]) == Some(fault.text)
        }),
    decreases n,
{
    let before = ignore_files::file_faults(lines, f, n - 1);
    if k < before.len() {
        lemma_file_faults_hold(lines, f, n - 1, k);
        assert(ignore_files::file_faults(lines, f, n)[k] == before[k]);
    }
}

proof fn lemma_file_fault(lines: Seq<Seq<char>>, f: int, i: int, n: int)
    requires
        0 <= i < n <= lines.len(),
        ignore_files::gitignore_line_fault(lines[i]) is Some,
    ensures
        ignore_files::file_faults(lines, f, n).contains(
            ignore_files::FaultView {
                at: Some((f, i + 1)),
                text: ignore_files::gitignore_line_fault(lines[i])->0,
            },
        ),
    decreases n,
{
    let fault = ignore_files::FaultView {
        at: Some((f, i + 1)),
        text: ignore_files::gitignore_line_fault(lines[i])->0,
    };
    let all = ignore_files::file_faults(lines, f, n);
    if i == n - 1 {
        assert(all[all.len() - 1] == fault);
    } else {
        lemma_file_fault(lines, f, i, n - 1);
        let k = ignore_files::file_faults(lines, f, n - 1).index_of(fault);
        assert(all[k] == fault);
    }
}

proof fn lemma_line_fault(
    files: Seq<Seq<Seq<char>>>,
    f: int,
    n: int,
    fault: ignore_files::FaultView,
)
    requires
        0 <= f < n <= files.len(),
        ({
            let lines = ignore_files::file_lines(files[f]);
            ignore_files::file_faults(lines, f, lines.len() as int).contains(fault)
        }),
    ensures
        ignore_files::line_faults(files, n).contains(fault),
    decreases n,
{
    let before = ignore_files::line_faults(files, n - 1);
    let all = ignore_files::line_faults(files, n);
    let lines = ignore_files::file_lines(files[n - 1]);
    let own = ignore_files::file_faults(lines, n - 1, lines.len() as int);
    if f == n - 1 {
        let k = own.index_of(fault);
        assert(all[before.len() + k] == fault);
    } else {
        lemma_line_fault(files, f, n - 1, fault);
        let k = before.index_of(fault);
        assert(all[k] == fault);
    }
}

} // verus!
