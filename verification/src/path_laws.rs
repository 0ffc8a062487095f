//! What holds of paths as text: what makes no difference in them, and which
//! lie below which.

use crate::paths;
use vstd::prelude::*;

verus! {

/// A slash at the end of a path, or a dot behind it, makes no difference, and
/// a path that ends at a parent directory has no name.
pub proof fn slashes_and_dots_make_no_difference(p: Seq<char>)
    requires
        p.len() > 0,
    ensures
        paths::tidied(p.push('/')) == paths::tidied(p),
        paths::tidied(p.push('/').push('.')) == paths::tidied(p),
        paths::file_name(p.push('/')) == paths::file_name(p),
        paths::file_name(p.push('/').push('.')) == paths::file_name(p),
        paths::file_name(p.push('/').push('.').push('.')) is None,
{
    let q = p.push('/');
    let n = q.len() as int;
    assert(q.last() == '/');
    assert(q.drop_last() =~= p);
    let one = q.push('.');
    assert(one.last() == '.');
    assert(one.drop_last() =~= q);
    assert(paths::piece_start(one) == n);
    assert(one.skip(n) =~= seq!['.']);
    assert(one.take(n) =~= q);
    let two = one.push('.');
    assert(two.last() == '.');
    assert(two.drop_last() =~= one);
    assert(paths::piece_start(two) == n);
    assert(two.skip(n) =~= seq!['.', '.']);
    assert(two.skip(n).len() == 2);
}

/// The empty path has no components, and the root is one. Neither has a name or
/// lies in a directory, and every other path lies in one.
pub proof fn paths_that_lie_nowhere(p: Seq<char>)
    ensures
        paths::tidied(seq![]) == Seq::<char>::empty(),
        paths::tidied(seq!['/']) == seq!['/'],
        paths::depth(seq![]) == 0,
        paths::depth(seq!['/']) == 1,
        paths::file_name(seq![]) is None,
        paths::file_name(seq!['/']) is None,
        paths::parent(p) is None <==> paths::tidied(p).len() == 0 || paths::tidied(p) == seq!['/'],
{
    assert(seq!['/'].drop_last() =~= Seq::<char>::empty());
}

/// Different entries of a directory do not lie under each other, not even where
/// the name of one starts with that of the other, and no directory lies under
/// one of its entries.
pub proof fn siblings_lie_apart(dir: Seq<char>, a: Seq<char>, b: Seq<char>)
    requires
        a != b,
        a.len() > 0 && a != seq!['.'],
        b.len() > 0 && b != seq!['.'],
        forall|i: int| 0 <= i < a.len() ==> #[trigger] a[i] != '/',
        forall|i: int| 0 <= i < b.len() ==> #[trigger] b[i] != '/',
    ensures
        !paths::is_under(paths::joined(dir, a), paths::joined(dir, b)),
        !paths::is_under(dir, paths::joined(dir, a)),
{
    let u = paths::tidied(dir);
    paths::entry_of_directory(dir, a, dir);
    paths::entry_of_directory(dir, b, dir);
    let (t, m) = (paths::joined(u, a), paths::joined(u, b));
    paths::names_tell_entries_apart(u, a, b);
    if paths::tidy_under(t, m) {
        let front = m.len() - b.len();
        assert(m.last() == b[b.len() - 1]);
        assert(t[m.len() as int] == a[m.len() - front]);
    }
}

/// A path lies under another exactly if it is the same, or the directory that
/// it lies in does. Everything lies under the empty path.
pub proof fn lying_under_goes_by_the_parent(p: Seq<char>, base: Seq<char>)
    ensures
        paths::is_under(p, p),
        paths::is_under(p, seq![]),
        paths::tidied(base).len() > 0 ==> {
            paths::is_under(p, base) <==> {
                ||| paths::tidied(p) == paths::tidied(base)
                ||| paths::parent(p) is Some && paths::is_under(paths::parent(p)->0, base)
            }
        },
{
    assert(paths::tidied(Seq::<char>::empty()).len() == 0);
    if paths::parent(p) is Some {
        paths::parent_lies_between(p, base);
        if paths::is_under(paths::parent(p)->0, base) {
            paths::under_carries_over(p, paths::parent(p)->0, base);
        }
    } else if paths::tidied(base).len() > 0 && paths::is_under(p, base) {
        assert(paths::tidied(p) == paths::tidied(base));
    }
}

} // verus!
