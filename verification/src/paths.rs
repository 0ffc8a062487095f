//! Paths as text. Two texts stand for the same path if they have the same
//! components: slashes in excess, and dots for the directory itself, make no
//! difference, but for a dot at the very front.

use crate::text;
use vstd::prelude::*;
use vstd::string::*;

verus! {

/// An entry of a directory.
pub struct DirEntry {
    pub name: String,
    pub is_dir: bool,
    pub is_symlink: bool,
}

/// A name is hidden if it starts with a dot.
pub open spec fn is_hidden(name: Seq<char>) -> bool {
    name.len() > 0 && name[0] == '.'
}

/// Whether a name starts with a dot.
pub fn hidden_name(name: &str) -> (b: bool)
    ensures
        b == is_hidden(name@),
{
    name.unicode_len() > 0 && name.get_char(0) == '.'
}

/// The path of an entry of `dir`.
pub open spec fn joined(dir: Seq<char>, name: Seq<char>) -> Seq<char> {
    if dir.len() == 0 || dir.last() == '/' {
        dir + name
    } else {
        dir.push('/') + name
    }
}

/// The path of an entry of `dir`.
pub fn join(dir: &str, name: &str) -> (r: String)
    ensures
        r@ == joined(dir@, name@),
{
    let n: usize = dir.unicode_len();
    let mut out = dir.to_string();
    if n > 0 && dir.get_char(n - 1) != '/' {
        out.push('/');
    }
    out.append(name);
    out
}

/// A name that an entry of a directory can have.
pub open spec fn is_name(name: Seq<char>) -> bool {
    &&& name.len() > 0
    &&& name != seq!['.']
    &&& forall|i: int| 0 <= i < name.len() ==> #[trigger] name[i] != '/'
}

/// The path is that of an entry of `dir`.
pub open spec fn is_entry(dir: Seq<char>, p: Seq<char>) -> bool {
    exists|name: Seq<char>| is_name(name) && p == #[trigger] joined(dir, name)
}

/// Entries of one directory with different names have different paths.
pub proof fn names_tell_entries_apart(dir: Seq<char>, a: Seq<char>, b: Seq<char>)
    requires
        a != b,
    ensures
        joined(dir, a) != joined(dir, b),
{
    let (p, q) = (joined(dir, a), joined(dir, b));
    assert(p.skip(p.len() - a.len()) =~= a);
    assert(q.skip(q.len() - b.len()) =~= b);
}

/// Where the last piece of a path starts: just behind its last slash.
pub open spec fn piece_start(p: Seq<char>) -> int
    decreases p.len(),
{
    if p.len() == 0 || p.last() == '/' {
        p.len() as int
    } else {
        piece_start(p.drop_last())
    }
}

/// A piece starts within the path, behind a slash or at the front, and holds
/// no slash.
pub proof fn lemma_piece_start(p: Seq<char>)
    ensures
        0 <= piece_start(p) <= p.len(),
        piece_start(p) > 0 ==> p[piece_start(p) - 1] == '/',
        forall|i: int| piece_start(p) <= i < p.len() ==> #[trigger] p[i] != '/',
    decreases p.len(),
{
    if p.len() > 0 && p.last() != '/' {
        lemma_piece_start(p.drop_last());
        assert forall|i: int| piece_start(p) <= i < p.len() implies #[trigger] p[i] != '/' by {
            if i < p.len() - 1 {
                assert(p.drop_last()[i] == p[i]);
            }
        }
    }
}

/// The name at the end of a path: its last piece, slashes and dots for the
/// directory itself left out. The root, the empty path and a path that ends
/// at a parent directory have none.
pub open spec fn file_name(p: Seq<char>) -> Option<Seq<char>>
    decreases p.len(),
{
    if p.len() == 0 {
        None
    } else if p.last() == '/' {
        file_name(p.drop_last())
    } else {
        let piece = p.skip(piece_start(p));
        proof {
            lemma_piece_start(p);
        }
        if piece == seq!['.'] {
            file_name(p.take(piece_start(p)))
        } else if piece == seq!['.', '.'] {
            None
        } else {
            Some(piece)
        }
    }
}

/// Finds where the last piece of the first `n` characters starts.
fn find_piece_start(chars: &Vec<char>, n: usize) -> (s: usize)
    requires
        n <= chars.len(),
    ensures
        s == piece_start(chars@.take(n as int)),
        s <= n,
{
    let mut i: usize = n;
    while i > 0 && chars[i - 1] != '/'
        invariant
            i <= n <= chars.len(),
            piece_start(chars@.take(n as int)) == piece_start(chars@.take(i as int)),
        decreases i,
    {
        proof {
            let p = chars@.take(i as int);
            assert(p.last() == chars@[i - 1]);
            assert(p.drop_last() =~= chars@.take(i - 1));
        }
        i -= 1;
    }
    proof {
        let p = chars@.take(i as int);
        if i > 0 {
            assert(p.last() == chars@[i - 1]);
        }
    }
    i
}

/// The name at the end of a path, if it has one.
pub fn name_of(path: &str) -> (r: Option<String>)
    ensures
        match r {
            Some(name) => file_name(path@) == Some(name@),
            None => file_name(path@) is None,
        },
{
    let chars = text::to_chars(path);
    let mut n: usize = chars.len();
    assert(chars@.take(n as int) =~= path@);
    while n > 0
        invariant
            n <= chars.len(),
            file_name(path@) == file_name(chars@.take(n as int)),
        decreases n,
    {
        let ghost p = chars@.take(n as int);
        if chars[n - 1] == '/' {
            assert(p.last() == '/');
            assert(p.drop_last() =~= chars@.take(n - 1));
            n -= 1;
        } else {
            assert(p.last() == chars@[n - 1]);
            let s: usize = find_piece_start(&chars, n);
            proof {
                lemma_piece_start(p);
            }
            let ghost piece = p.skip(s as int);
            assert(piece =~= chars@.subrange(s as int, n as int));
            if n - s == 1 && chars[s] == '.' {
                assert(piece =~= seq!['.']);
                assert(p.take(s as int) =~= chars@.take(s as int));
                n = s;
            } else if n - s == 2 && chars[s] == '.' && chars[s + 1] == '.' {
                assert(piece =~= seq!['.', '.']);
                return None;
            } else {
                proof {
                    if piece == seq!['.'] {
                        assert(piece.len() == 1 && piece[0] == '.');
                    }
                    if piece == seq!['.', '.'] {
                        assert(piece.len() == 2 && piece[0] == '.' && piece[1] == '.');
                    }
                }
                return Some(text::from_chars(&chars, s, n));
            }
        }
    }
    None
}

/// A path written out by its components, parted by single slashes: empty pieces
/// are left out, and dots for the directory itself unless they come first.
pub open spec fn tidied(p: Seq<char>) -> Seq<char>
    decreases p.len(),
{
    if p.len() == 0 {
        seq![]
    } else if p.last() == '/' {
        if p.len() == 1 {
            seq!['/']
        } else {
            tidied(p.drop_last())
        }
    } else {
        let s = piece_start(p);
        proof {
            lemma_piece_start(p);
        }
        if s > 0 && p.skip(s) == seq!['.'] {
            tidied(p.take(s))
        } else {
            joined(tidied(p.take(s)), p.skip(s))
        }
    }
}

/// A text between slashes that is a component of its own.
spec fn is_piece(piece: Seq<char>) -> bool {
    piece.len() > 0 && forall|i: int| 0 <= i < piece.len() ==> #[trigger] piece[i] != '/'
}

proof fn lemma_last_piece(front: Seq<char>, piece: Seq<char>)
    requires
        is_piece(piece) || piece.len() == 0,
        front.len() == 0 || front.last() == '/',
    ensures
        piece_start(front + piece) == front.len(),
    decreases piece.len(),
{
    let p = front + piece;
    if piece.len() == 0 {
        assert(p =~= front);
    } else {
        let shorter = piece.drop_last();
        assert(p.last() == piece[piece.len() - 1]);
        assert(p.drop_last() =~= front + shorter);
        if shorter.len() > 0 {
            assert(forall|i: int| 0 <= i < shorter.len() ==> shorter[i] == piece[i]);
        }
        lemma_last_piece(front, shorter);
    }
}

/// A tidied path is no longer than the text it comes from, is not empty unless
/// that is, and ends with a slash only if it is the root.
proof fn lemma_tidied_end(p: Seq<char>)
    ensures
        tidied(p).len() <= p.len(),
        p.len() > 0 ==> tidied(p).len() > 0,
        tidied(p).len() > 0 && tidied(p).last() == '/' ==> tidied(p) == seq!['/'],
    decreases p.len(),
{
    if p.len() > 0 {
        if p.last() == '/' {
            if p.len() > 1 {
                lemma_tidied_end(p.drop_last());
            }
        } else {
            let s = piece_start(p);
            lemma_piece_start(p);
            let front = p.take(s);
            lemma_tidied_end(front);
            assert(p.skip(s).last() == p.last());
            if s > 1 {
                assert(front.last() == '/');
                lemma_tidied_end(front.drop_last());
            }
        }
    }
}

/// A component added to a tidied path.
proof fn lemma_tidied_child(u: Seq<char>, piece: Seq<char>)
    requires
        tidied(u) == u,
        is_piece(piece),
        u.len() == 0 || piece != seq!['.'],
    ensures
        ({
            let t = joined(u, piece);
            &&& tidied(t) == t
            &&& tidy_parent(t) == Some(u)
            &&& tidy_depth(t) == tidy_depth(u) + 1
            &&& t.len() > u.len()
        }),
{
    let t = joined(u, piece);
    let front = if u.len() == 0 || u.last() == '/' {
        u
    } else {
        u.push('/')
    };
    let s = front.len() as int;
    assert(t =~= front + piece);
    lemma_last_piece(front, piece);
    assert(t.last() == piece[piece.len() - 1]);
    assert(t.take(s) =~= front);
    assert(t.skip(s) =~= piece);
    lemma_tidied_end(u);
    if u.len() > 0 && u.last() != '/' {
        assert(front.drop_last() =~= u);
        assert(tidied(front) == u);
    }
    assert(tidied(front) == u);
    assert(tidied(t) == t);
    lemma_no_slashes(front, piece);
    if u.len() == 0 {
        assert(front =~= Seq::<char>::empty());
        assert(slashes(front) == 0);
    } else if u.last() == '/' {
        assert(u == seq!['/']);
        reveal_with_fuel(slashes, 2);
        assert(u.drop_last() =~= Seq::<char>::empty());
        assert(slashes(front) == 1);
    } else {
        assert(front.drop_last() =~= u);
        assert(slashes(front) == slashes(u) + 1);
        assert(t.take(s - 1) =~= u);
        assert(u != seq!['/']);
        if s == 1 {
            assert(u.len() == 0);
        }
    }
    if t == seq!['/'] {
        assert(t.last() == '/');
    }
}

proof fn lemma_no_slashes(front: Seq<char>, piece: Seq<char>)
    requires
        forall|i: int| 0 <= i < piece.len() ==> #[trigger] piece[i] != '/',
    ensures
        slashes(front + piece) == slashes(front),
    decreases piece.len(),
{
    let p = front + piece;
    if piece.len() == 0 {
        assert(p =~= front);
    } else {
        assert(p.last() == piece[piece.len() - 1]);
        assert(p.drop_last() =~= front + piece.drop_last());
        assert(forall|i: int|
            0 <= i < piece.drop_last().len() ==> piece.drop_last()[i] == piece[i]);
        lemma_no_slashes(front, piece.drop_last());
    }
}

/// A tidied path is empty, the root, or a tidied path and a component.
proof fn lemma_tidied_shape(p: Seq<char>) -> (r: (Seq<char>, Seq<char>))
    ensures
        tidied(tidied(p)) == tidied(p),
        tidied(p).len() == 0 || tidied(p) == seq!['/'] || {
            &&& tidied(p) == joined(r.0, r.1)
            &&& tidied(r.0) == r.0
            &&& is_piece(r.1)
            &&& r.0.len() == 0 || r.1 != seq!['.']
        },
    decreases p.len(),
{
    if p.len() == 0 {
        (seq![], seq![])
    } else if p.last() == '/' {
        if p.len() == 1 {
            assert(seq!['/'].last() == '/');
            (seq![], seq![])
        } else {
            lemma_tidied_shape(p.drop_last())
        }
    } else {
        let s = piece_start(p);
        lemma_piece_start(p);
        let front = p.take(s);
        let piece = p.skip(s);
        let r = lemma_tidied_shape(front);
        if s > 0 && piece == seq!['.'] {
            r
        } else {
            assert(piece.len() > 0);
            assert forall|i: int| 0 <= i < piece.len() implies #[trigger] piece[i] != '/' by {
                assert(piece[i] == p[s + i]);
            }
            let u = tidied(front);
            if s == 0 {
                assert(front =~= Seq::<char>::empty());
            }
            lemma_tidied_end(front);
            lemma_tidied_child(u, piece);
            (u, piece)
        }
    }
}

/// Tidying a path a second time changes nothing.
pub proof fn tidying_twice_is_once(p: Seq<char>)
    ensures
        tidied(tidied(p)) == tidied(p),
{
    let _ = lemma_tidied_shape(p);
}

/// Writes a path out by its components.
pub fn tidy(path: &str) -> (r: String)
    ensures
        r@ == tidied(path@),
{
    let chars = text::to_chars(path);
    let n: usize = chars.len();
    let mut out = String::new();
    let mut i: usize = 0;
    assert(chars@.take(0) =~= Seq::<char>::empty());
    while i < n
        invariant
            0 <= i <= n == chars.len(),
            i > 0 && i < n ==> chars@[i - 1] == '/',
            out@ == tidied(chars@.take(i as int)),
        decreases n - i,
    {
        let mut j: usize = i;
        while j < n && chars[j] != '/'
            invariant
                i <= j <= n == chars.len(),
                forall|k: int| i <= k < j ==> #[trigger] chars@[k] != '/',
            decreases n - j,
        {
            j += 1;
        }
        let ghost upto = chars@.take(j as int);
        if i < j {
            proof {
                let front = chars@.take(i as int);
                let piece = chars@.subrange(i as int, j as int);
                assert(upto =~= front + piece);
                lemma_last_piece(front, piece);
                assert(upto.take(i as int) =~= front);
                assert(upto.skip(i as int) =~= piece);
                assert(upto.last() == chars@[j - 1]);
            }
            if i > 0 && j - i == 1 && chars[i] == '.' {
                assert(upto.skip(i as int) =~= seq!['.']);
            } else {
                proof {
                    if upto.skip(i as int) == seq!['.'] {
                        assert(upto.skip(i as int).len() == 1);
                        assert(upto.skip(i as int)[0] == '.');
                        assert(chars@[i as int] == '.');
                    }
                }
                out = join(out.as_str(), text::from_chars(&chars, i, j).as_str());
            }
        }
        assert(out@ == tidied(upto));
        if j < n {
            proof {
                let next = chars@.take(j + 1);
                assert(next.last() == '/');
                assert(next.drop_last() =~= upto);
                if j == 0 {
                    assert(upto =~= Seq::<char>::empty());
                }
            }
            if j == 0 {
                out.push('/');
                assert(out@ =~= seq!['/']);
            }
            i = j + 1;
        } else {
            i = j;
        }
    }
    assert(chars@.take(n as int) =~= path@);
    out
}

/// How many slashes a text holds.
pub open spec fn slashes(p: Seq<char>) -> int
    decreases p.len(),
{
    if p.len() == 0 {
        0
    } else {
        slashes(p.drop_last()) + if p.last() == '/' {
            1int
        } else {
            0int
        }
    }
}

/// How many components a tidied path has; the root counts as one.
pub open spec fn tidy_depth(t: Seq<char>) -> int {
    if t.len() == 0 {
        0
    } else if t == seq!['/'] {
        1
    } else {
        slashes(t) + 1
    }
}

/// How many components a path has; the root counts as one.
pub open spec fn depth(p: Seq<char>) -> int {
    tidy_depth(tidied(p))
}

/// The directory that a tidied path lies in.
pub open spec fn tidy_parent(t: Seq<char>) -> Option<Seq<char>> {
    let s = piece_start(t);
    if t.len() == 0 || t == seq!['/'] {
        None
    } else if s == 0 {
        Some(seq![])
    } else if s == 1 {
        Some(seq!['/'])
    } else {
        Some(t.take(s - 1))
    }
}

/// The directory that a path lies in. The root and the empty path have none.
pub open spec fn parent(p: Seq<char>) -> Option<Seq<char>> {
    tidy_parent(tidied(p))
}

/// `p` is `base` or lies below it: the components of `base` are the first ones
/// of `p`.
pub open spec fn is_under(p: Seq<char>, base: Seq<char>) -> bool {
    tidy_under(tidied(p), tidied(base))
}

/// The tidied path `t` is the tidied path `b` or lies below it.
pub open spec fn tidy_under(t: Seq<char>, b: Seq<char>) -> bool {
    ||| b.len() == 0
    ||| t == b
    ||| b.len() < t.len() && t.take(b.len() as int) == b && (b.last() == '/' || t[b.len() as int]
        == '/')
}

proof fn lemma_depth_positive(t: Seq<char>)
    ensures
        0 <= slashes(t) <= t.len(),
        0 <= tidy_depth(t) <= t.len() + 1,
    decreases t.len(),
{
    if t.len() > 0 {
        lemma_depth_positive(t.drop_last());
    }
}

/// A parent is shorter than its child, lies one level higher, and is written
/// out by its components.
pub proof fn parent_is_shallower(p: Seq<char>)
    requires
        parent(p) is Some,
    ensures
        parent(p)->0.len() < p.len(),
        0 <= depth(parent(p)->0) == depth(p) - 1,
        tidied(parent(p)->0) == parent(p)->0,
{
    let (u, piece) = lemma_tidied_shape(p);
    lemma_tidied_end(p);
    lemma_tidied_child(u, piece);
    lemma_depth_positive(u);
}

/// A path lies under its parent, and where it lies under another path, so does
/// its parent.
pub proof fn parent_lies_between(p: Seq<char>, base: Seq<char>)
    requires
        parent(p) is Some,
    ensures
        is_under(p, parent(p)->0),
        is_under(p, base) && tidied(p) != tidied(base) ==> is_under(parent(p)->0, base),
{
    let (u, piece) = lemma_tidied_shape(p);
    lemma_tidied_end(p);
    lemma_tidied_child(u, piece);
    lemma_tidied_end(u);
    lemma_tidied_end(base);
    let t = tidied(p);
    let b = tidied(base);
    assert(t.take(u.len() as int) =~= u);
    if tidy_under(t, b) && t != b && b.len() > 0 {
        let n = b.len() as int;
        let start = t.len() - piece.len();
        assert forall|i: int| start <= i < t.len() implies t[i] != '/' by {
            assert(t[i] == piece[i - start]);
        }
        if b.last() == '/' {
            assert(t.take(n)[n - 1] == t[n - 1]);
        }
        assert(n <= u.len());
        assert(u.take(n) =~= b) by {
            assert(t.take(n) =~= u.take(n));
        }
        if n == u.len() {
            assert(u =~= b);
        } else if b.last() != '/' {
            assert(u[n] == t[n]);
        }
    }
}

/// Two paths that lie under each other are the same.
pub proof fn under_each_other_is_the_same(p: Seq<char>, q: Seq<char>)
    requires
        is_under(p, q),
        is_under(q, p),
    ensures
        tidied(p) == tidied(q),
{
    assert(tidied(p).len() == 0 ==> tidied(p) =~= Seq::empty());
    assert(tidied(q).len() == 0 ==> tidied(q) =~= Seq::empty());
}

/// What lies under a path lies under everything that the path lies under.
pub proof fn under_carries_over(p: Seq<char>, q: Seq<char>, base: Seq<char>)
    requires
        is_under(p, q),
        is_under(q, base),
    ensures
        is_under(p, base),
{
    let (t, m, b) = (tidied(p), tidied(q), tidied(base));
    lemma_tidied_end(base);
    if b.len() > 0 && m.len() > 0 && t != m && m != b {
        let n = b.len() as int;
        assert(t.take(m.len() as int).take(n) =~= t.take(n));
        assert(t.take(m.len() as int)[n] == t[n]);
    }
}

/// An entry of a directory: tidying comes to the same before and after its
/// name is added, the directory is its parent, and it lies wherever the
/// directory does.
pub proof fn entry_of_directory(dir: Seq<char>, name: Seq<char>, base: Seq<char>)
    requires
        is_name(name),
    ensures
        tidied(joined(dir, name)) == joined(tidied(dir), name),
        parent(joined(dir, name)) == Some(tidied(dir)),
        is_under(dir, base) ==> is_under(joined(dir, name), base),
{
    let p = joined(dir, name);
    let u = tidied(dir);
    let front = if dir.len() == 0 || dir.last() == '/' {
        dir
    } else {
        dir.push('/')
    };
    let s = front.len() as int;
    assert(p =~= front + name);
    lemma_last_piece(front, name);
    assert(p.last() == name[name.len() - 1]);
    assert(p.take(s) =~= front);
    assert(p.skip(s) =~= name);
    if dir.len() > 0 && dir.last() != '/' {
        assert(front.drop_last() =~= dir);
        assert(front.last() == '/');
    }
    assert(tidied(front) == u);
    assert(tidied(p) == joined(tidied(p.take(s)), p.skip(s)));
    tidying_twice_is_once(dir);
    tidying_twice_is_once(base);
    lemma_tidied_child(u, name);
    lemma_tidied_end(dir);
    let b = tidied(base);
    if tidy_under(u, b) && b.len() > 0 {
        let t = joined(u, name);
        assert(t.take(u.len() as int) =~= u);
        assert(t.take(b.len() as int) =~= u.take(b.len() as int));
    }
}

/// The number of components of a path.
pub fn depth_of(path: &str) -> (d: u128)
    ensures
        d == depth(path@),
{
    let tidy_path = tidy(path);
    let chars = text::to_chars(tidy_path.as_str());
    let ghost t = tidied(path@);
    let n: usize = chars.len();
    if n == 0 {
        return 0;
    }
    if n == 1 && chars[0] == '/' {
        assert(t =~= seq!['/']);
        return 1;
    }
    let mut count: u128 = 0;
    let mut i: usize = 0;
    while i < n
        invariant
            0 <= i <= n == chars.len(),
            count <= i,
            count == slashes(chars@.take(i as int)),
        decreases n - i,
    {
        proof {
            let next = chars@.take(i + 1);
            assert(next.drop_last() =~= chars@.take(i as int));
            assert(next.last() == chars@[i as int]);
        }
        if chars[i] == '/' {
            count += 1;
        }
        i += 1;
    }
    assert(chars@.take(n as int) =~= t);
    proof {
        if t == seq!['/'] {
            assert(t.len() == 1 && t[0] == '/');
        }
    }
    count + 1
}

/// The directory that a path lies in, if it has one.
pub fn parent_of(path: &str) -> (r: Option<String>)
    ensures
        match r {
            Some(d) => parent(path@) == Some(d@),
            None => parent(path@) is None,
        },
{
    let tidy_path = tidy(path);
    let chars = text::to_chars(tidy_path.as_str());
    let ghost t = tidied(path@);
    let n: usize = chars.len();
    assert(chars@.take(n as int) =~= t);
    if n == 0 {
        return None;
    }
    if n == 1 && chars[0] == '/' {
        assert(t =~= seq!['/']);
        return None;
    }
    proof {
        if t == seq!['/'] {
            assert(t.len() == 1 && t[0] == '/');
        }
    }
    let s: usize = find_piece_start(&chars, n);
    if s == 0 {
        Some(String::new())
    } else if s == 1 {
        proof {
            lemma_piece_start(t);
            assert(t[0] == '/');
            assert(chars@.subrange(0, 1) =~= seq!['/']);
        }
        Some(text::from_chars(&chars, 0, 1))
    } else {
        assert(chars@.subrange(0, s - 1) =~= t.take(s - 1));
        Some(text::from_chars(&chars, 0, s - 1))
    }
}

/// Whether `path` is `base` or lies below it.
pub fn lies_under(path: &str, base: &str) -> (b: bool)
    ensures
        b == is_under(path@, base@),
{
    let tidy_path = tidy(path);
    let tidy_base = tidy(base);
    let p = text::to_chars(tidy_path.as_str());
    let b = text::to_chars(tidy_base.as_str());
    if b.len() == 0 {
        return true;
    }
    if p.len() < b.len() {
        return false;
    }
    let mut i: usize = 0;
    while i < b.len()
        invariant
            0 <= i <= b.len() <= p.len(),
            p@ == tidied(path@),
            b@ == tidied(base@),
            forall|j: int| 0 <= j < i ==> p@[j] == b@[j],
        decreases b.len() - i,
    {
        if p[i] != b[i] {
            proof {
                if tidy_under(p@, b@) && p@ != b@ {
                    assert(p@.take(b@.len() as int)[i as int] == p@[i as int]);
                }
            }
            return false;
        }
        i += 1;
    }
    assert(p@.take(b@.len() as int) =~= b@);
    if p.len() == b.len() {
        assert(p@ =~= b@);
        return true;
    }
    b[b.len() - 1] == '/' || p[b.len()] == '/'
}

} // verus!
