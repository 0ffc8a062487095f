//! What holds of recursive sizes, whatever the order of the directories.

use crate::ardisk::rollup;
use crate::ardisk::size_map;
use crate::ardisk::size_map::SizeMap;
use crate::paths;
use crate::runs;
use vstd::prelude::*;

verus! {

/// What an entry adds at `q`.
spec fn share(e: (Seq<char>, u64), keys: Set<Seq<char>>, base: Seq<char>, q: Seq<char>) -> int {
    if keys.contains(e.0) && rollup::rolls_up(keys, base, e.0, q) {
        e.1 as int
    } else {
        0
    }
}

/// The shares of entries at `q`.
spec fn shares(keys: Set<Seq<char>>, base: Seq<char>, q: Seq<char>) -> spec_fn(
    (Seq<char>, u64),
) -> int {
    |e: (Seq<char>, u64)| share(e, keys, base, q)
}

proof fn lemma_sum_is_amount(
    entries: Seq<(Seq<char>, u64)>,
    keys: Set<Seq<char>>,
    base: Seq<char>,
    q: Seq<char>,
    n: int,
)
    requires
        0 <= n <= entries.len(),
    ensures
        rollup::sum_at(entries, keys, base, q, n) == runs::amount(
            entries.take(n),
            shares(keys, base, q),
        ),
    decreases n,
{
    if n > 0 {
        lemma_sum_is_amount(entries, keys, base, q, n - 1);
        assert(entries.take(n).drop_last() =~= entries.take(n - 1));
    }
}

/// The size of an entry.
pub open spec fn size_in() -> spec_fn((Seq<char>, u64)) -> int {
    |e: (Seq<char>, u64)| e.1 as int
}

proof fn lemma_sizes_are_amount(entries: Seq<(Seq<char>, u64)>, n: int)
    requires
        0 <= n <= entries.len(),
    ensures
        rollup::sum_of(entries, n) == runs::amount(entries.take(n), size_in()),
    decreases n,
{
    if n > 0 {
        lemma_sizes_are_amount(entries, n - 1);
        assert(entries.take(n).drop_last() =~= entries.take(n - 1));
    }
}

/// The lists hold the same entries.
spec fn same_entries(a: Seq<(Seq<char>, u64)>, b: Seq<(Seq<char>, u64)>) -> bool {
    forall|e: (Seq<char>, u64)| #[trigger] a.contains(e) == b.contains(e)
}

/// Lists with the same entries, none of them twice, differ in their order
/// alone.
proof fn lemma_same_multiset(a: Seq<(Seq<char>, u64)>, b: Seq<(Seq<char>, u64)>)
    requires
        size_map::distinct(a),
        size_map::distinct(b),
        same_entries(a, b),
    ensures
        a.to_multiset() == b.to_multiset(),
{
    broadcast use vstd::multiset::group_multiset_axioms;
    broadcast use vstd::seq_lib::group_to_multiset_ensures;

    assert(a.no_duplicates());
    assert(b.no_duplicates());
    a.lemma_multiset_has_no_duplicates();
    b.lemma_multiset_has_no_duplicates();
    assert forall|e: (Seq<char>, u64)| #[trigger]
        a.to_multiset().count(e) == b.to_multiset().count(e) by {
        if a.contains(e) {
            assert(a.to_multiset().contains(e));
            assert(b.contains(e));
            assert(b.to_multiset().contains(e));
        } else {
            assert(!b.contains(e));
        }
    }
    assert(a.to_multiset() =~= b.to_multiset());
}

/// Lists with the same entries, none of them twice, have the same sums.
proof fn lemma_any_order(
    a: Seq<(Seq<char>, u64)>,
    b: Seq<(Seq<char>, u64)>,
    keys: Set<Seq<char>>,
    base: Seq<char>,
    q: Seq<char>,
)
    requires
        size_map::distinct(a),
        size_map::distinct(b),
        same_entries(a, b),
    ensures
        rollup::sum_at(a, keys, base, q, a.len() as int) == rollup::sum_at(
            b,
            keys,
            base,
            q,
            b.len() as int,
        ),
{
    lemma_same_multiset(a, b);
    lemma_sum_is_amount(a, keys, base, q, a.len() as int);
    lemma_sum_is_amount(b, keys, base, q, b.len() as int);
    assert(a.take(a.len() as int) =~= a);
    assert(b.take(b.len() as int) =~= b);
    runs::amounts_agree(a, b, shares(keys, base, q));
}

/// Lists of the same map hold the same entries, and the same paths.
proof fn lemma_same_map(
    a: Seq<(Seq<char>, u64)>,
    b: Seq<(Seq<char>, u64)>,
    map: Map<Seq<char>, u64>,
)
    requires
        size_map::lists_map(a, map),
        size_map::lists_map(b, map),
    ensures
        same_entries(a, b),
        rollup::keys_of(a) == map.dom(),
        rollup::keys_of(b) == map.dom(),
{
    assert forall|e: (Seq<char>, u64)| #[trigger] a.contains(e) == b.contains(e) by {
        if a.contains(e) {
            let i = choose|i: int| 0 <= i < a.len() && a[i] == e;
            assert(map.contains_key(a[i].0));
            let j = choose|j: int| 0 <= j < b.len() && (#[trigger] b[j]).0 == e.0;
            assert(b[j] == e);
        }
        if b.contains(e) {
            let i = choose|i: int| 0 <= i < b.len() && b[i] == e;
            assert(map.contains_key(b[i].0));
            let j = choose|j: int| 0 <= j < a.len() && (#[trigger] a[j]).0 == e.0;
            assert(a[j] == e);
        }
    }
    assert(rollup::keys_of(a) =~= map.dom());
    assert(rollup::keys_of(b) =~= map.dom());
}

/// The sizes of a map have one sum, in whatever order they are listed.
pub proof fn order_of_sizes_is_free(
    entries: Seq<(Seq<char>, u64)>,
    other: Seq<(Seq<char>, u64)>,
    map: Map<Seq<char>, u64>,
)
    requires
        size_map::lists_map(entries, map),
        size_map::lists_map(other, map),
    ensures
        rollup::sum_of(entries, entries.len() as int) == runs::amount(other, size_in()),
{
    lemma_same_map(entries, other, map);
    lemma_same_multiset(entries, other);
    lemma_sizes_are_amount(entries, entries.len() as int);
    assert(entries.take(entries.len() as int) =~= entries);
    runs::amounts_agree(entries, other, size_in());
}

/// Something is counted at `q` in one list exactly if it is in another with
/// the same paths.
proof fn lemma_counted_by_keys(
    a: Seq<(Seq<char>, u64)>,
    b: Seq<(Seq<char>, u64)>,
    base: Seq<char>,
    q: Seq<char>,
)
    requires
        rollup::keys_of(a) == rollup::keys_of(b),
        rollup::is_counted(a, rollup::keys_of(a), base, q),
    ensures
        rollup::is_counted(b, rollup::keys_of(b), base, q),
{
    let keys = rollup::keys_of(a);
    let i = choose|i: int|
        0 <= i < a.len() && keys.contains((#[trigger] a[i]).0) && rollup::rolls_up(
            keys,
            base,
            a[i].0,
            q,
        );
    assert(rollup::keys_of(b).contains(a[i].0));
    let j = choose|j: int| 0 <= j < b.len() && (#[trigger] b[j]).0 == a[i].0;
    assert(keys.contains(b[j].0));
}

/// Recursive sizes do not depend on the order in which the directories came
/// in: maps with the same sizes give the same result.
pub proof fn order_of_directories_is_free(a: SizeMap, b: SizeMap, base: Seq<char>, q: Seq<char>)
    requires
        a.wf(),
        b.wf(),
        a@ == b@,
    ensures
        rollup::total(a.entries(), base, q) == rollup::total(b.entries(), base, q),
        rollup::is_counted(a.entries(), rollup::keys_of(a.entries()), base, q)
            == rollup::is_counted(b.entries(), rollup::keys_of(b.entries()), base, q),
{
    a.entries_list_the_map();
    b.entries_list_the_map();
    lemma_same_map(a.entries(), b.entries(), a@);
    lemma_any_order(a.entries(), b.entries(), a@.dom(), base, q);
    if rollup::is_counted(a.entries(), rollup::keys_of(a.entries()), base, q) {
        lemma_counted_by_keys(a.entries(), b.entries(), base, q);
    }
    if rollup::is_counted(b.entries(), rollup::keys_of(b.entries()), base, q) {
        lemma_counted_by_keys(b.entries(), a.entries(), base, q);
    }
}

/// The sums of lists that name the same paths in the same order.
proof fn lemma_sums_add(
    a: Seq<(Seq<char>, u64)>,
    b: Seq<(Seq<char>, u64)>,
    both: Seq<(Seq<char>, u64)>,
    keys: Set<Seq<char>>,
    base: Seq<char>,
    q: Seq<char>,
    n: int,
)
    requires
        n <= both.len(),
        a.len() == both.len(),
        b.len() == both.len(),
        forall|i: int|
            0 <= i < both.len() ==> a[i].0 == both[i].0 && b[i].0 == both[i].0 && (
            #[trigger] both[i]).1 == a[i].1 + b[i].1,
    ensures
        rollup::sum_at(both, keys, base, q, n) == rollup::sum_at(a, keys, base, q, n)
            + rollup::sum_at(b, keys, base, q, n),
    decreases n,
{
    if n > 0 {
        lemma_sums_add(a, b, both, keys, base, q, n - 1);
        assert(both[n - 1].1 == a[n - 1].1 + b[n - 1].1);
    }
}

/// The entries of one map in the order of another with the same paths.
spec fn reordered(map: Map<Seq<char>, u64>, order: Seq<(Seq<char>, u64)>) -> Seq<
    (Seq<char>, u64),
> {
    Seq::new(order.len(), |i: int| (order[i].0, map[order[i].0]))
}

proof fn lemma_reordered(
    map: Map<Seq<char>, u64>,
    order: Seq<(Seq<char>, u64)>,
    other: Map<Seq<char>, u64>,
)
    requires
        size_map::lists_map(order, other),
        map.dom() == other.dom(),
    ensures
        size_map::lists_map(reordered(map, order), map),
{
    let r = reordered(map, order);
    assert forall|i: int, j: int|
        0 <= i < r.len() && 0 <= j < r.len() && (#[trigger] r[i]).0 == (#[trigger] r[j]).0 implies i
        == j by {
        assert(order[i].0 == order[j].0);
    }
    assert forall|i: int| 0 <= i < r.len() implies map.contains_key((#[trigger] r[i]).0)
        && map[r[i].0] == r[i].1 by {
        assert(other.contains_key(order[i].0));
        assert(other.dom().contains(order[i].0));
    }
    assert forall|k: Seq<char>| #[trigger] map.contains_key(k) implies exists|i: int|
        0 <= i < r.len() && (#[trigger] r[i]).0 == k by {
        assert(other.dom().contains(k));
        assert(other.contains_key(k));
        let i = choose|i: int| 0 <= i < order.len() && (#[trigger] order[i]).0 == k;
        assert(r[i].0 == k);
    }
}

/// Recursive sizes add up: where every directory of `both` has the sizes that
/// it has in `a` and in `b` together, so it is for the recursive sizes.
pub proof fn recursive_sizes_add_up(
    a: SizeMap,
    b: SizeMap,
    both: SizeMap,
    base: Seq<char>,
    q: Seq<char>,
)
    requires
        a.wf(),
        b.wf(),
        both.wf(),
        a@.dom() == both@.dom(),
        b@.dom() == both@.dom(),
        forall|k: Seq<char>| #[trigger] both@.contains_key(k) ==> both@[k] == a@[k] + b@[k],
    ensures
        rollup::total(both.entries(), base, q) == rollup::total(a.entries(), base, q)
            + rollup::total(b.entries(), base, q),
        rollup::is_counted(both.entries(), rollup::keys_of(both.entries()), base, q)
            == rollup::is_counted(a.entries(), rollup::keys_of(a.entries()), base, q),
        rollup::is_counted(both.entries(), rollup::keys_of(both.entries()), base, q)
            == rollup::is_counted(b.entries(), rollup::keys_of(b.entries()), base, q),
{
    let order = both.entries();
    let keys = both@.dom();
    both.entries_list_the_map();
    a.entries_list_the_map();
    b.entries_list_the_map();
    lemma_reordered(a@, order, both@);
    lemma_reordered(b@, order, both@);
    let ra = reordered(a@, order);
    let rb = reordered(b@, order);
    lemma_same_map(order, order, both@);
    lemma_same_map(ra, a.entries(), a@);
    lemma_same_map(rb, b.entries(), b@);
    lemma_any_order(ra, a.entries(), keys, base, q);
    lemma_any_order(rb, b.entries(), keys, base, q);
    lemma_sums_add(ra, rb, order, keys, base, q, order.len() as int);
    let (ea, eb) = (a.entries(), b.entries());
    if rollup::is_counted(order, rollup::keys_of(order), base, q) {
        lemma_counted_by_keys(order, ea, base, q);
        lemma_counted_by_keys(order, eb, base, q);
    }
    if rollup::is_counted(ea, rollup::keys_of(ea), base, q) {
        lemma_counted_by_keys(ea, order, base, q);
    }
    if rollup::is_counted(eb, rollup::keys_of(eb), base, q) {
        lemma_counted_by_keys(eb, order, base, q);
    }
}

/// Whether `c` rolls up to `q` directly.
pub open spec fn is_step(base: Seq<char>, c: Seq<char>, q: Seq<char>) -> bool {
    rollup::next_up(base, c) == Some(q)
}

/// The recursive sizes of the directories that roll up to `q` directly, among
/// the first `n`.
pub open spec fn steps_total(
    entries: Seq<(Seq<char>, u64)>,
    base: Seq<char>,
    q: Seq<char>,
    n: int,
) -> int
    decreases n,
{
    if n <= 0 {
        0
    } else {
        steps_total(entries, base, q, n - 1) + if is_step(base, entries[n - 1].0, q) {
            rollup::total(entries, base, entries[n - 1].0)
        } else {
            0
        }
    }
}

/// The last directory on the way from `x` up to `q`, before `q` itself.
spec fn last_before(base: Seq<char>, x: Seq<char>, q: Seq<char>) -> Seq<char>
    decreases x.len(),
{
    match rollup::next_up(base, x) {
        Some(up) if up != q => {
            proof {
                paths::parent_is_shallower(x);
            }
            last_before(base, up, q)
        },
        _ => x,
    }
}

/// A directory rolls up no further than its ancestors, which are shorter.
proof fn lemma_shorter(keys: Set<Seq<char>>, base: Seq<char>, x: Seq<char>, q: Seq<char>)
    requires
        rollup::rolls_up(keys, base, x, q),
    ensures
        q.len() <= x.len(),
        q != x ==> q.len() < x.len(),
    decreases x.len(),
{
    if x != q {
        paths::parent_is_shallower(x);
        lemma_shorter(keys, base, paths::parent(x)->0, q);
    }
}

/// What rolls up to `q` from elsewhere does so through exactly one directory
/// of `keys` below `q`.
proof fn lemma_one_step(
    keys: Set<Seq<char>>,
    base: Seq<char>,
    x: Seq<char>,
    c: Seq<char>,
    q: Seq<char>,
)
    requires
        keys.contains(c),
        is_step(base, c, q),
        x != q,
    ensures
        rollup::rolls_up(keys, base, x, c) == (rollup::rolls_up(keys, base, x, q) && last_before(
            base,
            x,
            q,
        ) == c),
    decreases x.len(),
{
    paths::parent_is_shallower(c);
    assert(rollup::rolls_up(keys, base, q, q));
    if rollup::next_up(base, x) is Some {
        paths::parent_is_shallower(x);
        let up = rollup::next_up(base, x)->0;
        assert(rollup::rolls_up(keys, base, x, c) == (x == c || (keys.contains(x)
            && rollup::rolls_up(keys, base, up, c))));
        assert(rollup::rolls_up(keys, base, x, q) == (keys.contains(x) && rollup::rolls_up(
            keys,
            base,
            up,
            q,
        )));
        if up != q {
            lemma_one_step(keys, base, up, c, q);
            assert(last_before(base, x, q) == last_before(base, up, q));
        } else {
            assert(last_before(base, x, q) == x);
            if rollup::rolls_up(keys, base, up, c) {
                lemma_shorter(keys, base, up, c);
            }
        }
    }
}

/// The last directory on the way up to `q` is one of `keys`, directly below
/// `q`.
proof fn lemma_last_before(keys: Set<Seq<char>>, base: Seq<char>, x: Seq<char>, q: Seq<char>)
    requires
        x != q,
        rollup::rolls_up(keys, base, x, q),
    ensures
        keys.contains(last_before(base, x, q)),
        is_step(base, last_before(base, x, q), q),
    decreases x.len(),
{
    paths::parent_is_shallower(x);
    let up = paths::parent(x)->0;
    if up != q {
        lemma_last_before(keys, base, up, q);
    }
}

/// What the first `j` entries add to the first `n` directories that roll up to
/// `q` directly.
spec fn steps_sum(
    entries: Seq<(Seq<char>, u64)>,
    keys: Set<Seq<char>>,
    base: Seq<char>,
    q: Seq<char>,
    j: int,
    n: int,
) -> int
    decreases n,
{
    if n <= 0 {
        0
    } else {
        steps_sum(entries, keys, base, q, j, n - 1) + if is_step(base, entries[n - 1].0, q) {
            rollup::sum_at(entries, keys, base, entries[n - 1].0, j)
        } else {
            0
        }
    }
}

/// One more entry is added to at most one of these directories.
proof fn lemma_one_more(
    entries: Seq<(Seq<char>, u64)>,
    base: Seq<char>,
    q: Seq<char>,
    j: int,
    n: int,
)
    requires
        size_map::distinct(entries),
        0 <= j < entries.len(),
        0 <= n <= entries.len(),
    ensures
        ({
            let keys = rollup::keys_of(entries);
            let x = entries[j].0;
            let goes_up = x != q && rollup::rolls_up(keys, base, x, q) && exists|c: int|
                0 <= c < n && (#[trigger] entries[c]).0 == last_before(base, x, q);
            steps_sum(entries, keys, base, q, j + 1, n) == steps_sum(entries, keys, base, q, j, n)
                + if goes_up {
                entries[j].1 as int
            } else {
                0
            }
        }),
    decreases n,
{
    let keys = rollup::keys_of(entries);
    let x = entries[j].0;
    let last = last_before(base, x, q);
    assert(keys.contains(x));
    if n > 0 {
        lemma_one_more(entries, base, q, j, n - 1);
        let c = entries[n - 1].0;
        assert(keys.contains(c));
        let before = exists|i: int| 0 <= i < n - 1 && (#[trigger] entries[i]).0 == last;
        let now = exists|i: int| 0 <= i < n && (#[trigger] entries[i]).0 == last;
        if before {
            let i = choose|i: int| 0 <= i < n - 1 && (#[trigger] entries[i]).0 == last;
            assert(0 <= i < n && entries[i].0 == last);
            assert(entries[i].0 == entries[n - 1].0 ==> i == n - 1);
            assert(c != last);
        }
        assert(now == (before || c == last)) by {
            if c == last {
                assert(entries[n - 1].0 == last);
            }
        }
        if x == q {
            if is_step(base, c, q) && rollup::rolls_up(keys, base, x, c) {
                paths::parent_is_shallower(c);
                lemma_shorter(keys, base, x, c);
            }
        } else {
            if is_step(base, c, q) {
                lemma_one_step(keys, base, x, c, q);
            }
            if rollup::rolls_up(keys, base, x, q) {
                lemma_last_before(keys, base, x, q);
            }
        }
    }
}

/// What the first `j` entries have at `q` itself.
spec fn own_sum(entries: Seq<(Seq<char>, u64)>, q: Seq<char>, j: int) -> int
    decreases j,
{
    if j <= 0 {
        0
    } else {
        own_sum(entries, q, j - 1) + if entries[j - 1].0 == q {
            entries[j - 1].1 as int
        } else {
            0
        }
    }
}

proof fn lemma_levels(entries: Seq<(Seq<char>, u64)>, base: Seq<char>, q: Seq<char>, j: int)
    requires
        size_map::distinct(entries),
        0 <= j <= entries.len(),
    ensures
        ({
            let keys = rollup::keys_of(entries);
            rollup::sum_at(entries, keys, base, q, j) == own_sum(entries, q, j) + steps_sum(
                entries,
                keys,
                base,
                q,
                j,
                entries.len() as int,
            )
        }),
    decreases j,
{
    let keys = rollup::keys_of(entries);
    if j == 0 {
        lemma_nothing_yet(entries, keys, base, q, entries.len() as int);
    } else {
        lemma_levels(entries, base, q, j - 1);
        lemma_one_more(entries, base, q, j - 1, entries.len() as int);
        let x = entries[j - 1].0;
        assert(keys.contains(x));
        if x != q && rollup::rolls_up(keys, base, x, q) {
            lemma_last_before(keys, base, x, q);
        }
    }
}

proof fn lemma_nothing_yet(
    entries: Seq<(Seq<char>, u64)>,
    keys: Set<Seq<char>>,
    base: Seq<char>,
    q: Seq<char>,
    n: int,
)
    ensures
        steps_sum(entries, keys, base, q, 0, n) == 0,
    decreases n,
{
    if n > 0 {
        lemma_nothing_yet(entries, keys, base, q, n - 1);
    }
}

/// A path is listed once, so its own size is that of the map.
proof fn lemma_own_sum(
    entries: Seq<(Seq<char>, u64)>,
    map: Map<Seq<char>, u64>,
    q: Seq<char>,
    j: int,
)
    requires
        size_map::lists_map(entries, map),
        0 <= j <= entries.len(),
    ensures
        own_sum(entries, q, j) == if exists|i: int| 0 <= i < j && (#[trigger] entries[i]).0 == q {
            map[q] as int
        } else {
            0
        },
    decreases j,
{
    if j > 0 {
        lemma_own_sum(entries, map, q, j - 1);
        if entries[j - 1].0 == q {
            if exists|i: int| 0 <= i < j - 1 && (#[trigger] entries[i]).0 == q {
                let i = choose|i: int| 0 <= i < j - 1 && (#[trigger] entries[i]).0 == q;
                assert(entries[i].0 == entries[j - 1].0);
            }
        } else if exists|i: int| 0 <= i < j && (#[trigger] entries[i]).0 == q {
            let i = choose|i: int| 0 <= i < j && (#[trigger] entries[i]).0 == q;
            assert(0 <= i < j - 1 && entries[i].0 == q);
        }
    }
}

proof fn lemma_steps_total(
    entries: Seq<(Seq<char>, u64)>,
    base: Seq<char>,
    q: Seq<char>,
    n: int,
)
    ensures
        steps_total(entries, base, q, n) == steps_sum(
            entries,
            rollup::keys_of(entries),
            base,
            q,
            entries.len() as int,
            n,
        ),
    decreases n,
{
    if n > 0 {
        lemma_steps_total(entries, base, q, n - 1);
    }
}

/// Level by level: the recursive size of a directory is its own size and the
/// recursive sizes of the directories right below it.
pub proof fn each_level_adds_up(m: SizeMap, base: Seq<char>, q: Seq<char>)
    requires
        m.wf(),
    ensures
        rollup::total(m.entries(), base, q) == (if m@.contains_key(q) {
            m@[q] as int
        } else {
            0
        }) + steps_total(m.entries(), base, q, m.entries().len() as int),
{
    let entries = m.entries();
    let n = entries.len() as int;
    m.entries_list_the_map();
    lemma_levels(entries, base, q, n);
    lemma_own_sum(entries, m@, q, n);
    lemma_steps_total(entries, base, q, n);
}

/// A path gets a recursive size exactly if it has a size itself or a directory
/// with one right below it.
pub proof fn counted_paths(m: SizeMap, base: Seq<char>, q: Seq<char>)
    requires
        m.wf(),
    ensures
        rollup::is_counted(m.entries(), rollup::keys_of(m.entries()), base, q) == (m@.contains_key(
            q,
        ) || exists|c: Seq<char>| #[trigger] m@.contains_key(c) && is_step(base, c, q)),
{
    let entries = m.entries();
    let keys = rollup::keys_of(entries);
    m.entries_list_the_map();
    lemma_same_map(entries, entries, m@);
    if rollup::is_counted(entries, keys, base, q) {
        let i = choose|i: int|
            0 <= i < entries.len() && keys.contains((#[trigger] entries[i]).0) && rollup::rolls_up(
                keys,
                base,
                entries[i].0,
                q,
            );
        if entries[i].0 != q {
            lemma_last_before(keys, base, entries[i].0, q);
            let c = last_before(base, entries[i].0, q);
            assert(m@.dom().contains(c));
            assert(m@.contains_key(c));
        } else {
            assert(m@.contains_key(entries[i].0));
        }
    }
    if m@.contains_key(q) {
        let i = choose|i: int| 0 <= i < entries.len() && (#[trigger] entries[i]).0 == q;
        assert(keys.contains(entries[i].0) && rollup::rolls_up(keys, base, entries[i].0, q));
    }
    if exists|c: Seq<char>| #[trigger] m@.contains_key(c) && is_step(base, c, q) {
        let c = choose|c: Seq<char>| #[trigger] m@.contains_key(c) && is_step(base, c, q);
        let i = choose|i: int| 0 <= i < entries.len() && (#[trigger] entries[i]).0 == c;
        assert(keys.contains(entries[i].0));
        assert(rollup::rolls_up(keys, base, q, q));
        assert(rollup::rolls_up(keys, base, entries[i].0, q));
    }
}

/// In a tree, a directory counts at exactly those directories under which it
/// lies.
pub proof fn directories_count_where_they_lie(
    keys: Set<Seq<char>>,
    base: Seq<char>,
    x: Seq<char>,
    q: Seq<char>,
)
    requires
        rollup::is_tree(keys, base),
        keys.contains(x),
        keys.contains(q),
    ensures
        rollup::rolls_up(keys, base, x, q) == paths::is_under(x, q),
    decreases x.len(),
{
    if x != q {
        if x == base {
            if paths::is_under(base, q) {
                paths::under_each_other_is_the_same(base, q);
            }
            if rollup::rolls_up(keys, base, base, q) {
                let up = paths::parent(base)->0;
                paths::parent_is_shallower(base);
                paths::parent_lies_between(base, base);
                paths::under_each_other_is_the_same(base, up);
            }
        } else {
            let up = paths::parent(x)->0;
            paths::parent_is_shallower(x);
            paths::parent_lies_between(x, base);
            paths::parent_lies_between(x, q);
            directories_count_where_they_lie(keys, base, up, q);
            if paths::is_under(up, q) {
                paths::under_carries_over(x, up, q);
            }
        }
    }
}

/// The sizes of the directories that lie under `q`, among the first `n`.
pub open spec fn sum_under(entries: Seq<(Seq<char>, u64)>, q: Seq<char>, n: int) -> int
    decreases n,
{
    if n <= 0 {
        0
    } else {
        sum_under(entries, q, n - 1) + if paths::is_under(entries[n - 1].0, q) {
            entries[n - 1].1 as int
        } else {
            0
        }
    }
}

proof fn lemma_sum_under(
    entries: Seq<(Seq<char>, u64)>,
    keys: Set<Seq<char>>,
    base: Seq<char>,
    q: Seq<char>,
    n: int,
)
    requires
        rollup::is_tree(keys, base),
        keys.contains(q),
        n <= entries.len(),
        forall|i: int| 0 <= i < entries.len() ==> keys.contains((#[trigger] entries[i]).0),
    ensures
        rollup::sum_at(entries, keys, base, q, n) == sum_under(entries, q, n),
    decreases n,
{
    if n > 0 {
        lemma_sum_under(entries, keys, base, q, n - 1);
        assert(keys.contains(entries[n - 1].0));
        directories_count_where_they_lie(keys, base, entries[n - 1].0, q);
    }
}

/// In a tree, exactly the directories that have a size get a recursive one, and
/// it is the sum of the sizes of all directories that lie under them.
pub proof fn a_tree_is_summed_up(m: SizeMap, base: Seq<char>, q: Seq<char>)
    requires
        m.wf(),
        rollup::is_tree(rollup::keys_of(m.entries()), base),
    ensures
        rollup::is_counted(m.entries(), rollup::keys_of(m.entries()), base, q) == m@.contains_key(
            q,
        ),
        m@.contains_key(q) ==> rollup::total(m.entries(), base, q) == sum_under(
            m.entries(),
            q,
            m.entries().len() as int,
        ),
{
    let entries = m.entries();
    let keys = rollup::keys_of(entries);
    m.entries_list_the_map();
    lemma_same_map(entries, entries, m@);
    counted_paths(m, base, q);
    assert(m@.contains_key(q) == keys.contains(q));
    if exists|c: Seq<char>| #[trigger] m@.contains_key(c) && is_step(base, c, q) {
        let c = choose|c: Seq<char>| #[trigger] m@.contains_key(c) && is_step(base, c, q);
        assert(keys.contains(c));
        if c == base {
            paths::parent_is_shallower(base);
            paths::parent_lies_between(base, base);
            paths::under_each_other_is_the_same(base, q);
        }
    }
    if keys.contains(q) {
        assert forall|i: int| 0 <= i < entries.len() implies keys.contains(
            (#[trigger] entries[i]).0,
        ) by {}
        lemma_sum_under(entries, keys, base, q, entries.len() as int);
    }
}

} // verus!
