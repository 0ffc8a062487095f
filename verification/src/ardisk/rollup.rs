//! Rolling the sizes of directories up to their parents.

use crate::ardisk::size_map;
use crate::ardisk::size_map::SizeMap;
use crate::paths;
use vstd::prelude::*;
use vstd::string::*;

verus! {

/// What is counted at `k` is counted at `q` too: `q` is reached from `k` by
/// going from directory to parent, through directories of `keys`, without
/// leaving `base`.
pub open spec fn rolls_up(keys: Set<Seq<char>>, base: Seq<char>, k: Seq<char>, q: Seq<char>) -> bool
    decreases k.len(),
{
    ||| k == q
    ||| {
        &&& keys.contains(k)
        &&& paths::parent(k) is Some
        &&& paths::is_under(paths::parent(k)->0, base)
        &&& {
            let up = paths::parent(k)->0;
            proof {
                paths::parent_is_shallower(k);
            }
            rolls_up(keys, base, up, q)
        }
    }
}

/// The sizes counted at `q` for the first `n` entries, as far as their paths
/// are in `keys`.
pub open spec fn sum_at(
    entries: Seq<(Seq<char>, u64)>,
    keys: Set<Seq<char>>,
    base: Seq<char>,
    q: Seq<char>,
    n: int,
) -> int
    decreases n,
{
    if n <= 0 {
        0
    } else {
        sum_at(entries, keys, base, q, n - 1) + if keys.contains(entries[n - 1].0) && rolls_up(
            keys,
            base,
            entries[n - 1].0,
            q,
        ) {
            entries[n - 1].1 as int
        } else {
            0
        }
    }
}

/// The paths of a list.
pub open spec fn keys_of(entries: Seq<(Seq<char>, u64)>) -> Set<Seq<char>> {
    Set::new(
        |k: Seq<char>| exists|i: int| 0 <= i < entries.len() && (#[trigger] entries[i]).0 == k,
    )
}

/// The recursive size of `q`: its own, and that of every directory that rolls
/// up to it.
pub open spec fn total(entries: Seq<(Seq<char>, u64)>, base: Seq<char>, q: Seq<char>) -> int {
    sum_at(entries, keys_of(entries), base, q, entries.len() as int)
}

/// `q` gets a recursive size: something rolls up to it.
pub open spec fn is_counted(entries: Seq<(Seq<char>, u64)>, keys: Set<Seq<char>>, base: Seq<char>, q: Seq<char>) -> bool {
    exists|i: int|
        0 <= i < entries.len() && keys.contains((#[trigger] entries[i]).0) && rolls_up(
            keys,
            base,
            entries[i].0,
            q,
        )
}

/// The map holds what is counted for the paths of `keys`.
spec fn holds(
    map: Map<Seq<char>, u64>,
    entries: Seq<(Seq<char>, u64)>,
    keys: Set<Seq<char>>,
    base: Seq<char>,
) -> bool {
    forall|q: Seq<char>|
        #![trigger map.contains_key(q)]
        {
            &&& map.contains_key(q) == is_counted(entries, keys, base, q)
            &&& map.contains_key(q) ==> map[q] == sum_at(
                entries,
                keys,
                base,
                q,
                entries.len() as int,
            )
        }
}

/// The parent that `k` rolls up to directly, if any.
pub open spec fn next_up(base: Seq<char>, k: Seq<char>) -> Option<Seq<char>> {
    match paths::parent(k) {
        Some(m) if paths::is_under(m, base) => Some(m),
        _ => None,
    }
}

/// How one more key changes what rolls up where, when it lies no deeper than
/// any other.
proof fn lemma_more(keys: Set<Seq<char>>, base: Seq<char>, k: Seq<char>, x: Seq<char>, q: Seq<char>)
    requires
        !keys.contains(k),
        forall|o: Seq<char>| keys.contains(o) ==> paths::depth(k) <= #[trigger] paths::depth(o),
    ensures
        rolls_up(keys.insert(k), base, x, q) == (rolls_up(keys, base, x, q) || (rolls_up(
            keys,
            base,
            x,
            k,
        ) && next_up(base, k) == Some(q))),
        rolls_up(keys, base, x, k) && next_up(base, k) == Some(q) ==> !rolls_up(keys, base, x, q),
    decreases x.len(),
{
    let more = keys.insert(k);
    if paths::parent(k) is Some {
        paths::parent_is_shallower(k);
        let m = paths::parent(k)->0;
        assert(!keys.contains(m));
        assert(m != k);
    }
    if paths::parent(x) is Some {
        paths::parent_is_shallower(x);
        let up = paths::parent(x)->0;
        lemma_more(keys, base, k, up, q);
    }
    if x == k {
        if next_up(base, k) is Some {
            let m = next_up(base, k)->0;
            assert(rolls_up(more, base, m, q) == (m == q));
        }
    }
}

/// The sums after one more key.
proof fn lemma_more_sums(
    entries: Seq<(Seq<char>, u64)>,
    keys: Set<Seq<char>>,
    base: Seq<char>,
    at: int,
    q: Seq<char>,
    n: int,
)
    requires
        size_map::distinct(entries),
        0 <= at < entries.len(),
        0 <= n <= entries.len(),
        !keys.contains(entries[at].0),
        forall|o: Seq<char>|
            keys.contains(o) ==> paths::depth(entries[at].0) <= #[trigger] paths::depth(o),
    ensures
        sum_at(entries, keys.insert(entries[at].0), base, q, n) == sum_at(entries, keys, base, q, n)
            + (if next_up(base, entries[at].0) == Some(q) {
            sum_at(entries, keys, base, entries[at].0, n)
        } else {
            0
        }) + (if at < n && (q == entries[at].0 || next_up(base, entries[at].0) == Some(q)) {
            entries[at].1 as int
        } else {
            0
        }),
    decreases n,
{
    let k = entries[at].0;
    if paths::parent(k) is Some {
        paths::parent_is_shallower(k);
    }
    if n > 0 {
        lemma_more_sums(entries, keys, base, at, q, n - 1);
        let x = entries[n - 1].0;
        lemma_more(keys, base, k, x, q);
        if n - 1 != at {
            assert(entries[n - 1].0 != entries[at].0);
        } else {
            let up = next_up(base, k);
            if up is Some {
                assert(rolls_up(keys.insert(k), base, up->0, q) == (up->0 == q)) by {
                    lemma_more(keys, base, k, up->0, q);
                    assert(!keys.contains(up->0));
                    if rolls_up(keys, base, up->0, k) {
                        assert(up->0 == k);
                    }
                }
            }
            assert(rolls_up(keys.insert(k), base, k, q) == (q == k || up == Some(q)));
        }
    }
}

proof fn lemma_sum_grows(
    entries: Seq<(Seq<char>, u64)>,
    keys: Set<Seq<char>>,
    base: Seq<char>,
    q: Seq<char>,
    n: int,
)
    ensures
        0 <= sum_at(entries, keys, base, q, n),
    decreases n,
{
    if n > 0 {
        lemma_sum_grows(entries, keys, base, q, n - 1);
    }
}

/// Fewer keys never count for more.
proof fn lemma_fewer_keys(few: Set<Seq<char>>, many: Set<Seq<char>>, base: Seq<char>, x: Seq<char>, q: Seq<char>)
    requires
        few.subset_of(many),
        rolls_up(few, base, x, q),
    ensures
        rolls_up(many, base, x, q),
    decreases x.len(),
{
    if x != q {
        paths::parent_is_shallower(x);
        lemma_fewer_keys(few, many, base, paths::parent(x)->0, q);
    }
}

proof fn lemma_fewer_sums(
    entries: Seq<(Seq<char>, u64)>,
    few: Set<Seq<char>>,
    many: Set<Seq<char>>,
    base: Seq<char>,
    q: Seq<char>,
    n: int,
)
    requires
        few.subset_of(many),
        n <= entries.len(),
    ensures
        sum_at(entries, few, base, q, n) <= sum_at(entries, many, base, q, n),
    decreases n,
{
    if n > 0 {
        lemma_fewer_sums(entries, few, many, base, q, n - 1);
        let x = entries[n - 1].0;
        if few.contains(x) && rolls_up(few, base, x, q) {
            lemma_fewer_keys(few, many, base, x, q);
        }
    }
}

/// What is counted after one more key.
proof fn lemma_more_counted(
    entries: Seq<(Seq<char>, u64)>,
    keys: Set<Seq<char>>,
    base: Seq<char>,
    at: int,
    q: Seq<char>,
)
    requires
        0 <= at < entries.len(),
        !keys.contains(entries[at].0),
        forall|o: Seq<char>|
            keys.contains(o) ==> paths::depth(entries[at].0) <= #[trigger] paths::depth(o),
    ensures
        is_counted(entries, keys.insert(entries[at].0), base, q) == (is_counted(
            entries,
            keys,
            base,
            q,
        ) || q == entries[at].0 || next_up(base, entries[at].0) == Some(q)),
{
    let k = entries[at].0;
    let more = keys.insert(k);
    if is_counted(entries, keys, base, q) {
        let i = choose|i: int|
            0 <= i < entries.len() && keys.contains((#[trigger] entries[i]).0) && rolls_up(
                keys,
                base,
                entries[i].0,
                q,
            );
        lemma_fewer_keys(keys, more, base, entries[i].0, q);
        assert(more.contains(entries[i].0));
    }
    if q == k || next_up(base, k) == Some(q) {
        lemma_more(keys, base, k, k, q);
        assert(more.contains(entries[at].0));
    }
    if is_counted(entries, more, base, q) {
        let i = choose|i: int|
            0 <= i < entries.len() && more.contains((#[trigger] entries[i]).0) && rolls_up(
                more,
                base,
                entries[i].0,
                q,
            );
        lemma_more(keys, base, k, entries[i].0, q);
        if entries[i].0 != k {
            assert(keys.contains(entries[i].0));
        }
    }
}

/// Nothing is summed up where nothing is counted.
proof fn lemma_uncounted(
    entries: Seq<(Seq<char>, u64)>,
    keys: Set<Seq<char>>,
    base: Seq<char>,
    q: Seq<char>,
    n: int,
)
    requires
        !is_counted(entries, keys, base, q),
        n <= entries.len(),
    ensures
        sum_at(entries, keys, base, q, n) == 0,
    decreases n,
{
    if n > 0 {
        lemma_uncounted(entries, keys, base, q, n - 1);
        assert(!(keys.contains(entries[n - 1].0) && rolls_up(keys, base, entries[n - 1].0, q)));
    }
}

/// The entries that are taken before entry `i` of depth `level`: the deeper
/// ones, and those of the same depth that stand before it.
spec fn taken(entries: Seq<(Seq<char>, u64)>, level: int, i: int) -> Set<Seq<char>> {
    Set::new(
        |k: Seq<char>|
            exists|j: int|
                0 <= j < entries.len() && (#[trigger] entries[j]).0 == k && (paths::depth(k) > level
                    || (paths::depth(k) == level && j < i)),
    )
}

proof fn lemma_taken_step(entries: Seq<(Seq<char>, u64)>, level: int, i: int)
    requires
        size_map::distinct(entries),
        0 <= i < entries.len(),
    ensures
        paths::depth(entries[i].0) == level ==> {
            &&& taken(entries, level, i + 1) == taken(entries, level, i).insert(entries[i].0)
            &&& !taken(entries, level, i).contains(entries[i].0)
        },
        paths::depth(entries[i].0) != level ==> taken(entries, level, i + 1) == taken(
            entries,
            level,
            i,
        ),
        forall|o: Seq<char>|
            taken(entries, level, i).contains(o) ==> level <= #[trigger] paths::depth(o),
        taken(entries, level, i).subset_of(keys_of(entries)),
{
    let k = entries[i].0;
    let before = taken(entries, level, i);
    let after = taken(entries, level, i + 1);
    assert forall|x: Seq<char>| #[trigger] before.contains(x) implies after.contains(x) by {
        let j = choose|j: int|
            0 <= j < entries.len() && (#[trigger] entries[j]).0 == x && (paths::depth(x) > level || (
            paths::depth(x) == level && j < i));
        assert(entries[j].0 == x);
    }
    assert forall|x: Seq<char>| #[trigger] after.contains(x) implies before.contains(x) || (x == k
        && paths::depth(k) == level) by {
        let j = choose|j: int|
            0 <= j < entries.len() && (#[trigger] entries[j]).0 == x && (paths::depth(x) > level || (
            paths::depth(x) == level && j < i + 1));
        assert(entries[j].0 == x);
        if j < i {
            assert(before.contains(x));
        }
    }
    if paths::depth(k) == level {
        assert(entries[i].0 == k);
        assert(after.contains(k));
        assert(after =~= before.insert(k));
    } else {
        assert(after =~= before);
    }
}

/// Adds what is counted at entry `at` to the map, at its own path and at its
/// parent's.
fn roll_in(map: &mut SizeMap, raw: &SizeMap, base: &str, at: usize, keys: Ghost<Set<Seq<char>>>)
    requires
        old(map).wf(),
        raw.wf(),
        at < raw.entries().len(),
        !keys@.contains(raw.entries()[at as int].0),
        keys@.subset_of(keys_of(raw.entries())),
        forall|o: Seq<char>|
            keys@.contains(o) ==> paths::depth(raw.entries()[at as int].0)
                <= #[trigger] paths::depth(o),
        holds(old(map)@, raw.entries(), keys@, base@),
        forall|q: Seq<char>| #[trigger] total(raw.entries(), base@, q) <= u64::MAX,
    ensures
        final(map).wf(),
        holds(
            final(map)@,
            raw.entries(),
            keys@.insert(raw.entries()[at as int].0),
            base@,
        ),
{
    let ghost entries = raw.entries();
    let ghost n = entries.len() as int;
    let ghost k = entries[at as int].0;
    let ghost more = keys@.insert(k);
    let ghost start = map@;
    let path = raw.path_at(at);
    let size: u64 = raw.size_at(at);
    proof {
        raw.entries_list_the_map();
        assert(more.subset_of(keys_of(entries))) by {
            assert(entries[at as int].0 == k);
        }
        if paths::parent(k) is Some {
            paths::parent_is_shallower(k);
        }
        lemma_more_sums(entries, keys@, base@, at as int, k, n);
        lemma_fewer_sums(entries, more, keys_of(entries), base@, k, n);
        lemma_sum_grows(entries, keys@, base@, k, n);
        assert(total(entries, base@, k) <= u64::MAX);
        if !start.contains_key(k) {
            lemma_uncounted(entries, keys@, base@, k, n);
        }
    }
    let below: u64 = match map.get(path) {
        Some(v) => v,
        None => 0,
    };
    assert(below == sum_at(entries, keys@, base@, k, n));
    let own: u64 = below + size;
    map.insert(path, own);
    if let Some(up) = paths::parent_of(path) {
        if paths::lies_under(up.as_str(), base) {
            let ghost m = up@;
            proof {
                lemma_more_sums(entries, keys@, base@, at as int, m, n);
                lemma_fewer_sums(entries, more, keys_of(entries), base@, m, n);
                lemma_sum_grows(entries, keys@, base@, m, n);
                assert(total(entries, base@, m) <= u64::MAX);
                if !start.contains_key(m) {
                    lemma_uncounted(entries, keys@, base@, m, n);
                }
            }
            let there: u64 = match map.get(up.as_str()) {
                Some(v) => v,
                None => 0,
            };
            assert(there == sum_at(entries, keys@, base@, m, n));
            map.insert(up.as_str(), there + own);
        }
    }
    proof {
        assert forall|q: Seq<char>| #![trigger map@.contains_key(q)] {
            &&& map@.contains_key(q) == is_counted(entries, more, base@, q)
            &&& map@.contains_key(q) ==> map@[q] == sum_at(entries, more, base@, q, n)
        } by {
            lemma_more_counted(entries, keys@, base@, at as int, q);
            lemma_more_sums(entries, keys@, base@, at as int, q, n);
            assert(start.contains_key(q) == is_counted(entries, keys@, base@, q));
        }
    }
}

/// Rolls the sizes of directories up: each directory gets its own size and
/// those of all the directories below it that lead up to it. The deepest are
/// taken first, so that one pass is enough.
pub fn aggregate_sizes(raw_sizes: &SizeMap, base_path: &str) -> (r: SizeMap)
    requires
        raw_sizes.wf(),
        forall|q: Seq<char>| #[trigger]
            total(raw_sizes.entries(), paths::tidied(base_path@), q) <= u64::MAX,
    ensures
        r.wf(),
        forall|q: Seq<char>|
            #![trigger r@.contains_key(q)]
            {
                &&& r@.contains_key(q) == is_counted(
                    raw_sizes.entries(),
                    keys_of(raw_sizes.entries()),
                    paths::tidied(base_path@),
                    q,
                )
                &&& r@.contains_key(q) ==> r@[q] == total(
                    raw_sizes.entries(),
                    paths::tidied(base_path@),
                    q,
                )
            },
{
    let base = paths::tidy(base_path);
    let ghost entries = raw_sizes.entries();
    let n: usize = raw_sizes.len();
    let mut depths: Vec<u128> = Vec::new();
    let mut deepest: u128 = 0;
    let mut i: usize = 0;
    while i < n
        invariant
            raw_sizes.wf(),
            entries == raw_sizes.entries(),
            n == entries.len(),
            0 <= i <= n,
            depths@.len() == i,
            forall|j: int|
                0 <= j < i ==> #[trigger] depths@[j] == paths::depth(entries[j].0) && depths@[j]
                    <= deepest,
        decreases n - i,
    {
        let d: u128 = paths::depth_of(raw_sizes.path_at(i));
        if d > deepest {
            deepest = d;
        }
        depths.push(d);
        i += 1;
    }
    let mut map = SizeMap::new();
    let mut level: u128 = deepest;
    proof {
        raw_sizes.entries_list_the_map();
        assert forall|k: Seq<char>| !#[trigger] taken(entries, deepest as int, 0).contains(k) by {
            if taken(entries, deepest as int, 0).contains(k) {
                let j = choose|j: int|
                    0 <= j < entries.len() && (#[trigger] entries[j]).0 == k && paths::depth(k)
                        > deepest;
                assert(depths@[j] <= deepest);
            }
        }
        assert(taken(entries, deepest as int, 0) =~= Set::<Seq<char>>::empty());
        assert forall|q: Seq<char>| !#[trigger] is_counted(entries, Set::empty(), base@, q) by {
        }
    }
    loop
        invariant_except_break
            raw_sizes.wf(),
            entries == raw_sizes.entries(),
            size_map::distinct(entries),
            n == entries.len() == depths@.len(),
            forall|j: int| 0 <= j < n ==> #[trigger] depths@[j] == paths::depth(entries[j].0),
            map.wf(),
            holds(map@, entries, taken(entries, level as int, 0), base@),
            forall|q: Seq<char>| #[trigger] total(entries, base@, q) <= u64::MAX,
        ensures
            map.wf(),
            holds(map@, entries, taken(entries, 0, n as int), base@),
        decreases level,
    {
        let mut at: usize = 0;
        while at < n
            invariant
                raw_sizes.wf(),
                entries == raw_sizes.entries(),
                size_map::distinct(entries),
                0 <= at <= n,
                n == entries.len() == depths@.len(),
                forall|j: int| 0 <= j < n ==> #[trigger] depths@[j] == paths::depth(entries[j].0),
                map.wf(),
                holds(map@, entries, taken(entries, level as int, at as int), base@),
                forall|q: Seq<char>| #[trigger] total(entries, base@, q) <= u64::MAX,
            decreases n - at,
        {
            proof {
                lemma_taken_step(entries, level as int, at as int);
            }
            if depths[at] == level {
                roll_in(
                    &mut map,
                    raw_sizes,
                    base.as_str(),
                    at,
                    Ghost(taken(entries, level as int, at as int)),
                );
            }
            at += 1;
        }
        if level == 0 {
            break;
        }
        proof {
            let here = taken(entries, level as int, n as int);
            let next = taken(entries, level - 1, 0);
            assert forall|k: Seq<char>| #[trigger] here.contains(k) implies next.contains(k) by {
                let j = choose|j: int|
                    0 <= j < entries.len() && (#[trigger] entries[j]).0 == k && (paths::depth(k)
                        > level || (paths::depth(k) == level && j < n));
                assert(entries[j].0 == k);
            }
            assert forall|k: Seq<char>| #[trigger] next.contains(k) implies here.contains(k) by {
                let j = choose|j: int|
                    0 <= j < entries.len() && (#[trigger] entries[j]).0 == k && (paths::depth(k)
                        > level - 1 || (paths::depth(k) == level - 1 && j < 0));
                assert(entries[j].0 == k);
            }
            assert(here =~= next);
        }
        level -= 1;
    }
    proof {
        let all = taken(entries, 0, n as int);
        assert forall|k: Seq<char>| #[trigger] keys_of(entries).contains(k) implies all.contains(
            k,
        ) by {
            let j = choose|j: int| 0 <= j < entries.len() && (#[trigger] entries[j]).0 == k;
            assert(entries[j].0 == k);
            assert(depths@[j] == paths::depth(k));
        }
        assert forall|k: Seq<char>| #[trigger] all.contains(k) implies keys_of(entries).contains(
            k,
        ) by {
            let j = choose|j: int|
                0 <= j < entries.len() && (#[trigger] entries[j]).0 == k && (paths::depth(k) > 0 || (
                paths::depth(k) == 0 && j < n));
            assert(entries[j].0 == k);
        }
        assert(all =~= keys_of(entries));
    }
    map
}

/// The sizes of the first `n` entries together.
pub open spec fn sum_of(entries: Seq<(Seq<char>, u64)>, n: int) -> int
    decreases n,
{
    if n <= 0 {
        0
    } else {
        sum_of(entries, n - 1) + entries[n - 1].1
    }
}

proof fn lemma_sum_bounded(
    entries: Seq<(Seq<char>, u64)>,
    keys: Set<Seq<char>>,
    base: Seq<char>,
    q: Seq<char>,
    n: int,
)
    requires
        n <= entries.len(),
    ensures
        0 <= sum_at(entries, keys, base, q, n) <= sum_of(entries, n),
    decreases n,
{
    if n > 0 {
        lemma_sum_bounded(entries, keys, base, q, n - 1);
    }
}

proof fn lemma_sum_of_grows(entries: Seq<(Seq<char>, u64)>, i: int, n: int)
    requires
        0 <= i <= n <= entries.len(),
    ensures
        0 <= sum_of(entries, i) <= sum_of(entries, n),
    decreases n,
{
    if i < n {
        lemma_sum_of_grows(entries, i, n - 1);
    } else if n > 0 {
        lemma_sum_of_grows(entries, n - 1, n - 1);
    }
}

/// Whether all the sizes together can be counted. If so, every recursive size
/// can be.
pub fn sizes_fit(raw_sizes: &SizeMap) -> (b: bool)
    requires
        raw_sizes.wf(),
    ensures
        b == (sum_of(raw_sizes.entries(), raw_sizes.entries().len() as int) <= u64::MAX),
        b ==> forall|base: Seq<char>, q: Seq<char>| #[trigger]
            total(raw_sizes.entries(), base, q) <= u64::MAX,
{
    let ghost entries = raw_sizes.entries();
    let n: usize = raw_sizes.len();
    let mut sum: u64 = 0;
    let mut i: usize = 0;
    while i < n
        invariant
            raw_sizes.wf(),
            entries == raw_sizes.entries(),
            n == entries.len(),
            0 <= i <= n,
            sum == sum_of(entries, i as int),
        decreases n - i,
    {
        let size: u64 = raw_sizes.size_at(i);
        proof {
            lemma_sum_of_grows(entries, i + 1, n as int);
        }
        if size > u64::MAX - sum {
            return false;
        }
        sum = sum + size;
        i += 1;
    }
    proof {
        assert forall|base: Seq<char>, q: Seq<char>| #[trigger]
            total(entries, base, q) <= u64::MAX by {
            lemma_sum_bounded(entries, keys_of(entries), base, q, n as int);
        }
    }
    true
}

/// The paths are those of a tree of directories with its root at `base`: each
/// is tidied and lies under the root, and the parent of each but the root is
/// there too.
pub open spec fn is_tree(keys: Set<Seq<char>>, base: Seq<char>) -> bool {
    &&& keys.contains(base)
    &&& forall|k: Seq<char>| #[trigger] keys.contains(k) ==> paths::tidied(k) == k
    &&& forall|k: Seq<char>| #[trigger]
        keys.contains(k) ==> paths::is_under(k, base) && (k == base || (paths::parent(k) is Some
            && keys.contains(paths::parent(k)->0)))
}

/// `x` is `q` or one of the directories below it.
pub open spec fn descends(x: Seq<char>, q: Seq<char>) -> bool
    decreases x.len(),
{
    ||| x == q
    ||| paths::parent(x) is Some && {
        proof {
            paths::parent_is_shallower(x);
        }
        descends(paths::parent(x)->0, q)
    }
}

proof fn lemma_descends_shorter(x: Seq<char>, q: Seq<char>)
    requires
        descends(x, q),
    ensures
        q.len() <= x.len(),
    decreases x.len(),
{
    if x != q {
        paths::parent_is_shallower(x);
        lemma_descends_shorter(paths::parent(x)->0, q);
    }
}

/// In a tree, what a directory holds is counted at exactly those directories
/// that it descends from: a parent always includes the full recursive size of
/// all its children.
pub proof fn sizes_are_recursive(
    keys: Set<Seq<char>>,
    base: Seq<char>,
    x: Seq<char>,
    q: Seq<char>,
)
    requires
        is_tree(keys, base),
        keys.contains(x),
        keys.contains(q),
    ensures
        rolls_up(keys, base, x, q) == descends(x, q),
    decreases x.len(),
{
    if x != q {
        if paths::parent(x) is Some {
            paths::parent_is_shallower(x);
            let up = paths::parent(x)->0;
            if x == base {
                if descends(up, q) {
                    lemma_descends_shorter(up, q);
                    assert(paths::is_under(q, base));
                    assert(false);
                }
                if paths::is_under(up, base) && rolls_up(keys, base, up, q) {
                    assert(false);
                }
            } else {
                assert(keys.contains(up));
                assert(paths::is_under(up, base));
                sizes_are_recursive(keys, base, up, q);
            }
        }
    }
}

proof fn lemma_all_reach_base(keys: Set<Seq<char>>, base: Seq<char>, x: Seq<char>)
    requires
        is_tree(keys, base),
        keys.contains(x),
    ensures
        rolls_up(keys, base, x, base),
    decreases x.len(),
{
    if x != base {
        paths::parent_is_shallower(x);
        let up = paths::parent(x)->0;
        assert(keys.contains(up) && paths::is_under(up, base));
        lemma_all_reach_base(keys, base, up);
    }
}

proof fn lemma_base_sum(
    entries: Seq<(Seq<char>, u64)>,
    keys: Set<Seq<char>>,
    base: Seq<char>,
    n: int,
)
    requires
        is_tree(keys, base),
        n <= entries.len(),
        forall|i: int| 0 <= i < entries.len() ==> keys.contains((#[trigger] entries[i]).0),
    ensures
        sum_at(entries, keys, base, base, n) == sum_of(entries, n),
    decreases n,
{
    if n > 0 {
        lemma_base_sum(entries, keys, base, n - 1);
        assert(keys.contains(entries[n - 1].0));
        lemma_all_reach_base(keys, base, entries[n - 1].0);
    }
}

/// In a tree, the recursive size of the root is the sum of all the sizes.
pub proof fn root_holds_everything(entries: Seq<(Seq<char>, u64)>, base: Seq<char>)
    requires
        is_tree(keys_of(entries), base),
    ensures
        total(entries, base, base) == sum_of(entries, entries.len() as int),
{
    assert forall|i: int| 0 <= i < entries.len() implies keys_of(entries).contains(
        (#[trigger] entries[i]).0,
    ) by {}
    lemma_base_sum(entries, keys_of(entries), base, entries.len() as int);
}

/// In a tree, the recursive size of a directory is never less than that of a
/// directory below it.
pub proof fn parents_outweigh_children(
    entries: Seq<(Seq<char>, u64)>,
    base: Seq<char>,
    child: Seq<char>,
    ancestor: Seq<char>,
)
    requires
        is_tree(keys_of(entries), base),
        keys_of(entries).contains(child),
        keys_of(entries).contains(ancestor),
        descends(child, ancestor),
    ensures
        total(entries, base, child) <= total(entries, base, ancestor),
{
    lemma_outweighs(entries, base, child, ancestor, entries.len() as int);
}

proof fn lemma_descends_on(x: Seq<char>, y: Seq<char>, z: Seq<char>)
    requires
        descends(x, y),
        descends(y, z),
    ensures
        descends(x, z),
    decreases x.len(),
{
    if x != y {
        paths::parent_is_shallower(x);
        lemma_descends_on(paths::parent(x)->0, y, z);
    }
}

proof fn lemma_outweighs(
    entries: Seq<(Seq<char>, u64)>,
    base: Seq<char>,
    child: Seq<char>,
    ancestor: Seq<char>,
    n: int,
)
    requires
        is_tree(keys_of(entries), base),
        keys_of(entries).contains(child),
        keys_of(entries).contains(ancestor),
        descends(child, ancestor),
        n <= entries.len(),
    ensures
        sum_at(entries, keys_of(entries), base, child, n) <= sum_at(
            entries,
            keys_of(entries),
            base,
            ancestor,
            n,
        ),
    decreases n,
{
    if n > 0 {
        let keys = keys_of(entries);
        lemma_outweighs(entries, base, child, ancestor, n - 1);
        let x = entries[n - 1].0;
        assert(keys.contains(x));
        if rolls_up(keys, base, x, child) {
            sizes_are_recursive(keys, base, x, child);
            lemma_descends_on(x, child, ancestor);
            sizes_are_recursive(keys, base, x, ancestor);
        }
    }
}

} // verus!
