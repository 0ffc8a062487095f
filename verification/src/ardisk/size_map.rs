//! A size for each of a number of paths.

use crate::paths;
use vstd::hash_map::StringHashMap;
use vstd::prelude::*;
use vstd::string::*;

verus! {

/// A map from paths to sizes that can be gone through in the order in which
/// its paths came in. Its keys are written out by their components, so that
/// each path is one key however it was spelled.
pub struct SizeMap {
    paths: Vec<String>,
    sizes: Vec<u64>,
    index: StringHashMap<usize>,
}

/// No path stands in the list twice.
pub open spec fn distinct(entries: Seq<(Seq<char>, u64)>) -> bool {
    forall|i: int, j: int|
        0 <= i < entries.len() && 0 <= j < entries.len() && (#[trigger] entries[i]).0 == (
        #[trigger] entries[j]).0 ==> i == j
}

/// The list holds exactly the pairs of the map.
pub open spec fn lists_map(entries: Seq<(Seq<char>, u64)>, map: Map<Seq<char>, u64>) -> bool {
    &&& distinct(entries)
    &&& forall|i: int|
        0 <= i < entries.len() ==> map.contains_key((#[trigger] entries[i]).0) && map[entries[i].0]
            == entries[i].1
    &&& forall|k: Seq<char>| #[trigger]
        map.contains_key(k) ==> exists|i: int| 0 <= i < entries.len() && (#[trigger] entries[i]).0 == k
}

impl View for SizeMap {
    type V = Map<Seq<char>, u64>;

    closed spec fn view(&self) -> Map<Seq<char>, u64> {
        Map::new(
            |k: Seq<char>| self.index@.contains_key(k),
            |k: Seq<char>| self.sizes@[self.index@[k] as int],
        )
    }
}

impl SizeMap {
    /// The lists run in parallel, the index tells where each path stands, and
    /// the paths are tidied.
    pub closed spec fn wf(self) -> bool {
        &&& self.paths@.len() == self.sizes@.len()
        &&& forall|i: int|
            0 <= i < self.paths@.len() ==> paths::tidied((#[trigger] self.paths@[i])@)
                == self.paths@[i]@
        &&& forall|i: int|
            0 <= i < self.paths@.len() ==> self.index@.contains_key((#[trigger] self.paths@[i])@)
                && self.index@[self.paths@[i]@] == i
        &&& forall|k: Seq<char>| #[trigger]
            self.index@.contains_key(k) ==> self.index@[k] < self.paths@.len()
                && self.paths@[self.index@[k] as int]@ == k
    }

    /// The paths and their sizes, in the order in which the paths came in.
    pub closed spec fn entries(self) -> Seq<(Seq<char>, u64)> {
        Seq::new(self.paths@.len(), |i: int| (self.paths@[i]@, self.sizes@[i]))
    }

    /// The entries are those of the map, each under a tidied path.
    pub proof fn entries_list_the_map(self)
        requires
            self.wf(),
        ensures
            lists_map(self.entries(), self@),
            forall|i: int|
                0 <= i < self.entries().len() ==> paths::tidied((#[trigger] self.entries()[i]).0)
                    == self.entries()[i].0,
            forall|k: Seq<char>| #[trigger] self@.contains_key(k) ==> paths::tidied(k) == k,
    {
        let entries = self.entries();
        assert forall|i: int, j: int|
            0 <= i < entries.len() && 0 <= j < entries.len() && (#[trigger] entries[i]).0 == (
            #[trigger] entries[j]).0 implies i == j by {
            assert(self.index@[self.paths@[i]@] == i);
            assert(self.index@[self.paths@[j]@] == j);
        }
        assert forall|i: int| 0 <= i < entries.len() implies self@.contains_key(
            (#[trigger] entries[i]).0,
        ) && self@[entries[i].0] == entries[i].1 by {
            assert(self.index@.contains_key(self.paths@[i]@));
        }
        assert forall|k: Seq<char>| #[trigger] self@.contains_key(k) implies exists|i: int|
            0 <= i < entries.len() && (#[trigger] entries[i]).0 == k by {
            assert(self.index@.contains_key(k));
            let i = self.index@[k] as int;
            assert(entries[i].0 == k);
        }
    }

    /// A map without any path.
    pub fn new() -> (r: Self)
        ensures
            r.wf(),
            r@ == Map::<Seq<char>, u64>::empty(),
            r.entries() == Seq::<(Seq<char>, u64)>::empty(),
    {
        let r = SizeMap { paths: Vec::new(), sizes: Vec::new(), index: StringHashMap::new() };
        assert(r@ =~= Map::<Seq<char>, u64>::empty());
        assert(r.entries() =~= Seq::<(Seq<char>, u64)>::empty());
        r
    }

    /// How many paths have a size.
    pub fn len(&self) -> (n: usize)
        requires
            self.wf(),
        ensures
            n == self.entries().len(),
    {
        self.paths.len()
    }

    /// The path at a place in the order.
    pub fn path_at(&self, i: usize) -> (p: &str)
        requires
            self.wf(),
            i < self.entries().len(),
        ensures
            p@ == self.entries()[i as int].0,
    {
        self.paths[i].as_str()
    }

    /// The size at a place in the order.
    pub fn size_at(&self, i: usize) -> (n: u64)
        requires
            self.wf(),
            i < self.entries().len(),
        ensures
            n == self.entries()[i as int].1,
    {
        self.sizes[i]
    }

    /// The size of a path, if it has one.
    pub fn get(&self, path: &str) -> (r: Option<u64>)
        requires
            self.wf(),
        ensures
            match r {
                Some(n) => self@.contains_key(paths::tidied(path@)) && n == self@[paths::tidied(
                    path@,
                )],
                None => !self@.contains_key(paths::tidied(path@)),
            },
    {
        let key = paths::tidy(path);
        match self.index.get(key.as_str()) {
            Some(i) => Some(self.sizes[*i]),
            None => None,
        }
    }

    /// Gives a path a size, in place of the one it may have had.
    pub fn insert(&mut self, path: &str, size: u64)
        requires
            old(self).wf(),
        ensures
            final(self).wf(),
            final(self)@ == old(self)@.insert(paths::tidied(path@), size),
            !old(self)@.contains_key(paths::tidied(path@)) ==> final(self).entries() == old(
                self,
            ).entries().push((paths::tidied(path@), size)),
    {
        let ghost before = *self;
        let key = paths::tidy(path);
        let ghost k0 = paths::tidied(path@);
        proof {
            paths::tidying_twice_is_once(path@);
        }
        match self.index.get(key.as_str()) {
            Some(i) => {
                let at: usize = *i;
                self.sizes.set(at, size);
            },
            None => {
                self.index.insert(key.clone(), self.paths.len());
                self.paths.push(key);
                self.sizes.push(size);
                assert(self.entries() =~= before.entries().push((k0, size)));
            },
        }
        assert forall|k: Seq<char>| #[trigger] self.index@.contains_key(k) implies self.index@[k]
            < self.paths@.len() && self.paths@[self.index@[k] as int]@ == k by {
            if k != k0 {
                assert(before.index@.contains_key(k));
            }
        }
        assert(self@ =~= before@.insert(k0, size)) by {
            assert forall|k: Seq<char>| k != k0 && self.index@.contains_key(k) implies self@[k]
                == before@[k] by {
                assert(before.index@.contains_key(k));
                if before.index@.contains_key(k0) {
                    let a = before.index@[k] as int;
                    let b = before.index@[k0] as int;
                    assert(before.paths@[a]@ == k && before.paths@[b]@ == k0);
                }
            }
        }
    }
}

} // verus!
