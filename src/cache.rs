use vstd::prelude::*;

use crate::line_index::LineIndex;

verus! {

/// The indexes after storing `index` for `path`: a path already indexed
/// keeps the index it has.
pub open spec fn stored(
    m: Map<Seq<char>, LineIndex>,
    path: Seq<char>,
    index: LineIndex,
) -> Map<Seq<char>, LineIndex> {
    if m.contains_key(path) {
        m
    } else {
        m.insert(path, index)
    }
}

/// Line indexes by file path, each built once and kept.
pub struct IndexCache {
    paths: Vec<String>,
    indexes: Vec<LineIndex>,
    contents: Ghost<Map<Seq<char>, LineIndex>>,
}

impl IndexCache {
    /// The index held for each path.
    pub closed spec fn view(&self) -> Map<Seq<char>, LineIndex> {
        self.contents@
    }

    /// Well-formed: the paths and indexes held agree with the view, and
    /// every index held is well-formed.
    pub closed spec fn wf(&self) -> bool {
        &&& self.paths@.len() == self.indexes@.len()
        &&& forall|i: int|
            0 <= i < self.paths@.len() ==> {
                &&& self.contents@.contains_key(#[trigger] self.paths@[i]@)
                &&& self.contents@[self.paths@[i]@] == self.indexes@[i]
                &&& self.indexes@[i].wf()
            }
        &&& forall|k: Seq<char>|
            #[trigger] self.contents@.contains_key(k) ==> exists|i: int|
                0 <= i < self.paths@.len() && #[trigger] self.paths@[i]@ == k
    }

    /// An empty cache.
    pub fn new() -> (r: Self)
        ensures
            r.wf(),
            r@ == Map::<Seq<char>, LineIndex>::empty(),
    {
        IndexCache { paths: Vec::new(), indexes: Vec::new(), contents: Ghost(Map::empty()) }
    }

    /// Where `path` is held, if it is.
    fn position(&self, path: &String) -> (r: Option<usize>)
        requires
            self.wf(),
        ensures
            match r {
                Some(i) => i < self.paths@.len() && self.paths@[i as int]@ == path@,
                None => !self@.contains_key(path@),
            },
    {
        let n = self.paths.len();
        let mut i: usize = 0;
        while i < n
            invariant
                i <= n,
                n == self.paths@.len(),
                forall|j: int| 0 <= j < i ==> #[trigger] self.paths@[j]@ != path@,
            decreases n - i,
        {
            if self.paths[i] == *path {
                return Some(i);
            }
            i = i + 1;
        }
        None
    }

    /// Whether an index is held for `path`.
    pub fn contains(&self, path: &String) -> (r: bool)
        requires
            self.wf(),
        ensures
            r == self@.contains_key(path@),
    {
        match self.position(path) {
            Some(_) => true,
            None => false,
        }
    }

    /// The index held for `path`, if any; every index held is well-formed.
    pub fn get(&self, path: &String) -> (r: Option<&LineIndex>)
        requires
            self.wf(),
        ensures
            match r {
                Some(x) => self@.contains_key(path@) && *x == self@[path@] && x.wf(),
                None => !self@.contains_key(path@),
            },
    {
        match self.position(path) {
            Some(i) => Some(&self.indexes[i]),
            None => None,
        }
    }

    /// Store `index` for `path`, unless an index is held for it already:
    /// an index, once built, is the one every later read of that path uses.
    pub fn insert(&mut self, path: String, index: LineIndex)
        requires
            old(self).wf(),
            index.wf(),
        ensures
            final(self).wf(),
            final(self)@ == stored(old(self)@, path@, index),
    {
        if self.contains(&path) {
            return;
        }
        let ghost key = path@;
        let ghost before = self.paths@;
        self.paths.push(path);
        self.indexes.push(index);
        self.contents = Ghost(self.contents@.insert(key, index));
        assert forall|k: Seq<char>| #[trigger] self.contents@.contains_key(k) implies exists|i: int|
            0 <= i < self.paths@.len() && #[trigger] self.paths@[i]@ == k by {
            if k == key {
                assert(self.paths@[before.len() as int]@ == k);
            } else {
                let i = choose|i: int| 0 <= i < before.len() && #[trigger] before[i]@ == k;
                assert(self.paths@[i]@ == k);
            }
        }
    }
}

/// An index stored for a path is never replaced: a second store for the
/// same path, whatever index it brings, changes nothing, so one path is
/// indexed once.
pub proof fn lemma_first_index_kept(
    m: Map<Seq<char>, LineIndex>,
    path: Seq<char>,
    first: LineIndex,
    second: LineIndex,
)
    ensures
        stored(stored(m, path, first), path, second) == stored(m, path, first),
        !m.contains_key(path) ==> stored(stored(m, path, first), path, second)[path] == first,
{
}

} // verus!
