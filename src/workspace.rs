use vstd::prelude::*;

use crate::cache::{stored, IndexCache};
use crate::chunk::{line_total, next_offset, read_chunk, ChunkResponse};
use crate::line_index::{line_window, texts, LineIndex};
use crate::normalize::opt_text;
use crate::search::{answers_request, check_request, SearchError, SearchRequest};
use crate::text::{chars_of, slice_to_chars, string_from_chars};

verus! {

/// Where a requested file path is to be looked for.
#[derive(PartialEq, Eq, Clone, Debug)]
pub enum PathTarget {
    /// Relative: the path, without a leading `./`, under the last search
    /// root.
    UnderRoot(String),
    /// Absolute: the path as given.
    AsGiven(String),
}

/// Whether a path starts with `./`.
pub open spec fn starts_dot_slash(p: Seq<char>) -> bool {
    p.len() >= 2 && p[0] == '.' && p[1] == '/'
}

/// Where a path is to be looked for, given whether the platform deems it
/// absolute: a `./` path under the root without its `./`, another relative
/// path under the root, an absolute path as given.
pub open spec fn target_of(p: Seq<char>, absolute: bool) -> (bool, Seq<char>) {
    if starts_dot_slash(p) {
        (true, p.subrange(2, p.len() as int))
    } else if !absolute {
        (true, p)
    } else {
        (false, p)
    }
}

/// The view of a path target: whether it is under the root, and its path.
pub open spec fn target_view(t: PathTarget) -> (bool, Seq<char>) {
    match t {
        PathTarget::UnderRoot(s) => (true, s@),
        PathTarget::AsGiven(s) => (false, s@),
    }
}

/// Where `path` is to be looked for, given whether it is absolute.
pub fn classify_path(path: &str, absolute: bool) -> (r: PathTarget)
    ensures
        target_view(r) == target_of(path@, absolute),
{
    let cs = chars_of(path);
    let n = cs.len();
    if n >= 2 && cs[0] == '.' && cs[1] == '/' {
        let rest = slice_to_chars(&cs.as_slice()[2..n]);
        PathTarget::UnderRoot(string_from_chars(rest))
    } else if !absolute {
        PathTarget::UnderRoot(string_from_chars(cs))
    } else {
        PathTarget::AsGiven(string_from_chars(cs))
    }
}

/// Relies on `std::path::Path::is_absolute`. What is absolute differs
/// between platforms (a drive prefix on one, a leading slash on another),
/// so nothing is promised of the answer.
#[verifier::external_body]
fn platform_is_absolute(path: &str) -> (r: bool) {
    std::path::Path::new(path).is_absolute()
}

/// Where `path` is to be looked for on this platform.
pub fn path_target(path: &str) -> (r: PathTarget)
    ensures
        target_view(r) == target_of(path@, true) || target_view(r) == target_of(path@, false),
        starts_dot_slash(path@) ==> target_view(r) == (true, path@.subrange(2, path@.len() as int)),
{
    let absolute = platform_is_absolute(path);
    classify_path(path, absolute)
}

/// The state a search and the page reads after it share: the root of the
/// last search, against which relative paths are read, and the line index of
/// every file read so far.
pub struct Workspace {
    last_root: Option<String>,
    cache: IndexCache,
}

impl Workspace {
    /// The root of the last search, if one was made.
    pub closed spec fn root(&self) -> Option<Seq<char>> {
        opt_text(self.last_root)
    }

    /// The line index held for each file path.
    pub closed spec fn indexes(&self) -> Map<Seq<char>, LineIndex> {
        self.cache@
    }

    /// Well-formed: the cache is.
    pub closed spec fn wf(&self) -> bool {
        self.cache.wf()
    }

    /// No search made and no file indexed.
    pub fn new() -> (r: Self)
        ensures
            r.wf(),
            r.root() is None,
            r.indexes() == Map::<Seq<char>, LineIndex>::empty(),
    {
        Workspace { last_root: None, cache: IndexCache::new() }
    }

    /// The root of the last search.
    pub fn last_root(&self) -> (r: Option<String>)
        ensures
            opt_text(r) == self.root(),
    {
        match &self.last_root {
            Some(s) => Some(s.clone()),
            None => None,
        }
    }

    /// Start a search: record its root as the last search root, whether or
    /// not the request is valid, then check it and give the tool's
    /// arguments.
    pub fn begin_search(&mut self, req: &SearchRequest) -> (r: Result<Vec<String>, SearchError>)
        requires
            old(self).wf(),
        ensures
            final(self).wf(),
            final(self).root() == Some(req.root@),
            final(self).indexes() == old(self).indexes(),
            answers_request(req, r),
    {
        self.last_root = Some(req.root.clone());
        check_request(req)
    }

    /// Whether the file at `path` has been indexed.
    pub fn has_index(&self, path: &String) -> (r: bool)
        requires
            self.wf(),
        ensures
            r == self.indexes().contains_key(path@),
    {
        self.cache.contains(path)
    }

    /// Keep the index of the file at `path`, unless one is kept already.
    pub fn store_index(&mut self, path: String, index: LineIndex)
        requires
            old(self).wf(),
            index.wf(),
        ensures
            final(self).wf(),
            final(self).root() == old(self).root(),
            final(self).indexes() == stored(old(self).indexes(), path@, index),
    {
        self.cache.insert(path, index);
    }

    /// Read a page of `count` lines from line `offset` of the file at
    /// `path`, through its kept index; `None` where it has none yet.
    pub fn read_cached(&self, path: &String, offset: usize, count: usize) -> (r: Option<
        ChunkResponse,
    >)
        requires
            self.wf(),
        ensures
            r is None <==> !self.indexes().contains_key(path@),
            r matches Some(c) ==> {
                let b = self.indexes()[path@].bytes();
                &&& texts(c.lines@) == line_window(b, offset as int, count as int)
                &&& c.offset == next_offset(b, offset as int, count as int)
                &&& c.has_more == (c.offset < line_total(b))
            },
    {
        match self.cache.get(path) {
            Some(index) => Some(read_chunk(index, offset, count)),
            None => None,
        }
    }
}

} // verus!
