//! Interning of paths: each distinct path gets a reference (an index) once, and keeps it.
use vstd::prelude::*;

verus! {

pub type PathRef = usize;

#[derive(Debug)]
struct PathNode {
    path: Vec<u8>,
}

#[derive(Debug)]
pub struct PathCache {
    nodes: Vec<PathNode>,
}

/// Whether an insertion found the path already interned, with its reference either way.
#[derive(Debug, PartialEq, Eq, Structural)]
pub enum InsertResult {
    AlreadyExists(PathRef),
    Inserted(PathRef),
}

impl PathCache {
    /// The interned paths, in the order of their references.
    pub closed spec fn view(&self) -> Seq<Seq<u8>> {
        Seq::new(self.nodes@.len(), |i: int| self.nodes@[i].path@)
    }

    /// No path is interned twice.
    pub open spec fn wf(&self) -> bool {
        self.view().no_duplicates()
    }

    pub fn new() -> (r: PathCache)
        ensures
            r.wf(),
            r.view() == Seq::<Seq<u8>>::empty(),
    {
        let r = PathCache { nodes: Vec::new() };
        assert(r.view() =~= Seq::<Seq<u8>>::empty());
        r
    }

    /// The reference of `path`, if it has one.
    fn find(&self, path: &[u8]) -> (r: Option<PathRef>)
        ensures
            match r {
                Some(i) => i < self.view().len() && self.view()[i as int] == path@,
                None => !self.view().contains(path@),
            },
    {
        let mut i: usize = 0;
        while i < self.nodes.len()
            invariant
                i <= self.nodes@.len(),
                forall|k: int| 0 <= k < i ==> self.view()[k] != path@,
            decreases self.nodes@.len() - i,
        {
            if crate::parse::lexer::bytes_eq(self.nodes[i].path.as_slice(), path) {
                return Some(i);
            }
            i = i + 1;
        }
        None
    }

    // The same path ends up returning a re-used noderef.
    // the only thing that needs to check for collisions is the parser, where it may want to
    // complain for output nodes
    /// Interns `path`: a path seen before keeps its reference; a new one gets the next.
    pub fn insert(&mut self, path: Vec<u8>) -> (r: InsertResult)
        requires
            old(self).wf(),
        ensures
            final(self).wf(),
            old(self).view().contains(path@) ==> final(self).view() == old(self).view() && (
            r matches InsertResult::AlreadyExists(i) && i < old(self).view().len() && old(
                self,
            ).view()[i as int] == path@),
            !old(self).view().contains(path@) ==> final(self).view() == old(self).view().push(
                path@,
            ) && (r matches InsertResult::Inserted(i) && i == old(self).view().len()),
    {
        // Paths are interned as given, without canonicalization.
        match self.find(path.as_slice()) {
            Some(i) => InsertResult::AlreadyExists(i),
            None => {
                let ghost old_view = self.view();
                self.nodes.push(PathNode { path });
                let idx = self.nodes.len() - 1;
                assert(self.view() =~= old_view.push(self.nodes@[idx as int].path@));
                InsertResult::Inserted(idx)
            },
        }
    }

    /// The reference of `path`, interning it if needed.
    pub fn insert_and_get(&mut self, path: Vec<u8>) -> (r: PathRef)
        requires
            old(self).wf(),
        ensures
            final(self).wf(),
            r < final(self).view().len(),
            final(self).view()[r as int] == path@,
            old(self).view().contains(path@) ==> final(self).view() == old(self).view(),
            !old(self).view().contains(path@) ==> final(self).view() == old(self).view().push(
                path@,
            ),
    {
        let ghost p = path@;
        let ghost before = self.view();
        let r = match self.insert(path) {
            InsertResult::AlreadyExists(r) => r,
            InsertResult::Inserted(r) => r,
        };
        assert(!before.contains(p) ==> self.view()[before.len() as int] == p);
        r
    }

    /// The path with reference `rf`.
    pub fn get(&self, rf: PathRef) -> (r: &[u8])
        requires
            rf < self.view().len(),
        ensures
            r@ == self.view()[rf as int],
    {
        self.nodes[rf].path.as_slice()
    }

    // Should this in-place edit?
    // fn canonicalize(path: &[u8]) -> &[u8] {}
}

/// Interning is stable: a path interned again gets the reference it got the first time, and the
/// reference gives the path back.
pub proof fn law_intern_stable(c: PathCache, path: Seq<u8>, i: int)
    requires
        c.wf(),
        0 <= i < c.view().len(),
        c.view()[i] == path,
    ensures
        forall|j: int| 0 <= j < c.view().len() && c.view()[j] == path ==> j == i,
{
}

} // verus!
