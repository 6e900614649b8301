//! Paths as lists of components.

use vstd::prelude::*;

verus! {

/// The path of an entry: its components from the root of the walk down, the
/// entry's own name last. Two paths are the same where their components are.
#[derive(Debug, Clone, PartialEq, Eq)]
pub struct EntryPath {
    /// The components, outermost first.
    pub components: Vec<String>,
}

impl View for EntryPath {
    type V = Seq<Seq<char>>;

    open spec fn view(&self) -> Seq<Seq<char>> {
        Seq::new(self.components@.len(), |i: int| self.components@[i]@)
    }
}

/// The path of the directory that holds the entry. The empty path has none.
pub open spec fn parent_of(path: Seq<Seq<char>>) -> Option<Seq<Seq<char>>> {
    if path.len() == 0 {
        None
    } else {
        Some(path.drop_last())
    }
}

/// Whether `dir` is the directory that holds `path`.
pub open spec fn is_parent(dir: Seq<Seq<char>>, path: Seq<Seq<char>>) -> bool {
    parent_of(path) == Some(dir)
}

/// Whether `above` is the path of a directory that `path` lies in, at any
/// depth: it is shorter than `path` and `path` starts with it.
pub open spec fn is_ancestor(above: Seq<Seq<char>>, path: Seq<Seq<char>>) -> bool {
    above.len() < path.len() && path.take(above.len() as int) == above
}

impl EntryPath {
    /// The path with the given components.
    pub fn new(components: Vec<String>) -> (r: EntryPath)
        ensures
            r.components == components,
    {
        EntryPath { components }
    }

    /// The number of components.
    pub fn depth(&self) -> (r: usize)
        ensures
            r == self@.len(),
    {
        self.components.len()
    }

    /// A copy of the path.
    pub fn duplicate(&self) -> (r: EntryPath)
        ensures
            r@ == self@,
    {
        let mut components: Vec<String> = Vec::new();
        let mut i: usize = 0;
        while i < self.components.len()
            invariant
                i <= self.components.len(),
                components.len() == i,
                forall|k: int| 0 <= k < i ==> components@[k]@ == self.components@[k]@,
            decreases self.components.len() - i,
        {
            components.push(self.components[i].clone());
            i = i + 1;
        }
        let r = EntryPath { components };
        assert(r@ =~= self@);
        r
    }

    /// Whether the two paths have the same components.
    pub fn same_as(&self, other: &EntryPath) -> (r: bool)
        ensures
            r == (self@ == other@),
    {
        if self.components.len() != other.components.len() {
            assert(self@.len() != other@.len());
            return false;
        }
        let r = self.starts(other, other.components.len());
        proof {
            assert(self@.take(self@.len() as int) == self@);
            assert(other@.take(other@.len() as int) == other@);
        }
        r
    }

    /// Whether the first `n` components of both paths are the same.
    fn starts(&self, other: &EntryPath, n: usize) -> (r: bool)
        requires
            n <= self.components.len(),
            n <= other.components.len(),
        ensures
            r == (self@.take(n as int) == other@.take(n as int)),
    {
        let mut i: usize = 0;
        while i < n
            invariant
                i <= n,
                n <= self.components.len(),
                n <= other.components.len(),
                self@.take(i as int) == other@.take(i as int),
            decreases n - i,
        {
            if self.components[i] != other.components[i] {
                assert(self@.take(n as int)[i as int] != other@.take(n as int)[i as int]);
                return false;
            }
            assert(self@.take(i + 1) == self@.take(i as int).push(self@[i as int]));
            assert(other@.take(i + 1) == other@.take(i as int).push(other@[i as int]));
            i = i + 1;
        }
        true
    }

    /// Whether this is the path of the directory that holds `child`.
    pub fn is_parent_of(&self, child: &EntryPath) -> (r: bool)
        ensures
            r == is_parent(self@, child@),
    {
        if child.components.len() == 0 || self.components.len() != child.components.len() - 1 {
            assert(child@.len() > 0 ==> child@.drop_last().len() != self@.len());
            return false;
        }
        let r = self.starts(child, self.components.len());
        proof {
            assert(self@.take(self@.len() as int) == self@);
            assert(child@.take(self@.len() as int) == child@.drop_last());
        }
        r
    }

    /// Whether this is the path of a directory that `other` lies in, at any
    /// depth.
    pub fn is_ancestor_of(&self, other: &EntryPath) -> (r: bool)
        ensures
            r == is_ancestor(self@, other@),
    {
        if self.components.len() >= other.components.len() {
            return false;
        }
        let r = self.starts(other, self.components.len());
        proof {
            assert(self@.take(self@.len() as int) == self@);
        }
        r
    }
}

} // verus!
