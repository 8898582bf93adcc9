//! The staging index: the ordered list of (path, hash) pairs added since
//! the last commit.
//!
//! Paths are not required to be unique: repeated additions record
//! independent entries, all copied verbatim into the next commit's file
//! list, in the order they were added.

use vstd::prelude::*;

use crate::records::{views_of_entries, IndexData, IndexMeta};

verus! {

/// The mutable list of staged entries.
pub struct StagingIndex {
    entries: Vec<IndexData>,
}

impl View for StagingIndex {
    type V = Seq<IndexMeta>;

    closed spec fn view(&self) -> Seq<IndexMeta> {
        views_of_entries(self.entries@)
    }
}

impl StagingIndex {
    /// An empty index.
    pub fn new() -> (r: StagingIndex)
        ensures
            r@ == Seq::<IndexMeta>::empty(),
    {
        let r = StagingIndex { entries: Vec::new() };
        proof {
            assert(r@ =~= Seq::<IndexMeta>::empty());
        }
        r
    }

    /// Appends one (path, hash) pair; earlier entries are untouched.
    pub fn add(&mut self, path: String, hash: String)
        ensures
            final(self)@ == old(self)@.push(IndexMeta { path: path@, hash: hash@ }),
    {
        let ghost pre = self@;
        self.entries.push(IndexData { path, hash });
        proof {
            assert(self@ =~= pre.push(self.entries@.last()@));
        }
    }

    /// The staged entries, in the order they were added.
    pub fn read_all(&self) -> (r: &Vec<IndexData>)
        ensures
            views_of_entries(r@) == self@,
    {
        &self.entries
    }

    /// How many entries are staged.
    pub fn entry_count(&self) -> (r: usize)
        ensures
            r == self@.len(),
    {
        self.entries.len()
    }

    /// Resets the index to the empty list.
    pub fn clear(&mut self)
        ensures
            final(self)@ == Seq::<IndexMeta>::empty(),
    {
        self.entries.clear();
        proof {
            assert(self@ =~= Seq::<IndexMeta>::empty());
        }
    }

    /// A copy of the staged entries, for building a commit's file list.
    pub fn snapshot(&self) -> (r: Vec<IndexData>)
        ensures
            views_of_entries(r@) == self@,
    {
        let mut r: Vec<IndexData> = Vec::new();
        let mut i: usize = 0;
        while i < self.entries.len()
            invariant
                i <= self.entries@.len(),
                views_of_entries(r@) == views_of_entries(self.entries@.take(i as int)),
            decreases self.entries@.len() - i,
        {
            let e = &self.entries[i];
            let d = IndexData { path: e.path.clone(), hash: e.hash.clone() };
            proof {
                assert(d@ == self.entries@[i as int]@);
            }
            let ghost pre = r@;
            r.push(d);
            proof {
                assert(views_of_entries(pre).len() == pre.len());
                assert(views_of_entries(self.entries@.take(i as int)).len() == i);
                assert(pre.len() == i);
                assert(r@.len() == i + 1);
                assert(views_of_entries(r@).len() == i + 1);
                assert(views_of_entries(self.entries@.take(i as int + 1)).len() == i + 1);
                assert forall|j: int|
                    0 <= j < i + 1 implies views_of_entries(r@)[j] == views_of_entries(
                    self.entries@.take(i as int + 1),
                )[j] by {
                    if j < i {
                        assert(views_of_entries(pre)[j] == views_of_entries(
                            self.entries@.take(i as int),
                        )[j]);
                    }
                }
                assert(views_of_entries(r@) =~= views_of_entries(
                    self.entries@.take(i as int + 1),
                ));
            }
            i += 1;
        }
        proof {
            assert(self.entries@.take(self.entries@.len() as int) =~= self.entries@);
            assert(views_of_entries(r@) =~= self@);
        }
        r
    }
}

} // verus!
