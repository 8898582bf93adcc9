//! The data model: staged index entries and commit records, with their
//! mathematical views.

use vstd::prelude::*;

verus! {

/// One staged file: the path as recorded at add-time (not normalized) and
/// the hash of the blob holding its content.
#[derive(Debug)]
pub struct IndexData {
    pub path: String,
    pub hash: String,
}

/// The mathematical view of an [`IndexData`].
pub ghost struct IndexMeta {
    pub path: Seq<char>,
    pub hash: Seq<char>,
}

impl View for IndexData {
    type V = IndexMeta;

    open spec fn view(&self) -> IndexMeta {
        IndexMeta { path: self.path@, hash: self.hash@ }
    }
}

/// One commit: a message, the timestamp taken when the commit was made,
/// the staged files it snapshots, and the hash of its parent commit (the
/// empty string for the root commit).
#[derive(Debug)]
pub struct CommitData {
    pub message: String,
    pub time_stamp: String,
    pub files: Vec<IndexData>,
    pub parent: String,
}

/// The mathematical view of a [`CommitData`].
pub ghost struct CommitMeta {
    pub message: Seq<char>,
    pub time_stamp: Seq<char>,
    pub files: Seq<IndexMeta>,
    pub parent: Seq<char>,
}

/// The views of a sequence of index entries, in order.
pub open spec fn views_of_entries(entries: Seq<IndexData>) -> Seq<IndexMeta> {
    Seq::new(entries.len(), |i: int| entries[i]@)
}

impl View for CommitData {
    type V = CommitMeta;

    open spec fn view(&self) -> CommitMeta {
        CommitMeta {
            message: self.message@,
            time_stamp: self.time_stamp@,
            files: views_of_entries(self.files@),
            parent: self.parent@,
        }
    }
}

} // verus!
