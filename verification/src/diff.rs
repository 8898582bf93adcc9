//! Diff reports: for one commit, each tracked file's current content and,
//! where one exists, the parent commit's content for the same path.
//!
//! No differencing is done here: both raw contents are surfaced for an
//! external comparison layer.

use vstd::prelude::*;

use crate::codec::parse_commit_spec;
use crate::errors::VcsError;
use crate::records::IndexMeta;

verus! {

/// The comparison side of one tracked file.
#[derive(Debug)]
pub enum ParentSide {
    /// The commit has no parent: the file belongs to the first commit.
    FirstCommit,
    /// The commit names a parent, but nothing is stored under that hash.
    ParentNotFound,
    /// The parent commit tracks no entry with this path.
    NotInParent,
    /// The parent's content for this path.
    Previous(Vec<u8>),
}

/// The mathematical view of a [`ParentSide`].
pub ghost enum ParentSideMeta {
    FirstCommit,
    ParentNotFound,
    NotInParent,
    Previous(Seq<u8>),
}

impl View for ParentSide {
    type V = ParentSideMeta;

    open spec fn view(&self) -> ParentSideMeta {
        match self {
            ParentSide::FirstCommit => ParentSideMeta::FirstCommit,
            ParentSide::ParentNotFound => ParentSideMeta::ParentNotFound,
            ParentSide::NotInParent => ParentSideMeta::NotInParent,
            ParentSide::Previous(b) => ParentSideMeta::Previous(b@),
        }
    }
}

/// One tracked file in a diff report.
#[derive(Debug)]
pub struct FileDiff {
    pub path: String,
    pub current: Vec<u8>,
    pub parent: ParentSide,
}

/// The mathematical view of a [`FileDiff`].
pub ghost struct FileDiffMeta {
    pub path: Seq<char>,
    pub current: Seq<u8>,
    pub parent: ParentSideMeta,
}

impl View for FileDiff {
    type V = FileDiffMeta;

    open spec fn view(&self) -> FileDiffMeta {
        FileDiffMeta { path: self.path@, current: self.current@, parent: self.parent@ }
    }
}

/// The first entry whose path equals `path`, searching front to back.
pub open spec fn find_path(files: Seq<IndexMeta>, path: Seq<char>) -> Option<IndexMeta>
    decreases files.len(),
{
    if files.len() == 0 {
        None
    } else if files[0].path == path {
        Some(files[0])
    } else {
        find_path(files.drop_first(), path)
    }
}

/// The report for one file entry of a commit whose parent field is
/// `parent`: the current content by the entry's hash, and the parent
/// side as the stored data determines it.
pub open spec fn diff_file_spec(
    objects: Map<Seq<char>, Seq<u8>>,
    parent: Seq<char>,
    e: IndexMeta,
) -> Result<FileDiffMeta, VcsError> {
    if !objects.contains_key(e.hash) {
        Err(VcsError::NotFound)
    } else {
        let current = objects[e.hash];
        if parent.len() == 0 {
            Ok(FileDiffMeta { path: e.path, current, parent: ParentSideMeta::FirstCommit })
        } else if !objects.contains_key(parent) {
            Ok(FileDiffMeta { path: e.path, current, parent: ParentSideMeta::ParentNotFound })
        } else {
            match parse_commit_spec(objects[parent]) {
                None => Err(VcsError::SerializationError),
                Some(pm) => match find_path(pm.files, e.path) {
                    None => Ok(
                        FileDiffMeta { path: e.path, current, parent: ParentSideMeta::NotInParent },
                    ),
                    Some(pe) => {
                        if objects.contains_key(pe.hash) {
                            Ok(
                                FileDiffMeta {
                                    path: e.path,
                                    current,
                                    parent: ParentSideMeta::Previous(objects[pe.hash]),
                                },
                            )
                        } else {
                            Err(VcsError::NotFound)
                        }
                    },
                },
            }
        }
    }
}

/// The reports for a list of file entries, in order; the first failure
/// is the report's failure.
pub open spec fn diff_files_spec(
    objects: Map<Seq<char>, Seq<u8>>,
    parent: Seq<char>,
    files: Seq<IndexMeta>,
) -> Result<Seq<FileDiffMeta>, VcsError>
    decreases files.len(),
{
    if files.len() == 0 {
        Ok(Seq::empty())
    } else {
        match diff_file_spec(objects, parent, files[0]) {
            Err(e) => Err(e),
            Ok(d) => match diff_files_spec(objects, parent, files.drop_first()) {
                Err(e) => Err(e),
                Ok(ds) => Ok(seq![d] + ds),
            },
        }
    }
}

/// The whole report for the commit stored under `h`: `NotFound` when no
/// object is stored there, `SerializationError` when the object is not
/// a commit record, and otherwise one entry per tracked file.
pub open spec fn diff_spec(objects: Map<Seq<char>, Seq<u8>>, h: Seq<char>) -> Result<
    Seq<FileDiffMeta>,
    VcsError,
> {
    if !objects.contains_key(h) {
        Err(VcsError::NotFound)
    } else {
        match parse_commit_spec(objects[h]) {
            None => Err(VcsError::SerializationError),
            Some(m) => diff_files_spec(objects, m.parent, m.files),
        }
    }
}

/// The views of a sequence of file reports, in order.
pub open spec fn views_of_reports(s: Seq<FileDiff>) -> Seq<FileDiffMeta> {
    Seq::new(s.len(), |i: int| s[i]@)
}

/// Appending a report appends its view.
pub proof fn lemma_views_of_reports_push(s: Seq<FileDiff>, d: FileDiff)
    ensures
        views_of_reports(s.push(d)) == views_of_reports(s).push(d@),
{
    assert(views_of_reports(s.push(d)) =~= views_of_reports(s).push(d@));
}

/// Prepends already-made reports to the outcome of the rest.
pub open spec fn reports_prepend(pre: Seq<FileDiffMeta>, o: Result<Seq<FileDiffMeta>, VcsError>) -> Result<
    Seq<FileDiffMeta>,
    VcsError,
> {
    match o {
        Ok(ds) => Ok(pre + ds),
        Err(e) => Err(e),
    }
}

} // verus!
