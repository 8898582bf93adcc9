//! The repository: the object store, the staging index, and the commit
//! chain behind a single mutable `HEAD`.
//!
//! A ghost history records the hashes of the commits made, most recent
//! first; the well-formedness predicate ties it to the stored records,
//! and the history walk is proved to read it back.

use vstd::prelude::*;

use crate::codec::{encode_commit, encode_commit_spec, meta_ok, parse_commit, parse_commit_spec};
use crate::diff::{
    diff_file_spec, diff_files_spec, diff_spec, find_path, reports_prepend, FileDiff, FileDiffMeta,
    ParentSide,
};
use crate::errors::VcsError;
use crate::hashing::sha1_hex_of;
use crate::object_store::{clone_bytes, ObjectStore};
use crate::records::{views_of_entries, CommitData, CommitMeta, IndexData, IndexMeta};
use crate::staging::StagingIndex;

verus! {

/// Relies on `chrono::Utc::now` and `format`: the current UTC time as
/// day-month-year hour:minute:second text.  Nothing is assumed of the
/// value.
#[verifier::external_body]
fn timestamp_now() -> String {
    chrono::Utc::now().format("%d-%m-%Y %H:%M:%S").to_string()
}

/// A linear commit chain read out of `objects`: `hist` lists the commit
/// hashes, most recent first, starting at `head`; each hash addresses a
/// stored record whose parent is the next hash, down to the root record
/// whose parent is empty.
pub open spec fn chain_ok(
    objects: Map<Seq<char>, Seq<u8>>,
    hist: Seq<Seq<char>>,
    head: Seq<char>,
) -> bool {
    &&& (head.len() == 0 ==> hist.len() == 0)
    &&& (head.len() > 0 ==> hist.len() > 0 && hist[0] == head)
    &&& forall|i: int| 0 <= i < hist.len() ==> (#[trigger] hist[i]).len() > 0
    &&& forall|i: int| 0 <= i < hist.len() ==> objects.contains_key(#[trigger] hist[i])
    &&& forall|i: int|
        0 <= i < hist.len() ==> {
            let m = parse_commit_spec(objects[#[trigger] hist[i]]);
            &&& m is Some
            &&& m.unwrap().parent == (if i + 1 < hist.len() {
                hist[i + 1]
            } else {
                Seq::<char>::empty()
            })
        }
    &&& forall|i: int, j: int| 0 <= i < j < hist.len() ==> hist[i] != hist[j]
}

/// The repository model.
pub struct Sgvcs {
    pub store: ObjectStore,
    pub index: StagingIndex,
    pub head: String,
    pub history: Ghost<Seq<Seq<char>>>,
}

/// What one commit does: the staged entries and the old `HEAD` become a
/// record whose encoding is stored under `hash`; `HEAD` moves to `hash`;
/// the staging index is emptied; the history gains `hash` in front.
pub open spec fn commit_post(
    pre: Sgvcs,
    post: Sgvcs,
    message: Seq<char>,
    time_stamp: Seq<char>,
    hash: Seq<char>,
) -> bool {
    let meta = CommitMeta { message, time_stamp, files: pre.index@, parent: pre.head@ };
    let bytes = encode_commit_spec(meta);
    &&& meta_ok(meta)
    &&& parse_commit_spec(bytes) == Some(meta)
    &&& hash == sha1_hex_of(bytes)
    &&& hash.len() == 40
    &&& post.head@ == hash
    &&& post.index@ == Seq::<IndexMeta>::empty()
    &&& post.store@ == (if pre.store@.contains_key(hash) {
        pre.store@
    } else {
        pre.store@.insert(hash, bytes)
    })
    &&& post.store@.contains_key(hash)
    &&& post.store.wf()
    &&& post.history@ == seq![hash] + pre.history@
    &&& (pre.wf() && !pre.store@.contains_key(hash) ==> post.wf())
}

impl Sgvcs {
    /// The repository invariant: a well-formed store whose records chain
    /// back from `HEAD` along the ghost history.
    pub open spec fn wf(self) -> bool {
        &&& self.store.wf()
        &&& chain_ok(self.store@, self.history@, self.head@)
    }

    /// A fresh repository model: empty store, empty staging index, no
    /// commits.
    pub fn new() -> (r: Sgvcs)
        ensures
            r.wf(),
            r.store@ == Map::<Seq<char>, Seq<u8>>::empty(),
            r.index@ == Seq::<IndexMeta>::empty(),
            r.head@ == Seq::<char>::empty(),
            r.history@ == Seq::<Seq<char>>::empty(),
    {
        Sgvcs {
            store: ObjectStore::new(),
            index: StagingIndex::new(),
            head: String::new(),
            history: Ghost(Seq::empty()),
        }
    }

    /// `HEAD`: the hash of the latest commit, or the empty string if no
    /// commit has been made.
    pub fn get_current_head(&self) -> (r: String)
        ensures
            r@ == self.head@,
    {
        self.head.clone()
    }

    /// Appends a (path, hash) pair to the staging index; earlier entries
    /// and everything else are untouched.
    pub fn update_staging_area(&mut self, file_path: String, file_hash: String)
        ensures
            final(self).index@ == old(self).index@.push(
                IndexMeta { path: file_path@, hash: file_hash@ },
            ),
            final(self).store == old(self).store,
            final(self).head == old(self).head,
            final(self).history == old(self).history,
            old(self).wf() ==> final(self).wf(),
    {
        self.index.add(file_path, file_hash);
    }

    /// Records one file whose content the driver has read: the content
    /// is stored under its digest, and (path, digest) is staged.  The
    /// returned hash is the content's digest.
    pub fn add_file(&mut self, path: String, content: Vec<u8>) -> (hash: String)
        requires
            old(self).store.wf(),
        ensures
            final(self).store.wf(),
            old(self).wf() ==> final(self).wf(),
            hash@ == sha1_hex_of(content@),
            hash@.len() == 40,
            final(self).store@ == (if old(self).store@.contains_key(hash@) {
                old(self).store@
            } else {
                old(self).store@.insert(hash@, content@)
            }),
            final(self).store@.contains_key(hash@),
            !old(self).store@.contains_key(hash@) ==> final(self).store@[hash@] == content@,
            final(self).store@.len() == old(self).store@.len() + (if old(
                self,
            ).store@.contains_key(hash@) {
                0int
            } else {
                1int
            }),
            final(self).index@ == old(self).index@.push(IndexMeta { path: path@, hash: hash@ }),
            final(self).head == old(self).head,
            final(self).history == old(self).history,
    {
        let hash = self.store.put(content);
        let staged = hash.clone();
        self.index.add(path, staged);
        proof {
            if old(self).wf() {
                assert(chain_ok(self.store@, self.history@, self.head@)) by {
                    lemma_chain_same_records(
                        old(self).store@,
                        self.store@,
                        self.history@,
                        self.head@,
                    );
                }
            }
        }
        hash
    }

    /// Builds a commit from the staged entries with the given message
    /// and timestamp, stores it, moves `HEAD` to it, and clears the
    /// staging index.  Returns the new commit's hash.
    pub fn commit_at(&mut self, message: String, time_stamp: String) -> (hash: String)
        requires
            old(self).store.wf(),
        ensures
            commit_post(*old(self), *final(self), message@, time_stamp@, hash@),
    {
        let files = self.index.snapshot();
        let parent = self.head.clone();
        let record = CommitData { message, time_stamp, files, parent };
        let bytes = encode_commit(&record);
        let ghost meta = record@;
        let ghost pre = *old(self);
        let hash = self.store.put(bytes);
        self.head = hash.clone();
        self.index.clear();
        proof {
            self.history@ = seq![hash@] + self.history@;
        }
        proof {
            if pre.wf() && !pre.store@.contains_key(hash@) {
                lemma_chain_same_records(pre.store@, self.store@, pre.history@, pre.head@);
                assert forall|i: int| 0 <= i < self.history@.len() implies {
                    let m = parse_commit_spec(self.store@[#[trigger] self.history@[i]]);
                    &&& self.store@.contains_key(self.history@[i])
                    &&& self.history@[i].len() > 0
                    &&& m is Some
                    &&& m.unwrap().parent == (if i + 1 < self.history@.len() {
                        self.history@[i + 1]
                    } else {
                        Seq::<char>::empty()
                    })
                } by {
                    if i > 0 {
                        assert(self.history@[i] == pre.history@[i - 1]);
                    }
                }
                assert forall|i: int, j: int|
                    0 <= i < j < self.history@.len() implies self.history@[i]
                    != self.history@[j] by {
                    if i > 0 {
                        assert(self.history@[i] == pre.history@[i - 1]);
                    }
                    assert(self.history@[j] == pre.history@[j - 1]);
                    assert(pre.store@.contains_key(pre.history@[j - 1]));
                }
                assert(self.wf());
            }
        }
        hash
    }

    /// Commits the staged entries with a timestamp taken at call time.
    pub fn commit(&mut self, message: String) -> (hash: String)
        requires
            old(self).store.wf(),
        ensures
            exists|ts: Seq<char>|
                commit_post(*old(self), *final(self), message@, ts, hash@),
    {
        let time_stamp = timestamp_now();
        let ghost ts = time_stamp@;
        let hash = self.commit_at(message, time_stamp);
        proof {
            assert(commit_post(*old(self), *self, message@, ts, hash@));
        }
        hash
    }

    /// Loads and parses the record stored under a commit hash:
    /// `NotFound` exactly when nothing is stored there, and
    /// `SerializationError` exactly when the stored bytes are not an
    /// encoded commit record.
    pub fn get_commit_data(&self, commithash: &String) -> (r: Result<CommitData, VcsError>)
        requires
            self.store.wf(),
        ensures
            r matches Ok(c) ==> self.store@.contains_key(commithash@) && parse_commit_spec(
                self.store@[commithash@],
            ) == Some(c@),
            r == Err::<CommitData, VcsError>(VcsError::NotFound) <==> !self.store@.contains_key(
                commithash@,
            ),
            r == Err::<CommitData, VcsError>(VcsError::SerializationError) <==> (
            self.store@.contains_key(commithash@) && parse_commit_spec(self.store@[commithash@])
                is None),
    {
        match self.store.get(commithash) {
            Ok(bytes) => parse_commit(bytes.as_slice()),
            Err(_) => Err(VcsError::NotFound),
        }
    }

    /// The raw bytes stored under a file entry's hash, or `NotFound`
    /// exactly when the store holds nothing under it.
    pub fn get_file_contents(&self, file_hash: &String) -> (r: Result<Vec<u8>, VcsError>)
        requires
            self.store.wf(),
        ensures
            r is Ok <==> self.store@.contains_key(file_hash@),
            r matches Ok(b) ==> b@ == self.store@[file_hash@],
            r matches Err(e) ==> e == VcsError::NotFound,
    {
        match self.store.get(file_hash) {
            Ok(b) => Ok(clone_bytes(b)),
            Err(e) => Err(e),
        }
    }

    /// The parent commit's content for a path: the blob of the first
    /// entry in the parent's file list with exactly this path, `None`
    /// when the parent tracks no such path, `NotFound` when the entry's
    /// blob is missing from the store.
    pub fn get_parent_file_content(
        &self,
        parent_commit_data: &CommitData,
        file_path: &String,
    ) -> (r: Result<Option<Vec<u8>>, VcsError>)
        requires
            self.store.wf(),
        ensures
            find_path(parent_commit_data@.files, file_path@) is None ==> r == Ok::<
                Option<Vec<u8>>,
                VcsError,
            >(None),
            find_path(parent_commit_data@.files, file_path@) matches Some(pe) ==> (
            if self.store@.contains_key(pe.hash) {
                r matches Ok(o) && o matches Some(b) && b@ == self.store@[pe.hash]
            } else {
                r == Err::<Option<Vec<u8>>, VcsError>(VcsError::NotFound)
            }),
    {
        match find_entry(&parent_commit_data.files, file_path) {
            None => Ok(None),
            Some(i) => {
                let e = &parent_commit_data.files[i];
                match self.get_file_contents(&e.hash) {
                    Ok(b) => Ok(Some(b)),
                    Err(err) => Err(err),
                }
            },
        }
    }

    /// The history walk: (hash, record) pairs read backward from `HEAD`
    /// through parent links, most recent first, down to the root record
    /// whose parent is the empty string.  On a well-formed repository
    /// this succeeds and yields exactly the commits made.  A walk that
    /// would visit more records than the store holds objects can only
    /// be circling through malformed records and stops with
    /// `SerializationError`; a dangling hash met within that bound
    /// stops with `NotFound`.
    #[verifier::loop_isolation(false)]
    #[verifier::rlimit(60)]
    pub fn log(&self) -> (r: Result<Vec<(String, CommitData)>, VcsError>)
        requires
            self.store.wf(),
        ensures
            self.wf() ==> r is Ok,
            self.wf() ==> (r matches Ok(v) && v@.len() == self.history@.len() && (forall|i: int|
                0 <= i < v@.len() ==> (#[trigger] v@[i]).0@ == self.history@[i])),
            r matches Ok(v) ==> ((v@.len() == 0) <==> self.head@.len() == 0),
            r matches Ok(v) ==> (v@.len() > 0 ==> v@[0].0@ == self.head@),
            r matches Ok(v) ==> forall|i: int|
                0 <= i < v@.len() ==> self.store@.contains_key((#[trigger] v@[i]).0@)
                    && parse_commit_spec(self.store@[v@[i].0@]) == Some(v@[i].1@),
            r matches Ok(v) ==> forall|i: int|
                0 <= i < v@.len() ==> (#[trigger] v@[i]).1@.parent == (if i + 1 < v@.len() {
                    v@[i + 1].0@
                } else {
                    Seq::<char>::empty()
                }),
    {
        let mut out: Vec<(String, CommitData)> = Vec::new();
        let mut current: String = self.get_current_head();
        let fuel: usize = self.store.object_count();
        let mut steps: usize = 0;
        proof {
            if self.wf() {
                self.store.lemma_dom_finite();
                lemma_hist_len(self.store@, self.history@, self.head@);
            }
        }
        if fuel == 0 && !current.as_str().is_empty() {
            return Err(VcsError::NotFound);
        }
        while !current.as_str().is_empty()
            invariant
                steps == out@.len(),
                steps <= fuel + 1,
                forall|i: int|
                    0 <= i < out@.len() ==> self.store@.contains_key((#[trigger] out@[i]).0@)
                        && parse_commit_spec(self.store@[out@[i].0@]) == Some(out@[i].1@),
                forall|i: int|
                    0 <= i < out@.len() ==> (#[trigger] out@[i]).1@.parent == (if i + 1
                        < out@.len() {
                        out@[i + 1].0@
                    } else {
                        current@
                    }),
                forall|i: int| 0 <= i < out@.len() ==> (#[trigger] out@[i]).0@.len() > 0,
                out@.len() > 0 ==> out@[0].0@ == self.head@,
                out@.len() == 0 ==> current@ == self.head@,
                self.wf() ==> (steps <= self.history@.len() && (forall|i: int|
                    0 <= i < steps ==> (#[trigger] out@[i]).0@ == self.history@[i]) && current@
                    == (if (steps as int) < self.history@.len() {
                    self.history@[steps as int]
                } else {
                    Seq::<char>::empty()
                })),
            decreases fuel + 1 - steps,
        {
            if steps >= fuel {
                proof {
                    if self.wf() {
                        assert(current@ == self.history@[steps as int]);
                        assert(false);
                    }
                }
                return Err(VcsError::SerializationError);
            }
            match self.store.get(&current) {
                Err(_) => {
                    proof {
                        if self.wf() {
                            assert(self.store@.contains_key(self.history@[steps as int]));
                            assert(false);
                        }
                    }
                    return Err(VcsError::NotFound);
                },
                Ok(bytes) => {
                    match parse_commit(bytes.as_slice()) {
                        Err(_) => {
                            proof {
                                if self.wf() {
                                    assert(parse_commit_spec(
                                        self.store@[self.history@[steps as int]],
                                    ) is Some);
                                    assert(false);
                                }
                            }
                            return Err(VcsError::SerializationError);
                        },
                        Ok(record) => {
                            let next = record.parent.clone();
                            out.push((current, record));
                            current = next;
                            steps = steps + 1;
                        },
                    }
                },
            }
        }
        proof {
            if self.wf() {
                if (steps as int) < self.history@.len() {
                    assert(current@ == self.history@[steps as int]);
                    assert(false);
                }
            }
        }
        Ok(out)
    }

    /// The diff report for the commit stored under `commithash`: each
    /// tracked file's current content, and the parent side — the first
    /// commit's files have none; otherwise the parent's content for the
    /// same path, its absence there, or a missing parent record are
    /// reported as such.  `NotFound` comes exactly when no object is
    /// stored under the hash; the repository is not altered either way.
    #[verifier::loop_isolation(false)]
    pub fn show_commit_diff(&self, commithash: String) -> (r: Result<Vec<FileDiff>, VcsError>)
        requires
            self.store.wf(),
        ensures
            r matches Ok(v) ==> (diff_spec(self.store@, commithash@) matches Ok(ds) && v@.len()
                == ds.len() && (forall|i: int|
                0 <= i < v@.len() ==> (#[trigger] v@[i])@ == ds[i])),
            r matches Err(e) ==> diff_spec(self.store@, commithash@) == Err::<
                Seq<FileDiffMeta>,
                VcsError,
            >(e),
            !self.store@.contains_key(commithash@) ==> r == Err::<Vec<FileDiff>, VcsError>(
                VcsError::NotFound,
            ),
    {
        let commit = match self.get_commit_data(&commithash) {
            Ok(c) => c,
            Err(e) => { return Err(e) },
        };
        let ghost objects = self.store@;
        let ghost parent_h = commit@.parent;
        let ghost fl = commit@.files;
        let mut reports: Vec<FileDiff> = Vec::new();
        let mut i: usize = 0;
        proof {
            assert(fl.skip(0) =~= fl);
            assert(crate::diff::views_of_reports(reports@) =~= Seq::<FileDiffMeta>::empty());
        }
        while i < commit.files.len()
            invariant
                i <= commit.files@.len(),
                crate::diff::views_of_reports(reports@).len() == i,
                diff_files_spec(objects, parent_h, fl) == reports_prepend(
                    crate::diff::views_of_reports(reports@),
                    diff_files_spec(objects, parent_h, fl.skip(i as int)),
                ),
            decreases commit.files@.len() - i,
        {
            proof {
                assert(fl.skip(i as int)[0] == fl[i as int]);
                assert(fl.skip(i as int).drop_first() =~= fl.skip(i as int + 1));
            }
            let entry = &commit.files[i];
            let current = match self.get_file_contents(&entry.hash) {
                Ok(b) => b,
                Err(e) => { return Err(e) },
            };
            let side: ParentSide = if commit.parent.as_str().is_empty() {
                ParentSide::FirstCommit
            } else {
                match self.get_commit_data(&commit.parent) {
                    Err(VcsError::NotFound) => ParentSide::ParentNotFound,
                    Err(VcsError::SerializationError) => {
                        return Err(VcsError::SerializationError)
                    },
                    Ok(pd) => {
                        match self.get_parent_file_content(&pd, &entry.path) {
                            Ok(None) => ParentSide::NotInParent,
                            Ok(Some(b)) => ParentSide::Previous(b),
                            Err(e) => { return Err(e) },
                        }
                    },
                }
            };
            let report = FileDiff { path: entry.path.clone(), current, parent: side };
            proof {
                assert(diff_file_spec(objects, parent_h, fl[i as int]) == Ok::<
                    FileDiffMeta,
                    VcsError,
                >(report@));
            }
            let ghost pre = reports@;
            reports.push(report);
            proof {
                crate::diff::lemma_views_of_reports_push(pre, reports@.last());
                let ghost inner = diff_files_spec(objects, parent_h, fl.skip(i as int + 1));
                if inner is Ok {
                    let ds = inner->Ok_0;
                    assert(crate::diff::views_of_reports(pre) + (seq![reports@.last()@] + ds)
                        =~= crate::diff::views_of_reports(reports@) + ds);
                }
                assert(reports_prepend(
                    crate::diff::views_of_reports(pre),
                    diff_files_spec(objects, parent_h, fl.skip(i as int)),
                ) =~~= reports_prepend(crate::diff::views_of_reports(reports@), inner));
            }
            i += 1;
        }
        proof {
            assert(fl.skip(fl.len() as int) =~= Seq::<IndexMeta>::empty());
            assert(crate::diff::views_of_reports(reports@) + Seq::<FileDiffMeta>::empty()
                =~= crate::diff::views_of_reports(reports@));
        }
        Ok(reports)
    }
}

/// The first entry of `files` whose path equals `path`, as
/// [`find_path`] names it.
fn find_entry(files: &Vec<IndexData>, path: &String) -> (r: Option<usize>)
    ensures
        r matches Some(i) ==> i < files@.len() && find_path(views_of_entries(files@), path@)
            == Some(files@[i as int]@),
        r is None ==> find_path(views_of_entries(files@), path@) is None,
{
    let ghost vs = views_of_entries(files@);
    proof {
        assert(vs.skip(0) =~= vs);
    }
    let mut i: usize = 0;
    while i < files.len()
        invariant
            i <= files@.len(),
            vs == views_of_entries(files@),
            find_path(vs, path@) == find_path(vs.skip(i as int), path@),
        decreases files@.len() - i,
    {
        proof {
            assert(vs.skip(i as int)[0] == vs[i as int]);
            assert(vs.skip(i as int).drop_first() =~= vs.skip(i as int + 1));
        }
        if files[i].path.eq(path) {
            return Some(i);
        }
        i += 1;
    }
    proof {
        assert(vs.skip(vs.len() as int) =~= Seq::<IndexMeta>::empty());
    }
    None
}

/// Records reachable in the old store are unchanged in a store that only
/// gained a fresh key or stayed as it was.
proof fn lemma_chain_same_records(
    old_objects: Map<Seq<char>, Seq<u8>>,
    new_objects: Map<Seq<char>, Seq<u8>>,
    hist: Seq<Seq<char>>,
    head: Seq<char>,
)
    requires
        chain_ok(old_objects, hist, head),
        forall|k: Seq<char>|
            old_objects.contains_key(k) ==> new_objects.contains_key(k) && new_objects[k]
                == old_objects[k],
    ensures
        chain_ok(new_objects, hist, head),
{
    assert forall|i: int| 0 <= i < hist.len() implies {
        let m = parse_commit_spec(new_objects[#[trigger] hist[i]]);
        &&& new_objects.contains_key(hist[i])
        &&& m is Some
        &&& m.unwrap().parent == (if i + 1 < hist.len() {
            hist[i + 1]
        } else {
            Seq::<char>::empty()
        })
    } by {
        assert(old_objects.contains_key(hist[i]));
    }
}

/// A chain's hashes are pairwise distinct keys of the store, so there
/// are no more commits in the chain than objects in the store.
proof fn lemma_hist_len(objects: Map<Seq<char>, Seq<u8>>, hist: Seq<Seq<char>>, head: Seq<char>)
    requires
        chain_ok(objects, hist, head),
        objects.dom().finite(),
    ensures
        hist.len() <= objects.len(),
{
    assert(hist.no_duplicates()) by {
        assert forall|i: int, j: int|
            0 <= i < hist.len() && 0 <= j < hist.len() && i != j implies hist[i] != hist[j] by {
            if i < j {
            } else {
                assert(hist[j] != hist[i]);
            }
        }
    }
    hist.unique_seq_to_set();
    assert(hist.to_set().subset_of(objects.dom())) by {
        assert forall|x: Seq<char>| hist.to_set().contains(x) implies objects.dom().contains(
            x,
        ) by {
            let i = choose|i: int| 0 <= i < hist.len() && hist[i] == x;
            assert(objects.contains_key(hist[i]));
        }
    }
    vstd::set_lib::lemma_len_subset(hist.to_set(), objects.dom());
}

} // verus!
