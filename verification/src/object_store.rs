//! Content-addressed blob storage: a mapping from the hex digest of a
//! blob's bytes to the bytes themselves.
//!
//! A blob is written under the digest of its content if that key is
//! absent; writing content that is already present leaves the store
//! unchanged.  Nothing is ever deleted: the store only grows.

use vstd::prelude::*;

use crate::errors::VcsError;
use crate::hashing::{sha1_hex, sha1_hex_of};

verus! {

/// The store: a list of (hash, bytes) pairs with pairwise distinct keys,
/// viewed as a map from hash to content.
pub struct ObjectStore {
    entries: Vec<(String, Vec<u8>)>,
}

spec fn map_of(s: Seq<(String, Vec<u8>)>) -> Map<Seq<char>, Seq<u8>>
    decreases s.len(),
{
    if s.len() == 0 {
        Map::empty()
    } else {
        map_of(s.drop_last()).insert(s.last().0@, s.last().1@)
    }
}

spec fn keys_distinct(s: Seq<(String, Vec<u8>)>) -> bool {
    forall|i: int, j: int| 0 <= i < j < s.len() ==> (#[trigger] s[i]).0@ != (#[trigger] s[j]).0@
}

proof fn lemma_map_of_contains(s: Seq<(String, Vec<u8>)>, k: Seq<char>)
    ensures
        map_of(s).contains_key(k) <==> exists|i: int| 0 <= i < s.len() && (#[trigger] s[i]).0@
            == k,
    decreases s.len(),
{
    if s.len() == 0 {
    } else {
        let sub = s.drop_last();
        lemma_map_of_contains(sub, k);
        assert(forall|i: int| 0 <= i < sub.len() ==> sub[i] == s[i]);
        if s.last().0@ == k {
            assert(s[s.len() - 1].0@ == k);
        } else if map_of(s).contains_key(k) {
            let i = choose|i: int| 0 <= i < sub.len() && (#[trigger] sub[i]).0@ == k;
            assert(s[i].0@ == k);
        } else if exists|i: int| 0 <= i < s.len() && (#[trigger] s[i]).0@ == k {
            let i = choose|i: int| 0 <= i < s.len() && (#[trigger] s[i]).0@ == k;
            assert(i < sub.len());
            assert(sub[i].0@ == k);
        }
    }
}

proof fn lemma_map_of_value(s: Seq<(String, Vec<u8>)>, i: int)
    requires
        keys_distinct(s),
        0 <= i < s.len(),
    ensures
        map_of(s).contains_key(s[i].0@),
        map_of(s)[s[i].0@] == s[i].1@,
    decreases s.len(),
{
    lemma_map_of_contains(s, s[i].0@);
    if i == s.len() - 1 {
    } else {
        let sub = s.drop_last();
        assert(forall|x: int| 0 <= x < sub.len() ==> sub[x] == s[x]);
        lemma_map_of_value(sub, i);
        assert(s[i].0@ != s.last().0@);
    }
}

proof fn lemma_map_of_len(s: Seq<(String, Vec<u8>)>)
    requires
        keys_distinct(s),
    ensures
        map_of(s).dom().finite(),
        map_of(s).len() == s.len(),
    decreases s.len(),
{
    broadcast use vstd::set::axiom_set_insert_len;

    if s.len() == 0 {
    } else {
        let sub = s.drop_last();
        assert(forall|x: int| 0 <= x < sub.len() ==> sub[x] == s[x]);
        lemma_map_of_len(sub);
        lemma_map_of_contains(sub, s.last().0@);
        if map_of(sub).contains_key(s.last().0@) {
            let i = choose|i: int| 0 <= i < sub.len() && (#[trigger] sub[i]).0@ == s.last().0@;
            assert(s[i].0@ == s[s.len() - 1].0@);
            assert(false);
        }
    }
}

/// What storing `b` does to the store's map: nothing when the digest is
/// already a key, else one new binding from the digest to `b`.
pub open spec fn store_after_put(m: Map<Seq<char>, Seq<u8>>, b: Seq<u8>) -> Map<
    Seq<char>,
    Seq<u8>,
> {
    if m.contains_key(sha1_hex_of(b)) {
        m
    } else {
        m.insert(sha1_hex_of(b), b)
    }
}

/// Round trip: after storing `b`, the store holds exactly `b` under the
/// digest of `b` — unless different content already sat under that
/// digest, a colliding input this statement leaves out.
pub proof fn lemma_put_round_trip(m: Map<Seq<char>, Seq<u8>>, b: Seq<u8>)
    requires
        m.contains_key(sha1_hex_of(b)) ==> m[sha1_hex_of(b)] == b,
    ensures
        store_after_put(m, b).contains_key(sha1_hex_of(b)),
        store_after_put(m, b)[sha1_hex_of(b)] == b,
{
}

/// Storing the same content twice is storing it once: the digest is a
/// function of the bytes alone, so the second write finds its key
/// present and the store does not grow.
pub proof fn lemma_put_twice(m: Map<Seq<char>, Seq<u8>>, b: Seq<u8>)
    ensures
        store_after_put(store_after_put(m, b), b) == store_after_put(m, b),
        store_after_put(store_after_put(m, b), b).len() == store_after_put(m, b).len(),
{
}

/// Copies a byte vector.
pub(crate) fn clone_bytes(v: &Vec<u8>) -> (r: Vec<u8>)
    ensures
        r@ == v@,
{
    let mut r: Vec<u8> = Vec::new();
    let mut i: usize = 0;
    while i < v.len()
        invariant
            i <= v@.len(),
            r@ == v@.take(i as int),
        decreases v@.len() - i,
    {
        r.push(v[i]);
        proof {
            assert(v@.take(i as int + 1) =~= v@.take(i as int).push(v@[i as int]));
        }
        i += 1;
    }
    proof {
        assert(v@.take(v@.len() as int) =~= v@);
    }
    r
}

impl View for ObjectStore {
    type V = Map<Seq<char>, Seq<u8>>;

    closed spec fn view(&self) -> Map<Seq<char>, Seq<u8>> {
        map_of(self.entries@)
    }
}

impl ObjectStore {
    /// The store's internal invariant: one entry per key.
    pub closed spec fn wf(&self) -> bool {
        keys_distinct(self.entries@)
    }

    /// An empty store.
    pub fn new() -> (r: ObjectStore)
        ensures
            r@ == Map::<Seq<char>, Seq<u8>>::empty(),
            r.wf(),
    {
        ObjectStore { entries: Vec::new() }
    }

    /// The position of a key, if it is present.
    fn find(&self, hash: &String) -> (r: Option<usize>)
        ensures
            r matches Some(i) ==> i < self.entries@.len() && self.entries@[i as int].0@ == hash@,
            r is None ==> forall|i: int|
                0 <= i < self.entries@.len() ==> (#[trigger] self.entries@[i]).0@ != hash@,
    {
        let mut i: usize = 0;
        while i < self.entries.len()
            invariant
                i <= self.entries@.len(),
                forall|j: int| 0 <= j < i ==> (#[trigger] self.entries@[j]).0@ != hash@,
            decreases self.entries@.len() - i,
        {
            if self.entries[i].0.eq(hash) {
                return Some(i);
            }
            i += 1;
        }
        None
    }

    /// Whether an object is stored under this hash.
    pub fn contains(&self, hash: &String) -> (r: bool)
        ensures
            r == self@.contains_key(hash@),
    {
        proof {
            lemma_map_of_contains(self.entries@, hash@);
        }
        match self.find(hash) {
            Some(_) => true,
            None => false,
        }
    }

    /// A well-formed store maps finitely many keys.
    pub proof fn lemma_dom_finite(&self)
        requires
            self.wf(),
        ensures
            self@.dom().finite(),
    {
        lemma_map_of_len(self.entries@);
    }

    /// How many distinct objects are stored.
    pub fn object_count(&self) -> (r: usize)
        requires
            self.wf(),
        ensures
            r == self@.len(),
    {
        proof {
            lemma_map_of_len(self.entries@);
        }
        self.entries.len()
    }

    /// Stores `bytes` under the digest of its content and returns that
    /// digest.  If the key is already present the store is left as it
    /// was, so storing the same content twice does not grow the store;
    /// content is never checked against an existing key.
    pub fn put(&mut self, bytes: Vec<u8>) -> (hash: String)
        requires
            old(self).wf(),
        ensures
            final(self).wf(),
            hash@ == sha1_hex_of(bytes@),
            hash@.len() == 40,
            final(self)@ == store_after_put(old(self)@, bytes@),
            final(self)@ == (if old(self)@.contains_key(hash@) {
                old(self)@
            } else {
                old(self)@.insert(hash@, bytes@)
            }),
            final(self)@.contains_key(hash@),
            !old(self)@.contains_key(hash@) ==> final(self)@[hash@] == bytes@,
            final(self)@.len() == old(self)@.len() + (if old(self)@.contains_key(hash@) {
                0int
            } else {
                1int
            }),
    {
        proof {
            lemma_map_of_len(self.entries@);
        }
        let hash = sha1_hex(bytes.as_slice());
        proof {
            lemma_map_of_contains(self.entries@, hash@);
        }
        match self.find(&hash) {
            Some(i) => {
                proof {
                    lemma_map_of_value(self.entries@, i as int);
                }
                hash
            },
            None => {
                let ghost pre = self.entries@;
                let key = hash.clone();
                self.entries.push((key, bytes));
                proof {
                    assert(self.entries@.drop_last() =~= pre);
                    assert(keys_distinct(self.entries@));
                    lemma_map_of_len(self.entries@);
                }
                hash
            },
        }
    }

    /// The bytes stored under a hash, or `NotFound` exactly when the
    /// store holds nothing under it.
    pub fn get<'a>(&'a self, hash: &String) -> (r: Result<&'a Vec<u8>, VcsError>)
        requires
            self.wf(),
        ensures
            r is Ok <==> self@.contains_key(hash@),
            r matches Ok(b) ==> b@ == self@[hash@],
            r matches Err(e) ==> e == VcsError::NotFound,
    {
        proof {
            lemma_map_of_contains(self.entries@, hash@);
        }
        match self.find(hash) {
            Some(i) => {
                proof {
                    lemma_map_of_value(self.entries@, i as int);
                }
                Ok(&self.entries[i].1)
            },
            None => Err(VcsError::NotFound),
        }
    }

    /// Every entry as a (hash, bytes) pair, for drivers that persist the
    /// store; each pair is one binding of the map.
    pub fn entries(&self) -> (r: &Vec<(String, Vec<u8>)>)
        requires
            self.wf(),
        ensures
            r@.len() == self@.len(),
            forall|i: int|
                0 <= i < r@.len() ==> self@.contains_key((#[trigger] r@[i]).0@) && self@[r@[i].0@]
                    == r@[i].1@,
    {
        proof {
            lemma_map_of_len(self.entries@);
            assert forall|i: int| 0 <= i < self.entries@.len() implies self@.contains_key(
                (#[trigger] self.entries@[i]).0@,
            ) && self@[self.entries@[i].0@] == self.entries@[i].1@ by {
                lemma_map_of_value(self.entries@, i);
            }
        }
        &self.entries
    }

    /// Places loaded bytes directly under a given key, for drivers that
    /// rehydrate a persisted store; an existing binding of the key is
    /// kept instead.
    pub fn insert_raw(&mut self, hash: String, bytes: Vec<u8>)
        requires
            old(self).wf(),
        ensures
            final(self).wf(),
            final(self)@ == (if old(self)@.contains_key(hash@) {
                old(self)@
            } else {
                old(self)@.insert(hash@, bytes@)
            }),
    {
        proof {
            lemma_map_of_contains(self.entries@, hash@);
        }
        match self.find(&hash) {
            Some(i) => {
                proof {
                    lemma_map_of_value(self.entries@, i as int);
                }
            },
            None => {
                let ghost pre = self.entries@;
                self.entries.push((hash, bytes));
                proof {
                    assert(self.entries@.drop_last() =~= pre);
                    assert(keys_distinct(self.entries@));
                }
            },
        }
    }
}

} // verus!
