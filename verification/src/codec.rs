//! The storage format of commit records.
//!
//! A commit is persisted as a byte string: each text field is written as
//! its UTF-8 bytes preceded by a little-endian `u64` length, the file list
//! as an entry count followed by the entries, each a path and a hash.
//! Parsing is exact: it succeeds precisely on the bytes that encoding
//! produces, and recovers the record that was encoded.

use vstd::bytes::*;
use vstd::prelude::*;
use vstd::string::StringSliceAdditionalSpecFns;
use vstd::string::StrSliceExecFns;
use vstd::utf8::*;

use crate::errors::VcsError;
use crate::records::{CommitData, CommitMeta, IndexData, IndexMeta};

verus! {

/// One text field on the wire: a length prefix, then the UTF-8 bytes.
pub open spec fn enc_str(s: Seq<char>) -> Seq<u8> {
    spec_u64_to_le_bytes(encode_utf8(s).len() as u64) + encode_utf8(s)
}

/// One file entry on the wire: its path, then its hash.
pub open spec fn enc_entry(e: IndexMeta) -> Seq<u8> {
    enc_str(e.path) + enc_str(e.hash)
}

/// The file entries on the wire, in order.
pub open spec fn enc_entries(files: Seq<IndexMeta>) -> Seq<u8>
    decreases files.len(),
{
    if files.len() == 0 {
        Seq::empty()
    } else {
        enc_entry(files[0]) + enc_entries(files.drop_first())
    }
}

/// A whole commit record on the wire: message, timestamp, parent hash,
/// entry count, entries.
pub open spec fn encode_commit_spec(m: CommitMeta) -> Seq<u8> {
    enc_str(m.message) + enc_str(m.time_stamp) + enc_str(m.parent) + spec_u64_to_le_bytes(
        m.files.len() as u64,
    ) + enc_entries(m.files)
}

/// A text field whose length prefix fits the wire format.
pub open spec fn str_len_ok(s: Seq<char>) -> bool {
    encode_utf8(s).len() <= u64::MAX
}

/// A record all of whose fields fit the wire format.  Every record held
/// in executable memory satisfies this.
pub open spec fn meta_ok(m: CommitMeta) -> bool {
    &&& str_len_ok(m.message)
    &&& str_len_ok(m.time_stamp)
    &&& str_len_ok(m.parent)
    &&& m.files.len() <= u64::MAX
    &&& forall|i: int|
        0 <= i < m.files.len() ==> str_len_ok(#[trigger] m.files[i].path) && str_len_ok(
            m.files[i].hash,
        )
}

/// Reads a length-prefixed `u64` off the front of `b`.
pub open spec fn parse_u64(b: Seq<u8>) -> Option<(u64, Seq<u8>)> {
    if b.len() < 8 {
        None
    } else {
        Some((spec_u64_from_le_bytes(b.take(8)), b.skip(8)))
    }
}

/// Reads one text field off the front of `b`.
pub open spec fn parse_str(b: Seq<u8>) -> Option<(Seq<char>, Seq<u8>)> {
    match parse_u64(b) {
        None => None,
        Some((n, rest)) => {
            if rest.len() < n {
                None
            } else {
                let data = rest.take(n as int);
                if valid_utf8(data) {
                    Some((decode_utf8(data), rest.skip(n as int)))
                } else {
                    None
                }
            }
        },
    }
}

/// Reads `m` file entries off the front of `b`.
pub open spec fn parse_entries(b: Seq<u8>, m: u64) -> Option<(Seq<IndexMeta>, Seq<u8>)>
    decreases m,
{
    if m == 0 {
        Some((Seq::empty(), b))
    } else {
        match parse_str(b) {
            None => None,
            Some((path, b1)) => match parse_str(b1) {
                None => None,
                Some((hash, b2)) => match parse_entries(b2, (m - 1) as u64) {
                    None => None,
                    Some((es, b3)) => Some(
                        (seq![IndexMeta { path, hash }] + es, b3),
                    ),
                },
            },
        }
    }
}

/// Reads a whole commit record; the bytes must be consumed exactly.
pub open spec fn parse_commit_spec(b: Seq<u8>) -> Option<CommitMeta> {
    match parse_str(b) {
        None => None,
        Some((message, b1)) => match parse_str(b1) {
            None => None,
            Some((time_stamp, b2)) => match parse_str(b2) {
                None => None,
                Some((parent, b3)) => match parse_u64(b3) {
                    None => None,
                    Some((m, b4)) => match parse_entries(b4, m) {
                        None => None,
                        Some((files, b5)) => {
                            if b5.len() == 0 {
                                Some(CommitMeta { message, time_stamp, files, parent })
                            } else {
                                None
                            }
                        },
                    },
                },
            },
        },
    }
}

/// Parsing undoes the encoding of one text field, whatever follows it.
pub proof fn lemma_parse_str_round_trip(s: Seq<char>, rest: Seq<u8>)
    requires
        str_len_ok(s),
    ensures
        parse_str(enc_str(s) + rest) == Some((s, rest)),
{
    lemma_auto_spec_u64_to_from_le_bytes();
    broadcast use encode_utf8_valid_utf8, encode_utf8_decode_utf8;

    let e = encode_utf8(s);
    let lenb = spec_u64_to_le_bytes(e.len() as u64);
    let b = enc_str(s) + rest;
    assert(b.take(8) =~= lenb);
    let after_len = b.skip(8);
    assert(after_len.take(e.len() as int) =~= e);
    assert(after_len.skip(e.len() as int) =~= rest);
}

/// Parsing undoes the encoding of a file-entry list, whatever follows it.
pub proof fn lemma_parse_entries_round_trip(files: Seq<IndexMeta>, rest: Seq<u8>)
    requires
        files.len() <= u64::MAX,
        forall|i: int|
            0 <= i < files.len() ==> str_len_ok(#[trigger] files[i].path) && str_len_ok(
                files[i].hash,
            ),
    ensures
        parse_entries(enc_entries(files) + rest, files.len() as u64) == Some((files, rest)),
    decreases files.len(),
{
    if files.len() == 0 {
        assert(enc_entries(files) + rest =~= rest);
    } else {
        let e0 = files[0];
        let tail = files.drop_first();
        let b = enc_entries(files) + rest;
        assert(b =~= enc_str(e0.path) + (enc_str(e0.hash) + (enc_entries(tail) + rest)));
        lemma_parse_str_round_trip(e0.path, enc_str(e0.hash) + (enc_entries(tail) + rest));
        lemma_parse_str_round_trip(e0.hash, enc_entries(tail) + rest);
        lemma_parse_entries_round_trip(tail, rest);
        assert(parse_entries(b, files.len() as u64) == Some(
            (seq![IndexMeta { path: e0.path, hash: e0.hash }] + tail, rest),
        ));
        assert(seq![IndexMeta { path: e0.path, hash: e0.hash }] + tail =~= files);
    }
}

/// Appending one entry to the list appends its encoding to the wire.
pub proof fn lemma_enc_entries_snoc(files: Seq<IndexMeta>, e: IndexMeta)
    ensures
        enc_entries(files.push(e)) == enc_entries(files) + enc_entry(e),
    decreases files.len(),
{
    if files.len() == 0 {
        assert(files.push(e)[0] == e);
        assert(files.push(e).drop_first() =~= Seq::<IndexMeta>::empty());
        assert(enc_entries(Seq::<IndexMeta>::empty()) == Seq::<u8>::empty());
        assert(enc_entries(files.push(e)) == enc_entry(e) + Seq::<u8>::empty());
        assert(enc_entries(files.push(e)) =~= enc_entries(files) + enc_entry(e));
    } else {
        assert(files.push(e).drop_first() =~= files.drop_first().push(e));
        assert(files.push(e)[0] == files[0]);
        lemma_enc_entries_snoc(files.drop_first(), e);
        assert(enc_entries(files.push(e)) == enc_entry(files[0]) + (enc_entries(
            files.drop_first(),
        ) + enc_entry(e)));
        assert(enc_entry(files[0]) + (enc_entries(files.drop_first()) + enc_entry(e)) =~= (enc_entry(
            files[0],
        ) + enc_entries(files.drop_first())) + enc_entry(e));
    }
}

/// Parsing undoes the encoding of a whole commit record.
pub proof fn lemma_parse_commit_round_trip(m: CommitMeta)
    requires
        meta_ok(m),
    ensures
        parse_commit_spec(encode_commit_spec(m)) == Some(m),
{
    lemma_auto_spec_u64_to_from_le_bytes();
    let countb = spec_u64_to_le_bytes(m.files.len() as u64);
    let b = encode_commit_spec(m);
    let tail1 = enc_str(m.time_stamp) + (enc_str(m.parent) + (countb + enc_entries(m.files)));
    let tail2 = enc_str(m.parent) + (countb + enc_entries(m.files));
    let tail3 = countb + enc_entries(m.files);
    assert(b =~= enc_str(m.message) + tail1);
    assert(tail1 =~= enc_str(m.time_stamp) + tail2);
    assert(tail2 =~= enc_str(m.parent) + tail3);
    lemma_parse_str_round_trip(m.message, tail1);
    lemma_parse_str_round_trip(m.time_stamp, tail2);
    lemma_parse_str_round_trip(m.parent, tail3);
    assert(tail3.take(8) =~= countb);
    assert(tail3.skip(8) =~= enc_entries(m.files) + Seq::<u8>::empty());
    lemma_parse_entries_round_trip(m.files, Seq::empty());
}

/// Relies on `String::from_utf8`: it succeeds exactly on valid UTF-8
/// input, returning the string whose UTF-8 encoding is those bytes.
#[verifier::external_body]
pub(crate) fn bytes_to_string(bytes: Vec<u8>) -> (r: Option<String>)
    ensures
        r matches Some(s) ==> encode_utf8(s@) == bytes@,
        r is Some <==> valid_utf8(bytes@),
{
    String::from_utf8(bytes).ok()
}

/// Appends one length-prefixed text field to `out`.
fn encode_str_into(out: &mut Vec<u8>, s: &str)
    ensures
        final(out)@ == old(out)@ + enc_str(s@),
        str_len_ok(s@),
{
    let mut data = s.as_bytes_vec();
    let mut lenb = u64_to_le_bytes(data.len() as u64);
    out.append(&mut lenb);
    out.append(&mut data);
    proof {
        assert(out@ =~= old(out)@ + enc_str(s@));
    }
}

/// Encodes a commit record into the byte string stored for it.  Parsing
/// those bytes recovers the record exactly.
pub fn encode_commit(c: &CommitData) -> (r: Vec<u8>)
    ensures
        r@ == encode_commit_spec(c@),
        meta_ok(c@),
        parse_commit_spec(r@) == Some(c@),
{
    let ghost vs = crate::records::views_of_entries(c.files@);
    let mut out: Vec<u8> = Vec::new();
    encode_str_into(&mut out, c.message.as_str());
    encode_str_into(&mut out, c.time_stamp.as_str());
    encode_str_into(&mut out, c.parent.as_str());
    let mut countb = u64_to_le_bytes(c.files.len() as u64);
    out.append(&mut countb);
    let ghost base = out@;
    proof {
        assert(out@ =~= base + enc_entries(vs.take(0)));
    }
    let mut i: usize = 0;
    while i < c.files.len()
        invariant
            i <= c.files.len(),
            vs == crate::records::views_of_entries(c.files@),
            out@ == base + enc_entries(vs.take(i as int)),
            forall|j: int|
                0 <= j < i ==> str_len_ok(#[trigger] vs[j].path) && str_len_ok(vs[j].hash),
        decreases c.files.len() - i,
    {
        let entry = &c.files[i];
        encode_str_into(&mut out, entry.path.as_str());
        encode_str_into(&mut out, entry.hash.as_str());
        proof {
            assert(vs[i as int] == IndexMeta { path: entry.path@, hash: entry.hash@ });
            assert forall|j: int| 0 <= j < i + 1 implies str_len_ok(#[trigger] vs[j].path)
                && str_len_ok(vs[j].hash) by {
                if j == i as int {
                    assert(str_len_ok(entry.path@) && str_len_ok(entry.hash@));
                }
            }
            assert(vs.take(i as int + 1) =~= vs.take(i as int).push(vs[i as int]));
            lemma_enc_entries_snoc(vs.take(i as int), vs[i as int]);
            assert(out@ =~= base + enc_entries(vs.take(i as int + 1)));
        }
        i += 1;
    }
    proof {
        assert(vs.take(c.files@.len() as int) =~= vs);
        assert(out@ =~= encode_commit_spec(c@));
        lemma_parse_commit_round_trip(c@);
    }
    out
}

/// Reads a length prefix at `pos`, if eight bytes are there.
fn read_u64(bytes: &[u8], pos: usize) -> (r: Option<(u64, usize)>)
    requires
        pos <= bytes@.len(),
    ensures
        r matches Some(np) ==> parse_u64(bytes@.skip(pos as int)) == Some(
            (np.0, bytes@.skip(np.1 as int)),
        ) && np.1 == pos + 8 && pos <= np.1 <= bytes@.len(),
        r is None ==> parse_u64(bytes@.skip(pos as int)) is None,
{
    if bytes.len() - pos < 8 {
        None
    } else {
        let sub = vstd::slice::slice_subrange(bytes, pos, pos + 8);
        let n = u64_from_le_bytes(sub);
        proof {
            assert(bytes@.skip(pos as int).take(8) =~= bytes@.subrange(
                pos as int,
                pos as int + 8,
            ));
            assert(bytes@.skip(pos as int).skip(8) =~= bytes@.skip(pos as int + 8));
        }
        Some((n, pos + 8))
    }
}

/// Reads one text field at `pos`: a length prefix, then that many bytes,
/// which must be valid UTF-8.
fn read_str(bytes: &[u8], pos: usize) -> (r: Option<(String, usize)>)
    requires
        pos <= bytes@.len(),
    ensures
        r matches Some(sp) ==> parse_str(bytes@.skip(pos as int)) == Some(
            (sp.0@, bytes@.skip(sp.1 as int)),
        ) && pos <= sp.1 <= bytes@.len(),
        r is None ==> parse_str(bytes@.skip(pos as int)) is None,
{
    match read_u64(bytes, pos) {
        None => None,
        Some((n, p1)) => {
            if n > (bytes.len() - p1) as u64 {
                None
            } else {
                let nn = n as usize;
                let data = vstd::slice::slice_subrange(bytes, p1, p1 + nn);
                proof {
                    assert(bytes@.skip(p1 as int).take(n as int) =~= bytes@.subrange(
                        p1 as int,
                        p1 as int + nn as int,
                    ));
                    assert(bytes@.skip(p1 as int).skip(n as int) =~= bytes@.skip(
                        p1 as int + nn as int,
                    ));
                }
                let datav = vstd::slice::slice_to_vec(data);
                match bytes_to_string(datav) {
                    None => None,
                    Some(s) => {
                        proof {
                            broadcast use encode_utf8_decode_utf8;

                            assert(decode_utf8(bytes@.skip(p1 as int).take(n as int)) == s@);
                        }
                        Some((s, p1 + nn))
                    },
                }
            }
        },
    }
}

/// Prepends already-read entries to the outcome of reading the rest.
pub open spec fn opt_prepend(pre: Seq<IndexMeta>, o: Option<(Seq<IndexMeta>, Seq<u8>)>) -> Option<
    (Seq<IndexMeta>, Seq<u8>),
> {
    match o {
        Some((es, r)) => Some((pre + es, r)),
        None => None,
    }
}

/// Parses stored bytes as a commit record.  It returns the record exactly
/// when the bytes are an encoding, and `SerializationError` otherwise.
#[verifier::loop_isolation(false)]
pub fn parse_commit(bytes: &[u8]) -> (r: Result<CommitData, VcsError>)
    ensures
        r matches Ok(c) ==> parse_commit_spec(bytes@) == Some(c@),
        r is Err ==> parse_commit_spec(bytes@) is None,
        r matches Err(e) ==> e == VcsError::SerializationError,
{
    proof {
        assert(bytes@.skip(0) =~= bytes@);
    }
    let (message, p1) = match read_str(bytes, 0) {
        Some(v) => v,
        None => { return Err(VcsError::SerializationError) },
    };
    let (time_stamp, p2) = match read_str(bytes, p1) {
        Some(v) => v,
        None => { return Err(VcsError::SerializationError) },
    };
    let (parent, p3) = match read_str(bytes, p2) {
        Some(v) => v,
        None => { return Err(VcsError::SerializationError) },
    };
    let (count, p4) = match read_u64(bytes, p3) {
        Some(v) => v,
        None => { return Err(VcsError::SerializationError) },
    };
    let mut files: Vec<IndexData> = Vec::new();
    let mut pos = p4;
    let mut k: u64 = 0;
    proof {
        assert(crate::records::views_of_entries(files@) =~= Seq::<IndexMeta>::empty());
        assert(parse_entries(bytes@.skip(p4 as int), count) == opt_prepend(
            crate::records::views_of_entries(files@),
            parse_entries(bytes@.skip(pos as int), (count - k) as u64),
        ));
    }
    while k < count
        invariant
            k <= count,
            pos <= bytes@.len(),
            parse_entries(bytes@.skip(p4 as int), count) == opt_prepend(
                crate::records::views_of_entries(files@),
                parse_entries(bytes@.skip(pos as int), (count - k) as u64),
            ),
        decreases count - k,
    {
        let ghost m = (count - k) as u64;
        let (path, q1) = match read_str(bytes, pos) {
            Some(v) => v,
            None => {
                proof {
                    assert(parse_entries(bytes@.skip(pos as int), m) is None);
                }
                return Err(VcsError::SerializationError);
            },
        };
        let (hash, q2) = match read_str(bytes, q1) {
            Some(v) => v,
            None => {
                proof {
                    assert(parse_entries(bytes@.skip(pos as int), m) is None);
                }
                return Err(VcsError::SerializationError);
            },
        };
        let entry = IndexData { path, hash };
        proof {
            let pre = crate::records::views_of_entries(files@);
            assert(parse_entries(bytes@.skip(pos as int), m) == opt_prepend(
                seq![entry@],
                parse_entries(bytes@.skip(q2 as int), (m - 1) as u64),
            ));
            assert(crate::records::views_of_entries(files@.push(entry)) =~= pre.push(entry@));
            assert forall|o: Option<(Seq<IndexMeta>, Seq<u8>)>|
                opt_prepend(pre, opt_prepend(seq![entry@], o)) =~~= opt_prepend(
                    pre.push(entry@),
                    o,
                ) by {
                if o is Some {
                    assert(pre + (seq![entry@] + o.unwrap().0) =~= pre.push(entry@)
                        + o.unwrap().0);
                }
            }
        }
        files.push(entry);
        pos = q2;
        k = k + 1;
    }
    proof {
        assert(parse_entries(bytes@.skip(pos as int), (count - k) as u64) == Some(
            (Seq::<IndexMeta>::empty(), bytes@.skip(pos as int)),
        ));
        assert(crate::records::views_of_entries(files@) + Seq::<IndexMeta>::empty()
            =~= crate::records::views_of_entries(files@));
    }
    if pos != bytes.len() {
        return Err(VcsError::SerializationError);
    }
    let c = CommitData { message, time_stamp, files, parent };
    proof {
        assert(bytes@.skip(pos as int).len() == 0);
        assert(parse_commit_spec(bytes@) == Some(c@));
    }
    Ok(c)
}

} // verus!
