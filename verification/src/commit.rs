//! Commits and their stored form.
//!
//! A commit names one tree and the commits it follows. Its stored form is
//! the kind byte and the framed fields: tree, message, author, time, and
//! then the parents, one field each.

use crate::bytes::append_bytes;
use crate::codec::decode;
use crate::codec::decoded;
use crate::codec::encode;
use crate::codec::encoded;
use crate::codec::fields_fit;
use crate::codec::lemma_decode_encoded;
use crate::codec::lemma_encode_decoded;
use crate::codec::views;
use crate::hash::ContentHash;
use crate::object::TAG_COMMIT;
use vstd::bytes::lemma_auto_spec_u64_to_from_le_bytes;
use vstd::bytes::spec_u64_from_le_bytes;
use vstd::bytes::spec_u64_to_le_bytes;
use vstd::bytes::u64_from_le_bytes;
use vstd::bytes::u64_to_le_bytes;
use vstd::prelude::*;
use vstd::slice::slice_subrange;

verus! {

/// A commit, as a mathematical value.
pub struct CommitView {
    pub tree: Seq<u8>,
    pub parents: Seq<Seq<u8>>,
    pub message: Seq<u8>,
    pub author: Seq<u8>,
    pub timestamp: u64,
}

/// A commit: a snapshot, what it follows, and who recorded it when and why.
#[derive(Clone, Debug, PartialEq, Eq)]
pub struct Commit {
    pub tree: ContentHash,
    pub parents: Vec<ContentHash>,
    pub message: Vec<u8>,
    pub author: Vec<u8>,
    pub timestamp: u64,
}

/// The views of a sequence of hashes.
pub open spec fn hash_views(hashes: Seq<ContentHash>) -> Seq<Seq<u8>> {
    Seq::new(hashes.len(), |i: int| hashes[i]@)
}

impl View for Commit {
    type V = CommitView;

    open spec fn view(&self) -> CommitView {
        CommitView {
            tree: self.tree@,
            parents: hash_views(self.parents@),
            message: self.message@,
            author: self.author@,
            timestamp: self.timestamp,
        }
    }
}

/// Whether a commit can be stored: hashes of full width, and texts short
/// enough to be framed.
pub open spec fn commit_ok(commit: CommitView) -> bool {
    &&& commit.tree.len() == 32
    &&& commit.message.len() <= u64::MAX
    &&& commit.author.len() <= u64::MAX
    &&& forall|i: int| 0 <= i < commit.parents.len() ==> (#[trigger] commit.parents[i]).len() == 32
}

/// The fields of a commit.
pub open spec fn commit_fields(commit: CommitView) -> Seq<Seq<u8>> {
    seq![commit.tree, commit.message, commit.author, spec_u64_to_le_bytes(commit.timestamp)]
        + commit.parents
}

/// The stored form of a commit.
pub open spec fn commit_bytes(commit: CommitView) -> Seq<u8> {
    seq![TAG_COMMIT] + encoded(commit_fields(commit))
}

/// The commit that a list of fields stands for.
pub open spec fn commit_from(fields: Seq<Seq<u8>>) -> CommitView {
    CommitView {
        tree: fields[0],
        parents: fields.skip(4),
        message: fields[1],
        author: fields[2],
        timestamp: spec_u64_from_le_bytes(fields[3]),
    }
}

/// Whether a list of fields is the fields of some commit.
pub open spec fn fields_are_commit(fields: Seq<Seq<u8>>) -> bool {
    &&& fields.len() >= 4
    &&& fields[0].len() == 32
    &&& fields[3].len() == 8
    &&& forall|i: int| 4 <= i < fields.len() ==> (#[trigger] fields[i]).len() == 32
}

/// The commit that `bytes` is the stored form of, if it is one.
pub open spec fn parsed_commit(bytes: Seq<u8>) -> Option<CommitView> {
    if bytes.len() > 0 && bytes[0] == TAG_COMMIT {
        match decoded(bytes.skip(1)) {
            Some(fields) => if fields_are_commit(fields) {
                Some(commit_from(fields))
            } else {
                None
            },
            None => None,
        }
    } else {
        None
    }
}

/// Reading undoes writing: the stored form of a commit gives it back.
pub proof fn lemma_parse_commit_bytes(commit: CommitView)
    requires
        commit_ok(commit),
    ensures
        parsed_commit(commit_bytes(commit)) == Some(commit),
{
    lemma_auto_spec_u64_to_from_le_bytes();
    let fields = commit_fields(commit);
    assert(fields_fit(fields)) by {
        assert forall|i: int| 0 <= i < fields.len() implies (#[trigger] fields[i]).len()
            <= u64::MAX by {
            if i >= 4 {
                assert(fields[i] == commit.parents[i - 4]);
            }
        }
    }
    lemma_decode_encoded(fields);
    assert(commit_bytes(commit).skip(1) =~= encoded(fields));
    assert(fields.skip(4) =~= commit.parents);
    assert forall|i: int| 4 <= i < fields.len() implies (#[trigger] fields[i]).len() == 32 by {
        assert(fields[i] == commit.parents[i - 4]);
    }
}

/// Writing undoes reading: a byte string is the stored form of one commit
/// at most, and a commit that was read can be stored.
pub proof fn lemma_commit_bytes_parsed(bytes: Seq<u8>)
    requires
        parsed_commit(bytes) is Some,
    ensures
        commit_bytes(parsed_commit(bytes).unwrap()) == bytes,
        commit_ok(parsed_commit(bytes).unwrap()),
{
    lemma_auto_spec_u64_to_from_le_bytes();
    let fields = decoded(bytes.skip(1)).unwrap();
    let commit = commit_from(fields);
    lemma_encode_decoded(bytes.skip(1));
    assert(commit_fields(commit) =~= fields);
    assert(bytes =~= seq![TAG_COMMIT] + bytes.skip(1));
    assert forall|i: int| 0 <= i < commit.parents.len() implies (
    #[trigger] commit.parents[i]).len() == 32 by {
        assert(commit.parents[i] == fields[i + 4]);
    }
    assert(fields_fit(fields));
    assert(fields[1].len() <= u64::MAX && fields[2].len() <= u64::MAX);
}

/// The stored form of a commit.
pub fn encode_commit(commit: &Commit) -> (out: Vec<u8>)
    ensures
        out@ == commit_bytes(commit@),
{
    let mut fields: Vec<Vec<u8>> = Vec::new();
    fields.push(commit.tree.to_vec());
    fields.push(commit.message.clone());
    fields.push(commit.author.clone());
    fields.push(u64_to_le_bytes(commit.timestamp));
    let ghost head = views(fields@);
    assert(head =~= seq![
        commit@.tree,
        commit@.message,
        commit@.author,
        spec_u64_to_le_bytes(commit@.timestamp),
    ]);
    let mut i: usize = 0;
    while i < commit.parents.len()
        invariant
            i <= commit.parents.len(),
            fields@.len() == 4 + i,
            head.len() == 4,
            views(fields@) == head + hash_views(commit.parents@).take(i as int),
        decreases commit.parents.len() - i,
    {
        let parent = commit.parents[i].to_vec();
        proof {
            let next = views(fields@.push(parent));
            let want = head + hash_views(commit.parents@).take(i + 1);
            assert forall|j: int| 0 <= j < next.len() implies next[j] == want[j] by {
                if j < 4 + i {
                    assert(next[j] == views(fields@)[j]);
                }
            }
            assert(next =~= want);
        }
        fields.push(parent);
        i = i + 1;
    }
    assert(hash_views(commit.parents@).take(commit.parents@.len() as int) =~= hash_views(
        commit.parents@,
    ));
    let body = encode(&fields);
    let mut out: Vec<u8> = Vec::new();
    out.push(TAG_COMMIT);
    append_bytes(&mut out, body.as_slice());
    out
}

/// The commit that `bytes` is the stored form of, or `None` where it is not
/// the stored form of a commit.
pub fn parse_commit(bytes: &[u8]) -> (r: Option<Commit>)
    ensures
        r is Some <==> parsed_commit(bytes@) is Some,
        r is Some ==> r.unwrap()@ == parsed_commit(bytes@).unwrap(),
{
    if bytes.len() == 0 || bytes[0] != TAG_COMMIT {
        return None;
    }
    let body = slice_subrange(bytes, 1, bytes.len());
    assert(body@ =~= bytes@.skip(1));
    let fields = match decode(body) {
        Some(fields) => fields,
        None => {
            return None;
        },
    };
    let ghost fs = views(fields@);
    if fields.len() < 4 || fields[3].len() != 8 {
        return None;
    }
    assert(fs[0] == fields@[0]@ && fs[1] == fields@[1]@ && fs[2] == fields@[2]@ && fs[3]
        == fields@[3]@);
    let tree = match ContentHash::from_slice(fields[0].as_slice()) {
        Some(tree) => tree,
        None => {
            return None;
        },
    };
    let timestamp = u64_from_le_bytes(fields[3].as_slice());
    let mut parents: Vec<ContentHash> = Vec::new();
    let mut i: usize = 4;
    assert(hash_views(parents@) =~= fs.subrange(4, 4));
    while i < fields.len()
        invariant
            4 <= i <= fields.len(),
            fs == views(fields@),
            bytes@.len() > 0 && bytes@[0] == TAG_COMMIT,
            decoded(bytes@.skip(1)) == Some(fs),
            parents@.len() == i - 4,
            hash_views(parents@) == fs.subrange(4, i as int),
            forall|j: int| 4 <= j < i ==> (#[trigger] fs[j]).len() == 32,
        decreases fields.len() - i,
    {
        assert(fs[i as int] == fields@[i as int]@);
        let parent = match ContentHash::from_slice(fields[i].as_slice()) {
            Some(parent) => parent,
            None => {
                return None;
            },
        };
        assert(hash_views(parents@.push(parent)) =~= fs.subrange(4, i + 1));
        parents.push(parent);
        i = i + 1;
    }
    assert(fs.subrange(4, fs.len() as int) =~= fs.skip(4));
    Some(
        Commit {
            tree,
            parents,
            message: fields[1].clone(),
            author: fields[2].clone(),
            timestamp,
        },
    )
}

} // verus!
