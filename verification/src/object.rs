//! The stored form of trees.
//!
//! A stored object starts with one byte that tells its kind; that byte is
//! hashed with the rest, so a file's content can never be read as a tree or
//! a commit. A blob is the kind byte and the file's bytes. A tree is the
//! kind byte and the framed fields of its entries, three per entry: the
//! entry's kind, its name and its hash.

use crate::bytes::bytes_lt;
use crate::bytes::lemma_lex_transitive;
use crate::bytes::lex_lt;
use crate::codec::decode;
use crate::codec::decoded;
use crate::codec::encode;
use crate::codec::encoded;
use crate::codec::fields_fit;
use crate::codec::lemma_decode_encoded;
use crate::codec::lemma_encode_decoded;
use crate::codec::views;
use crate::hash::ContentHash;
use vstd::prelude::*;
use vstd::slice::slice_subrange;

verus! {

/// Kind byte of a blob.
pub const TAG_BLOB: u8 = 66;

/// Kind byte of a tree.
pub const TAG_TREE: u8 = 84;

/// Kind byte of a commit.
pub const TAG_COMMIT: u8 = 67;

/// The byte that separates the components of a path.
pub const SEPARATOR: u8 = 47;

/// What a tree entry names.
#[derive(Clone, Copy, Debug, PartialEq, Eq, Structural)]
pub enum EntryKind {
    File,
    Directory,
}

/// One entry of a tree, as a mathematical value.
pub struct Entry {
    pub name: Seq<u8>,
    pub kind: EntryKind,
    pub hash: Seq<u8>,
}

/// One entry of a tree: a name, and the hash of the blob or tree it names.
#[derive(Clone, Debug, PartialEq, Eq)]
pub struct TreeEntry {
    pub name: Vec<u8>,
    pub kind: EntryKind,
    pub hash: ContentHash,
}

impl View for TreeEntry {
    type V = Entry;

    open spec fn view(&self) -> Entry {
        Entry { name: self.name@, kind: self.kind, hash: self.hash@ }
    }
}

/// The views of a sequence of tree entries.
pub open spec fn entry_views(entries: Seq<TreeEntry>) -> Seq<Entry> {
    Seq::new(entries.len(), |i: int| entries[i]@)
}

/// The stored form of a file's content.
pub open spec fn blob_bytes(content: Seq<u8>) -> Seq<u8> {
    seq![TAG_BLOB] + content
}

/// Whether `name` can be one component of a path: not empty, and without
/// the separator.
pub open spec fn valid_name(name: Seq<u8>) -> bool {
    &&& 0 < name.len() <= u64::MAX
    &&& forall|i: int| 0 <= i < name.len() ==> name[i] != SEPARATOR
}

/// Whether the names of `entries` strictly ascend.
pub open spec fn ascending(entries: Seq<Entry>) -> bool {
    forall|i: int, j: int|
        0 <= i < j < entries.len() ==> lex_lt(
            (#[trigger] entries[i]).name,
            (#[trigger] entries[j]).name,
        )
}

/// Whether `entries` can be the entries of one tree: valid names in
/// strictly ascending order, and hashes of full width.
pub open spec fn entries_ok(entries: Seq<Entry>) -> bool {
    &&& ascending(entries)
    &&& forall|i: int|
        0 <= i < entries.len() ==> valid_name((#[trigger] entries[i]).name) && entries[i].hash.len()
            == 32
}

/// The field that stands for an entry's kind.
pub open spec fn kind_field(kind: EntryKind) -> Seq<u8> {
    match kind {
        EntryKind::File => seq![0u8],
        EntryKind::Directory => seq![1u8],
    }
}

/// The fields of a tree: kind, name and hash of each entry in turn.
pub open spec fn tree_fields(entries: Seq<Entry>) -> Seq<Seq<u8>> {
    Seq::new(
        3 * entries.len(),
        |i: int|
            if i % 3 == 0 {
                kind_field(entries[i / 3].kind)
            } else if i % 3 == 1 {
                entries[i / 3].name
            } else {
                entries[i / 3].hash
            },
    )
}

/// The stored form of a tree.
pub open spec fn tree_bytes(entries: Seq<Entry>) -> Seq<u8> {
    seq![TAG_TREE] + encoded(tree_fields(entries))
}

/// The entries that a list of fields stands for.
pub open spec fn entries_from(fields: Seq<Seq<u8>>) -> Seq<Entry> {
    Seq::new(
        (fields.len() / 3) as nat,
        |k: int|
            Entry {
                name: fields[3 * k + 1],
                kind: if fields[3 * k] == seq![1u8] {
                    EntryKind::Directory
                } else {
                    EntryKind::File
                },
                hash: fields[3 * k + 2],
            },
    )
}

/// Whether a list of fields is the fields of some tree.
pub open spec fn fields_are_tree(fields: Seq<Seq<u8>>) -> bool {
    &&& fields.len() % 3 == 0
    &&& forall|k: int|
        0 <= k < fields.len() / 3 ==> (#[trigger] fields[3 * k]) == seq![0u8] || fields[3 * k]
            == seq![1u8]
    &&& entries_ok(entries_from(fields))
}

/// The entries of the tree that `bytes` is the stored form of, if it is one.
pub open spec fn parsed_tree(bytes: Seq<u8>) -> Option<Seq<Entry>> {
    if bytes.len() > 0 && bytes[0] == TAG_TREE {
        match decoded(bytes.skip(1)) {
            Some(fields) => if fields_are_tree(fields) {
                Some(entries_from(fields))
            } else {
                None
            },
            None => None,
        }
    } else {
        None
    }
}

/// Reading undoes writing: the stored form of a tree gives back its entries.
pub proof fn lemma_parse_tree_bytes(entries: Seq<Entry>)
    requires
        entries_ok(entries),
    ensures
        parsed_tree(tree_bytes(entries)) == Some(entries),
{
    let fields = tree_fields(entries);
    let bytes = tree_bytes(entries);
    assert(fields_fit(fields)) by {
        assert forall|i: int| 0 <= i < fields.len() implies (#[trigger] fields[i]).len()
            <= u64::MAX by {
            let e = entries[i / 3];
            assert(valid_name(e.name) && e.hash.len() == 32);
        }
    }
    lemma_decode_encoded(fields);
    assert(bytes.skip(1) =~= encoded(fields));
    assert(entries_from(fields) =~= entries) by {
        assert forall|k: int| 0 <= k < entries.len() implies entries_from(fields)[k]
            == entries[k] by {
            assert(fields[3 * k] == kind_field(entries[k].kind));
            assert(fields[3 * k + 1] == entries[k].name);
            assert(fields[3 * k + 2] == entries[k].hash);
            assert(seq![0u8][0] != seq![1u8][0]);
        }
    }
    assert forall|k: int| 0 <= k < fields.len() / 3 implies (#[trigger] fields[3 * k]) == seq![
        0u8,
    ] || fields[3 * k] == seq![1u8] by {
        assert(fields[3 * k] == kind_field(entries[k].kind));
    }
}

/// Writing undoes reading: a byte string is the stored form of one tree at
/// most, and a tree that was read can be a tree.
pub proof fn lemma_tree_bytes_parsed(bytes: Seq<u8>)
    requires
        parsed_tree(bytes) is Some,
    ensures
        tree_bytes(parsed_tree(bytes).unwrap()) == bytes,
        entries_ok(parsed_tree(bytes).unwrap()),
{
    let fields = decoded(bytes.skip(1)).unwrap();
    let entries = entries_from(fields);
    lemma_encode_decoded(bytes.skip(1));
    assert(tree_fields(entries) =~= fields) by {
        assert forall|i: int| 0 <= i < fields.len() implies tree_fields(entries)[i]
            == fields[i] by {
            let k = i / 3;
            assert(fields[3 * k] == seq![0u8] || fields[3 * k] == seq![1u8]);
            assert(seq![0u8][0] != seq![1u8][0]);
        }
    }
    assert(bytes =~= seq![TAG_TREE] + bytes.skip(1));
}

/// Two lists of entries with the same stored form are the same list.
pub proof fn lemma_tree_bytes_injective(a: Seq<Entry>, b: Seq<Entry>)
    requires
        entries_ok(a),
        entries_ok(b),
        tree_bytes(a) == tree_bytes(b),
    ensures
        a == b,
{
    lemma_parse_tree_bytes(a);
    lemma_parse_tree_bytes(b);
}

/// Whether `name` can be one component of a path.
pub fn is_valid_name(name: &[u8]) -> (ok: bool)
    ensures
        ok == valid_name(name@),
{
    if name.len() == 0 {
        return false;
    }
    let mut i: usize = 0;
    while i < name.len()
        invariant
            i <= name.len(),
            forall|j: int| 0 <= j < i ==> name@[j] != SEPARATOR,
        decreases name.len() - i,
    {
        if name[i] == SEPARATOR {
            return false;
        }
        i = i + 1;
    }
    true
}

/// The stored form of a file's content.
pub fn encode_blob(content: &[u8]) -> (out: Vec<u8>)
    ensures
        out@ == blob_bytes(content@),
{
    let mut out: Vec<u8> = Vec::new();
    out.push(TAG_BLOB);
    crate::bytes::append_bytes(&mut out, content);
    out
}

/// The content of the file that `bytes` is the stored form of, if it is
/// the stored form of a file.
pub fn parse_blob(bytes: &[u8]) -> (r: Option<Vec<u8>>)
    ensures
        r is Some <==> bytes@.len() > 0 && bytes@[0] == TAG_BLOB,
        r is Some ==> blob_bytes(r.unwrap()@) == bytes@,
{
    if bytes.len() > 0 && bytes[0] == TAG_BLOB {
        let content = crate::bytes::copy_range(bytes, 1, bytes.len());
        assert(blob_bytes(content@) =~= bytes@);
        Some(content)
    } else {
        None
    }
}

/// The stored form of a tree with the given entries.
pub fn encode_tree(entries: &Vec<TreeEntry>) -> (out: Vec<u8>)
    ensures
        out@ == tree_bytes(entry_views(entries@)),
{
    let mut fields: Vec<Vec<u8>> = Vec::new();
    let mut i: usize = 0;
    let ghost all = tree_fields(entry_views(entries@));
    while i < entries.len()
        invariant
            i <= entries.len(),
            all == tree_fields(entry_views(entries@)),
            fields@.len() == 3 * i,
            views(fields@) == all.take(3 * i),
        decreases entries.len() - i,
    {
        let entry = &entries[i];
        let mut kind: Vec<u8> = Vec::new();
        match entry.kind {
            EntryKind::File => kind.push(0u8),
            EntryKind::Directory => kind.push(1u8),
        }
        assert(kind@ =~= kind_field(entry.kind));
        let name = entry.name.clone();
        let hash = entry.hash.to_vec();
        proof {
            let next = fields@.push(kind).push(name).push(hash);
            assert(entry_views(entries@)[i as int] == entry@);
            assert(views(next) =~= all.take(3 * (i + 1))) by {
                assert forall|j: int| 0 <= j < 3 * (i + 1) implies views(next)[j] == all[j] by {
                    if j < 3 * i {
                        assert(views(fields@)[j] == all.take(3 * i)[j]);
                    }
                }
            }
        }
        fields.push(kind);
        fields.push(name);
        fields.push(hash);
        i = i + 1;
    }
    assert(all.take(3 * (entries@.len() as int)) =~= all);
    let body = encode(&fields);
    let mut out: Vec<u8> = Vec::new();
    out.push(TAG_TREE);
    crate::bytes::append_bytes(&mut out, body.as_slice());
    out
}

/// The entries of the tree that `bytes` is the stored form of, or `None`
/// where it is not the stored form of a tree.
pub fn parse_tree(bytes: &[u8]) -> (r: Option<Vec<TreeEntry>>)
    ensures
        r is Some <==> parsed_tree(bytes@) is Some,
        r is Some ==> entry_views(r.unwrap()@) == parsed_tree(bytes@).unwrap(),
{
    if bytes.len() == 0 || bytes[0] != TAG_TREE {
        return None;
    }
    let body = slice_subrange(bytes, 1, bytes.len());
    assert(body@ =~= bytes@.skip(1));
    let fields = match decode(body) {
        Some(fields) => fields,
        None => {
            return None;
        },
    };
    let ghost fs = views(fields@);
    assert(decoded(bytes@.skip(1)) == Some(fs));
    if fields.len() % 3 != 0 {
        return None;
    }
    let count = fields.len() / 3;
    let ghost es = entries_from(fs);
    let mut out: Vec<TreeEntry> = Vec::new();
    let mut k: usize = 0;
    while k < count
        invariant
            k <= count,
            count == fields@.len() / 3,
            bytes@.len() > 0 && bytes@[0] == TAG_TREE,
            decoded(bytes@.skip(1)) == Some(fs),
            fields@.len() % 3 == 0,
            fs == views(fields@),
            es == entries_from(fs),
            out@.len() == k,
            entry_views(out@) == es.take(k as int),
            entries_ok(es.take(k as int)),
            forall|m: int|
                0 <= m < k ==> (#[trigger] fs[3 * m]) == seq![0u8] || fs[3 * m] == seq![1u8],
        decreases count - k,
    {
        assert(3 * k + 2 < fields.len() <= usize::MAX);
        let kind_bytes = &fields[3 * k];
        let name = &fields[3 * k + 1];
        let hash_bytes = &fields[3 * k + 2];
        assert(fs[3 * k] == kind_bytes@ && fs[3 * k + 1] == name@ && fs[3 * k + 2]
            == hash_bytes@);
        if kind_bytes.len() != 1 || kind_bytes[0] > 1 {
            assert(seq![0u8].len() == 1 && seq![1u8].len() == 1);
            assert(seq![0u8][0] == 0 && seq![1u8][0] == 1);
            assert(!fields_are_tree(fs));
            return None;
        }
        let kind = if kind_bytes[0] == 1 {
            EntryKind::Directory
        } else {
            EntryKind::File
        };
        assert(kind_bytes@ =~= kind_field(kind));
        assert(seq![0u8][0] != seq![1u8][0]);
        if !crate::object::is_valid_name(name.as_slice()) {
            assert(!valid_name(es[k as int].name));
            assert(!entries_ok(es));
            return None;
        }
        let hash = match ContentHash::from_slice(hash_bytes.as_slice()) {
            Some(hash) => hash,
            None => {
                assert(es[k as int].hash.len() != 32);
                assert(!entries_ok(es));
                return None;
            },
        };
        if k > 0 {
            if !bytes_lt(out[k - 1].name.as_slice(), name.as_slice()) {
                assert(entry_views(out@)[k - 1] == es.take(k as int)[k - 1]);
                assert(!lex_lt(es[k - 1].name, es[k as int].name));
                assert(!ascending(es));
                return None;
            }
            assert(entry_views(out@)[k - 1] == es.take(k as int)[k - 1]);
        }
        let entry = TreeEntry { name: name.clone(), kind, hash };
        proof {
            assert(entry@ == es[k as int]);
            let next = es.take(k + 1);
            assert(entry_views(out@.push(entry)) =~= next);
            assert forall|i: int, j: int| 0 <= i < j < next.len() implies lex_lt(
                (#[trigger] next[i]).name,
                (#[trigger] next[j]).name,
            ) by {
                if j < k {
                    assert(next[i] == es.take(k as int)[i] && next[j] == es.take(k as int)[j]);
                } else if i < k - 1 {
                    assert(next[i] == es.take(k as int)[i]);
                    assert(es[k - 1] == es.take(k as int)[k - 1]);
                    lemma_lex_transitive(es[i].name, es[k - 1].name, es[k as int].name);
                }
            }
            assert forall|i: int| 0 <= i < next.len() implies valid_name(
                (#[trigger] next[i]).name,
            ) && next[i].hash.len() == 32 by {
                if i < k {
                    assert(next[i] == es.take(k as int)[i]);
                }
            }
        }
        out.push(entry);
        k = k + 1;
    }
    assert(es.take(count as int) =~= es);
    Some(out)
}

} // verus!
