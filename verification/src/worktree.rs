//! Directory snapshots as lists of files, and the trees they stand for.
//!
//! A snapshot lists the files below a directory, each with its path relative
//! to that directory and its content. Building a snapshot stores its blobs
//! and trees; materializing a tree gives the snapshot back.

use crate::canon::canonical;
use crate::canon::lemma_inserted_canonical;
use crate::error::Error;
use crate::hash::content_hash;
use crate::hash::ContentHash;
use crate::integrity::leaves_held;
use crate::integrity::lemma_inserted_held;
use crate::object::blob_bytes;
use crate::object::encode_blob;
use crate::object::encode_tree;
use crate::object::entry_views;
use crate::object::parse_blob;
use crate::object::Entry;
use crate::object::EntryKind;
use crate::object::TreeEntry;
use crate::object::TAG_BLOB;
use crate::path::components;
use crate::path::split_path;
use crate::path::valid_path;
use crate::store::holds;
use crate::store::lookup;
use crate::store::stored;
use crate::store::ObjectStore;
use crate::tree::child_views;
use crate::tree::empty_dir;
use crate::tree::entries_of;
use crate::tree::flatten;
use crate::tree::flattened;
use crate::tree::insert_at;
use crate::tree::inserted;
use crate::tree::lemma_dir_hash;
use crate::tree::lemma_dir_view;
use crate::tree::load;
use crate::tree::loaded_tree;
use crate::tree::store_tree;
use crate::tree::stored_all;
use crate::tree::tree_hash;
use crate::tree::tree_objects;
use crate::tree::Child;
use crate::tree::Node;
use crate::tree::NodeEntry;
use crate::tree::Tree;
use vstd::prelude::*;

verus! {

/// One file of a snapshot, as a mathematical value.
pub struct FileView {
    pub path: Seq<u8>,
    pub content: Seq<u8>,
}

/// One file of a snapshot: its path and its content.
#[derive(Clone, Debug, PartialEq, Eq)]
pub struct FileEntry {
    pub path: Vec<u8>,
    pub content: Vec<u8>,
}

impl View for FileEntry {
    type V = FileView;

    open spec fn view(&self) -> FileView {
        FileView { path: self.path@, content: self.content@ }
    }
}

/// The views of a list of files.
pub open spec fn file_views(files: Seq<FileEntry>) -> Seq<FileView> {
    Seq::new(files.len(), |i: int| files[i]@)
}

/// The hash under which a file's content is stored.
pub open spec fn blob_hash(content: Seq<u8>) -> Seq<u8> {
    content_hash(blob_bytes(content))
}

/// The entry that stands for a file: its path, and the hash of its blob.
pub open spec fn file_entry(file: FileView) -> Entry {
    Entry { name: file.path, kind: EntryKind::File, hash: blob_hash(file.content) }
}

/// The entries that stand for a list of files.
pub open spec fn file_entries(files: Seq<FileView>) -> Seq<Entry> {
    Seq::new(files.len(), |i: int| file_entry(files[i]))
}

/// The stored forms of the contents of a list of files.
pub open spec fn blobs(files: Seq<FileView>) -> Seq<Seq<u8>> {
    Seq::new(files.len(), |i: int| blob_bytes(files[i].content))
}

/// Whether every entry has a path that is not empty and is made of valid
/// names.
pub open spec fn groupable(entries: Seq<Entry>) -> bool {
    forall|i: int|
        0 <= i < entries.len() ==> (#[trigger] entries[i]).name.len() > 0 && valid_path(
            entries[i].name,
        )
}

/// The tree that a list of file entries stands for: each file put at its
/// path in turn, starting from the empty directory.
pub open spec fn grouped(entries: Seq<Entry>) -> Tree
    decreases entries.len(),
{
    if entries.len() == 0 {
        empty_dir()
    } else {
        inserted(
            grouped(entries.drop_last()),
            components(entries.last().name),
            Tree::File(entries.last().hash),
        )
    }
}

/// The tree that a snapshot stands for.
pub open spec fn snapshot_tree(files: Seq<FileView>) -> Tree {
    grouped(file_entries(files))
}

/// The hash of the tree that a snapshot stands for. It depends on the
/// snapshot alone.
pub open spec fn snapshot_hash(files: Seq<FileView>) -> Seq<u8> {
    tree_hash(snapshot_tree(files))
}

/// The tree of a list of entries is a canonical directory, and its files
/// are stored where the entries' hashes are.
pub proof fn lemma_grouped(objects: Seq<Seq<u8>>, entries: Seq<Entry>)
    requires
        groupable(entries),
        forall|i: int| 0 <= i < entries.len() ==> (#[trigger] entries[i]).hash.len() == 32,
    ensures
        grouped(entries) is Dir,
        canonical(grouped(entries)),
        (forall|i: int| 0 <= i < entries.len() ==> holds(objects, (#[trigger] entries[i]).hash))
            ==> leaves_held(objects, grouped(entries)),
    decreases entries.len(),
{
    if entries.len() > 0 {
        let before = entries.drop_last();
        let last = entries.last();
        assert forall|i: int| 0 <= i < before.len() implies (#[trigger] before[i]).name.len() > 0
            && valid_path(before[i].name) && before[i].hash.len() == 32 by {
            assert(before[i] == entries[i]);
        }
        lemma_grouped(objects, before);
        assert(last == entries[entries.len() - 1]);
        assert(components(last.name).len() > 0) by {
            crate::path::lemma_split_nonempty(last.name);
        }
        lemma_inserted_canonical(
            grouped(before),
            components(last.name),
            Tree::File(last.hash),
        );
        if forall|i: int| 0 <= i < entries.len() ==> holds(objects, (#[trigger] entries[i]).hash) {
            assert forall|i: int| 0 <= i < before.len() implies holds(
                objects,
                (#[trigger] before[i]).hash,
            ) by {
                assert(before[i] == entries[i]);
            }
            lemma_inserted_held(
                objects,
                grouped(before),
                components(last.name),
                Tree::File(last.hash),
            );
        }
    }
}

/// Groups file entries into the tree they stand for, or reports that some
/// path is empty or holds an invalid name.
pub fn group(entries: &Vec<TreeEntry>) -> (r: Option<Node>)
    ensures
        r is Some <==> groupable(entry_views(entries@)),
        r is Some ==> r.unwrap()@ == grouped(entry_views(entries@)),
{
    let ghost all = entry_views(entries@);
    let none: Vec<NodeEntry> = Vec::new();
    proof {
        lemma_dir_view(none);
        assert(child_views(none@) =~= Seq::<Child>::empty());
        assert(all.take(0) =~= Seq::<Entry>::empty());
    }
    let mut node = Node::Dir(none);
    let mut i: usize = 0;
    while i < entries.len()
        invariant
            i <= entries.len(),
            all == entry_views(entries@),
            groupable(all.take(i as int)),
            node@ == grouped(all.take(i as int)),
        decreases entries.len() - i,
    {
        let entry = &entries[i];
        assert(all[i as int] == entry@);
        if entry.name.len() == 0 {
            return None;
        }
        let path = match split_path(entry.name.as_slice()) {
            Some(path) => path,
            None => {
                return None;
            },
        };
        proof {
            let next = all.take(i + 1);
            assert(next.drop_last() =~= all.take(i as int));
            assert(next.last() == entry@);
            assert(crate::codec::views(path@).skip(0) =~= crate::codec::views(path@));
            assert forall|j: int| 0 <= j < next.len() implies (#[trigger] next[j]).name.len() > 0
                && valid_path(next[j].name) by {
                if j < i {
                    assert(next[j] == all.take(i as int)[j]);
                }
            }
        }
        node = insert_at(node, &path, 0, Node::File(entry.hash));
        i = i + 1;
    }
    assert(all.take(entries@.len() as int) =~= all);
    Some(node)
}

/// The entries that stand for the files of a snapshot: each file's path
/// with the hash of its blob.
pub fn entries_of_files(files: &Vec<FileEntry>) -> (out: Vec<TreeEntry>)
    ensures
        entry_views(out@) == file_entries(file_views(files@)),
{
    let mut out: Vec<TreeEntry> = Vec::new();
    let mut i: usize = 0;
    let ghost want = file_entries(file_views(files@));
    while i < files.len()
        invariant
            i <= files.len(),
            want == file_entries(file_views(files@)),
            out@.len() == i,
            forall|j: int| 0 <= j < i ==> (#[trigger] out@[j])@ == want[j],
        decreases files.len() - i,
    {
        let file = &files[i];
        let blob = encode_blob(file.content.as_slice());
        let entry = TreeEntry {
            name: file.path.clone(),
            kind: EntryKind::File,
            hash: ContentHash::of(blob.as_slice()),
        };
        assert(entry@ == want[i as int]);
        out.push(entry);
        i = i + 1;
    }
    assert(entry_views(out@) =~= want);
    out
}

/// The tree that a snapshot stands for, or `None` where a path in it is
/// empty or holds an invalid name. Nothing is stored.
pub fn tree_of_files(files: &Vec<FileEntry>) -> (r: Option<Node>)
    ensures
        r is Some <==> groupable(file_entries(file_views(files@))),
        r is Some ==> r.unwrap()@ == snapshot_tree(file_views(files@)),
{
    let entries = entries_of_files(files);
    group(&entries)
}

/// Stores the content of every file of a snapshot as a blob.
pub fn store_blobs(store: &mut ObjectStore, files: &Vec<FileEntry>)
    requires
        old(store).wf(),
    ensures
        final(store).wf(),
        final(store)@ == stored_all(old(store)@, blobs(file_views(files@))),
{
    let ghost before = store@;
    let ghost all = blobs(file_views(files@));
    let mut i: usize = 0;
    assert(all.take(0) =~= Seq::<Seq<u8>>::empty());
    while i < files.len()
        invariant
            i <= files.len(),
            all == blobs(file_views(files@)),
            store.wf(),
            store@ == stored_all(before, all.take(i as int)),
        decreases files.len() - i,
    {
        let blob = encode_blob(files[i].content.as_slice());
        proof {
            let next = all.take(i + 1);
            assert(next.drop_last() =~= all.take(i as int));
            assert(next.last() == blob@);
        }
        let _ = store.put(blob);
        i = i + 1;
    }
    assert(all.take(files@.len() as int) =~= all);
}

/// The hash of a tree, computed without storing anything.
pub fn hash_tree(node: &Node) -> (hash: ContentHash)
    ensures
        hash@ == tree_hash(node@),
    decreases node,
{
    match node {
        Node::File(hash) => *hash,
        Node::Dir(children) => {
            let ghost cs = child_views(children@);
            proof {
                lemma_dir_view(*children);
                lemma_dir_hash(cs);
            }
            let mut entries: Vec<TreeEntry> = Vec::new();
            let mut i: usize = 0;
            while i < children.len()
                invariant
                    i <= children.len(),
                    node is Dir,
                    node->Dir_0 == *children,
                    cs == child_views(children@),
                    entries@.len() == i,
                    forall|j: int| 0 <= j < i ==> (#[trigger] entries@[j])@ == entries_of(cs)[j],
                decreases children.len() - i,
            {
                let child = &children[i];
                proof {
                    broadcast use vstd::std_specs::vec::group_vec_axioms;

                    assert(decreases_to!(*node => node->Dir_0));
                    assert(decreases_to!(*children => children@));
                    assert(decreases_to!(children@ => children@[i as int]));
                    assert(decreases_to!(children@[i as int] => children@[i as int].node));
                    assert(cs[i as int] == child@);
                }
                let hash = hash_tree(&child.node);
                let entry = TreeEntry { name: child.name.clone(), kind: child.node.kind(), hash };
                entries.push(entry);
                i = i + 1;
            }
            assert(entry_views(entries@) =~= entries_of(cs));
            let bytes = encode_tree(&entries);
            ContentHash::of(bytes.as_slice())
        },
    }
}

/// Builds a snapshot: stores the content of each file as a blob and each
/// directory as a tree, and returns the hash of the root tree. The hash
/// depends on the snapshot alone. Fails, and stores nothing, where a path
/// in the snapshot is empty or holds an invalid name.
pub fn build(store: &mut ObjectStore, files: &Vec<FileEntry>) -> (r: Result<ContentHash, Error>)
    requires
        old(store).wf(),
    ensures
        final(store).wf(),
        match r {
            Ok(hash) => {
                &&& groupable(file_entries(file_views(files@)))
                &&& hash@ == snapshot_hash(file_views(files@))
                &&& final(store)@ == stored_all(
                    stored_all(old(store)@, blobs(file_views(files@))),
                    tree_objects(snapshot_tree(file_views(files@))),
                )
            },
            Err(e) => {
                &&& e == Error::PathNotFound
                &&& !groupable(file_entries(file_views(files@)))
                &&& final(store)@ == old(store)@
            },
        },
{
    match tree_of_files(files) {
        Some(node) => {
            store_blobs(store, files);
            Ok(store_tree(store, &node))
        },
        None => Err(Error::PathNotFound),
    }
}

/// The files that a list of entries names, each with the content stored
/// under its hash; `None` where a blob is missing or is no blob.
pub open spec fn contents(objects: Seq<Seq<u8>>, entries: Seq<Entry>) -> Option<Seq<FileView>>
    decreases entries.len(),
{
    if entries.len() == 0 {
        Some(Seq::empty())
    } else {
        match contents(objects, entries.drop_last()) {
            None => None,
            Some(done) => {
                let entry = entries.last();
                if holds(objects, entry.hash) && lookup(objects, entry.hash).len() > 0 && lookup(
                    objects,
                    entry.hash,
                )[0] == TAG_BLOB {
                    Some(
                        done.push(
                            FileView {
                                path: entry.name,
                                content: lookup(objects, entry.hash).skip(1),
                            },
                        ),
                    )
                } else {
                    None
                }
            },
        }
    }
}

/// The snapshot that the tree stored under `hash` stands for.
pub open spec fn materialized(objects: Seq<Seq<u8>>, hash: Seq<u8>) -> Option<Seq<FileView>> {
    match loaded_tree(objects, hash) {
        None => None,
        Some(tree) => contents(objects, flattened(tree, Seq::empty())),
    }
}

/// Once a blob cannot be read, the files cannot be read.
pub proof fn lemma_contents_none(objects: Seq<Seq<u8>>, entries: Seq<Entry>, count: int)
    requires
        0 <= count <= entries.len(),
        contents(objects, entries.take(count)) is None,
    ensures
        contents(objects, entries) is None,
    decreases entries.len() - count,
{
    if count < entries.len() {
        assert(entries.take(count + 1).drop_last() =~= entries.take(count));
        lemma_contents_none(objects, entries, count + 1);
    } else {
        assert(entries.take(count) =~= entries);
    }
}

/// Reads the files that `entries` name from the store.
pub fn read_files(store: &ObjectStore, entries: &Vec<TreeEntry>) -> (r: Result<
    Vec<FileEntry>,
    Error,
>)
    requires
        store.wf(),
    ensures
        match r {
            Ok(files) => contents(store@, entry_views(entries@)) == Some(file_views(files@)),
            Err(e) => e == Error::CorruptObject && contents(store@, entry_views(entries@))
                is None,
        },
{
    let ghost all = entry_views(entries@);
    let mut out: Vec<FileEntry> = Vec::new();
    let mut i: usize = 0;
    proof {
        assert(all.take(0) =~= Seq::<Entry>::empty());
        assert(file_views(out@) =~= Seq::<FileView>::empty());
    }
    while i < entries.len()
        invariant
            i <= entries.len(),
            store.wf(),
            all == entry_views(entries@),
            contents(store@, all.take(i as int)) == Some(file_views(out@)),
        decreases entries.len() - i,
    {
        let entry = &entries[i];
        proof {
            let next = all.take(i + 1);
            assert(next.drop_last() =~= all.take(i as int));
            assert(next.last() == entry@);
        }
        let content = match store.get(&entry.hash) {
            Ok(bytes) => match parse_blob(bytes.as_slice()) {
                Some(content) => {
                    assert(content@ =~= bytes@.skip(1)) by {
                        assert(blob_bytes(content@).skip(1) =~= content@);
                    }
                    content
                },
                None => {
                    proof {
                        lemma_contents_none(store@, all, i + 1);
                    }
                    return Err(Error::CorruptObject);
                },
            },
            Err(_) => {
                proof {
                    lemma_contents_none(store@, all, i + 1);
                }
                return Err(Error::CorruptObject);
            },
        };
        let file = FileEntry { path: entry.name.clone(), content };
        assert(file_views(out@.push(file)) =~= file_views(out@).push(file@));
        out.push(file);
        i = i + 1;
    }
    assert(all.take(entries@.len() as int) =~= all);
    Ok(out)
}

/// Materializes the tree stored under `hash`: reads it, every directory in
/// it and the content of every file, and returns the files in order. Fails
/// where an object that is needed is missing or is not what it should be.
pub fn materialize(store: &ObjectStore, hash: &ContentHash) -> (r: Result<Vec<FileEntry>, Error>)
    requires
        store.wf(),
    ensures
        match r {
            Ok(files) => materialized(store@, hash@) == Some(file_views(files@)),
            Err(e) => e == Error::CorruptObject && materialized(store@, hash@) is None,
        },
{
    let node = match load(store, hash) {
        Ok(node) => node,
        Err(_) => {
            return Err(Error::CorruptObject);
        },
    };
    let mut entries: Vec<TreeEntry> = Vec::new();
    let root: Vec<u8> = Vec::new();
    assert(entry_views(entries@) =~= Seq::<Entry>::empty());
    flatten(&node, root.as_slice(), &mut entries);
    assert(entry_views(entries@) =~= flattened(node@, Seq::empty()));
    read_files(store, &entries)
}

/// Whether a snapshot lists its files in the order of its tree: by name
/// within each directory, a directory's files together.
pub open spec fn in_tree_order(files: Seq<FileView>) -> bool {
    flattened(snapshot_tree(files), Seq::empty()) == file_entries(files)
}

/// Where the blob of each file is what the store holds under its hash, the
/// files are read back with their contents.
pub proof fn lemma_contents_of_files(objects: Seq<Seq<u8>>, files: Seq<FileView>)
    requires
        crate::integrity::kept(objects, blobs(files)),
    ensures
        contents(objects, file_entries(files)) == Some(files),
    decreases files.len(),
{
    let entries = file_entries(files);
    if files.len() > 0 {
        let before = files.drop_last();
        assert(blobs(files) =~= blobs(before) + seq![blob_bytes(files.last().content)]);
        crate::integrity::lemma_kept_part(
            objects,
            blobs(before),
            seq![blob_bytes(files.last().content)],
        );
        lemma_contents_of_files(objects, before);
        assert(entries.drop_last() =~= file_entries(before));
        let last = entries.last();
        assert(last == file_entry(files.last()));
        let blob = blob_bytes(files.last().content);
        assert(blobs(files)[files.len() - 1] == blob);
        assert(lookup(objects, last.hash) == blob);
        assert(blob.skip(1) =~= files.last().content);
        assert(before.push(files.last()) =~= files);
    } else {
        assert(files =~= Seq::<FileView>::empty());
    }
}

/// Materializing what was built gives the snapshot back, file for file and
/// byte for byte, provided that the snapshot lists its files in the order
/// of its tree and that the store holds nothing else under the hash of any
/// object that was built.
pub proof fn lemma_build_materializes(objects: Seq<Seq<u8>>, files: Seq<FileView>)
    requires
        crate::store::distinct(objects),
        crate::graph::ranked(objects),
        groupable(file_entries(files)),
        in_tree_order(files),
        crate::integrity::kept(
            stored_all(
                stored_all(objects, blobs(files)),
                tree_objects(snapshot_tree(files)),
            ),
            blobs(files) + tree_objects(snapshot_tree(files)),
        ),
    ensures
        materialized(
            stored_all(
                stored_all(objects, blobs(files)),
                tree_objects(snapshot_tree(files)),
            ),
            snapshot_hash(files),
        ) == Some(files),
{
    let tree = snapshot_tree(files);
    let data = blobs(files);
    let mid = stored_all(objects, data);
    let after = stored_all(mid, tree_objects(tree));
    assert forall|i: int| 0 <= i < data.len() implies crate::graph::references(
        #[trigger] data[i],
    ).len() == 0 by {
        crate::integrity::lemma_blob_references(files[i].content);
    }
    crate::integrity::lemma_store_plain(objects, data);
    let entries = file_entries(files);
    assert forall|i: int| 0 <= i < entries.len() implies (#[trigger] entries[i]).hash.len() == 32
        && holds(mid, entries[i].hash) by {
        assert(holds(mid, content_hash(data[i])));
    }
    lemma_grouped(mid, entries);
    crate::integrity::lemma_kept_part(after, data, tree_objects(tree));
    crate::integrity::lemma_stored_tree_loads(mid, tree);
    lemma_contents_of_files(after, files);
}

} // verus!
