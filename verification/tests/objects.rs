use vds::commit::{encode_commit, parse_commit, Commit};
use vds::error::Error;
use vds::graph::ancestors;
use vds::hash::ContentHash;
use vds::object::{
    encode_blob, encode_tree, is_valid_name, parse_blob, parse_tree, EntryKind, TreeEntry,
};
use vds::path::{extend_path, split_path};
use vds::refs::{
    encode_hash_record, encode_head, parse_hash_record, parse_head, Head, RefStore,
};
use vds::store::ObjectStore;
use vds::worktree::{build, hash_tree, materialize, tree_of_files, FileEntry};

fn file(path: &str, content: &str) -> FileEntry {
    FileEntry { path: path.as_bytes().to_vec(), content: content.as_bytes().to_vec() }
}

fn entry(name: &str, kind: EntryKind, of: &str) -> TreeEntry {
    TreeEntry { name: name.as_bytes().to_vec(), kind, hash: ContentHash::of(of.as_bytes()) }
}

#[test]
fn blob_is_the_kind_byte_and_the_content() {
    let blob = encode_blob(b"hello");
    assert_eq!(blob, b"Bhello".to_vec());
    assert_eq!(parse_blob(&blob), Some(b"hello".to_vec()));
    assert_eq!(parse_blob(b"Thello"), None);
    assert_eq!(parse_blob(b""), None);
}

#[test]
fn tree_entries_read_back() {
    let entries = vec![
        entry("a.txt", EntryKind::File, "1"),
        entry("src", EntryKind::Directory, "2"),
        entry("z", EntryKind::File, "3"),
    ];
    let bytes = encode_tree(&entries);
    assert_eq!(bytes[0], b'T');
    assert_eq!(parse_tree(&bytes), Some(entries));
}

#[test]
fn empty_tree_is_the_kind_byte_alone() {
    let bytes = encode_tree(&Vec::new());
    assert_eq!(bytes, b"T".to_vec());
    assert_eq!(parse_tree(&bytes), Some(Vec::new()));
}

#[test]
fn tree_with_unsorted_or_repeated_names_is_rejected() {
    let unsorted = vec![entry("b", EntryKind::File, "1"), entry("a", EntryKind::File, "2")];
    assert_eq!(parse_tree(&encode_tree(&unsorted)), None);
    let repeated = vec![entry("a", EntryKind::File, "1"), entry("a", EntryKind::File, "2")];
    assert_eq!(parse_tree(&encode_tree(&repeated)), None);
}

#[test]
fn tree_with_invalid_name_is_rejected() {
    let nested = vec![entry("a/b", EntryKind::File, "1")];
    assert_eq!(parse_tree(&encode_tree(&nested)), None);
    let unnamed = vec![entry("", EntryKind::File, "1")];
    assert_eq!(parse_tree(&encode_tree(&unnamed)), None);
}

#[test]
fn blob_and_commit_are_no_trees() {
    assert_eq!(parse_tree(b"Bhello"), None);
    assert_eq!(parse_tree(b""), None);
    assert_eq!(parse_tree(b"Txx"), None);
}

#[test]
fn names_are_valid_without_separator() {
    assert!(is_valid_name(b"a.txt"));
    assert!(!is_valid_name(b""));
    assert!(!is_valid_name(b"a/b"));
}

#[test]
fn commit_reads_back() {
    let commit = Commit {
        tree: ContentHash::of(b"tree"),
        parents: vec![ContentHash::of(b"one parent"), ContentHash::of(b"another parent")],
        message: b"a message".to_vec(),
        author: b"someone".to_vec(),
        timestamp: 1_700_000_000,
    };
    let bytes = encode_commit(&commit);
    assert_eq!(bytes[0], b'C');
    assert_eq!(parse_commit(&bytes), Some(commit));
}

#[test]
fn root_commit_has_no_parents() {
    let commit = Commit {
        tree: ContentHash::of(b"tree"),
        parents: Vec::new(),
        message: Vec::new(),
        author: Vec::new(),
        timestamp: 0,
    };
    let read = parse_commit(&encode_commit(&commit)).unwrap();
    assert_eq!(read.parents.len(), 0);
    assert_eq!(read.timestamp, 0);
}

#[test]
fn tree_and_blob_are_no_commits() {
    assert_eq!(parse_commit(b"Bhello"), None);
    assert_eq!(parse_commit(&encode_tree(&Vec::new())), None);
    assert_eq!(parse_commit(b"C"), None);
}

#[test]
fn paths_split_at_separators() {
    assert_eq!(split_path(b""), Some(Vec::new()));
    assert_eq!(split_path(b"a.txt"), Some(vec![b"a.txt".to_vec()]));
    assert_eq!(
        split_path(b"src/lib/mod.rs"),
        Some(vec![b"src".to_vec(), b"lib".to_vec(), b"mod.rs".to_vec()])
    );
    assert_eq!(split_path(b"/a"), None);
    assert_eq!(split_path(b"a/"), None);
    assert_eq!(split_path(b"a//b"), None);
    assert_eq!(extend_path(b"", b"a"), b"a".to_vec());
    assert_eq!(extend_path(b"a", b"b"), b"a/b".to_vec());
}

#[test]
fn head_records_read_back() {
    let attached = Head::Attached(b"main".to_vec());
    assert_eq!(encode_head(&attached), b"ref: refs/heads/main\n".to_vec());
    assert_eq!(parse_head(b"ref: refs/heads/main\n"), Some(attached));
    let hash = ContentHash::of(b"abc");
    let detached = Head::Detached(hash);
    let record = encode_head(&detached);
    assert_eq!(
        record,
        b"ba7816bf8f01cfea414140de5dae2223b00361a396177a9cb410ff61f20015ad\n".to_vec()
    );
    assert_eq!(parse_head(&record), Some(detached));
    assert_eq!(parse_head(b"ref: refs/heads/main"), None);
    assert_eq!(parse_head(b"ref: refs/heads/\n"), Some(Head::Attached(Vec::new())));
    assert_eq!(parse_head(b"nonsense\n"), None);
}

#[test]
fn hash_records_read_back() {
    let hash = ContentHash::of(b"abc");
    let record = encode_hash_record(&hash);
    assert_eq!(record.len(), 65);
    assert_eq!(parse_hash_record(&record), Some(hash));
    assert_eq!(parse_hash_record(&record[..64]), None);
}

#[test]
fn branch_names_are_unique() {
    let mut refs = RefStore::new();
    let first = ContentHash::of(b"1");
    let second = ContentHash::of(b"2");
    assert_eq!(refs.create_branch(b"main", first), Ok(()));
    assert_eq!(refs.create_branch(b"main", second), Err(Error::BranchExists));
    assert_eq!(refs.get(b"main"), Some(first));
    assert_eq!(refs.get(b"other"), None);
    refs.update_branch(b"main", second);
    assert_eq!(refs.get(b"main"), Some(second));
    refs.update_branch(b"dev", first);
    assert_eq!(refs.list_branches(), vec![b"main".to_vec(), b"dev".to_vec()]);
    assert_eq!(refs.len(), 2);
}

#[test]
fn building_twice_gives_the_same_hash() {
    let files = vec![file("a.txt", "hello"), file("src/main.rs", "fn main() {}")];
    let mut first = ObjectStore::new();
    let mut second = ObjectStore::new();
    second.put(b"something else".to_vec());
    let one = build(&mut first, &files).unwrap();
    let two = build(&mut second, &files).unwrap();
    let again = build(&mut first, &files).unwrap();
    assert_eq!(one, two);
    assert_eq!(one, again);
    assert_eq!(hash_tree(&tree_of_files(&files).unwrap()), one);
}

#[test]
fn building_again_stores_nothing_new() {
    let files = vec![file("a.txt", "hello"), file("b/c.txt", "hello"), file("b/d.txt", "x")];
    let mut store = ObjectStore::new();
    build(&mut store, &files).unwrap();
    // two distinct blobs, the tree of b, the root tree
    assert_eq!(store.len(), 4);
    build(&mut store, &files).unwrap();
    assert_eq!(store.len(), 4);
}

#[test]
fn equal_subdirectories_collapse_into_one_tree() {
    let files = vec![file("x/f", "same"), file("y/f", "same")];
    let mut store = ObjectStore::new();
    build(&mut store, &files).unwrap();
    // one blob, one tree for both x and y, the root tree
    assert_eq!(store.len(), 3);
}

#[test]
fn order_of_files_does_not_change_the_hash() {
    let forward = vec![file("a", "1"), file("b/c", "2"), file("b/d", "3")];
    let backward = vec![file("b/d", "3"), file("b/c", "2"), file("a", "1")];
    let mut store = ObjectStore::new();
    assert_eq!(build(&mut store, &forward), build(&mut store, &backward));
}

#[test]
fn changed_content_changes_the_hash() {
    let before = vec![file("a", "1"), file("b/c", "2")];
    let after = vec![file("a", "1"), file("b/c", "changed")];
    let mut store = ObjectStore::new();
    assert_ne!(build(&mut store, &before), build(&mut store, &after));
}

#[test]
fn materialize_gives_back_what_was_built() {
    let files = vec![
        file("a.txt", "hello"),
        file("docs/guide.md", "# guide"),
        file("src/lib.rs", ""),
        file("src/util/mod.rs", "pub fn f() {}"),
    ];
    let mut store = ObjectStore::new();
    store.put(b"unrelated".to_vec());
    let hash = build(&mut store, &files).unwrap();
    assert_eq!(materialize(&store, &hash), Ok(files));
}

#[test]
fn materialize_orders_files_by_name_within_each_directory() {
    let files = vec![file("b/z", "1"), file("a/y", "2"), file("b/a", "3")];
    let mut store = ObjectStore::new();
    let hash = build(&mut store, &files).unwrap();
    assert_eq!(
        materialize(&store, &hash),
        Ok(vec![file("a/y", "2"), file("b/a", "3"), file("b/z", "1")])
    );
}

#[test]
fn empty_snapshot_is_the_empty_tree() {
    let mut store = ObjectStore::new();
    let hash = build(&mut store, &Vec::new()).unwrap();
    assert_eq!(hash, ContentHash::of(b"T"));
    assert_eq!(materialize(&store, &hash), Ok(Vec::new()));
}

#[test]
fn build_rejects_invalid_paths_and_stores_nothing() {
    let mut store = ObjectStore::new();
    assert_eq!(build(&mut store, &vec![file("a", "1"), file("", "2")]), Err(Error::PathNotFound));
    assert_eq!(build(&mut store, &vec![file("a//b", "1")]), Err(Error::PathNotFound));
    assert_eq!(store.len(), 0);
}

#[test]
fn materialize_of_missing_tree_is_corrupt_object() {
    let store = ObjectStore::new();
    assert_eq!(materialize(&store, &ContentHash::of(b"nothing")), Err(Error::CorruptObject));
}

#[test]
fn materialize_of_a_blob_is_corrupt_object() {
    let mut store = ObjectStore::new();
    let hash = store.put(encode_blob(b"content"));
    assert_eq!(materialize(&store, &hash), Err(Error::CorruptObject));
}

#[test]
fn materialize_with_missing_blob_is_corrupt_object() {
    let mut store = ObjectStore::new();
    let entries = vec![entry("a.txt", EntryKind::File, "never stored")];
    let hash = store.put(encode_tree(&entries));
    assert_eq!(materialize(&store, &hash), Err(Error::CorruptObject));
}

#[test]
fn materialize_with_tree_stored_after_its_parent_is_corrupt_object() {
    let mut store = ObjectStore::new();
    let child = encode_tree(&Vec::new());
    let parent = vec![TreeEntry {
        name: b"d".to_vec(),
        kind: EntryKind::Directory,
        hash: ContentHash::of(&child),
    }];
    let hash = store.put(encode_tree(&parent));
    store.put(child);
    assert_eq!(materialize(&store, &hash), Err(Error::CorruptObject));
}

#[test]
fn history_walks_parents_depth_first_without_repeats() {
    let mut store = ObjectStore::new();
    let tree = store.put(encode_tree(&Vec::new()));
    let mut put = |parents: Vec<ContentHash>, message: &str| {
        store.put(encode_commit(&Commit {
            tree,
            parents,
            message: message.as_bytes().to_vec(),
            author: b"me".to_vec(),
            timestamp: 1,
        }))
    };
    let root = put(Vec::new(), "root");
    let left = put(vec![root], "left");
    let right = put(vec![root], "right");
    let merge = put(vec![left, right], "merge");
    assert_eq!(ancestors(&store, &merge), vec![merge, left, root, right]);
    assert_eq!(ancestors(&store, &left), vec![left, root]);
    assert_eq!(ancestors(&store, &root), vec![root]);
    assert_eq!(ancestors(&store, &tree), Vec::new());
    assert_eq!(ancestors(&store, &ContentHash::of(b"absent")), Vec::new());
}

#[test]
fn references_of_a_tree_must_be_stored() {
    let mut store = ObjectStore::new();
    let blob = store.put(encode_blob(b"content"));
    let held = vec![TreeEntry { name: b"f".to_vec(), kind: EntryKind::File, hash: blob }];
    assert!(vds::persist::check_references(&store, &encode_tree(&held)));
    let dangling = vec![entry("f", EntryKind::File, "never stored")];
    assert!(!vds::persist::check_references(&store, &encode_tree(&dangling)));
    assert!(vds::persist::check_references(&store, &encode_blob(b"refers to nothing")));
    let commit = Commit {
        tree: blob,
        parents: vec![ContentHash::of(b"no parent")],
        message: Vec::new(),
        author: Vec::new(),
        timestamp: 0,
    };
    assert!(!vds::persist::check_references(&store, &encode_commit(&commit)));
}

#[test]
fn a_store_opens_from_its_objects_in_order() {
    let files = vec![file("a", "1"), file("d/b", "2")];
    let mut store = ObjectStore::new();
    build(&mut store, &files).unwrap();
    let objects: Vec<Vec<u8>> = (0..store.len()).map(|i| store.object_at(i).clone()).collect();
    let opened = vds::persist::open_store(&objects).unwrap();
    assert_eq!(opened.len(), store.len());
    assert!(vds::persist::check_readable(&opened));
    let mut reversed = objects.clone();
    reversed.reverse();
    assert_eq!(vds::persist::open_store(&reversed).err(), Some(Error::CorruptObject));
}

#[test]
fn a_file_is_found_in_a_tree_by_its_path() {
    let files = vec![file("a", "1"), file("d/b", "2")];
    let tree = tree_of_files(&files).unwrap();
    let path = vec![b"d".to_vec(), b"b".to_vec()];
    assert_eq!(
        vds::lookup::find_file(&tree, &path),
        Some(ContentHash::of(&encode_blob(b"2")))
    );
    assert_eq!(vds::lookup::find_file(&tree, &vec![b"d".to_vec()]), None);
    assert_eq!(vds::lookup::find_file(&tree, &vec![b"x".to_vec()]), None);
    assert_eq!(vds::lookup::find_file(&tree, &Vec::new()), None);
}
