use vds::commit::{encode_commit, parse_commit, Commit};
use vds::error::Error;
use vds::hash::ContentHash;
use vds::object::{encode_blob, EntryKind, TreeEntry};
use vds::persist::{open, save, BranchRecord, Saved};
use vds::refs::Head;
use vds::repo::{BranchInfo, Found, Repository};
use vds::worktree::FileEntry;

fn file(path: &str, content: &str) -> FileEntry {
    FileEntry { path: path.as_bytes().to_vec(), content: content.as_bytes().to_vec() }
}

fn found_file(content: &str) -> Found {
    Found::File(content.as_bytes().to_vec())
}

fn parents_of(repo: &Repository, commit: &ContentHash) -> Vec<ContentHash> {
    parse_commit(&repo.store().get(commit).unwrap()).unwrap().parents
}

/// A repository with two commits on `main`, and its working directory.
fn two_commits() -> (Repository, ContentHash, ContentHash, Vec<FileEntry>) {
    let mut repo = Repository::init(false).unwrap();
    repo.add(b"a.txt", &found_file("hello")).unwrap();
    let first = repo.commit(b"first", b"me", 1).unwrap();
    repo.add(b"b.txt", &found_file("world")).unwrap();
    let second = repo.commit(b"second", b"me", 2).unwrap();
    (repo, first, second, vec![file("a.txt", "hello"), file("b.txt", "world")])
}

#[test]
fn init_creates_an_empty_repository_on_main() {
    let repo = Repository::init(false).unwrap();
    assert_eq!(repo.get_head(), &Head::Attached(b"main".to_vec()));
    assert_eq!(repo.store().len(), 0);
    assert_eq!(repo.index().snapshot(), Vec::new());
    assert_eq!(repo.list_branches(), Vec::new());
    assert_eq!(repo.log(), Vec::new());
    assert_eq!(repo.head_commit(), None);
}

#[test]
fn init_on_existing_layout_is_already_initialized() {
    assert_eq!(Repository::init(true).err(), Some(Error::AlreadyInitialized));
}

#[test]
fn scenario_init_add_commit_log() {
    let mut repo = Repository::init(false).unwrap();
    assert_eq!(repo.get_head(), &Head::Attached(b"main".to_vec()));

    assert_eq!(repo.add(b"a.txt", &found_file("hello")), Ok(()));
    assert_eq!(
        repo.index().snapshot(),
        vec![TreeEntry {
            name: b"a.txt".to_vec(),
            kind: EntryKind::File,
            hash: ContentHash::of(&encode_blob(b"hello")),
        }]
    );

    let first = repo.commit(b"first", b"me", 1).unwrap();
    assert_eq!(parents_of(&repo, &first), Vec::new());
    assert_eq!(repo.refs().get(b"main"), Some(first));
    assert_eq!(repo.get_head(), &Head::Attached(b"main".to_vec()));

    assert_eq!(repo.add(b"b.txt", &found_file("world")), Ok(()));
    let second = repo.commit(b"second", b"me", 2).unwrap();
    assert_eq!(parents_of(&repo, &second), vec![first]);
    assert_eq!(repo.refs().get(b"main"), Some(second));

    assert_eq!(repo.log(), vec![second, first]);
}

#[test]
fn scenario_branch_and_checkout() {
    let (mut repo, _, second, workdir) = two_commits();
    assert_eq!(repo.branch(b"feature"), Ok(()));
    assert_eq!(repo.refs().get(b"feature"), Some(second));
    assert_eq!(repo.get_head(), &Head::Attached(b"main".to_vec()));

    let files = repo.checkout(b"feature", &workdir).unwrap();
    assert_eq!(repo.get_head(), &Head::Attached(b"feature".to_vec()));
    assert_eq!(files, workdir);
    assert_eq!(repo.refs().get(b"main"), Some(second));
}

#[test]
fn scenario_nothing_to_commit() {
    let (mut repo, _, second, _) = two_commits();
    let objects = repo.store().len();
    assert_eq!(repo.commit(b"again", b"me", 3), Err(Error::NothingToCommit));
    assert_eq!(repo.refs().get(b"main"), Some(second));
    assert_eq!(repo.store().len(), objects);
}

#[test]
fn first_commit_of_nothing_is_nothing_to_commit() {
    let mut repo = Repository::init(false).unwrap();
    assert_eq!(repo.commit(b"empty", b"me", 1), Err(Error::NothingToCommit));
    assert_eq!(repo.list_branches(), Vec::new());
}

#[test]
fn scenario_unknown_branch() {
    let (mut repo, _, second, workdir) = two_commits();
    let staged = repo.index().snapshot();
    assert_eq!(repo.checkout(b"doesnotexist", &workdir), Err(Error::UnknownReference));
    assert_eq!(repo.get_head(), &Head::Attached(b"main".to_vec()));
    assert_eq!(repo.index().snapshot(), staged);
    assert_eq!(repo.refs().get(b"main"), Some(second));
}

#[test]
fn checkout_with_an_edited_file_is_uncommitted_changes() {
    let (mut repo, first, _, _) = two_commits();
    let edited = vec![file("a.txt", "hello, edited"), file("b.txt", "world")];
    let staged = repo.index().snapshot();
    assert_eq!(repo.checkout(&first.to_hex(), &edited), Err(Error::UncommittedChanges));
    assert_eq!(repo.get_head(), &Head::Attached(b"main".to_vec()));
    assert_eq!(repo.index().snapshot(), staged);
}

#[test]
fn checkout_with_an_untracked_or_missing_file_is_uncommitted_changes() {
    let (mut repo, first, _, workdir) = two_commits();
    let mut more = workdir.clone();
    more.push(file("c.txt", "new"));
    assert_eq!(repo.checkout(&first.to_hex(), &more), Err(Error::UncommittedChanges));
    let fewer = vec![file("a.txt", "hello")];
    assert_eq!(repo.checkout(&first.to_hex(), &fewer), Err(Error::UncommittedChanges));
}

#[test]
fn dirty_check_comes_before_the_target_is_resolved() {
    let (mut repo, _, _, _) = two_commits();
    let edited = vec![file("a.txt", "edited")];
    assert_eq!(repo.checkout(b"doesnotexist", &edited), Err(Error::UncommittedChanges));
}

#[test]
fn checkout_of_an_older_commit_detaches_the_head() {
    let (mut repo, first, second, workdir) = two_commits();
    let files = repo.checkout(&first.to_hex(), &workdir).unwrap();
    assert_eq!(files, vec![file("a.txt", "hello")]);
    assert_eq!(repo.get_head(), &Head::Detached(first));
    assert_eq!(repo.refs().get(b"main"), Some(second));
    assert_eq!(repo.log(), vec![first]);
    assert_eq!(
        repo.index().snapshot(),
        vec![TreeEntry {
            name: b"a.txt".to_vec(),
            kind: EntryKind::File,
            hash: ContentHash::of(&encode_blob(b"hello")),
        }]
    );
    // nothing was staged since: the index is the tree of the commit
    assert_eq!(repo.commit(b"again", b"me", 3), Err(Error::NothingToCommit));
    // and back
    let back = repo.checkout(b"main", &files).unwrap();
    assert_eq!(back, workdir);
    assert_eq!(repo.get_head(), &Head::Attached(b"main".to_vec()));
}

#[test]
fn checkout_by_the_beginning_of_a_hash() {
    let (mut repo, first, _, workdir) = two_commits();
    let text = first.to_hex();
    assert_eq!(repo.find_commit(&text[..8]), Some(first));
    assert_eq!(repo.find_commit(b""), None);
    assert_eq!(repo.find_commit(b"zz"), None);
    repo.checkout(&text[..8], &workdir).unwrap();
    assert_eq!(repo.get_head(), &Head::Detached(first));
}

#[test]
fn a_branch_name_is_tried_before_a_hash() {
    let (mut repo, first, second, workdir) = two_commits();
    let text = first.to_hex();
    // a branch named like the beginning of the first commit's hash, at the second commit
    assert_eq!(repo.branch(&text[..6]), Ok(()));
    repo.checkout(&text[..6], &workdir).unwrap();
    assert_eq!(repo.get_head(), &Head::Attached(text[..6].to_vec()));
    assert_eq!(repo.head_commit(), Some(second));
}

#[test]
fn commit_on_a_detached_head_moves_the_head_only() {
    let (mut repo, first, second, workdir) = two_commits();
    let files = repo.checkout(&first.to_hex(), &workdir).unwrap();
    assert_eq!(files.len(), 1);
    repo.add(b"c.txt", &found_file("third")).unwrap();
    let third = repo.commit(b"third", b"me", 3).unwrap();
    assert_eq!(repo.get_head(), &Head::Detached(third));
    assert_eq!(repo.refs().get(b"main"), Some(second));
    assert_eq!(parents_of(&repo, &third), vec![first]);
    assert_eq!(repo.log(), vec![third, first]);
}

#[test]
fn branch_with_a_taken_name_is_branch_exists() {
    let (mut repo, _, _, _) = two_commits();
    assert_eq!(repo.branch(b"feature"), Ok(()));
    assert_eq!(repo.branch(b"feature"), Err(Error::BranchExists));
    assert_eq!(repo.branch(b"main"), Err(Error::BranchExists));
}

#[test]
fn branch_before_the_first_commit_is_unknown_reference() {
    let mut repo = Repository::init(false).unwrap();
    assert_eq!(repo.branch(b"feature"), Err(Error::UnknownReference));
    assert_eq!(repo.list_branches(), Vec::new());
}

#[test]
fn branches_are_listed_with_the_current_one_marked() {
    let (mut repo, _, second, workdir) = two_commits();
    repo.branch(b"feature").unwrap();
    assert_eq!(
        repo.list_branches(),
        vec![
            BranchInfo { name: b"main".to_vec(), target: second, current: true },
            BranchInfo { name: b"feature".to_vec(), target: second, current: false },
        ]
    );
    repo.checkout(b"feature", &workdir).unwrap();
    let listed = repo.list_branches();
    assert!(!listed[0].current);
    assert!(listed[1].current);
}

#[test]
fn commits_on_a_branch_leave_the_other_branch_behind() {
    let (mut repo, first, second, workdir) = two_commits();
    repo.branch(b"feature").unwrap();
    repo.checkout(b"feature", &workdir).unwrap();
    repo.add(b"c.txt", &found_file("on feature")).unwrap();
    let third = repo.commit(b"third", b"me", 3).unwrap();
    assert_eq!(repo.refs().get(b"feature"), Some(third));
    assert_eq!(repo.refs().get(b"main"), Some(second));
    assert_eq!(repo.log(), vec![third, second, first]);
    assert!(!repo.log()[1..].contains(&third));
}

#[test]
fn resolve_names_head_and_branches() {
    let (mut repo, first, second, workdir) = two_commits();
    assert_eq!(repo.resolve(b"HEAD"), Ok(second));
    assert_eq!(repo.resolve(b"main"), Ok(second));
    assert_eq!(repo.resolve(b"nope"), Err(Error::UnknownReference));
    repo.checkout(&first.to_hex(), &workdir).unwrap();
    assert_eq!(repo.resolve(b"HEAD"), Ok(first));
    let fresh = Repository::init(false).unwrap();
    assert_eq!(fresh.resolve(b"HEAD"), Err(Error::UnknownReference));
    assert_eq!(fresh.resolve(b"main"), Err(Error::UnknownReference));
}

#[test]
fn add_of_a_missing_path_is_path_not_found() {
    let mut repo = Repository::init(false).unwrap();
    assert_eq!(repo.add(b"gone.txt", &Found::Nothing), Err(Error::PathNotFound));
    assert_eq!(repo.add(b"a//b", &found_file("x")), Err(Error::PathNotFound));
    assert_eq!(repo.add(b"", &found_file("x")), Err(Error::PathNotFound));
    assert_eq!(
        repo.add(b"dir", &Found::Directory(vec![file("", "x")])),
        Err(Error::PathNotFound)
    );
    assert_eq!(repo.store().len(), 0);
    assert_eq!(repo.index().snapshot(), Vec::new());
}

#[test]
fn add_replaces_what_was_staged_at_the_path() {
    let mut repo = Repository::init(false).unwrap();
    repo.add(b"a.txt", &found_file("one")).unwrap();
    repo.add(b"a.txt", &found_file("two")).unwrap();
    let staged = repo.index().snapshot();
    assert_eq!(staged.len(), 1);
    assert_eq!(staged[0].hash, ContentHash::of(&encode_blob(b"two")));
}

#[test]
fn add_of_a_directory_stages_its_files_and_drops_what_is_gone() {
    let mut repo = Repository::init(false).unwrap();
    repo.add(b"top.txt", &found_file("t")).unwrap();
    repo.add(b"src", &Found::Directory(vec![file("a.rs", "a"), file("m/b.rs", "b")])).unwrap();
    let names: Vec<Vec<u8>> = repo.index().snapshot().into_iter().map(|e| e.name).collect();
    assert_eq!(names, vec![b"src/a.rs".to_vec(), b"src/m/b.rs".to_vec(), b"top.txt".to_vec()]);
    repo.add(b"src", &Found::Directory(vec![file("a.rs", "a")])).unwrap();
    let names: Vec<Vec<u8>> = repo.index().snapshot().into_iter().map(|e| e.name).collect();
    assert_eq!(names, vec![b"src/a.rs".to_vec(), b"top.txt".to_vec()]);
    repo.add(b"src", &Found::Directory(Vec::new())).unwrap();
    let names: Vec<Vec<u8>> = repo.index().snapshot().into_iter().map(|e| e.name).collect();
    assert_eq!(names, vec![b"top.txt".to_vec()]);
}

#[test]
fn add_of_the_whole_working_directory_makes_it_clean() {
    let mut repo = Repository::init(false).unwrap();
    let workdir = vec![file("a.txt", "hello"), file("src/main.rs", "fn main() {}")];
    repo.add(b"", &Found::Directory(workdir.clone())).unwrap();
    let first = repo.commit(b"all", b"me", 1).unwrap();
    repo.branch(b"other").unwrap();
    assert_eq!(repo.checkout(b"other", &workdir), Ok(workdir));
    assert_eq!(repo.head_commit(), Some(first));
}

#[test]
fn a_file_in_place_of_a_directory_replaces_it() {
    let mut repo = Repository::init(false).unwrap();
    repo.add(b"x", &Found::Directory(vec![file("a", "1"), file("b", "2")])).unwrap();
    repo.add(b"x", &found_file("now a file")).unwrap();
    let names: Vec<Vec<u8>> = repo.index().snapshot().into_iter().map(|e| e.name).collect();
    assert_eq!(names, vec![b"x".to_vec()]);
    repo.add(b"x/deep/f", &found_file("now a directory")).unwrap();
    let names: Vec<Vec<u8>> = repo.index().snapshot().into_iter().map(|e| e.name).collect();
    assert_eq!(names, vec![b"x/deep/f".to_vec()]);
}

#[test]
fn index_reset_replaces_the_index_wholesale() {
    let mut index = vds::index::Index::new();
    let entries = vec![
        TreeEntry { name: b"b/c".to_vec(), kind: EntryKind::File, hash: ContentHash::of(b"1") },
        TreeEntry { name: b"a".to_vec(), kind: EntryKind::File, hash: ContentHash::of(b"2") },
    ];
    assert_eq!(index.reset(&entries), Ok(()));
    assert_eq!(index.snapshot(), vec![entries[1].clone(), entries[0].clone()]);
    let bad = vec![TreeEntry {
        name: b"/a".to_vec(),
        kind: EntryKind::File,
        hash: ContentHash::of(b"3"),
    }];
    assert_eq!(index.reset(&bad), Err(Error::PathNotFound));
    assert_eq!(index.snapshot().len(), 2);
}

#[test]
fn saved_repository_opens_as_it_was() {
    let (mut repo, first, second, workdir) = two_commits();
    repo.branch(b"feature").unwrap();
    repo.add(b"staged.txt", &found_file("not yet committed")).unwrap();
    let saved = save(&mut repo);
    assert_eq!(saved.head, b"ref: refs/heads/main\n".to_vec());
    assert_eq!(saved.branches.len(), 2);
    assert_eq!(saved.branches[0].name, b"main".to_vec());
    let mut expected = second.to_hex();
    expected.push(b'\n');
    assert_eq!(saved.branches[0].record, expected);

    let mut opened = open(true, &saved).unwrap();
    assert_eq!(opened.get_head(), repo.get_head());
    assert_eq!(opened.list_branches(), repo.list_branches());
    assert_eq!(opened.index().snapshot(), repo.index().snapshot());
    assert_eq!(opened.store().len(), repo.store().len());
    assert_eq!(opened.log(), vec![second, first]);
    assert_eq!(opened.checkout(b"feature", &workdir), Ok(workdir));
}

#[test]
fn fresh_repository_saves_with_an_empty_index_record() {
    let mut repo = Repository::init(false).unwrap();
    let saved = save(&mut repo);
    assert_eq!(
        saved,
        Saved {
            objects: Vec::new(),
            head: b"ref: refs/heads/main\n".to_vec(),
            branches: Vec::new(),
            index: Some(Vec::new()),
        }
    );
    let opened = open(true, &saved).unwrap();
    assert_eq!(opened.get_head(), &Head::Attached(b"main".to_vec()));
}

#[test]
fn open_without_a_layout_is_not_a_repository() {
    let mut repo = Repository::init(false).unwrap();
    let saved = save(&mut repo);
    assert_eq!(open(false, &saved).err(), Some(Error::NotARepository));
}

#[test]
fn open_with_unreadable_records_is_corrupt_state() {
    let (mut repo, _, _, _) = two_commits();
    let saved = save(&mut repo);

    let mut bad_head = saved.clone();
    bad_head.head = b"garbage".to_vec();
    assert_eq!(open(true, &bad_head).err(), Some(Error::CorruptState));

    let mut bad_index = saved.clone();
    bad_index.index = Some(b"not a record".to_vec());
    assert_eq!(open(true, &bad_index).err(), Some(Error::CorruptState));

    let mut no_index = saved.clone();
    no_index.index = None;
    assert_eq!(open(true, &no_index).err(), Some(Error::CorruptState));

    let mut no_tree = saved.clone();
    let mut record = ContentHash::of(b"no such tree").to_hex();
    record.push(b'\n');
    no_tree.index = Some(record);
    assert_eq!(open(true, &no_tree).err(), Some(Error::CorruptState));

    let mut detached = saved.clone();
    let mut record = ContentHash::of(b"no such commit").to_hex();
    record.push(b'\n');
    detached.head = record;
    assert_eq!(open(true, &detached).err(), Some(Error::CorruptState));

    let mut dangling = saved.clone();
    dangling.branches.push(BranchRecord {
        name: b"ghost".to_vec(),
        record: {
            let mut record = ContentHash::of(b"no such commit").to_hex();
            record.push(b'\n');
            record
        },
    });
    assert_eq!(open(true, &dangling).err(), Some(Error::CorruptState));

    let mut twice = saved.clone();
    twice.branches.push(saved.branches[0].clone());
    assert_eq!(open(true, &twice).err(), Some(Error::CorruptState));
}

#[test]
fn open_with_objects_out_of_order_is_corrupt_object() {
    let (mut repo, _, _, _) = two_commits();
    let saved = save(&mut repo);
    let mut reversed = saved.clone();
    reversed.objects.reverse();
    assert_eq!(open(true, &reversed).err(), Some(Error::CorruptObject));
    let mut repeated = saved.clone();
    repeated.objects.push(saved.objects[0].clone());
    assert_eq!(open(true, &repeated).err(), Some(Error::CorruptObject));
}

#[test]
fn open_with_a_commit_whose_tree_cannot_be_read_is_corrupt_object() {
    let (mut repo, _, _, _) = two_commits();
    let mut saved = save(&mut repo);
    saved.objects.push(encode_commit(&Commit {
        tree: saved_hash(&saved, 0),
        parents: Vec::new(),
        message: b"points at a blob".to_vec(),
        author: b"me".to_vec(),
        timestamp: 9,
    }));
    assert_eq!(open(true, &saved).err(), Some(Error::CorruptObject));
}

fn saved_hash(saved: &Saved, at: usize) -> ContentHash {
    ContentHash::of(&saved.objects[at])
}

#[test]
fn saved_objects_are_in_the_order_in_which_they_were_stored() {
    let (mut repo, first, second, _) = two_commits();
    let saved = save(&mut repo);
    // blob, tree, commit; blob, tree, commit
    assert_eq!(saved.objects.len(), 6);
    assert_eq!(saved.objects[0], encode_blob(b"hello"));
    assert_eq!(saved_hash(&saved, 2), first);
    assert_eq!(saved.objects[3], encode_blob(b"world"));
    assert_eq!(saved_hash(&saved, 5), second);
    let mut expected = parse_commit(&saved.objects[5]).unwrap().tree.to_hex();
    expected.push(b'\n');
    assert_eq!(saved.index, Some(expected));
}

#[test]
fn save_twice_stores_nothing_new() {
    let (mut repo, _, _, _) = two_commits();
    let first = save(&mut repo);
    let second = save(&mut repo);
    assert_eq!(first, second);
}

#[test]
fn set_head_moves_the_head_to_a_branch_or_a_stored_commit() {
    let (mut repo, first, second, _) = two_commits();
    assert_eq!(repo.set_head(Head::Detached(first)), Ok(()));
    assert_eq!(repo.get_head(), &Head::Detached(first));
    assert_eq!(repo.head_commit(), Some(first));
    assert_eq!(
        repo.set_head(Head::Detached(ContentHash::of(b"no commit"))),
        Err(Error::UnknownReference)
    );
    assert_eq!(repo.get_head(), &Head::Detached(first));
    assert_eq!(repo.set_head(Head::Attached(b"main".to_vec())), Ok(()));
    assert_eq!(repo.head_commit(), Some(second));
    assert_eq!(repo.set_head(Head::Attached(b"unborn".to_vec())), Ok(()));
    assert_eq!(repo.head_commit(), None);
    assert_eq!(repo.log(), Vec::new());
}

#[test]
fn first_commit_on_an_unborn_branch_creates_it() {
    let (mut repo, _, second, _) = two_commits();
    repo.set_head(Head::Attached(b"fresh".to_vec())).unwrap();
    // the staged tree is that of `main`; against no commit it is a change
    let root = repo.commit(b"root of fresh", b"me", 5).unwrap();
    assert_eq!(parents_of(&repo, &root), Vec::new());
    assert_eq!(repo.refs().get(b"fresh"), Some(root));
    assert_eq!(repo.refs().get(b"main"), Some(second));
}

#[test]
fn the_store_only_grows() {
    let mut repo = Repository::init(false).unwrap();
    let mut seen: Vec<Vec<u8>> = Vec::new();
    let steps: Vec<(&str, &str)> = vec![("a", "1"), ("b", "2"), ("a", "3"), ("c/d", "1")];
    for (at, (path, content)) in steps.iter().enumerate() {
        repo.add(path.as_bytes(), &found_file(content)).unwrap();
        repo.commit(b"step", b"me", at as u64).unwrap();
        let store = repo.store();
        for (i, object) in seen.iter().enumerate() {
            assert_eq!(store.object_at(i), object);
        }
        seen = (0..store.len()).map(|i| store.object_at(i).clone()).collect();
    }
    assert_eq!(repo.log().len(), 4);
}

#[test]
fn the_index_maps_paths_to_staged_hashes() {
    let mut repo = Repository::init(false).unwrap();
    repo.add(b"a.txt", &found_file("one")).unwrap();
    repo.add(b"src", &Found::Directory(vec![file("m/b.rs", "b")])).unwrap();
    let one = ContentHash::of(&encode_blob(b"one"));
    assert_eq!(repo.index().get(b"a.txt"), Some(one));
    assert_eq!(repo.index().get(b"src/m/b.rs"), Some(ContentHash::of(&encode_blob(b"b"))));
    assert_eq!(repo.index().get(b"src/m"), None);
    assert_eq!(repo.index().get(b"src/m/b.rs/deeper"), None);
    assert_eq!(repo.index().get(b"missing"), None);
    assert_eq!(repo.index().get(b""), None);
    assert_eq!(repo.index().get(b"a//b"), None);
    repo.add(b"a.txt", &found_file("two")).unwrap();
    assert_eq!(repo.index().get(b"a.txt"), Some(ContentHash::of(&encode_blob(b"two"))));
    assert_eq!(repo.index().get(b"src/m/b.rs"), Some(ContentHash::of(&encode_blob(b"b"))));
    assert_eq!(repo.index().tree_hash(), repo.index().tree_hash());
}
