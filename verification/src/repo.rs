//! The repository: the content store, the index, the branches and the
//! head, and the operations that change them together.

use crate::canon::canonical;
use crate::canon::lemma_empty_canonical;
use crate::bytes::bytes_eq;
use crate::bytes::copy_range;
use crate::commit::commit_bytes;
use crate::commit::encode_commit;
use crate::commit::hash_views;
use crate::commit::lemma_parse_commit_bytes;
use crate::commit::parse_commit;
use crate::commit::parsed_commit;
use crate::commit::Commit;
use crate::commit::CommitView;
use crate::graph::ancestors;
use crate::graph::history;
use crate::hash::content_hash;
use crate::hash::hex_of;
use crate::integrity::lemma_loaded_canonical;
use crate::integrity::lemma_loaded_held;
use crate::integrity::lemma_ranked_stored;
use crate::integrity::lemma_store_tree_ranked;
use crate::object::TreeEntry;
use crate::refs::BranchView;
use crate::store::lemma_position_unique;
use crate::store::lemma_stored_extends;
use crate::store::lookup;
use crate::store::position;
use crate::store::stored;
use crate::tree::flatten;
use crate::tree::flattened;
use crate::tree::load;
use crate::tree::loaded_tree;
use crate::tree::tree_objects;
use crate::worktree::hash_tree;
use crate::worktree::materialize;
use crate::worktree::materialized;
use crate::worktree::read_files;
use crate::worktree::snapshot_hash;
use crate::durable::lemma_blobs_no_commits;
use crate::durable::lemma_materialized_grows;
use crate::durable::lemma_readable_stored;
use crate::durable::lemma_readable_stored_all;
use crate::durable::lemma_tree_no_commits;
use crate::durable::no_commits;
use crate::durable::readable;
use crate::error::Error;
use crate::graph::commit_at;
use crate::graph::ranked;
use crate::hash::ContentHash;
use crate::index::Index;
use crate::integrity::leaves_held;
use crate::integrity::lemma_blob_references;
use crate::integrity::lemma_inserted_held;
use crate::integrity::lemma_leaves_grow;
use crate::integrity::lemma_lookup_grows;
use crate::integrity::lemma_store_plain;
use crate::lookup::apart;
use crate::lookup::lemma_inserted_is_there;
use crate::lookup::lemma_inserted_leaves_alone;
use crate::lookup::subtree_at;
use crate::object::blob_bytes;
use crate::object::encode_blob;
use crate::object::entry_views;
use crate::path::components;
use crate::path::split_path;
use crate::path::valid_path;
use crate::refs::default_branch;
use crate::refs::default_branch_name;
use crate::refs::Head;
use crate::refs::HeadView;
use crate::refs::RefStore;
use crate::store::distinct;
use crate::store::holds;
use crate::store::ObjectStore;
use crate::tree::empty_dir;
use crate::tree::inserted;
use crate::tree::stored_all;
use crate::tree::tree_hash;
use crate::tree::Node;
use crate::tree::Tree;
use crate::worktree::blob_hash;
use crate::worktree::blobs;
use crate::worktree::file_entries;
use crate::worktree::file_views;
use crate::worktree::groupable;
use crate::worktree::lemma_grouped;
use crate::worktree::snapshot_tree;
use crate::worktree::store_blobs;
use crate::worktree::tree_of_files;
use crate::worktree::FileEntry;
use crate::worktree::FileView;
use vstd::prelude::*;

verus! {

/// What was found at a path of the working directory, as a mathematical
/// value.
pub enum FoundView {
    Nothing,
    File(Seq<u8>),
    Directory(Seq<FileView>),
}

/// What was found at a path of the working directory: nothing, a file with
/// its content, or a directory with the files below it, their paths
/// relative to it.
#[derive(Debug)]
pub enum Found {
    Nothing,
    File(Vec<u8>),
    Directory(Vec<FileEntry>),
}

impl View for Found {
    type V = FoundView;

    open spec fn view(&self) -> FoundView {
        match self {
            Found::Nothing => FoundView::Nothing,
            Found::File(content) => FoundView::File(content@),
            Found::Directory(files) => FoundView::Directory(file_views(files@)),
        }
    }
}

/// Whether what was found at `path` can be staged: the path is made of
/// valid names, something is there, a file is not at the root, and the
/// files of a directory have paths made of valid names.
pub open spec fn addable(path: Seq<u8>, found: FoundView) -> bool {
    &&& valid_path(path)
    &&& match found {
        FoundView::Nothing => false,
        FoundView::File(_) => path.len() > 0,
        FoundView::Directory(files) => groupable(file_entries(files)),
    }
}

/// The blobs that staging what was found stores.
pub open spec fn added_blobs(found: FoundView) -> Seq<Seq<u8>> {
    match found {
        FoundView::Nothing => Seq::empty(),
        FoundView::File(content) => seq![blob_bytes(content)],
        FoundView::Directory(files) => blobs(files),
    }
}

/// The tree that stands for what was found.
pub open spec fn added_tree(found: FoundView) -> Tree {
    match found {
        FoundView::Nothing => empty_dir(),
        FoundView::File(content) => Tree::File(blob_hash(content)),
        FoundView::Directory(files) => snapshot_tree(files),
    }
}

/// The commit that the head points at, if it points at one: the commit of
/// its branch, or the commit it is detached at.
pub open spec fn head_commit(head: HeadView, branches: Map<Seq<u8>, Seq<u8>>) -> Option<Seq<u8>> {
    match head {
        HeadView::Attached(name) => if branches.contains_key(name) {
            Some(branches[name])
        } else {
            None
        },
        HeadView::Detached(hash) => Some(hash),
    }
}

/// The hash of the tree of a commit; of no commit, or of what is no
/// commit, the hash of the empty directory.
pub open spec fn tree_of_commit(objects: Seq<Seq<u8>>, commit: Option<Seq<u8>>) -> Seq<u8> {
    match commit {
        Some(hash) => match commit_at(objects, hash) {
            Some(commit) => commit.tree,
            None => tree_hash(empty_dir()),
        },
        None => tree_hash(empty_dir()),
    }
}

/// The name that stands for the head in a reference: `HEAD`.
pub open spec fn head_name() -> Seq<u8> {
    seq![72u8, 69u8, 65u8, 68u8]
}

/// The commit that a reference names: the head's commit for `HEAD`, else
/// the commit of the branch of that name.
pub open spec fn resolved(
    head: HeadView,
    branches: Map<Seq<u8>, Seq<u8>>,
    reference: Seq<u8>,
) -> Option<Seq<u8>> {
    if reference == head_name() {
        head_commit(head, branches)
    } else if branches.contains_key(reference) {
        Some(branches[reference])
    } else {
        None
    }
}

/// Whether `bytes` is a commit whose hash, in hexadecimal, begins with
/// `prefix`, which is not empty.
pub open spec fn names_commit(bytes: Seq<u8>, prefix: Seq<u8>) -> bool {
    &&& prefix.len() > 0
    &&& parsed_commit(bytes) is Some
    &&& prefix.is_prefix_of(hex_of(content_hash(bytes)))
}

/// The place of the oldest commit from place `from` on that `prefix`
/// names.
pub open spec fn first_commit_with(objects: Seq<Seq<u8>>, prefix: Seq<u8>, from: int) -> Option<
    int,
>
    decreases objects.len() - from,
{
    if from < 0 || from >= objects.len() {
        None
    } else if names_commit(objects[from], prefix) {
        Some(from)
    } else {
        first_commit_with(objects, prefix, from + 1)
    }
}

/// What a checkout target names: the commit of the branch of that name
/// and the head attached to it, else the oldest commit whose hash begins
/// with the target and the head detached at it.
pub open spec fn target_of(
    objects: Seq<Seq<u8>>,
    branches: Map<Seq<u8>, Seq<u8>>,
    target: Seq<u8>,
) -> Option<(Seq<u8>, HeadView)> {
    if branches.contains_key(target) {
        Some((branches[target], HeadView::Attached(target)))
    } else {
        match first_commit_with(objects, target, 0) {
            Some(at) => Some(
                (content_hash(objects[at]), HeadView::Detached(content_hash(objects[at]))),
            ),
            None => None,
        }
    }
}

/// A branch in a listing: its name, its commit, and whether the head is
/// attached to it.
#[derive(Clone, Debug, PartialEq, Eq)]
pub struct BranchInfo {
    pub name: Vec<u8>,
    pub target: ContentHash,
    pub current: bool,
}

/// A repository.
pub struct Repository {
    store: ObjectStore,
    index: Index,
    refs: RefStore,
    head: Head,
}

impl Repository {
    /// The stored objects, oldest first.
    pub closed spec fn objects(&self) -> Seq<Seq<u8>> {
        self.store@
    }

    /// The staged tree.
    pub closed spec fn staged(&self) -> Tree {
        self.index@
    }

    /// The branches, as a map from names to commits.
    pub closed spec fn branches(&self) -> Map<Seq<u8>, Seq<u8>> {
        self.refs@
    }

    /// What the head points at.
    pub closed spec fn head(&self) -> HeadView {
        self.head@
    }

    /// Validity of the parts, each by itself.
    pub closed spec fn parts_wf(&self) -> bool {
        &&& self.store.wf()
        &&& self.index.wf()
        &&& self.refs.wf()
    }

    /// Validity of a repository: no two objects share a hash, every object
    /// refers only to older objects, the tree of every stored commit can
    /// be materialized, the staged tree is a canonical directory whose
    /// files are stored, and every branch, and a detached head, points at
    /// a stored commit.
    pub open spec fn wf(&self) -> bool {
        &&& self.parts_wf()
        &&& distinct(self.objects())
        &&& ranked(self.objects())
        &&& readable(self.objects())
        &&& self.staged() is Dir
        &&& canonical(self.staged())
        &&& leaves_held(self.objects(), self.staged())
        &&& forall|name: Seq<u8>| #[trigger]
            self.branches().contains_key(name) ==> commit_at(
                self.objects(),
                self.branches()[name],
            ) is Some
        &&& self.head() is Detached ==> commit_at(self.objects(), self.head()->Detached_0)
            is Some
    }

    /// Creates a repository, unless the layout of one exists already: no
    /// objects, nothing staged, no branches, and the head attached to the
    /// branch `main`, which the first commit will create.
    pub fn init(layout_exists: bool) -> (r: Result<Repository, Error>)
        ensures
            match r {
                Ok(repo) => {
                    &&& !layout_exists
                    &&& repo.wf()
                    &&& repo.objects() == Seq::<Seq<u8>>::empty()
                    &&& repo.staged() == empty_dir()
                    &&& repo.branches() == Map::<Seq<u8>, Seq<u8>>::empty()
                    &&& repo.head() == HeadView::Attached(default_branch())
                },
                Err(e) => layout_exists && e == Error::AlreadyInitialized,
            },
    {
        if layout_exists {
            return Err(Error::AlreadyInitialized);
        }
        let repo = Repository {
            store: ObjectStore::new(),
            index: Index::new(),
            refs: RefStore::new(),
            head: Head::Attached(default_branch_name()),
        };
        proof {
            lemma_empty_canonical();
        }
        Ok(repo)
    }

    /// The repository made of the given parts.
    pub(crate) fn from_parts(store: ObjectStore, index: Index, refs: RefStore, head: Head) -> (repo:
        Repository)
        requires
            store.wf(),
            index.wf(),
            refs.wf(),
            ranked(store@),
            readable(store@),
            leaves_held(store@, index@),
            forall|name: Seq<u8>| #[trigger]
                refs@.contains_key(name) ==> commit_at(store@, refs@[name]) is Some,
            head@ is Detached ==> commit_at(store@, head@->Detached_0) is Some,
        ensures
            repo.wf(),
            repo.objects() == store@,
            repo.staged() == index@,
            repo.branches() == refs@,
            repo.branch_list() == refs.listing(),
            repo.head() == head@,
    {
        Repository { store, index, refs, head }
    }

    /// Stores the staged tree, so that it can be read back by its hash,
    /// and returns that hash.
    pub fn store_staged(&mut self) -> (hash: ContentHash)
        requires
            old(self).wf(),
        ensures
            final(self).wf(),
            hash@ == tree_hash(old(self).staged()),
            final(self).objects() == stored_all(
                old(self).objects(),
                tree_objects(old(self).staged()),
            ),
            old(self).objects().is_prefix_of(final(self).objects()),
            final(self).staged() == old(self).staged(),
            final(self).branches() == old(self).branches(),
            final(self).branch_list() == old(self).branch_list(),
            final(self).head() == old(self).head(),
    {
        let ghost before = self.objects();
        let ghost branches = self.branches();
        proof {
            lemma_store_tree_ranked(before, self.staged());
            lemma_tree_no_commits(self.staged());
            lemma_readable_stored_all(before, tree_objects(self.staged()));
        }
        let hash = self.index.store(&mut self.store);
        proof {
            let after = self.objects();
            lemma_leaves_grow(before, after, self.staged());
            assert forall|name: Seq<u8>| #[trigger]
                branches.contains_key(name) implies commit_at(after, branches[name]) is Some by {
                lemma_lookup_grows(before, after, branches[name]);
            }
            if self.head() is Detached {
                lemma_lookup_grows(before, after, self.head()->Detached_0);
            }
        }
        hash
    }

    /// The content store.
    pub fn store(&self) -> (store: &ObjectStore)
        requires
            self.wf(),
        ensures
            store.wf(),
            store@ == self.objects(),
    {
        &self.store
    }

    /// The index.
    pub fn index(&self) -> (index: &Index)
        requires
            self.wf(),
        ensures
            index.wf(),
            index@ == self.staged(),
    {
        &self.index
    }

    /// The branches.
    pub fn refs(&self) -> (refs: &RefStore)
        requires
            self.wf(),
        ensures
            refs.wf(),
            refs@ == self.branches(),
            refs.listing() == self.branch_list(),
    {
        &self.refs
    }

    /// What the head points at.
    pub fn get_head(&self) -> (head: &Head)
        ensures
            head@ == self.head(),
    {
        &self.head
    }

    /// Stages what was found at `path` in the working directory: stores the
    /// content of the file, or of every file below the directory, and puts
    /// the file or directory at `path` in the staged tree, in place of what
    /// was staged there. Fails with `PathNotFound`, and changes nothing,
    /// where nothing was found or a path cannot be staged.
    pub fn add(&mut self, path: &[u8], found: &Found) -> (r: Result<(), Error>)
        requires
            old(self).wf(),
        ensures
            final(self).wf(),
            final(self).branches() == old(self).branches(),
            final(self).head() == old(self).head(),
            old(self).objects().is_prefix_of(final(self).objects()),
            match r {
                Ok(_) => {
                    &&& addable(path@, found@)
                    &&& final(self).objects() == stored_all(
                        old(self).objects(),
                        added_blobs(found@),
                    )
                    &&& final(self).staged() == inserted(
                        old(self).staged(),
                        components(path@),
                        added_tree(found@),
                    )
                    &&& subtree_at(final(self).staged(), components(path@)) == added_tree(found@)
                    &&& forall|other: Seq<Seq<u8>>|
                        apart(components(path@), other) ==> #[trigger] subtree_at(
                            final(self).staged(),
                            other,
                        ) == subtree_at(old(self).staged(), other)
                },
                Err(e) => {
                    &&& e == Error::PathNotFound
                    &&& !addable(path@, found@)
                    &&& final(self).objects() == old(self).objects()
                    &&& final(self).staged() == old(self).staged()
                },
            },
    {
        let ghost before = self.objects();
        let ghost staged = self.staged();
        assert(before =~= before.subrange(0, before.len() as int));
        let place = match split_path(path) {
            Some(place) => place,
            None => {
                return Err(Error::PathNotFound);
            },
        };
        let sub = match found {
            Found::Nothing => {
                return Err(Error::PathNotFound);
            },
            Found::File(content) => {
                if path.len() == 0 {
                    return Err(Error::PathNotFound);
                }
                let blob = encode_blob(content.as_slice());
                proof {
                    let data = seq![blob@];
                    crate::tree::lemma_stored_all_one(before, blob@);
                    lemma_blob_references(content@);
                    lemma_store_plain(before, data);
                    assert(no_commits(data));
                    lemma_readable_stored_all(before, data);
                    assert(holds(stored_all(before, data), crate::hash::content_hash(data[0])));
                }
                let hash = self.store.put(blob);
                Node::File(hash)
            },
            Found::Directory(files) => {
                let sub = match tree_of_files(files) {
                    Some(sub) => sub,
                    None => {
                        return Err(Error::PathNotFound);
                    },
                };
                proof {
                    let fv = file_views(files@);
                    let data = blobs(fv);
                    assert forall|i: int| 0 <= i < data.len() implies crate::graph::references(
                        #[trigger] data[i],
                    ).len() == 0 by {
                        lemma_blob_references(fv[i].content);
                    }
                    lemma_store_plain(before, data);
                    lemma_blobs_no_commits(fv);
                    lemma_readable_stored_all(before, data);
                    let after = stored_all(before, data);
                    let entries = file_entries(fv);
                    assert forall|i: int| 0 <= i < entries.len() implies (
                    #[trigger] entries[i]).hash.len() == 32 && holds(after, entries[i].hash) by {
                        assert(holds(after, crate::hash::content_hash(data[i])));
                    }
                    lemma_grouped(after, entries);
                }
                store_blobs(&mut self.store, files);
                sub
            },
        };
        proof {
            let after = self.objects();
            lemma_leaves_grow(before, after, staged);
            lemma_inserted_held(after, staged, components(path@), sub@);
            assert forall|name: Seq<u8>| #[trigger]
                self.branches().contains_key(name) implies commit_at(
                after,
                self.branches()[name],
            ) is Some by {
                lemma_lookup_grows(before, after, self.branches()[name]);
            }
            if self.head() is Detached {
                lemma_lookup_grows(before, after, self.head()->Detached_0);
            }
            lemma_inserted_is_there(staged, components(path@), sub@);
            assert forall|other: Seq<Seq<u8>>| apart(components(path@), other) implies subtree_at(
                inserted(staged, components(path@), sub@),
                other,
            ) == subtree_at(staged, other) by {
                lemma_inserted_leaves_alone(staged, components(path@), sub@, other);
            }
        }
        self.index.stage(&place, sub);
        Ok(())
    }

    /// The branches in the order in which they were created.
    pub closed spec fn branch_list(&self) -> Seq<BranchView> {
        self.refs.listing()
    }

    /// The map of the branches is the map of their list, and no two
    /// branches in the list share a name.
    pub proof fn lemma_branches_listed(self)
        requires
            self.wf(),
        ensures
            self.branches() == crate::refs::branch_map(self.branch_list()),
            crate::refs::unique_names(self.branch_list()),
    {
    }

    /// The commit that the head points at, if it points at one.
    pub open spec fn current_commit(&self) -> Option<Seq<u8>> {
        head_commit(self.head(), self.branches())
    }

    /// The hash of the tree of the current commit; before the first commit,
    /// the hash of the empty directory.
    pub open spec fn current_tree(&self) -> Seq<u8> {
        tree_of_commit(self.objects(), self.current_commit())
    }

    /// The commit that `commit` would record now.
    pub open spec fn next_commit(
        &self,
        message: Seq<u8>,
        author: Seq<u8>,
        timestamp: u64,
    ) -> CommitView {
        CommitView {
            tree: tree_hash(self.staged()),
            parents: match self.current_commit() {
                Some(parent) => seq![parent],
                None => Seq::empty(),
            },
            message,
            author,
            timestamp,
        }
    }

    /// Whether a working directory holds exactly the tree of the current
    /// commit.
    pub open spec fn is_clean(&self, workdir: Seq<FileView>) -> bool {
        groupable(file_entries(workdir)) && snapshot_hash(workdir) == self.current_tree()
    }

    /// The commit that the head points at, if it points at one.
    pub fn head_commit(&self) -> (r: Option<ContentHash>)
        requires
            self.wf(),
        ensures
            r is Some <==> self.current_commit() is Some,
            r is Some ==> r.unwrap()@ == self.current_commit().unwrap(),
    {
        match &self.head {
            Head::Attached(name) => self.refs.get(name.as_slice()),
            Head::Detached(hash) => Some(*hash),
        }
    }

    /// The hash of the tree of the current commit.
    pub fn current_tree_hash(&self) -> (hash: ContentHash)
        requires
            self.wf(),
        ensures
            hash@ == self.current_tree(),
    {
        let empty = Index::new();
        match self.head_commit() {
            Some(commit) => match self.store.get(&commit) {
                Ok(bytes) => match parse_commit(bytes.as_slice()) {
                    Some(commit) => commit.tree,
                    None => empty.tree_hash(),
                },
                Err(_) => empty.tree_hash(),
            },
            None => empty.tree_hash(),
        }
    }

    /// Records the staged tree as a new commit that follows the current
    /// one, and moves the head's branch, or the detached head, to it.
    /// Fails with `NothingToCommit`, and changes nothing, where the staged
    /// tree is the tree of the current commit. Fails with `CorruptObject`
    /// where the staged tree cannot be read back once it is stored, or the
    /// store holds something else under the new commit's hash; then only
    /// the staged tree has been stored.
    pub fn commit(&mut self, message: &[u8], author: &[u8], timestamp: u64) -> (r: Result<
        ContentHash,
        Error,
    >)
        requires
            old(self).wf(),
        ensures
            final(self).wf(),
            final(self).staged() == old(self).staged(),
            old(self).objects().is_prefix_of(final(self).objects()),
            ({
                let commit = old(self).next_commit(message@, author@, timestamp);
                let with_tree = stored_all(old(self).objects(), tree_objects(old(self).staged()));
                let hash = content_hash(commit_bytes(commit));
                match r {
                    Ok(new) => {
                        &&& commit.tree != old(self).current_tree()
                        &&& materialized(with_tree, commit.tree) is Some
                        &&& holds(with_tree, hash) ==> lookup(with_tree, hash) == commit_bytes(
                            commit,
                        )
                        &&& new@ == hash
                        &&& final(self).objects() == stored(with_tree, commit_bytes(commit))
                        &&& commit_at(final(self).objects(), hash) == Some(commit)
                        &&& match old(self).head() {
                            HeadView::Attached(name) => final(self).head() == old(self).head()
                                && final(self).branches() == old(self).branches().insert(
                                name,
                                hash,
                            ),
                            HeadView::Detached(_) => final(self).head() == HeadView::Detached(
                                hash,
                            ) && final(self).branches() == old(self).branches(),
                        }
                    },
                    Err(e) => {
                        &&& final(self).head() == old(self).head()
                        &&& final(self).branches() == old(self).branches()
                        &&& if commit.tree == old(self).current_tree() {
                            e == Error::NothingToCommit && final(self).objects() == old(
                                self,
                            ).objects()
                        } else {
                            &&& e == Error::CorruptObject
                            &&& final(self).objects() == with_tree
                            &&& materialized(with_tree, commit.tree) is None || (holds(
                                with_tree,
                                hash,
                            ) && lookup(with_tree, hash) != commit_bytes(commit))
                        }
                    },
                }
            }),
    {
        let ghost before = self.objects();
        let ghost staged = self.staged();
        let ghost branches = self.branches();
        let ghost view = self.next_commit(message@, author@, timestamp);
        assert(before =~= before.subrange(0, before.len() as int));
        let tree = self.index.tree_hash();
        let parent = self.head_commit();
        let current = self.current_tree_hash();
        if tree.same(&current) {
            return Err(Error::NothingToCommit);
        }
        let mut parents: Vec<ContentHash> = Vec::new();
        match parent {
            Some(parent) => {
                parents.push(parent);
                assert(hash_views(parents@) =~= seq![parent@]);
            },
            None => {
                assert(hash_views(parents@) =~= Seq::<Seq<u8>>::empty());
            },
        }
        let commit = Commit {
            tree,
            parents,
            message: copy_range(message, 0, message.len()),
            author: copy_range(author, 0, author.len()),
            timestamp,
        };
        assert(commit.message@ =~= message@ && commit.author@ =~= author@);
        assert(commit@ == view);
        let bytes = encode_commit(&commit);
        let hash = ContentHash::of(bytes.as_slice());
        proof {
            lemma_store_tree_ranked(before, staged);
            lemma_tree_no_commits(staged);
            lemma_readable_stored_all(before, tree_objects(staged));
        }
        let _ = self.index.store(&mut self.store);
        let ghost with_tree = self.objects();
        proof {
            lemma_leaves_grow(before, with_tree, staged);
            assert forall|name: Seq<u8>| #[trigger]
                branches.contains_key(name) implies commit_at(with_tree, branches[name])
                is Some by {
                lemma_lookup_grows(before, with_tree, branches[name]);
            }
            if self.head() is Detached {
                lemma_lookup_grows(before, with_tree, self.head()->Detached_0);
            }
        }
        if materialize(&self.store, &tree).is_err() {
            return Err(Error::CorruptObject);
        }
        match self.store.find(&hash) {
            Some(at) => {
                if !bytes_eq(self.store.object_at(at).as_slice(), bytes.as_slice()) {
                    return Err(Error::CorruptObject);
                }
            },
            None => {},
        }
        proof {
            assert(crate::commit::commit_ok(view)) by {
                assert forall|i: int| 0 <= i < view.parents.len() implies (
                #[trigger] view.parents[i]).len() == 32 by {
                    assert(view.parents[i] == commit.parents@[i]@);
                }
            }
            lemma_parse_commit_bytes(view);
            assert(crate::object::parsed_tree(bytes@) is None);
            let refs = crate::graph::references(bytes@);
            assert(refs =~= seq![view.tree] + view.parents);
            assert forall|k: int| 0 <= k < refs.len() implies holds(with_tree, #[trigger] refs[k]) by {
                if k > 0 {
                    assert(refs[k] == self.current_commit().unwrap());
                    assert(commit_at(with_tree, refs[k]) is Some) by {
                        lemma_lookup_grows(before, with_tree, refs[k]);
                    }
                }
            }
            lemma_ranked_stored(with_tree, bytes@);
            lemma_stored_extends(with_tree, bytes@);
            let after = stored(with_tree, bytes@);
            crate::integrity::lemma_prefix_transitive(before, with_tree, after);
            lemma_leaves_grow(with_tree, after, staged);
            if !holds(with_tree, hash@) {
                assert(after[with_tree.len() as int] == bytes@);
                lemma_position_unique(after, with_tree.len() as int);
            }
            assert(lookup(after, hash@) == bytes@);
            lemma_materialized_grows(with_tree, after, view.tree);
            lemma_readable_stored(with_tree, bytes@);
            assert forall|name: Seq<u8>| #[trigger]
                branches.contains_key(name) implies commit_at(after, branches[name])
                is Some by {
                lemma_lookup_grows(with_tree, after, branches[name]);
            }
            if self.head() is Detached {
                lemma_lookup_grows(with_tree, after, self.head()->Detached_0);
            }
        }
        let _ = self.store.put(bytes);
        let attached = match &self.head {
            Head::Attached(name) => Some(name.clone()),
            Head::Detached(_) => None,
        };
        match attached {
            Some(name) => {
                self.refs.update_branch(name.as_slice(), hash);
            },
            None => {
                self.head = Head::Detached(hash);
            },
        }
        Ok(hash)
    }

    /// Points the head at a branch, which need not exist yet, or at a
    /// stored commit. Fails with `UnknownReference`, and changes nothing,
    /// where the head is to be detached at what is no stored commit.
    pub fn set_head(&mut self, head: Head) -> (r: Result<(), Error>)
        requires
            old(self).wf(),
        ensures
            final(self).wf(),
            final(self).objects() == old(self).objects(),
            final(self).staged() == old(self).staged(),
            final(self).branches() == old(self).branches(),
            match r {
                Ok(_) => final(self).head() == head@ && (head@ is Detached ==> commit_at(
                    old(self).objects(),
                    head@->Detached_0,
                ) is Some),
                Err(e) => {
                    &&& e == Error::UnknownReference
                    &&& final(self).head() == old(self).head()
                    &&& head@ is Detached
                    &&& commit_at(old(self).objects(), head@->Detached_0) is None
                },
            },
    {
        match &head {
            Head::Attached(_) => {},
            Head::Detached(hash) => {
                let is_commit = match self.store.get(hash) {
                    Ok(bytes) => parse_commit(bytes.as_slice()).is_some(),
                    Err(_) => false,
                };
                if !is_commit {
                    return Err(Error::UnknownReference);
                }
            },
        }
        self.head = head;
        Ok(())
    }

    /// The history of the current commit: the commit itself, then its
    /// ancestors, depth first, none twice. Empty before the first commit.
    pub fn log(&self) -> (out: Vec<ContentHash>)
        requires
            self.wf(),
        ensures
            hash_views(out@) == match self.current_commit() {
                Some(commit) => history(self.objects(), commit),
                None => Seq::empty(),
            },
    {
        match self.head_commit() {
            Some(commit) => ancestors(&self.store, &commit),
            None => {
                let out: Vec<ContentHash> = Vec::new();
                assert(hash_views(out@) =~= Seq::<Seq<u8>>::empty());
                out
            },
        }
    }

    /// The commit that `reference` names: the current commit for `HEAD`,
    /// else the commit of the branch of that name.
    pub fn resolve(&self, reference: &[u8]) -> (r: Result<ContentHash, Error>)
        requires
            self.wf(),
        ensures
            match r {
                Ok(hash) => resolved(self.head(), self.branches(), reference@) == Some(hash@),
                Err(e) => e == Error::UnknownReference && resolved(
                    self.head(),
                    self.branches(),
                    reference@,
                ) is None,
            },
    {
        let head = vec![72u8, 69u8, 65u8, 68u8];
        assert(head@ =~= head_name());
        let found = if bytes_eq(reference, head.as_slice()) {
            self.head_commit()
        } else {
            self.refs.get(reference)
        };
        match found {
            Some(hash) => Ok(hash),
            None => Err(Error::UnknownReference),
        }
    }

    /// Creates the branch `name` at the current commit. The head stays
    /// where it is. Fails with `BranchExists` where the name is taken, and
    /// with `UnknownReference` where there is no commit yet.
    pub fn branch(&mut self, name: &[u8]) -> (r: Result<(), Error>)
        requires
            old(self).wf(),
        ensures
            final(self).wf(),
            final(self).objects() == old(self).objects(),
            final(self).staged() == old(self).staged(),
            final(self).head() == old(self).head(),
            match r {
                Ok(_) => {
                    &&& !old(self).branches().contains_key(name@)
                    &&& old(self).current_commit() is Some
                    &&& final(self).branches() == old(self).branches().insert(
                        name@,
                        old(self).current_commit().unwrap(),
                    )
                },
                Err(e) => {
                    &&& final(self).branches() == old(self).branches()
                    &&& if old(self).branches().contains_key(name@) {
                        e == Error::BranchExists
                    } else {
                        e == Error::UnknownReference && old(self).current_commit() is None
                    }
                },
            },
    {
        if self.refs.get(name).is_some() {
            return Err(Error::BranchExists);
        }
        match self.head_commit() {
            Some(commit) => {
                let _ = self.refs.create_branch(name, commit);
                Ok(())
            },
            None => Err(Error::UnknownReference),
        }
    }

    /// The branches in the order in which they were created, the one that
    /// the head is attached to marked.
    pub fn list_branches(&self) -> (out: Vec<BranchInfo>)
        requires
            self.wf(),
        ensures
            out@.len() == self.branch_list().len(),
            forall|i: int|
                0 <= i < out@.len() ==> {
                    &&& (#[trigger] out@[i]).name@ == self.branch_list()[i].name
                    &&& out@[i].target@ == self.branch_list()[i].target
                    &&& out@[i].current == (self.head() == HeadView::Attached(
                        self.branch_list()[i].name,
                    ))
                },
    {
        let mut out: Vec<BranchInfo> = Vec::new();
        let mut i: usize = 0;
        while i < self.refs.len()
            invariant
                i <= self.branch_list().len(),
                out@.len() == i,
                forall|j: int|
                    0 <= j < i ==> {
                        &&& (#[trigger] out@[j]).name@ == self.branch_list()[j].name
                        &&& out@[j].target@ == self.branch_list()[j].target
                        &&& out@[j].current == (self.head() == HeadView::Attached(
                            self.branch_list()[j].name,
                        ))
                    },
            decreases self.branch_list().len() - i,
        {
            let branch = self.refs.branch_at(i);
            let current = match &self.head {
                Head::Attached(name) => bytes_eq(name.as_slice(), branch.name.as_slice()),
                Head::Detached(_) => false,
            };
            out.push(BranchInfo { name: branch.name.clone(), target: branch.target, current });
            i = i + 1;
        }
        out
    }

    /// The oldest commit whose hash, in hexadecimal, begins with `prefix`.
    pub fn find_commit(&self, prefix: &[u8]) -> (r: Option<ContentHash>)
        requires
            self.wf(),
        ensures
            r is Some <==> first_commit_with(self.objects(), prefix@, 0) is Some,
            r is Some ==> r.unwrap()@ == content_hash(
                self.objects()[first_commit_with(self.objects(), prefix@, 0).unwrap()],
            ) && commit_at(self.objects(), r.unwrap()@) is Some,
    {
        if prefix.len() == 0 {
            assert(first_commit_with(self.objects(), prefix@, 0) is None) by {
                lemma_no_empty_prefix(self.objects(), prefix@, 0);
            }
            return None;
        }
        let mut i: usize = 0;
        while i < self.store.len()
            invariant
                i <= self.objects().len(),
                self.wf(),
                prefix@.len() > 0,
                first_commit_with(self.objects(), prefix@, 0) == first_commit_with(
                    self.objects(),
                    prefix@,
                    i as int,
                ),
            decreases self.objects().len() - i,
        {
            let hash = self.store.hash_at(i);
            if hash.has_hex_prefix(prefix) && parse_commit(
                self.store.object_at(i).as_slice(),
            ).is_some() {
                proof {
                    lemma_position_unique(self.objects(), i as int);
                }
                return Some(hash);
            }
            i = i + 1;
        }
        None
    }

    /// Switches to the commit that `target` names: a branch, else a commit
    /// by the beginning of its hash. `workdir` is the working directory as
    /// it is now. Fails with `UncommittedChanges` where the working
    /// directory is not exactly the tree of the current commit, then with
    /// `UnknownReference` where the target names nothing; and changes
    /// nothing then. Else the index becomes the target's tree, the head is
    /// attached to the branch or detached at the commit, and the files of
    /// the target's tree are returned, to take the place of the working
    /// directory.
    pub fn checkout(&mut self, target: &[u8], workdir: &Vec<FileEntry>) -> (r: Result<
        Vec<FileEntry>,
        Error,
    >)
        requires
            old(self).wf(),
        ensures
            final(self).wf(),
            final(self).objects() == old(self).objects(),
            final(self).branches() == old(self).branches(),
            ({
                let clean = old(self).is_clean(file_views(workdir@));
                let named = target_of(old(self).objects(), old(self).branches(), target@);
                match r {
                    Ok(files) => {
                        &&& clean
                        &&& named is Some
                        &&& materialized(
                            old(self).objects(),
                            tree_of_commit(old(self).objects(), Some(named.unwrap().0)),
                        ) == Some(file_views(files@))
                        &&& Some(final(self).staged()) == loaded_tree(
                            old(self).objects(),
                            tree_of_commit(old(self).objects(), Some(named.unwrap().0)),
                        )
                        &&& final(self).head() == named.unwrap().1
                    },
                    Err(e) => {
                        &&& final(self).staged() == old(self).staged()
                        &&& final(self).head() == old(self).head()
                        &&& if !clean {
                            e == Error::UncommittedChanges
                        } else {
                            e == Error::UnknownReference && named is None
                        }
                    },
                }
            }),
    {
        let current = self.current_tree_hash();
        let clean = match tree_of_files(workdir) {
            Some(node) => hash_tree(&node).same(&current),
            None => false,
        };
        if !clean {
            return Err(Error::UncommittedChanges);
        }
        let (commit, head) = match self.refs.get(target) {
            Some(commit) => {
                let name = copy_range(target, 0, target.len());
                assert(name@ =~= target@);
                (commit, Head::Attached(name))
            },
            None => match self.find_commit(target) {
                Some(commit) => (commit, Head::Detached(commit)),
                None => {
                    return Err(Error::UnknownReference);
                },
            },
        };
        // In a valid repository the tree of every commit can be read, so none
        // of the failures below can happen.
        assert(commit_at(self.objects(), commit@) is Some);
        proof {
            let at = position(self.objects(), commit@);
            assert(parsed_commit(self.objects()[at]) is Some);
        }
        let tree = match self.store.get(&commit) {
            Ok(bytes) => match parse_commit(bytes.as_slice()) {
                Some(commit) => commit.tree,
                None => {
                    return Err(Error::CorruptObject);
                },
            },
            Err(_) => {
                return Err(Error::CorruptObject);
            },
        };
        let node = match load(&self.store, &tree) {
            Ok(node) => node,
            Err(_) => {
                return Err(Error::CorruptObject);
            },
        };
        let mut entries: Vec<TreeEntry> = Vec::new();
        let root: Vec<u8> = Vec::new();
        assert(entry_views(entries@) =~= Seq::<crate::object::Entry>::empty());
        flatten(&node, root.as_slice(), &mut entries);
        assert(entry_views(entries@) =~= flattened(node@, Seq::empty()));
        let files = match read_files(&self.store, &entries) {
            Ok(files) => files,
            Err(_) => {
                return Err(Error::CorruptObject);
            },
        };
        proof {
            let at = position(self.objects(), tree@);
            lemma_loaded_canonical(self.objects(), at);
            lemma_loaded_held(self.objects(), at);
        }
        self.index = Index::from_tree(node);
        self.head = head;
        Ok(files)
    }
}

/// A working directory that differs from a clean one is not clean,
/// provided that both list their files in ascending order of their paths,
/// none at or below the path of another, and that no object of one shares
/// its hash with a different object of the other: after an edit, a checkout
/// fails with `UncommittedChanges`.
pub proof fn lemma_edit_is_not_clean(repo: Repository, workdir: Seq<FileView>, edited: Seq<FileView>)
    requires
        repo.is_clean(workdir),
        crate::order::listed_in_order(workdir),
        crate::order::listed_in_order(edited),
        workdir != edited,
        crate::integrity::collision_free(blobs(workdir), blobs(edited)),
        crate::integrity::collision_free(
            tree_objects(snapshot_tree(workdir)),
            tree_objects(snapshot_tree(edited)),
        ),
    ensures
        !repo.is_clean(edited),
{
    if groupable(file_entries(edited)) {
        crate::order::lemma_changed_snapshot_changes_hash(workdir, edited);
    }
}

/// An empty prefix names no commit.
pub proof fn lemma_no_empty_prefix(objects: Seq<Seq<u8>>, prefix: Seq<u8>, from: int)
    requires
        prefix.len() == 0,
    ensures
        first_commit_with(objects, prefix, from) is None,
    decreases objects.len() - from,
{
    if 0 <= from < objects.len() {
        lemma_no_empty_prefix(objects, prefix, from + 1);
    }
}

} // verus!
