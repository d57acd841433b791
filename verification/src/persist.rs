//! The persisted form of a repository: its objects in the order in which
//! they were stored, and the records of its head, its branches and its
//! index.

use crate::codec::views;
use crate::commit::parse_commit;
use crate::commit::parsed_commit;
use crate::durable::readable;
use crate::error::Error;
use crate::worktree::materialize;
use crate::worktree::materialized;
use crate::graph::commit_at;
use crate::graph::ranked;
use crate::graph::references;
use crate::hash::content_hash;
use crate::hash::ContentHash;
use crate::index::Index;
use crate::integrity::lemma_loaded_canonical;
use crate::integrity::lemma_loaded_held;
use crate::integrity::lemma_ranked_stored;
use crate::object::entry_views;
use crate::object::parse_tree;
use crate::object::parsed_tree;
use crate::refs::encode_hash_record;
use crate::refs::encode_head;
use crate::refs::hash_record;
use crate::refs::head_record;
use crate::refs::parse_hash_record;
use crate::refs::parse_head;
use crate::refs::parsed_hash_record;
use crate::refs::parsed_head_record;
use crate::refs::unique_names;
use crate::refs::BranchView;
use crate::refs::Head;
use crate::refs::HeadView;
use crate::refs::RefStore;
use crate::repo::Repository;
use crate::store::distinct;
use crate::store::holds;
use crate::store::position;
use crate::store::stored;
use crate::store::ObjectStore;
use crate::tree::empty_dir;
use crate::tree::held_below;
use crate::tree::load;
use crate::tree::loaded_tree;
use crate::tree::stored_all;
use crate::tree::tree_hash;
use crate::tree::tree_objects;
use crate::tree::Tree;
use vstd::prelude::*;

verus! {

/// The record of one branch, as a mathematical value.
pub struct BranchRecordView {
    pub name: Seq<u8>,
    pub record: Seq<u8>,
}

/// The record of one branch: its name, and the record of its commit's hash.
#[derive(Clone, Debug, PartialEq, Eq)]
pub struct BranchRecord {
    pub name: Vec<u8>,
    pub record: Vec<u8>,
}

impl View for BranchRecord {
    type V = BranchRecordView;

    open spec fn view(&self) -> BranchRecordView {
        BranchRecordView { name: self.name@, record: self.record@ }
    }
}

/// The persisted form of a repository, as a mathematical value.
pub struct SavedView {
    pub objects: Seq<Seq<u8>>,
    pub head: Seq<u8>,
    pub branches: Seq<BranchRecordView>,
    pub index: Option<Seq<u8>>,
}

/// The persisted form of a repository.
#[derive(Clone, Debug, PartialEq, Eq)]
pub struct Saved {
    /// The stored objects, oldest first.
    pub objects: Vec<Vec<u8>>,
    /// The record of the head.
    pub head: Vec<u8>,
    /// The records of the branches.
    pub branches: Vec<BranchRecord>,
    /// The record of the index, if there is one: empty for an empty index,
    /// else the record of the hash of the staged tree.
    pub index: Option<Vec<u8>>,
}

/// The views of a sequence of branch records.
pub open spec fn record_views(records: Seq<BranchRecord>) -> Seq<BranchRecordView> {
    Seq::new(records.len(), |i: int| records[i]@)
}

impl View for Saved {
    type V = SavedView;

    open spec fn view(&self) -> SavedView {
        SavedView {
            objects: views(self.objects@),
            head: self.head@,
            branches: record_views(self.branches@),
            index: match self.index {
                Some(record) => Some(record@),
                None => None,
            },
        }
    }
}

/// The head that a record holds: as the record says, a detached head only
/// at a stored commit.
pub open spec fn saved_head(objects: Seq<Seq<u8>>, record: Seq<u8>) -> Option<HeadView> {
    match parsed_head_record(record) {
        Some(HeadView::Attached(name)) => Some(HeadView::Attached(name)),
        Some(HeadView::Detached(hash)) => if commit_at(objects, hash) is Some {
            Some(HeadView::Detached(hash))
        } else {
            None
        },
        None => None,
    }
}

/// The branch that a record holds, which points at a stored commit.
pub open spec fn saved_branch(objects: Seq<Seq<u8>>, record: BranchRecordView) -> Option<
    BranchView,
> {
    match parsed_hash_record(record.record) {
        Some(hash) => if commit_at(objects, hash) is Some {
            Some(BranchView { name: record.name, target: hash })
        } else {
            None
        },
        None => None,
    }
}

/// The branches that the first `count` records hold, if each holds one and
/// no two share a name.
pub open spec fn saved_branches(
    objects: Seq<Seq<u8>>,
    records: Seq<BranchRecordView>,
    count: int,
) -> Option<Seq<BranchView>>
    decreases count,
{
    if 0 < count <= records.len() {
        match saved_branches(objects, records, count - 1) {
            None => None,
            Some(done) => match saved_branch(objects, records[count - 1]) {
                None => None,
                Some(branch) => if crate::refs::names(done, branch.name) {
                    None
                } else {
                    Some(done.push(branch))
                },
            },
        }
    } else {
        Some(Seq::empty())
    }
}

/// The staged tree that a record holds: the empty directory for the empty
/// record, else the tree stored under the hash in the record. A missing
/// record holds none.
pub open spec fn saved_index(objects: Seq<Seq<u8>>, record: Option<Seq<u8>>) -> Option<Tree> {
    match record {
        None => None,
        Some(record) => if record.len() == 0 {
            Some(empty_dir())
        } else {
            match parsed_hash_record(record) {
                Some(hash) => loaded_tree(objects, hash),
                None => None,
            }
        },
    }
}

/// The records of branches.
pub open spec fn branch_records(branches: Seq<BranchView>) -> Seq<BranchRecordView> {
    Seq::new(
        branches.len(),
        |i: int| BranchRecordView { name: branches[i].name, record: hash_record(branches[i].target) },
    )
}

/// The persisted form of a repository: its objects, with those of the
/// staged tree unless nothing is staged, and the records of its head, its
/// branches and its index.
pub open spec fn persisted(repo: Repository) -> SavedView {
    SavedView {
        objects: if repo.staged() == empty_dir() {
            repo.objects()
        } else {
            stored_all(repo.objects(), tree_objects(repo.staged()))
        },
        head: head_record(repo.head()),
        branches: branch_records(repo.branch_list()),
        index: Some(
            if repo.staged() == empty_dir() {
                Seq::<u8>::empty()
            } else {
                hash_record(tree_hash(repo.staged()))
            },
        ),
    }
}

/// Whether the records of a persisted repository can be read.
pub open spec fn records_ok(saved: SavedView) -> bool {
    &&& saved_head(saved.objects, saved.head) is Some
    &&& saved_branches(saved.objects, saved.branches, saved.branches.len() as int) is Some
    &&& saved_index(saved.objects, saved.index) is Some
}

/// Whether every reference of `bytes` is held in `objects`.
pub open spec fn references_held(objects: Seq<Seq<u8>>, bytes: Seq<u8>) -> bool {
    forall|k: int|
        0 <= k < references(bytes).len() ==> holds(objects, #[trigger] references(bytes)[k])
}

/// Whether every hash that `bytes` refers to is stored.
pub fn check_references(store: &ObjectStore, bytes: &[u8]) -> (ok: bool)
    requires
        store.wf(),
    ensures
        ok == references_held(store@, bytes@),
{
    match parse_tree(bytes) {
        Some(entries) => {
            let ghost refs = references(bytes@);
            let mut i: usize = 0;
            while i < entries.len()
                invariant
                    i <= entries.len(),
                    store.wf(),
                    refs == references(bytes@),
                    parsed_tree(bytes@) == Some(entry_views(entries@)),
                    forall|k: int| 0 <= k < i ==> holds(store@, #[trigger] refs[k]),
                decreases entries.len() - i,
            {
                assert(refs[i as int] == entries@[i as int].hash@);
                if !store.contains(&entries[i].hash) {
                    return false;
                }
                i = i + 1;
            }
            true
        },
        None => match parse_commit(bytes) {
            Some(commit) => {
                let ghost refs = references(bytes@);
                assert(refs =~= seq![commit@.tree] + commit@.parents);
                if !store.contains(&commit.tree) {
                    assert(refs[0] == commit.tree@);
                    return false;
                }
                let mut i: usize = 0;
                while i < commit.parents.len()
                    invariant
                        i <= commit.parents.len(),
                        store.wf(),
                        refs == seq![commit@.tree] + commit@.parents,
                        refs == references(bytes@),
                        holds(store@, refs[0]),
                        forall|k: int| 0 <= k < i + 1 ==> holds(store@, #[trigger] refs[k]),
                    decreases commit.parents.len() - i,
                {
                    assert(refs[i + 1] == commit.parents@[i as int]@);
                    if !store.contains(&commit.parents[i]) {
                        return false;
                    }
                    i = i + 1;
                }
                true
            },
            None => true,
        },
    }
}

/// Reads persisted objects back into a store, in their order. Fails where
/// two of them share a hash or one refers to an object that is not stored
/// before it.
pub fn open_store(objects: &Vec<Vec<u8>>) -> (r: Result<ObjectStore, Error>)
    ensures
        match r {
            Ok(store) => {
                &&& store.wf()
                &&& store@ == views(objects@)
                &&& distinct(views(objects@))
                &&& ranked(views(objects@))
            },
            Err(e) => e == Error::CorruptObject && !(distinct(views(objects@)) && ranked(
                views(objects@),
            )),
        },
{
    let ghost all = views(objects@);
    let mut store = ObjectStore::new();
    let mut i: usize = 0;
    assert(all.take(0) =~= Seq::<Seq<u8>>::empty());
    while i < objects.len()
        invariant
            i <= objects.len(),
            all == views(objects@),
            store.wf(),
            store@ == all.take(i as int),
            ranked(store@),
        decreases objects.len() - i,
    {
        let bytes = objects[i].clone();
        let ghost so_far = store@;
        assert(bytes@ == all[i as int]);
        if !check_references(&store, bytes.as_slice()) {
            proof {
                let k = choose|k: int|
                    0 <= k < references(bytes@).len() && !holds(
                        so_far,
                        #[trigger] references(bytes@)[k],
                    );
                let hash = references(all[i as int])[k];
                if held_below(all, hash, i as int) {
                    let j = crate::tree::place_below(all, hash, i as int);
                    assert(so_far[j] == all[j]);
                    assert(content_hash(so_far[j]) == hash);
                }
                assert(!ranked(all));
            }
            return Err(Error::CorruptObject);
        }
        if store.contains(&ContentHash::of(bytes.as_slice())) {
            proof {
                let j = position(so_far, content_hash(bytes@));
                assert(so_far[j] == all[j]);
                assert(content_hash(all[j]) == content_hash(all[i as int]));
            }
            return Err(Error::CorruptObject);
        }
        proof {
            lemma_ranked_stored(so_far, bytes@);
            assert(stored(so_far, bytes@) =~= all.take(i + 1));
        }
        let _ = store.put(bytes);
        i = i + 1;
    }
    assert(all.take(objects@.len() as int) =~= all);
    Ok(store)
}

/// Whether the tree of every stored commit can be materialized.
pub fn check_readable(store: &ObjectStore) -> (ok: bool)
    requires
        store.wf(),
    ensures
        ok == readable(store@),
{
    let mut at: usize = 0;
    while at < store.len()
        invariant
            at <= store@.len(),
            store.wf(),
            forall|i: int|
                0 <= i < at && parsed_commit(#[trigger] store@[i]) is Some ==> materialized(
                    store@,
                    parsed_commit(store@[i]).unwrap().tree,
                ) is Some,
        decreases store@.len() - at,
    {
        match parse_commit(store.object_at(at).as_slice()) {
            Some(commit) => {
                if materialize(store, &commit.tree).is_err() {
                    return false;
                }
            },
            None => {},
        }
        at = at + 1;
    }
    true
}

/// Reads the records of branches back, each pointing at a stored commit.
pub fn open_branches(store: &ObjectStore, records: &Vec<BranchRecord>) -> (r: Result<
    RefStore,
    Error,
>)
    requires
        store.wf(),
    ensures
        match r {
            Ok(refs) => {
                &&& refs.wf()
                &&& saved_branches(store@, record_views(records@), records@.len() as int) == Some(
                    refs.listing(),
                )
                &&& forall|name: Seq<u8>| #[trigger]
                    refs@.contains_key(name) ==> commit_at(store@, refs@[name]) is Some
            },
            Err(e) => e == Error::CorruptState && saved_branches(
                store@,
                record_views(records@),
                records@.len() as int,
            ) is None,
        },
{
    let ghost all = record_views(records@);
    let mut refs = RefStore::new();
    let mut i: usize = 0;
    while i < records.len()
        invariant
            i <= records.len(),
            all == record_views(records@),
            store.wf(),
            refs.wf(),
            saved_branches(store@, all, i as int) == Some(refs.listing()),
            forall|name: Seq<u8>| #[trigger]
                refs@.contains_key(name) ==> commit_at(store@, refs@[name]) is Some,
        decreases records.len() - i,
    {
        let record = &records[i];
        assert(all[i as int] == record@);
        let target = match parse_hash_record(record.record.as_slice()) {
            Some(target) => target,
            None => {
                proof {
                    lemma_saved_branches_none(store@, all, i + 1);
                }
                return Err(Error::CorruptState);
            },
        };
        let is_commit = match store.get(&target) {
            Ok(bytes) => parse_commit(bytes.as_slice()).is_some(),
            Err(_) => false,
        };
        if !is_commit {
            proof {
                lemma_saved_branches_none(store@, all, i + 1);
            }
            return Err(Error::CorruptState);
        }
        match refs.create_branch(record.name.as_slice(), target) {
            Ok(_) => {},
            Err(_) => {
                proof {
                    lemma_saved_branches_none(store@, all, i + 1);
                }
                return Err(Error::CorruptState);
            },
        }
        i = i + 1;
    }
    Ok(refs)
}

/// Once a branch record cannot be read, the branches cannot be read.
pub proof fn lemma_saved_branches_none(
    objects: Seq<Seq<u8>>,
    records: Seq<BranchRecordView>,
    count: int,
)
    requires
        0 <= count <= records.len(),
        saved_branches(objects, records, count) is None,
    ensures
        saved_branches(objects, records, records.len() as int) is None,
    decreases records.len() - count,
{
    if count < records.len() {
        assert(saved_branches(objects, records, count + 1) is None);
        lemma_saved_branches_none(objects, records, count + 1);
    }
}

/// Opens a persisted repository. Fails with `NotARepository` where there
/// is no layout; with `CorruptObject` where two objects share a hash, an
/// object refers to one that is not stored before it, or the tree of a
/// commit cannot be materialized; and with `CorruptState` where the head,
/// a branch or the index cannot be read.
pub fn open(layout_exists: bool, saved: &Saved) -> (r: Result<Repository, Error>)
    ensures
        match r {
            Ok(repo) => {
                &&& layout_exists
                &&& repo.wf()
                &&& repo.objects() == saved@.objects
                &&& Some(repo.head()) == saved_head(saved@.objects, saved@.head)
                &&& Some(repo.branch_list()) == saved_branches(
                    saved@.objects,
                    saved@.branches,
                    saved@.branches.len() as int,
                )
                &&& Some(repo.staged()) == saved_index(saved@.objects, saved@.index)
            },
            Err(e) => if !layout_exists {
                e == Error::NotARepository
            } else if !(distinct(saved@.objects) && ranked(saved@.objects) && readable(
                saved@.objects,
            )) {
                e == Error::CorruptObject
            } else {
                e == Error::CorruptState && !records_ok(saved@)
            },
        },
{
    if !layout_exists {
        return Err(Error::NotARepository);
    }
    let store = match open_store(&saved.objects) {
        Ok(store) => store,
        Err(e) => {
            return Err(e);
        },
    };
    if !check_readable(&store) {
        return Err(Error::CorruptObject);
    }
    let head = match parse_head(saved.head.as_slice()) {
        Some(head) => head,
        None => {
            return Err(Error::CorruptState);
        },
    };
    match &head {
        Head::Attached(_) => {},
        Head::Detached(hash) => {
            let is_commit = match store.get(hash) {
                Ok(bytes) => parse_commit(bytes.as_slice()).is_some(),
                Err(_) => false,
            };
            if !is_commit {
                return Err(Error::CorruptState);
            }
        },
    }
    let refs = match open_branches(&store, &saved.branches) {
        Ok(refs) => refs,
        Err(e) => {
            return Err(e);
        },
    };
    let record = match &saved.index {
        Some(record) => record,
        None => {
            return Err(Error::CorruptState);
        },
    };
    let index = if record.len() == 0 {
        proof {
            crate::canon::lemma_empty_canonical();
        }
        Index::new()
    } else {
        let hash = match parse_hash_record(record.as_slice()) {
            Some(hash) => hash,
            None => {
                return Err(Error::CorruptState);
            },
        };
        match load(&store, &hash) {
            Ok(node) => {
                proof {
                    let at = position(store@, hash@);
                    lemma_loaded_canonical(store@, at);
                    lemma_loaded_held(store@, at);
                }
                Index::from_tree(node)
            },
            Err(_) => {
                return Err(Error::CorruptState);
            },
        }
    };
    Ok(Repository::from_parts(store, index, refs, head))
}

/// The persisted form of a repository. The staged tree is stored first, so
/// that the record of the index can name it.
pub fn save(repo: &mut Repository) -> (saved: Saved)
    requires
        old(repo).wf(),
    ensures
        final(repo).wf(),
        final(repo).staged() == old(repo).staged(),
        final(repo).branches() == old(repo).branches(),
        final(repo).head() == old(repo).head(),
        final(repo).branch_list() == old(repo).branch_list(),
        old(repo).objects().is_prefix_of(final(repo).objects()),
        final(repo).objects() == persisted(*old(repo)).objects,
        saved@ == persisted(*old(repo)),
{
    assert(repo.objects() =~= repo.objects().subrange(0, repo.objects().len() as int));
    let index = if repo.index().root().is_empty_dir() {
        Vec::new()
    } else {
        let hash = repo.store_staged();
        encode_hash_record(&hash)
    };
    let head = encode_head(repo.get_head());
    let mut branches: Vec<BranchRecord> = Vec::new();
    let mut i: usize = 0;
    while i < repo.refs().len()
        invariant
            repo.wf(),
            i <= repo.branch_list().len(),
            branches@.len() == i,
            forall|j: int|
                0 <= j < i ==> (#[trigger] branches@[j])@ == branch_records(
                    repo.branch_list(),
                )[j],
        decreases repo.branch_list().len() - i,
    {
        let branch = repo.refs().branch_at(i);
        let record = BranchRecord {
            name: branch.name.clone(),
            record: encode_hash_record(&branch.target),
        };
        branches.push(record);
        i = i + 1;
    }
    let mut objects: Vec<Vec<u8>> = Vec::new();
    let mut k: usize = 0;
    while k < repo.store().len()
        invariant
            repo.wf(),
            k <= repo.objects().len(),
            objects@.len() == k,
            forall|j: int| 0 <= j < k ==> (#[trigger] objects@[j])@ == repo.objects()[j],
        decreases repo.objects().len() - k,
    {
        objects.push(repo.store().object_at(k).clone());
        k = k + 1;
    }
    assert(views(objects@) =~= repo.objects());
    assert(record_views(branches@) =~= branch_records(repo.branch_list()));
    Saved { objects, head, branches, index: Some(index) }
}

/// The branches that the records of branches hold are those branches,
/// where no two share a name and each points at a stored commit.
pub proof fn lemma_branch_records_read_back(
    objects: Seq<Seq<u8>>,
    branches: Seq<BranchView>,
    count: int,
)
    requires
        0 <= count <= branches.len(),
        unique_names(branches),
        forall|i: int|
            0 <= i < branches.len() ==> commit_at(objects, (#[trigger] branches[i]).target)
                is Some,
    ensures
        saved_branches(objects, branch_records(branches), count) == Some(branches.take(count)),
    decreases count,
{
    if count > 0 {
        lemma_branch_records_read_back(objects, branches, count - 1);
        let branch = branches[count - 1];
        assert(commit_at(objects, branch.target) is Some);
        let at = position(objects, branch.target);
        assert(branch.target == content_hash(objects[at]));
        crate::refs::lemma_parse_hash_record(branch.target);
        let done = branches.take(count - 1);
        assert(!crate::refs::names(done, branch.name)) by {
            if crate::refs::names(done, branch.name) {
                let i = crate::refs::place_of(done, branch.name);
                assert(done[i] == branches[i]);
                assert(branches[i].name != branches[count - 1].name);
            }
        }
        assert(branches.take(count) =~= done.push(branch));
    } else {
        assert(branches.take(0) =~= Seq::<BranchView>::empty());
    }
}

/// What was saved opens as it was: the persisted form of a valid
/// repository holds its objects, in order and whole, and records that read
/// back as its head, its branches and its staged tree; provided that the
/// store holds nothing else under the hash of any object of the staged
/// tree.
pub proof fn lemma_persisted_opens(repo: Repository)
    requires
        repo.wf(),
        crate::integrity::kept(persisted(repo).objects, tree_objects(repo.staged())),
    ensures
        distinct(persisted(repo).objects),
        ranked(persisted(repo).objects),
        readable(persisted(repo).objects),
        saved_head(persisted(repo).objects, persisted(repo).head) == Some(repo.head()),
        saved_branches(
            persisted(repo).objects,
            persisted(repo).branches,
            persisted(repo).branches.len() as int,
        ) == Some(repo.branch_list()),
        saved_index(persisted(repo).objects, persisted(repo).index) == Some(repo.staged()),
        records_ok(persisted(repo)),
{
    let before = repo.objects();
    let after = persisted(repo).objects;
    let staged = repo.staged();
    if staged == empty_dir() {
        assert(before =~= before.subrange(0, before.len() as int));
    } else {
        crate::integrity::lemma_store_tree_ranked(before, staged);
        crate::durable::lemma_tree_no_commits(staged);
        crate::durable::lemma_readable_stored_all(before, tree_objects(staged));
        crate::integrity::lemma_stored_tree_loads(before, staged);
        crate::canon::lemma_hash_width(staged);
        crate::refs::lemma_parse_hash_record(tree_hash(staged));
        assert(hash_record(tree_hash(staged)).len() == 65);
    }
    // the head
    match repo.head() {
        HeadView::Attached(_) => {},
        HeadView::Detached(hash) => {
            crate::integrity::lemma_lookup_grows(before, after, hash);
            let at = position(before, hash);
            assert(hash == content_hash(before[at]));
        },
    }
    crate::refs::lemma_parse_head_record(repo.head());
    // the branches
    let branches = repo.branch_list();
    repo.lemma_branches_listed();
    assert forall|i: int| 0 <= i < branches.len() implies commit_at(
        after,
        (#[trigger] branches[i]).target,
    ) is Some by {
        crate::refs::lemma_place_of(branches, i);
        assert(repo.branches().contains_key(branches[i].name));
        crate::integrity::lemma_lookup_grows(before, after, branches[i].target);
    }
    lemma_branch_records_read_back(after, branches, branches.len() as int);
    assert(branches.take(branches.len() as int) =~= branches);
    assert(branch_records(branches).len() == branches.len());
}

} // verus!
