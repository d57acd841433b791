//! What can be read from a store can be read from it for ever: nothing
//! that is stored changes as the store grows.

use crate::commit::parsed_commit;
use crate::hash::content_hash;
use crate::integrity::lemma_lookup_grows;
use crate::object::blob_bytes;
use crate::object::parsed_tree;
use crate::object::tree_bytes;
use crate::object::Entry;
use crate::object::EntryKind;
use crate::store::distinct;
use crate::store::lemma_position_unique;
use crate::store::lemma_stored_extends;
use crate::store::position;
use crate::store::stored;
use crate::tree::children_objects;
use crate::tree::entries_of;
use crate::tree::flattened;
use crate::tree::held_below;
use crate::tree::loaded;
use crate::tree::loaded_children;
use crate::tree::loaded_tree;
use crate::tree::place_below;
use crate::tree::stored_all;
use crate::tree::tree_objects;
use crate::tree::Child;
use crate::tree::Tree;
use crate::worktree::blobs;
use crate::worktree::contents;
use crate::worktree::materialized;
use crate::worktree::FileView;
use vstd::prelude::*;

verus! {

/// Whether the tree of every stored commit can be materialized.
pub open spec fn readable(objects: Seq<Seq<u8>>) -> bool {
    forall|at: int|
        0 <= at < objects.len() && parsed_commit(#[trigger] objects[at]) is Some
            ==> materialized(objects, parsed_commit(objects[at]).unwrap().tree) is Some
}

/// Whether none of `data` is the stored form of a commit.
pub open spec fn no_commits(data: Seq<Seq<u8>>) -> bool {
    forall|i: int| 0 <= i < data.len() ==> parsed_commit(#[trigger] data[i]) is None
}

/// A store that has grown from one without repeated hashes began as one
/// without repeated hashes.
pub proof fn lemma_distinct_prefix(objects: Seq<Seq<u8>>, more: Seq<Seq<u8>>)
    requires
        objects.is_prefix_of(more),
        distinct(more),
    ensures
        distinct(objects),
{
    assert forall|i: int, j: int| 0 <= i < j < objects.len() implies content_hash(
        #[trigger] objects[i],
    ) != content_hash(#[trigger] objects[j]) by {
        assert(more[i] == objects[i] && more[j] == objects[j]);
    }
}

/// What is held below a bound is held below it in the grown store, at the
/// same place.
pub proof fn lemma_held_below_grows(
    objects: Seq<Seq<u8>>,
    more: Seq<Seq<u8>>,
    hash: Seq<u8>,
    bound: int,
)
    requires
        objects.is_prefix_of(more),
        distinct(more),
        bound <= objects.len(),
    ensures
        held_below(more, hash, bound) == held_below(objects, hash, bound),
        held_below(objects, hash, bound) ==> place_below(more, hash, bound) == place_below(
            objects,
            hash,
            bound,
        ),
{
    lemma_distinct_prefix(objects, more);
    if held_below(objects, hash, bound) {
        let i = place_below(objects, hash, bound);
        assert(more[i] == objects[i]);
        assert(content_hash(more[i]) == hash);
        let j = place_below(more, hash, bound);
        lemma_position_unique(more, i);
        lemma_position_unique(more, j);
    }
    if held_below(more, hash, bound) {
        let j = place_below(more, hash, bound);
        assert(more[j] == objects[j]);
        assert(content_hash(objects[j]) == hash);
    }
}

/// A tree that can be read at a place reads the same in the grown store.
pub proof fn lemma_loaded_grows(objects: Seq<Seq<u8>>, more: Seq<Seq<u8>>, at: int)
    requires
        objects.is_prefix_of(more),
        distinct(more),
        0 <= at < objects.len(),
    ensures
        loaded(more, at) == loaded(objects, at),
    decreases at, 1nat, 0nat,
{
    assert(more[at] == objects[at]);
    match parsed_tree(objects[at]) {
        None => {},
        Some(entries) => {
            lemma_loaded_children_grow(objects, more, at, entries, entries.len() as int);
        },
    }
}

/// The children that can be read for a tree at a place read the same in
/// the grown store.
pub proof fn lemma_loaded_children_grow(
    objects: Seq<Seq<u8>>,
    more: Seq<Seq<u8>>,
    at: int,
    entries: Seq<Entry>,
    count: int,
)
    requires
        objects.is_prefix_of(more),
        distinct(more),
        0 <= at < objects.len(),
    ensures
        loaded_children(more, at, entries, count) == loaded_children(objects, at, entries, count),
    decreases at, 0nat, count,
{
    if 0 < count <= entries.len() {
        lemma_loaded_children_grow(objects, more, at, entries, count - 1);
        let entry = entries[count - 1];
        lemma_held_below_grows(objects, more, entry.hash, at);
        if entry.kind == EntryKind::Directory && held_below(objects, entry.hash, at) {
            let place = place_below(objects, entry.hash, at);
            lemma_loaded_grows(objects, more, place);
        }
    }
}

/// Files that can be read are read the same from the grown store.
pub proof fn lemma_contents_grow(objects: Seq<Seq<u8>>, more: Seq<Seq<u8>>, entries: Seq<Entry>)
    requires
        objects.is_prefix_of(more),
        distinct(more),
        contents(objects, entries) is Some,
    ensures
        contents(more, entries) == contents(objects, entries),
    decreases entries.len(),
{
    if entries.len() > 0 {
        lemma_contents_grow(objects, more, entries.drop_last());
        lemma_lookup_grows(objects, more, entries.last().hash);
    }
}

/// A tree that can be materialized is materialized the same from the grown
/// store: what was committed can be checked out for ever.
pub proof fn lemma_materialized_grows(objects: Seq<Seq<u8>>, more: Seq<Seq<u8>>, hash: Seq<u8>)
    requires
        objects.is_prefix_of(more),
        distinct(more),
        materialized(objects, hash) is Some,
    ensures
        materialized(more, hash) == materialized(objects, hash),
        loaded_tree(more, hash) == loaded_tree(objects, hash),
{
    lemma_lookup_grows(objects, more, hash);
    let at = position(objects, hash);
    lemma_loaded_grows(objects, more, at);
    let tree = loaded_tree(objects, hash).unwrap();
    lemma_contents_grow(objects, more, flattened(tree, Seq::empty()));
}

/// Putting an object that is no commit, or a commit whose tree can then be
/// materialized, keeps the tree of every stored commit materializable.
pub proof fn lemma_readable_stored(objects: Seq<Seq<u8>>, data: Seq<u8>)
    requires
        distinct(objects),
        readable(objects),
        parsed_commit(data) is Some ==> materialized(
            stored(objects, data),
            parsed_commit(data).unwrap().tree,
        ) is Some,
    ensures
        readable(stored(objects, data)),
{
    let after = stored(objects, data);
    lemma_stored_extends(objects, data);
    assert forall|at: int|
        0 <= at < after.len() && parsed_commit(#[trigger] after[at]) is Some implies materialized(
        after,
        parsed_commit(after[at]).unwrap().tree,
    ) is Some by {
        if at < objects.len() {
            assert(after[at] == objects[at]);
            lemma_materialized_grows(objects, after, parsed_commit(objects[at]).unwrap().tree);
        } else {
            assert(after[at] == data);
        }
    }
}

/// Putting objects none of which is a commit keeps the tree of every
/// stored commit materializable.
pub proof fn lemma_readable_stored_all(objects: Seq<Seq<u8>>, data: Seq<Seq<u8>>)
    requires
        distinct(objects),
        readable(objects),
        no_commits(data),
    ensures
        readable(stored_all(objects, data)),
        distinct(stored_all(objects, data)),
    decreases data.len(),
{
    if data.len() > 0 {
        let before = data.drop_last();
        assert(no_commits(before)) by {
            assert forall|i: int| 0 <= i < before.len() implies parsed_commit(
                #[trigger] before[i],
            ) is None by {
                assert(before[i] == data[i]);
            }
        }
        lemma_readable_stored_all(objects, before);
        assert(parsed_commit(data.last()) is None) by {
            assert(data.last() == data[data.len() - 1]);
        }
        lemma_readable_stored(stored_all(objects, before), data.last());
        lemma_stored_extends(stored_all(objects, before), data.last());
    }
}

/// No blob is a commit.
pub proof fn lemma_blobs_no_commits(files: Seq<FileView>)
    ensures
        no_commits(blobs(files)),
{
    assert forall|i: int| 0 <= i < blobs(files).len() implies parsed_commit(
        #[trigger] blobs(files)[i],
    ) is None by {
        assert(blobs(files)[i] == blob_bytes(files[i].content));
    }
}

/// No object of a tree is a commit.
pub proof fn lemma_tree_no_commits(tree: Tree)
    ensures
        no_commits(tree_objects(tree)),
    decreases tree, 0nat,
{
    match tree {
        Tree::File(_) => {},
        Tree::Dir(children) => {
            let n = children.len() as int;
            lemma_children_no_commits(children, n);
            let inner = children_objects(children, n);
            let all = tree_objects(tree);
            assert forall|i: int| 0 <= i < all.len() implies parsed_commit(#[trigger] all[i])
                is None by {
                if i < inner.len() {
                    assert(all[i] == inner[i]);
                } else {
                    assert(all[i] == tree_bytes(entries_of(children)));
                }
            }
        },
    }
}

/// No object of the first `count` children is a commit.
pub proof fn lemma_children_no_commits(children: Seq<Child>, count: int)
    ensures
        no_commits(children_objects(children, count)),
    decreases children, count,
{
    if 0 < count <= children.len() {
        lemma_children_no_commits(children, count - 1);
        lemma_tree_no_commits(children[count - 1].tree);
        let before = children_objects(children, count - 1);
        let own = tree_objects(children[count - 1].tree);
        let all = children_objects(children, count);
        assert forall|i: int| 0 <= i < all.len() implies parsed_commit(#[trigger] all[i])
            is None by {
            if i < before.len() {
                assert(all[i] == before[i]);
            } else {
                assert(all[i] == own[i - before.len()]);
            }
        }
    }
}

} // verus!
