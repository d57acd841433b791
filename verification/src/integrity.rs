//! What keeps a store whole: objects refer only to older objects, the files
//! of a staged tree are stored, and a tree that is stored can be read back
//! as it was.

use crate::canon::canonical;
use crate::canon::lemma_entries_ok;
use crate::canon::lemma_slot_bounds;
use crate::graph::ranked;
use crate::graph::references;
use crate::hash::content_hash;
use crate::object::lemma_parse_tree_bytes;
use crate::object::lemma_tree_bytes_parsed;
use crate::object::parsed_tree;
use crate::object::tree_bytes;
use crate::object::Entry;
use crate::object::EntryKind;
use crate::store::distinct;
use crate::store::holds;
use crate::store::lemma_position_unique;
use crate::store::lemma_stored_extends;
use crate::store::lookup;
use crate::store::position;
use crate::store::stored;
use crate::tree::child_named;
use crate::tree::children_objects;
use crate::tree::children_of;
use crate::tree::entries_of;
use crate::tree::has_child;
use crate::tree::held_below;
use crate::tree::inserted;
use crate::tree::kind_of;
use crate::tree::lemma_dir_hash;
use crate::tree::lemma_held_below;
use crate::tree::lemma_stored_all_concat;
use crate::tree::loaded;
use crate::tree::loaded_children;
use crate::tree::loaded_tree;
use crate::tree::place_below;
use crate::tree::slot;
use crate::tree::stored_all;
use crate::tree::tree_hash;
use crate::tree::tree_objects;
use crate::tree::with_child;
use crate::tree::without;
use crate::tree::Child;
use crate::tree::Tree;
use vstd::prelude::*;

verus! {

/// Whether the blob of every file in `tree` is stored.
pub open spec fn leaves_held(objects: Seq<Seq<u8>>, tree: Tree) -> bool
    decreases tree,
{
    match tree {
        Tree::File(hash) => holds(objects, hash),
        Tree::Dir(children) => forall|i: int|
            0 <= i < children.len() ==> leaves_held(objects, (#[trigger] children[i]).tree),
    }
}

/// Whether `tree` is stored: every directory in it has its stored form
/// under its hash.
pub open spec fn present(objects: Seq<Seq<u8>>, tree: Tree) -> bool
    decreases tree,
{
    match tree {
        Tree::File(_) => true,
        Tree::Dir(children) => {
            &&& holds(objects, tree_hash(tree))
            &&& lookup(objects, tree_hash(tree)) == tree_bytes(entries_of(children))
            &&& forall|i: int|
                0 <= i < children.len() ==> present(objects, (#[trigger] children[i]).tree)
        },
    }
}

/// Whether each of `data` is what the store holds under its hash.
pub open spec fn kept(objects: Seq<Seq<u8>>, data: Seq<Seq<u8>>) -> bool {
    forall|i: int|
        0 <= i < data.len() ==> holds(objects, content_hash(#[trigger] data[i])) && lookup(
            objects,
            content_hash(data[i]),
        ) == data[i]
}

/// What is held stays held as the store grows.
pub proof fn lemma_holds_grows(objects: Seq<Seq<u8>>, more: Seq<Seq<u8>>, hash: Seq<u8>)
    requires
        objects.is_prefix_of(more),
        holds(objects, hash),
    ensures
        holds(more, hash),
{
    let i = position(objects, hash);
    assert(more[i] == objects[i]);
}

/// The files of a tree stay stored as the store grows.
pub proof fn lemma_leaves_grow(objects: Seq<Seq<u8>>, more: Seq<Seq<u8>>, tree: Tree)
    requires
        objects.is_prefix_of(more),
        leaves_held(objects, tree),
    ensures
        leaves_held(more, tree),
    decreases tree,
{
    match tree {
        Tree::File(hash) => {
            lemma_holds_grows(objects, more, hash);
        },
        Tree::Dir(children) => {
            assert forall|i: int| 0 <= i < children.len() implies leaves_held(
                more,
                (#[trigger] children[i]).tree,
            ) by {
                lemma_leaves_grow(objects, more, children[i].tree);
            }
        },
    }
}

/// Insertion of a tree whose files are stored into one whose files are
/// stored gives one whose files are stored.
pub proof fn lemma_inserted_held(
    objects: Seq<Seq<u8>>,
    tree: Tree,
    path: Seq<Seq<u8>>,
    sub: Tree,
)
    requires
        leaves_held(objects, tree),
        leaves_held(objects, sub),
    ensures
        leaves_held(objects, inserted(tree, path, sub)),
    decreases path.len(),
{
    if path.len() > 0 {
        let children = children_of(tree);
        let name = path[0];
        lemma_slot_bounds(children, name);
        let at = slot(children, name);
        let old_child = child_named(children, name);
        assert(leaves_held(objects, old_child)) by {
            if has_child(children, name) {
                assert(leaves_held(objects, children[at].tree));
            }
        }
        lemma_inserted_held(objects, old_child, path.skip(1), sub);
        let grown = inserted(old_child, path.skip(1), sub);
        let less = without(children, name);
        let more = with_child(children, name, grown);
        assert forall|i: int| 0 <= i < less.len() implies leaves_held(
            objects,
            (#[trigger] less[i]).tree,
        ) by {
            if has_child(children, name) && i >= at {
                assert(less[i] == children[i + 1]);
            } else {
                assert(less[i] == children[i]);
            }
        }
        assert forall|i: int| 0 <= i < more.len() implies leaves_held(
            objects,
            (#[trigger] more[i]).tree,
        ) by {
            if i < at {
                assert(more[i] == less[i]);
            } else if i > at {
                assert(more[i] == less[i - 1]);
            }
        }
    }
}

/// Putting an object whose references are all stored keeps the order of
/// the store: objects refer only to older objects.
pub proof fn lemma_ranked_stored(objects: Seq<Seq<u8>>, data: Seq<u8>)
    requires
        distinct(objects),
        ranked(objects),
        forall|k: int| 0 <= k < references(data).len() ==> holds(objects, #[trigger] references(data)[k]),
    ensures
        ranked(stored(objects, data)),
{
    let after = stored(objects, data);
    lemma_stored_extends(objects, data);
    assert forall|at: int, k: int|
        0 <= at < after.len() && 0 <= k < references(after[at]).len() implies held_below(
        after,
        #[trigger] references(after[at])[k],
        at,
    ) by {
        let hash = references(after[at])[k];
        if at < objects.len() {
            assert(after[at] == objects[at]);
            assert(held_below(objects, references(objects[at])[k], at));
            let i = place_below(objects, hash, at);
            assert(after[i] == objects[i]);
        } else {
            assert(after[at] == data);
            assert(holds(objects, references(data)[k]));
            let i = position(objects, hash);
            assert(after[i] == objects[i]);
        }
    }
}

/// A blob refers to nothing.
pub proof fn lemma_blob_references(content: Seq<u8>)
    ensures
        references(crate::object::blob_bytes(content)).len() == 0,
{
}

/// A stored tree in canonical form refers to the hashes of its children.
pub proof fn lemma_tree_references(children: Seq<Child>)
    requires
        canonical(Tree::Dir(children)),
    ensures
        parsed_tree(tree_bytes(entries_of(children))) == Some(entries_of(children)),
        references(tree_bytes(entries_of(children))).len() == children.len(),
        forall|i: int|
            0 <= i < children.len() ==> #[trigger] references(tree_bytes(entries_of(children)))[i]
                == tree_hash(children[i].tree),
{
    lemma_entries_ok(children);
    lemma_parse_tree_bytes(entries_of(children));
}

/// Storing a canonical tree whose files are stored keeps the store in
/// order, keeps what was stored, and leaves the tree's hash held.
pub proof fn lemma_store_tree_ranked(objects: Seq<Seq<u8>>, tree: Tree)
    requires
        distinct(objects),
        ranked(objects),
        canonical(tree),
        leaves_held(objects, tree),
    ensures
        distinct(stored_all(objects, tree_objects(tree))),
        ranked(stored_all(objects, tree_objects(tree))),
        objects.is_prefix_of(stored_all(objects, tree_objects(tree))),
        holds(stored_all(objects, tree_objects(tree)), tree_hash(tree)),
    decreases tree, 0nat,
{
    match tree {
        Tree::File(hash) => {
            assert(tree_objects(tree) =~= Seq::<Seq<u8>>::empty());
            assert(objects =~= objects.subrange(0, objects.len() as int));
        },
        Tree::Dir(children) => {
            let n = children.len() as int;
            lemma_store_children_ranked(objects, children, n);
            let mid = stored_all(objects, children_objects(children, n));
            let data = tree_bytes(entries_of(children));
            let all = tree_objects(tree);
            assert(all.drop_last() =~= children_objects(children, n));
            assert(all.last() == data);
            lemma_tree_references(children);
            lemma_ranked_stored(mid, data);
            lemma_stored_extends(mid, data);
            lemma_dir_hash(children);
            let after = stored(mid, data);
            assert(objects =~= after.subrange(0, objects.len() as int)) by {
                assert(objects =~= mid.subrange(0, objects.len() as int));
                assert(mid =~= after.subrange(0, mid.len() as int));
            }
        },
    }
}

/// Storing the first `count` children of a canonical directory whose files
/// are stored keeps the store in order and leaves their hashes held.
pub proof fn lemma_store_children_ranked(objects: Seq<Seq<u8>>, children: Seq<Child>, count: int)
    requires
        distinct(objects),
        ranked(objects),
        0 <= count <= children.len(),
        forall|i: int|
            0 <= i < children.len() ==> canonical((#[trigger] children[i]).tree) && leaves_held(
                objects,
                children[i].tree,
            ),
    ensures
        distinct(stored_all(objects, children_objects(children, count))),
        ranked(stored_all(objects, children_objects(children, count))),
        objects.is_prefix_of(stored_all(objects, children_objects(children, count))),
        forall|i: int|
            0 <= i < children.len() ==> leaves_held(
                stored_all(objects, children_objects(children, count)),
                (#[trigger] children[i]).tree,
            ),
        forall|i: int|
            0 <= i < count ==> holds(
                stored_all(objects, children_objects(children, count)),
                tree_hash((#[trigger] children[i]).tree),
            ),
    decreases children, count,
{
    if count > 0 {
        lemma_store_children_ranked(objects, children, count - 1);
        let before = stored_all(objects, children_objects(children, count - 1));
        let child = children[count - 1].tree;
        lemma_store_tree_ranked(before, child);
        lemma_stored_all_concat(
            objects,
            children_objects(children, count - 1),
            tree_objects(child),
        );
        let after = stored_all(objects, children_objects(children, count));
        assert(after == stored_all(before, tree_objects(child)));
        assert(objects =~= after.subrange(0, objects.len() as int)) by {
            assert(objects =~= before.subrange(0, objects.len() as int));
            assert(before =~= after.subrange(0, before.len() as int));
        }
        assert forall|i: int| 0 <= i < children.len() implies leaves_held(
            after,
            (#[trigger] children[i]).tree,
        ) by {
            lemma_leaves_grow(before, after, children[i].tree);
        }
        assert forall|i: int| 0 <= i < count implies holds(
            after,
            tree_hash((#[trigger] children[i]).tree),
        ) by {
            if i < count - 1 {
                lemma_holds_grows(before, after, tree_hash(children[i].tree));
            }
        }
    } else {
        assert(children_objects(children, count) =~= Seq::<Seq<u8>>::empty());
        assert(objects =~= objects.subrange(0, objects.len() as int));
    }
}

/// What the children read from a stored tree are: one per entry, with the
/// entry's name; a file with the entry's hash, or the directory read from
/// the older object that has the entry's hash.
pub proof fn lemma_loaded_children_shape(
    objects: Seq<Seq<u8>>,
    at: int,
    entries: Seq<Entry>,
    count: int,
)
    requires
        0 <= count <= entries.len(),
        loaded_children(objects, at, entries, count) is Some,
    ensures
        loaded_children(objects, at, entries, count).unwrap().len() == count,
        forall|i: int|
            0 <= i < count ==> {
                let child = #[trigger] loaded_children(objects, at, entries, count).unwrap()[i];
                &&& child.name == entries[i].name
                &&& entries[i].kind == EntryKind::File ==> child.tree == Tree::File(
                    entries[i].hash,
                )
                &&& entries[i].kind == EntryKind::Directory ==> held_below(
                    objects,
                    entries[i].hash,
                    at,
                ) && loaded(objects, place_below(objects, entries[i].hash, at)) == Some(
                    child.tree,
                )
            },
    decreases count,
{
    if count > 0 {
        lemma_loaded_children_shape(objects, at, entries, count - 1);
        let done = loaded_children(objects, at, entries, count - 1).unwrap();
        let all = loaded_children(objects, at, entries, count).unwrap();
        assert forall|i: int| 0 <= i < count implies {
            let child = #[trigger] all[i];
            &&& child.name == entries[i].name
            &&& entries[i].kind == EntryKind::File ==> child.tree == Tree::File(entries[i].hash)
            &&& entries[i].kind == EntryKind::Directory ==> held_below(
                objects,
                entries[i].hash,
                at,
            ) && loaded(objects, place_below(objects, entries[i].hash, at)) == Some(child.tree)
        } by {
            if i < count - 1 {
                assert(all[i] == done[i]);
            }
        }
    }
}

/// What is read from a store is a canonical directory whose hash is the
/// hash it was read under.
pub proof fn lemma_loaded_canonical(objects: Seq<Seq<u8>>, at: int)
    requires
        loaded(objects, at) is Some,
    ensures
        loaded(objects, at).unwrap() is Dir,
        canonical(loaded(objects, at).unwrap()),
        tree_hash(loaded(objects, at).unwrap()) == content_hash(objects[at]),
    decreases at,
{
    let entries = parsed_tree(objects[at]).unwrap();
    let n = entries.len() as int;
    let children = loaded_children(objects, at, entries, n).unwrap();
    lemma_loaded_children_shape(objects, at, entries, n);
    lemma_tree_bytes_parsed(objects[at]);
    assert forall|i: int| 0 <= i < n implies canonical((#[trigger] children[i]).tree)
        && crate::tree::entry_of(children[i]) == entries[i] by {
        assert(crate::object::valid_name(entries[i].name) && entries[i].hash.len() == 32);
        match entries[i].kind {
            EntryKind::File => {},
            EntryKind::Directory => {
                let place = place_below(objects, entries[i].hash, at);
                lemma_loaded_canonical(objects, place);
            },
        }
    }
    assert(entries_of(children) =~= entries);
    assert(crate::canon::sorted_names(children)) by {
        assert forall|i: int, j: int| 0 <= i < j < children.len() implies crate::bytes::lex_lt(
            (#[trigger] children[i]).name,
            (#[trigger] children[j]).name,
        ) by {
            assert(crate::bytes::lex_lt(entries[i].name, entries[j].name));
        }
    }
    assert forall|i: int| 0 <= i < children.len() implies crate::object::valid_name(
        (#[trigger] children[i]).name,
    ) && canonical(children[i].tree) by {
        assert(crate::object::valid_name(entries[i].name));
    }
    lemma_dir_hash(children);
}

/// In a store in order, the files of a tree that was read are stored.
pub proof fn lemma_loaded_held(objects: Seq<Seq<u8>>, at: int)
    requires
        ranked(objects),
        loaded(objects, at) is Some,
    ensures
        leaves_held(objects, loaded(objects, at).unwrap()),
    decreases at,
{
    let entries = parsed_tree(objects[at]).unwrap();
    let n = entries.len() as int;
    let children = loaded_children(objects, at, entries, n).unwrap();
    lemma_loaded_children_shape(objects, at, entries, n);
    assert forall|i: int| 0 <= i < children.len() implies leaves_held(
        objects,
        (#[trigger] children[i]).tree,
    ) by {
        match entries[i].kind {
            EntryKind::File => {
                assert(references(objects[at])[i] == entries[i].hash);
                assert(held_below(objects, references(objects[at])[i], at));
                let q = place_below(objects, entries[i].hash, at);
                assert(content_hash(objects[q]) == entries[i].hash);
            },
            EntryKind::Directory => {
                lemma_loaded_held(objects, place_below(objects, entries[i].hash, at));
            },
        }
    }
}

/// A canonical directory that is stored, in a store in order, is read back
/// as it was.
pub proof fn lemma_present_loads(objects: Seq<Seq<u8>>, tree: Tree)
    requires
        distinct(objects),
        ranked(objects),
        canonical(tree),
        tree is Dir,
        present(objects, tree),
    ensures
        loaded_tree(objects, tree_hash(tree)) == Some(tree),
    decreases tree, tree->Dir_0.len() + 2,
{
    let children = tree->Dir_0;
    lemma_present_children_load(objects, tree, children.len() as int);
    assert(loaded_children(
        objects,
        position(objects, tree_hash(tree)),
        entries_of(children),
        children.len() as int,
    ).unwrap() =~= children);
    lemma_tree_references(children);
}

/// The first `count` children of a stored canonical directory are read
/// back as they were.
pub proof fn lemma_present_children_load(objects: Seq<Seq<u8>>, tree: Tree, count: int)
    requires
        distinct(objects),
        ranked(objects),
        canonical(tree),
        tree is Dir,
        present(objects, tree),
        0 <= count <= tree->Dir_0.len(),
    ensures
        loaded_children(
            objects,
            position(objects, tree_hash(tree)),
            entries_of(tree->Dir_0),
            count,
        ) == Some(tree->Dir_0.take(count)),
    decreases tree, count + 1,
{
    let children = tree->Dir_0;
    let at = position(objects, tree_hash(tree));
    let entries = entries_of(children);
    if count > 0 {
        lemma_present_children_load(objects, tree, count - 1);
        let child = children[count - 1];
        let entry = entries[count - 1];
        assert(canonical(child.tree) && present(objects, child.tree));
        lemma_tree_references(children);
        assert(objects[at] == tree_bytes(entries));
        match child.tree {
            Tree::File(hash) => {},
            Tree::Dir(_) => {
                assert(references(objects[at])[count - 1] == tree_hash(child.tree));
                assert(held_below(objects, references(objects[at])[count - 1], at));
                lemma_held_below(objects, tree_hash(child.tree), at);
                lemma_present_loads(objects, child.tree);
            },
        }
        assert(children.take(count) =~= children.take(count - 1).push(child));
    } else {
        assert(children.take(0) =~= Seq::<Child>::empty());
    }
}

/// What is stored under a hash stays there, unchanged, as the store grows.
pub proof fn lemma_lookup_grows(objects: Seq<Seq<u8>>, more: Seq<Seq<u8>>, hash: Seq<u8>)
    requires
        objects.is_prefix_of(more),
        distinct(more),
        holds(objects, hash),
    ensures
        holds(more, hash),
        position(more, hash) == position(objects, hash),
        lookup(more, hash) == lookup(objects, hash),
{
    let i = position(objects, hash);
    assert(more[i] == objects[i]);
    lemma_position_unique(more, i);
}

/// Growing is transitive.
pub proof fn lemma_prefix_transitive(a: Seq<Seq<u8>>, b: Seq<Seq<u8>>, c: Seq<Seq<u8>>)
    requires
        a.is_prefix_of(b),
        b.is_prefix_of(c),
    ensures
        a.is_prefix_of(c),
{
    assert(a =~= c.subrange(0, a.len() as int)) by {
        assert(a =~= b.subrange(0, a.len() as int));
        assert(b =~= c.subrange(0, b.len() as int));
    }
}

/// Putting objects that refer to nothing keeps the store in order, keeps
/// what was stored, and leaves each of them held.
pub proof fn lemma_store_plain(objects: Seq<Seq<u8>>, data: Seq<Seq<u8>>)
    requires
        distinct(objects),
        ranked(objects),
        forall|i: int| 0 <= i < data.len() ==> references(#[trigger] data[i]).len() == 0,
    ensures
        distinct(stored_all(objects, data)),
        ranked(stored_all(objects, data)),
        objects.is_prefix_of(stored_all(objects, data)),
        forall|i: int|
            0 <= i < data.len() ==> holds(
                stored_all(objects, data),
                content_hash(#[trigger] data[i]),
            ),
    decreases data.len(),
{
    if data.len() > 0 {
        let before = data.drop_last();
        assert forall|i: int| 0 <= i < before.len() implies references(#[trigger] before[i]).len()
            == 0 by {
            assert(before[i] == data[i]);
        }
        lemma_store_plain(objects, before);
        let mid = stored_all(objects, before);
        let after = stored_all(objects, data);
        assert(references(data.last()).len() == 0) by {
            assert(data.last() == data[data.len() - 1]);
        }
        lemma_ranked_stored(mid, data.last());
        lemma_stored_extends(mid, data.last());
        lemma_prefix_transitive(objects, mid, after);
        assert forall|i: int| 0 <= i < data.len() implies holds(
            after,
            content_hash(#[trigger] data[i]),
        ) by {
            if i < data.len() - 1 {
                assert(before[i] == data[i]);
                lemma_holds_grows(mid, after, content_hash(data[i]));
            }
        }
    } else {
        assert(objects =~= objects.subrange(0, objects.len() as int));
    }
}

/// Where each of a run of objects is what the store holds under its hash,
/// so is each of any part of the run.
pub proof fn lemma_kept_part(objects: Seq<Seq<u8>>, a: Seq<Seq<u8>>, b: Seq<Seq<u8>>)
    requires
        kept(objects, a + b),
    ensures
        kept(objects, a),
        kept(objects, b),
{
    assert forall|i: int| 0 <= i < a.len() implies holds(objects, content_hash(#[trigger] a[i]))
        && lookup(objects, content_hash(a[i])) == a[i] by {
        assert((a + b)[i] == a[i]);
    }
    assert forall|i: int| 0 <= i < b.len() implies holds(objects, content_hash(#[trigger] b[i]))
        && lookup(objects, content_hash(b[i])) == b[i] by {
        assert((a + b)[a.len() + i] == b[i]);
    }
}

/// Where each object of a tree is what the store holds under its hash, the
/// tree is stored.
pub proof fn lemma_kept_present(objects: Seq<Seq<u8>>, tree: Tree)
    requires
        kept(objects, tree_objects(tree)),
    ensures
        present(objects, tree),
    decreases tree, 0nat,
{
    match tree {
        Tree::File(_) => {},
        Tree::Dir(children) => {
            let n = children.len() as int;
            let own = tree_bytes(entries_of(children));
            assert(tree_objects(tree) =~= children_objects(children, n) + seq![own]);
            lemma_kept_part(objects, children_objects(children, n), seq![own]);
            assert(seq![own][0] == own);
            lemma_dir_hash(children);
            lemma_kept_children_present(objects, children, n);
        },
    }
}

/// Where each object of the first `count` children is what the store holds
/// under its hash, those children are stored.
pub proof fn lemma_kept_children_present(objects: Seq<Seq<u8>>, children: Seq<Child>, count: int)
    requires
        0 <= count <= children.len(),
        kept(objects, children_objects(children, count)),
    ensures
        forall|i: int| 0 <= i < count ==> present(objects, (#[trigger] children[i]).tree),
    decreases children, count,
{
    if count > 0 {
        lemma_kept_part(
            objects,
            children_objects(children, count - 1),
            tree_objects(children[count - 1].tree),
        );
        lemma_kept_children_present(objects, children, count - 1);
        lemma_kept_present(objects, children[count - 1].tree);
    }
}

/// A tree that was stored is read back as it was, provided that the store
/// holds nothing else under the hash of any of its objects: storing a
/// canonical directory, whose files are stored, and reading what is stored
/// under its hash gives the directory back.
pub proof fn lemma_stored_tree_loads(objects: Seq<Seq<u8>>, tree: Tree)
    requires
        distinct(objects),
        ranked(objects),
        canonical(tree),
        tree is Dir,
        leaves_held(objects, tree),
        kept(stored_all(objects, tree_objects(tree)), tree_objects(tree)),
    ensures
        loaded_tree(stored_all(objects, tree_objects(tree)), tree_hash(tree)) == Some(tree),
{
    let after = stored_all(objects, tree_objects(tree));
    lemma_store_tree_ranked(objects, tree);
    lemma_kept_present(after, tree);
    lemma_present_loads(after, tree);
}

/// Whether no object of one tree shares its hash with a different object
/// of the other.
pub open spec fn collision_free(a: Seq<Seq<u8>>, b: Seq<Seq<u8>>) -> bool {
    forall|i: int, j: int|
        0 <= i < a.len() && 0 <= j < b.len() && content_hash(#[trigger] a[i]) == content_hash(
            #[trigger] b[j],
        ) ==> a[i] == b[j]
}

/// The objects of a child are among the objects of its directory.
pub proof fn lemma_child_objects(children: Seq<Child>, at: int, k: int)
    requires
        0 <= at < children.len(),
        0 <= k < tree_objects(children[at].tree).len(),
    ensures
        tree_objects(Tree::Dir(children)).contains(tree_objects(children[at].tree)[k]),
{
    lemma_child_objects_upto(children, children.len() as int, at, k);
    let inner = children_objects(children, children.len() as int);
    let all = tree_objects(Tree::Dir(children));
    let j = choose|j: int| 0 <= j < inner.len() && inner[j] == tree_objects(children[at].tree)[k];
    assert(all[j] == inner[j]);
}

/// The objects of a child are among the objects of the children up to it.
pub proof fn lemma_child_objects_upto(children: Seq<Child>, count: int, at: int, k: int)
    requires
        0 <= at < count <= children.len(),
        0 <= k < tree_objects(children[at].tree).len(),
    ensures
        children_objects(children, count).contains(tree_objects(children[at].tree)[k]),
    decreases count,
{
    let before = children_objects(children, count - 1);
    let all = children_objects(children, count);
    if at == count - 1 {
        assert(all[before.len() + k] == tree_objects(children[at].tree)[k]);
    } else {
        lemma_child_objects_upto(children, count - 1, at, k);
        let j = choose|j: int|
            0 <= j < before.len() && before[j] == tree_objects(children[at].tree)[k];
        assert(all[j] == before[j]);
    }
}

/// Two canonical directories with the same hash are the same directory,
/// provided that no object of one shares its hash with a different object
/// of the other: a change anywhere in a tree changes the hash of the tree.
pub proof fn lemma_tree_hash_injective(a: Tree, b: Tree)
    requires
        canonical(a),
        canonical(b),
        a is Dir,
        b is Dir,
        collision_free(tree_objects(a), tree_objects(b)),
        tree_hash(a) == tree_hash(b),
    ensures
        a == b,
    decreases a,
{
    let ca = a->Dir_0;
    let cb = b->Dir_0;
    let oa = tree_objects(a);
    let ob = tree_objects(b);
    lemma_dir_hash(ca);
    lemma_dir_hash(cb);
    assert(oa.last() == tree_bytes(entries_of(ca)));
    assert(ob.last() == tree_bytes(entries_of(cb)));
    assert(oa[oa.len() - 1] == ob[ob.len() - 1]);
    lemma_entries_ok(ca);
    lemma_entries_ok(cb);
    crate::object::lemma_tree_bytes_injective(entries_of(ca), entries_of(cb));
    assert(ca.len() == cb.len()) by {
        assert(entries_of(ca).len() == entries_of(cb).len());
    }
    assert forall|i: int| 0 <= i < ca.len() implies ca[i] == cb[i] by {
        assert(entries_of(ca)[i] == entries_of(cb)[i]);
        assert(ca[i].name == cb[i].name);
        assert(kind_of(ca[i].tree) == kind_of(cb[i].tree));
        assert(tree_hash(ca[i].tree) == tree_hash(cb[i].tree));
        match ca[i].tree {
            Tree::File(_) => {},
            Tree::Dir(_) => {
                let sa = tree_objects(ca[i].tree);
                let sb = tree_objects(cb[i].tree);
                assert forall|x: int, y: int|
                    0 <= x < sa.len() && 0 <= y < sb.len() && content_hash(#[trigger] sa[x])
                        == content_hash(#[trigger] sb[y]) implies sa[x] == sb[y] by {
                    lemma_child_objects(ca, i, x);
                    lemma_child_objects(cb, i, y);
                    let p = choose|p: int| 0 <= p < oa.len() && oa[p] == sa[x];
                    let q = choose|q: int| 0 <= q < ob.len() && ob[q] == sb[y];
                    assert(content_hash(oa[p]) == content_hash(ob[q]));
                }
                lemma_tree_hash_injective(ca[i].tree, cb[i].tree);
            },
        }
    }
    assert(ca =~= cb);
}

} // verus!
