//! The order of the files in a tree, and the snapshots that list their
//! files in that order.

use crate::bytes::lemma_lex_asymmetric;
use crate::bytes::lex_lt;
use crate::canon::canonical;
use crate::canon::lemma_inserted_canonical;
use crate::canon::lemma_slot_bounds;
use crate::canon::lemma_slot_sorted;
use crate::object::valid_name;
use crate::object::Entry;
use crate::object::EntryKind;
use crate::object::SEPARATOR;
use crate::path::components;
use crate::path::extended;
use crate::path::first_separator;
use crate::path::split;
use crate::path::valid_names;
use crate::path::valid_path;
use crate::tree::child_named;
use crate::tree::children_of;
use crate::tree::empty_dir;
use crate::tree::flattened;
use crate::tree::flattened_children;
use crate::tree::has_child;
use crate::tree::inserted;
use crate::tree::slot;
use crate::tree::with_child;
use crate::tree::without;
use crate::tree::Child;
use crate::tree::Tree;
use crate::integrity::collision_free;
use crate::integrity::kept;
use crate::integrity::lemma_tree_hash_injective;
use crate::tree::stored_all;
use crate::tree::tree_objects;
use crate::worktree::blobs;
use crate::worktree::file_entries;
use crate::worktree::lemma_build_materializes;
use crate::worktree::lemma_grouped;
use crate::worktree::materialized;
use crate::worktree::snapshot_hash;
use crate::worktree::snapshot_tree;
use crate::worktree::groupable;
use crate::worktree::grouped;
use crate::worktree::in_tree_order;
use crate::worktree::FileView;
use vstd::prelude::*;

verus! {

/// The path with the given components.
pub open spec fn joined(parts: Seq<Seq<u8>>) -> Seq<u8>
    decreases parts.len(),
{
    if parts.len() == 0 {
        Seq::empty()
    } else {
        extended(joined(parts.drop_last()), parts.last())
    }
}

/// Whether the path `p` comes before the path `q`: component by component,
/// a directory before what lies in it.
pub open spec fn path_lt(p: Seq<Seq<u8>>, q: Seq<Seq<u8>>) -> bool
    decreases p.len(),
{
    if q.len() == 0 {
        false
    } else if p.len() == 0 {
        true
    } else if p[0] != q[0] {
        lex_lt(p[0], q[0])
    } else {
        path_lt(p.skip(1), q.skip(1))
    }
}

/// Whether the path `p` comes before the path `q` and is not a directory
/// that `q` lies in.
pub open spec fn precedes(p: Seq<Seq<u8>>, q: Seq<Seq<u8>>) -> bool {
    path_lt(p, q) && !p.is_prefix_of(q)
}

/// Whether a snapshot lists its files in ascending order of their paths,
/// none of them at or below the path of another.
pub open spec fn listed_in_order(files: Seq<FileView>) -> bool {
    forall|i: int, j: int|
        0 <= i < j < files.len() ==> precedes(
            components(#[trigger] files[i].path),
            components(#[trigger] files[j].path),
        )
}

/// A file of a tree, as a mathematical value: the components of its path,
/// and the hash of its blob.
pub struct Leaf {
    pub path: Seq<Seq<u8>>,
    pub hash: Seq<u8>,
}

/// The files of a tree in order, each with its path below `prefix`.
pub open spec fn leaves(tree: Tree, prefix: Seq<Seq<u8>>) -> Seq<Leaf>
    decreases tree, 0nat,
{
    match tree {
        Tree::File(hash) => seq![Leaf { path: prefix, hash }],
        Tree::Dir(children) => leaves_of(children, prefix, children.len() as int),
    }
}

/// The files of the first `count` children of a directory at `prefix`.
pub open spec fn leaves_of(children: Seq<Child>, prefix: Seq<Seq<u8>>, count: int) -> Seq<Leaf>
    decreases children, count,
{
    if 0 < count <= children.len() {
        leaves_of(children, prefix, count - 1) + leaves(
            children[count - 1].tree,
            prefix.push(children[count - 1].name),
        )
    } else {
        Seq::empty()
    }
}

/// The entries that stand for a list of leaves.
pub open spec fn named(list: Seq<Leaf>) -> Seq<Entry> {
    Seq::new(
        list.len(),
        |i: int| Entry { name: joined(list[i].path), kind: EntryKind::File, hash: list[i].hash },
    )
}

/// The tree with the given files: each put at its path in turn.
pub open spec fn planted(list: Seq<Leaf>) -> Tree
    decreases list.len(),
{
    if list.len() == 0 {
        empty_dir()
    } else {
        inserted(planted(list.drop_last()), list.last().path, Tree::File(list.last().hash))
    }
}

/// The leaves that a list of entries names.
pub open spec fn leaves_named(entries: Seq<Entry>) -> Seq<Leaf> {
    Seq::new(entries.len(), |i: int| Leaf { path: components(entries[i].name), hash: entries[i].hash })
}

/// Whether a tree holds no file.
pub open spec fn no_leaves(tree: Tree) -> bool
    decreases tree,
{
    match tree {
        Tree::File(_) => false,
        Tree::Dir(children) => forall|i: int|
            0 <= i < children.len() ==> no_leaves((#[trigger] children[i]).tree),
    }
}

/// Whether the path of every file in `tree` precedes `p`.
pub open spec fn below(tree: Tree, p: Seq<Seq<u8>>) -> bool
    decreases tree,
{
    match tree {
        Tree::File(_) => false,
        Tree::Dir(children) => if p.len() == 0 {
            no_leaves(tree)
        } else {
            forall|i: int|
                0 <= i < children.len() ==> if lex_lt((#[trigger] children[i]).name, p[0]) {
                    true
                } else if children[i].name == p[0] {
                    below(children[i].tree, p.skip(1))
                } else {
                    no_leaves(children[i].tree)
                }
        },
    }
}

/// The files of a tree are listed by the paths of its leaves.
pub proof fn lemma_flattened_leaves(tree: Tree, prefix: Seq<Seq<u8>>)
    ensures
        flattened(tree, joined(prefix)) == named(leaves(tree, prefix)),
    decreases tree, 0nat,
{
    match tree {
        Tree::File(hash) => {
            assert(flattened(tree, joined(prefix)) =~= named(leaves(tree, prefix)));
        },
        Tree::Dir(children) => {
            lemma_flattened_leaves_of(children, prefix, children.len() as int);
        },
    }
}

/// The files of the first children are listed by the paths of their leaves.
pub proof fn lemma_flattened_leaves_of(children: Seq<Child>, prefix: Seq<Seq<u8>>, count: int)
    ensures
        flattened_children(children, joined(prefix), count) == named(
            leaves_of(children, prefix, count),
        ),
    decreases children, count,
{
    if 0 < count <= children.len() {
        lemma_flattened_leaves_of(children, prefix, count - 1);
        let child = children[count - 1];
        let deeper = prefix.push(child.name);
        lemma_flattened_leaves(child.tree, deeper);
        assert(deeper.drop_last() =~= prefix);
        assert(joined(deeper) == extended(joined(prefix), child.name));
        assert(named(leaves_of(children, prefix, count)) =~= named(
            leaves_of(children, prefix, count - 1),
        ) + named(leaves(child.tree, deeper)));
    } else {
        assert(flattened_children(children, joined(prefix), count) =~= named(
            leaves_of(children, prefix, count),
        ));
    }
}

/// A path of valid names is not empty unless it has no components.
pub proof fn lemma_joined_nonempty(parts: Seq<Seq<u8>>)
    requires
        valid_names(parts),
        parts.len() > 0,
    ensures
        joined(parts).len() > 0,
{
    assert(valid_name(parts[parts.len() - 1]));
}

/// The path with a first component and more: the first, a separator, and
/// the path of the rest.
pub proof fn lemma_joined_first(first: Seq<u8>, rest: Seq<Seq<u8>>)
    requires
        first.len() > 0,
        valid_names(rest),
    ensures
        joined(seq![first] + rest) == if rest.len() == 0 {
            first
        } else {
            first + seq![SEPARATOR] + joined(rest)
        },
    decreases rest.len(),
{
    let all = seq![first] + rest;
    if rest.len() == 0 {
        assert(all.drop_last() =~= Seq::<Seq<u8>>::empty());
        assert(joined(all.drop_last()) =~= Seq::<u8>::empty());
        assert(all.last() == first);
    } else {
        let shorter = rest.drop_last();
        assert(valid_names(shorter)) by {
            assert forall|i: int| 0 <= i < shorter.len() implies valid_name(
                #[trigger] shorter[i],
            ) by {
                assert(shorter[i] == rest[i]);
            }
        }
        lemma_joined_first(first, shorter);
        assert(all.drop_last() =~= seq![first] + shorter);
        assert(all.last() == rest.last());
        assert(valid_name(rest[rest.len() - 1]));
        if shorter.len() == 0 {
            assert(joined(shorter) =~= Seq::<u8>::empty());
            assert(joined(all) =~= first + seq![SEPARATOR] + joined(rest));
        } else {
            lemma_joined_nonempty(shorter);
            assert(joined(all) =~= first + seq![SEPARATOR] + joined(rest));
        }
    }
}

/// Joining the pieces of a path of valid names gives the path back.
pub proof fn lemma_joined_split(path: Seq<u8>)
    requires
        path.len() > 0,
        valid_names(split(path)),
    ensures
        joined(split(path)) == path,
    decreases path.len(),
{
    let k = first_separator(path);
    crate::path::lemma_first_separator_bounds(path);
    if k >= path.len() {
        lemma_joined_first(path, Seq::empty());
        assert(seq![path] + Seq::<Seq<u8>>::empty() =~= seq![path]);
    } else {
        let head = path.take(k);
        let tail = path.skip(k + 1);
        let rest = split(tail);
        let all = split(path);
        assert(all == seq![head] + rest);
        assert(valid_name(all[0]));
        assert(valid_names(rest)) by {
            assert forall|i: int| 0 <= i < rest.len() implies valid_name(#[trigger] rest[i]) by {
                assert(rest[i] == all[i + 1]);
            }
        }
        assert(rest.len() > 0);
        assert(tail.len() > 0) by {
            if tail.len() == 0 {
                assert(rest[0] == tail);
                assert(valid_name(rest[0]));
            }
        }
        lemma_joined_split(tail);
        lemma_joined_first(head, rest);
        assert(head + seq![SEPARATOR] + tail =~= path);
    }
}

/// A tree that holds no file has no leaves.
pub proof fn lemma_no_leaves(tree: Tree, prefix: Seq<Seq<u8>>)
    requires
        no_leaves(tree),
    ensures
        leaves(tree, prefix).len() == 0,
    decreases tree, 0nat,
{
    match tree {
        Tree::File(_) => {},
        Tree::Dir(children) => {
            lemma_no_leaves_of(children, prefix, children.len() as int);
        },
    }
}

/// Children that hold no file have no leaves.
pub proof fn lemma_no_leaves_of(children: Seq<Child>, prefix: Seq<Seq<u8>>, count: int)
    requires
        forall|i: int| 0 <= i < children.len() ==> no_leaves((#[trigger] children[i]).tree),
    ensures
        leaves_of(children, prefix, count).len() == 0,
    decreases children, count,
{
    if 0 < count <= children.len() {
        lemma_no_leaves_of(children, prefix, count - 1);
        lemma_no_leaves(children[count - 1].tree, prefix.push(children[count - 1].name));
    }
}

/// The leaves of the first children depend on those children alone.
pub proof fn lemma_leaves_of_same(a: Seq<Child>, b: Seq<Child>, prefix: Seq<Seq<u8>>, count: int)
    requires
        0 <= count <= a.len(),
        count <= b.len(),
        forall|i: int| 0 <= i < count ==> a[i] == b[i],
    ensures
        leaves_of(a, prefix, count) == leaves_of(b, prefix, count),
    decreases count,
{
    if count > 0 {
        lemma_leaves_of_same(a, b, prefix, count - 1);
    }
}

/// Children without leaves at the end of a directory add nothing to its
/// leaves.
pub proof fn lemma_leaves_tail(children: Seq<Child>, prefix: Seq<Seq<u8>>, from: int, count: int)
    requires
        0 <= from <= count <= children.len(),
        forall|i: int| from <= i < children.len() ==> no_leaves((#[trigger] children[i]).tree),
    ensures
        leaves_of(children, prefix, count) == leaves_of(children, prefix, from),
    decreases count,
{
    if count > from {
        lemma_leaves_tail(children, prefix, from, count - 1);
        lemma_no_leaves(children[count - 1].tree, prefix.push(children[count - 1].name));
        assert(leaves_of(children, prefix, count) =~= leaves_of(children, prefix, count - 1));
    }
}

/// Putting a file into a tree never leaves the empty directory.
pub proof fn lemma_inserted_file_not_empty(tree: Tree, p: Seq<Seq<u8>>, hash: Seq<u8>)
    ensures
        inserted(tree, p, Tree::File(hash)) != empty_dir(),
    decreases p.len(),
{
    if p.len() > 0 {
        let children = children_of(tree);
        let name = p[0];
        lemma_inserted_file_not_empty(child_named(children, name), p.skip(1), hash);
        let grown = inserted(child_named(children, name), p.skip(1), Tree::File(hash));
        lemma_slot_bounds(children, name);
        let more = with_child(children, name, grown);
        assert(more.len() > 0);
        assert(empty_dir()->Dir_0.len() == 0);
    }
}

/// Putting a file at a path that every file of the tree precedes adds it
/// after all of them.
pub proof fn lemma_inserted_last(tree: Tree, p: Seq<Seq<u8>>, hash: Seq<u8>, prefix: Seq<Seq<u8>>)
    requires
        tree is Dir,
        canonical(tree),
        below(tree, p),
    ensures
        leaves(inserted(tree, p, Tree::File(hash)), prefix) == leaves(tree, prefix).push(
            Leaf { path: prefix + p, hash },
        ),
    decreases p.len(),
{
    let children = tree->Dir_0;
    if p.len() == 0 {
        lemma_no_leaves(tree, prefix);
        assert(prefix + p =~= prefix);
        assert(leaves(Tree::File(hash), prefix) =~= leaves(tree, prefix).push(
            Leaf { path: prefix + p, hash },
        ));
    } else {
        let name = p[0];
        let rest = p.skip(1);
        let at = slot(children, name);
        lemma_slot_bounds(children, name);
        lemma_slot_sorted(children, name);
        let old_child = child_named(children, name);
        let deeper = prefix.push(name);
        assert(deeper + rest =~= prefix + p);
        // the child at the slot, if it has the name, is a directory below the rest
        if has_child(children, name) {
            assert(below(children[at].tree, rest));
        }
        assert(old_child is Dir && canonical(old_child) && below(old_child, rest)) by {
            if has_child(children, name) {
                assert(canonical(children[at].tree));
            } else {
                if rest.len() == 0 {
                    assert(no_leaves(empty_dir()));
                }
            }
        }
        let grown = inserted(old_child, rest, Tree::File(hash));
        lemma_inserted_last(old_child, rest, hash, deeper);
        lemma_inserted_file_not_empty(old_child, rest, hash);
        let less = without(children, name);
        let more = with_child(children, name, grown);
        assert(inserted(tree, p, Tree::File(hash)) == Tree::Dir(more));
        // children after the slot hold no file
        let after = if has_child(children, name) {
            at + 1
        } else {
            at
        };
        assert forall|i: int| after <= i < children.len() implies no_leaves(
            (#[trigger] children[i]).tree,
        ) by {
            assert(children[i].name != name);
            assert(lex_lt(name, children[i].name));
            lemma_lex_asymmetric(name, children[i].name);
        }
        assert forall|i: int| at + 1 <= i < more.len() implies no_leaves(
            (#[trigger] more[i]).tree,
        ) by {
            assert(more[i] == less[i - 1]);
            if has_child(children, name) {
                assert(less[i - 1] == children[i]);
            } else {
                assert(less[i - 1] == children[i - 1]);
            }
        }
        lemma_leaves_tail(more, prefix, at + 1, more.len() as int);
        lemma_leaves_tail(children, prefix, after, children.len() as int);
        assert forall|i: int| 0 <= i < at implies more[i] == children[i] by {
            assert(more[i] == less[i]);
        }
        lemma_leaves_of_same(more, children, prefix, at);
        assert(more[at] == Child { name, tree: grown });
        if !has_child(children, name) {
            lemma_no_leaves(old_child, deeper);
            assert(leaves(old_child, deeper) =~= Seq::<Leaf>::empty());
        }
        assert(leaves_of(more, prefix, at + 1) =~= leaves_of(children, prefix, after).push(
            Leaf { path: prefix + p, hash },
        ));
    }
}

/// Putting a file whose path precedes `p` into a tree whose files all
/// precede `p` gives a tree whose files all precede `p`.
pub proof fn lemma_inserted_below(tree: Tree, q: Seq<Seq<u8>>, hash: Seq<u8>, p: Seq<Seq<u8>>)
    requires
        tree is Dir,
        below(tree, p),
        precedes(q, p),
        q.len() > 0,
    ensures
        below(inserted(tree, q, Tree::File(hash)), p),
    decreases q.len(),
{
    let children = tree->Dir_0;
    let name = q[0];
    let rest = q.skip(1);
    let at = slot(children, name);
    lemma_slot_bounds(children, name);
    assert(p.len() > 0);
    let old_child = child_named(children, name);
    let grown = inserted(old_child, rest, Tree::File(hash));
    lemma_inserted_file_not_empty(old_child, rest, hash);
    let less = without(children, name);
    let more = with_child(children, name, grown);
    if name == p[0] {
        assert(path_lt(rest, p.skip(1)));
        assert(!rest.is_prefix_of(p.skip(1))) by {
            if rest.is_prefix_of(p.skip(1)) {
                assert(q =~= p.subrange(0, q.len() as int)) by {
                    assert(rest =~= p.skip(1).subrange(0, rest.len() as int));
                    assert forall|i: int| 0 <= i < q.len() implies q[i] == p[i] by {
                        if i > 0 {
                            assert(q[i] == rest[i - 1]);
                            assert(p.skip(1).subrange(0, rest.len() as int)[i - 1] == p[i]);
                        }
                    }
                }
            }
        }
        assert(rest.len() > 0) by {
            if rest.len() == 0 {
                assert(rest =~= p.skip(1).subrange(0, 0));
            }
        }
        assert(old_child is Dir && below(old_child, p.skip(1))) by {
            if has_child(children, name) {
                assert(below(children[at].tree, p.skip(1)));
            } else {
                assert(p.skip(1).len() > 0);
            }
        }
        lemma_inserted_below(old_child, rest, hash, p.skip(1));
    } else {
        assert(lex_lt(name, p[0]));
    }
    assert forall|i: int| 0 <= i < more.len() implies if lex_lt((#[trigger] more[i]).name, p[0]) {
        true
    } else if more[i].name == p[0] {
        below(more[i].tree, p.skip(1))
    } else {
        no_leaves(more[i].tree)
    } by {
        if i != at {
            let k = if i < at {
                i
            } else {
                i - 1
            };
            assert(more[i] == less[k]);
            let j = if has_child(children, name) && k >= at {
                k + 1
            } else {
                k
            };
            assert(less[k] == children[j]);
            assert(if lex_lt(children[j].name, p[0]) {
                true
            } else if children[j].name == p[0] {
                below(children[j].tree, p.skip(1))
            } else {
                no_leaves(children[j].tree)
            });
        }
    }
}

/// Every file of the tree planted from a list that precedes `p` precedes
/// `p`, and the tree is a canonical directory.
pub proof fn lemma_planted_below(list: Seq<Leaf>, p: Seq<Seq<u8>>)
    requires
        p.len() > 0,
        forall|i: int|
            0 <= i < list.len() ==> (#[trigger] list[i]).path.len() > 0 && valid_names(
                list[i].path,
            ) && list[i].hash.len() == 32 && precedes(list[i].path, p),
    ensures
        planted(list) is Dir,
        canonical(planted(list)),
        below(planted(list), p),
    decreases list.len(),
{
    if list.len() > 0 {
        let before = list.drop_last();
        assert forall|i: int| 0 <= i < before.len() implies (#[trigger] before[i]).path.len() > 0
            && valid_names(before[i].path) && before[i].hash.len() == 32 && precedes(
            before[i].path,
            p,
        ) by {
            assert(before[i] == list[i]);
        }
        lemma_planted_below(before, p);
        let last = list.last();
        assert(last == list[list.len() - 1]);
        lemma_inserted_canonical(planted(before), last.path, Tree::File(last.hash));
        lemma_inserted_below(planted(before), last.path, last.hash, p);
    }
}

/// The tree planted from files listed in order lists them in that order.
pub proof fn lemma_planted_leaves(list: Seq<Leaf>)
    requires
        forall|i: int|
            0 <= i < list.len() ==> (#[trigger] list[i]).path.len() > 0 && valid_names(
                list[i].path,
            ) && list[i].hash.len() == 32,
        forall|i: int, j: int|
            0 <= i < j < list.len() ==> precedes(
                (#[trigger] list[i]).path,
                (#[trigger] list[j]).path,
            ),
    ensures
        leaves(planted(list), Seq::empty()) == list,
    decreases list.len(),
{
    if list.len() > 0 {
        let before = list.drop_last();
        let last = list.last();
        assert(last == list[list.len() - 1]);
        assert forall|i: int| 0 <= i < before.len() implies (#[trigger] before[i]).path.len() > 0
            && valid_names(before[i].path) && before[i].hash.len() == 32 && precedes(
            before[i].path,
            last.path,
        ) by {
            assert(before[i] == list[i]);
        }
        assert forall|i: int, j: int| 0 <= i < j < before.len() implies precedes(
            (#[trigger] before[i]).path,
            (#[trigger] before[j]).path,
        ) by {
            assert(before[i] == list[i] && before[j] == list[j]);
        }
        lemma_planted_leaves(before);
        lemma_planted_below(before, last.path);
        lemma_inserted_last(planted(before), last.path, last.hash, Seq::empty());
        assert(Seq::<Seq<u8>>::empty() + last.path =~= last.path);
        assert(before.push(last) =~= list);
    } else {
        assert(leaves(planted(list), Seq::empty()) =~= list);
    }
}

/// The tree of a list of entries is the tree planted from their leaves.
pub proof fn lemma_grouped_planted(entries: Seq<Entry>)
    ensures
        grouped(entries) == planted(leaves_named(entries)),
    decreases entries.len(),
{
    if entries.len() > 0 {
        lemma_grouped_planted(entries.drop_last());
        assert(leaves_named(entries).drop_last() =~= leaves_named(entries.drop_last()));
    }
}

/// A snapshot that lists its files in ascending order of their paths, none
/// at or below the path of another, lists them in the order of its tree.
pub proof fn lemma_listed_in_tree_order(files: Seq<FileView>)
    requires
        groupable(file_entries(files)),
        listed_in_order(files),
    ensures
        in_tree_order(files),
{
    let entries = file_entries(files);
    let list = leaves_named(entries);
    lemma_grouped_planted(entries);
    assert forall|i: int| 0 <= i < list.len() implies (#[trigger] list[i]).path.len() > 0
        && valid_names(list[i].path) && list[i].hash.len() == 32 by {
        assert(entries[i].name.len() > 0 && valid_path(entries[i].name));
        crate::path::lemma_split_nonempty(entries[i].name);
    }
    assert forall|i: int, j: int| 0 <= i < j < list.len() implies precedes(
        (#[trigger] list[i]).path,
        (#[trigger] list[j]).path,
    ) by {
        assert(precedes(components(files[i].path), components(files[j].path)));
    }
    lemma_planted_leaves(list);
    lemma_flattened_leaves(planted(list), Seq::empty());
    assert(joined(Seq::<Seq<u8>>::empty()) =~= Seq::<u8>::empty());
    assert(named(list) =~= entries) by {
        assert forall|i: int| 0 <= i < list.len() implies named(list)[i] == entries[i] by {
            assert(entries[i].name.len() > 0 && valid_path(entries[i].name));
            lemma_joined_split(entries[i].name);
        }
    }
}

/// Building a snapshot and materializing the tree that was built gives the
/// snapshot back, with the same paths and the same contents, provided that
/// the snapshot lists its files in ascending order of their paths, none at
/// or below the path of another, and that the store holds nothing else
/// under the hash of any object that was built.
pub proof fn lemma_materialize_undoes_build(objects: Seq<Seq<u8>>, files: Seq<FileView>)
    requires
        crate::store::distinct(objects),
        crate::graph::ranked(objects),
        groupable(file_entries(files)),
        listed_in_order(files),
        kept(
            stored_all(
                stored_all(objects, blobs(files)),
                tree_objects(snapshot_tree(files)),
            ),
            blobs(files) + tree_objects(snapshot_tree(files)),
        ),
    ensures
        materialized(
            stored_all(
                stored_all(objects, blobs(files)),
                tree_objects(snapshot_tree(files)),
            ),
            snapshot_hash(files),
        ) == Some(files),
{
    lemma_listed_in_tree_order(files);
    lemma_build_materializes(objects, files);
}

/// Two different snapshots have different hashes, provided that both list
/// their files in ascending order of their paths, none at or below the
/// path of another, and that no object of one shares its hash with a
/// different object of the other: an edit of a file, a new file or a
/// missing file changes the hash of the snapshot.
pub proof fn lemma_changed_snapshot_changes_hash(a: Seq<FileView>, b: Seq<FileView>)
    requires
        groupable(file_entries(a)),
        groupable(file_entries(b)),
        listed_in_order(a),
        listed_in_order(b),
        a != b,
        collision_free(blobs(a), blobs(b)),
        collision_free(tree_objects(snapshot_tree(a)), tree_objects(snapshot_tree(b))),
    ensures
        snapshot_hash(a) != snapshot_hash(b),
{
    let ea = file_entries(a);
    let eb = file_entries(b);
    assert forall|i: int| 0 <= i < ea.len() implies (#[trigger] ea[i]).hash.len() == 32 by {}
    assert forall|i: int| 0 <= i < eb.len() implies (#[trigger] eb[i]).hash.len() == 32 by {}
    lemma_grouped(Seq::empty(), ea);
    lemma_grouped(Seq::empty(), eb);
    lemma_listed_in_tree_order(a);
    lemma_listed_in_tree_order(b);
    if snapshot_hash(a) == snapshot_hash(b) {
        lemma_tree_hash_injective(snapshot_tree(a), snapshot_tree(b));
        assert(ea == eb);
        assert(a.len() == b.len()) by {
            assert(ea.len() == eb.len());
        }
        assert forall|i: int| 0 <= i < a.len() implies a[i] == b[i] by {
            assert(ea[i] == eb[i]);
            assert(a[i].path == b[i].path);
            let x = blobs(a)[i];
            let y = blobs(b)[i];
            assert(crate::hash::content_hash(x) == crate::hash::content_hash(y));
            assert(x == y);
            assert(x.skip(1) =~= a[i].content);
            assert(y.skip(1) =~= b[i].content);
        }
        assert(a =~= b);
    }
}

} // verus!
