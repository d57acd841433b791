//! Trees in canonical form: valid names in strictly ascending order, and
//! file hashes of full width. Such a tree is the only one with its stored
//! form, and insertion keeps the form.

use crate::bytes::lemma_lex_total;
use crate::bytes::lemma_lex_transitive;
use crate::bytes::lex_lt;
use crate::object::entries_ok;
use crate::object::valid_name;
use crate::path::valid_names;
use crate::tree::child_named;
use crate::tree::children_of;
use crate::tree::empty_dir;
use crate::tree::entries_of;
use crate::tree::has_child;
use crate::tree::inserted;
use crate::tree::slot;
use crate::tree::tree_hash;
use crate::tree::with_child;
use crate::tree::without;
use crate::tree::Child;
use crate::tree::Tree;
use vstd::prelude::*;

verus! {

/// Whether the names of `children` strictly ascend.
pub open spec fn sorted_names(children: Seq<Child>) -> bool {
    forall|i: int, j: int|
        0 <= i < j < children.len() ==> lex_lt(
            (#[trigger] children[i]).name,
            (#[trigger] children[j]).name,
        )
}

/// Whether a tree is in canonical form.
pub open spec fn canonical(tree: Tree) -> bool
    decreases tree,
{
    match tree {
        Tree::File(hash) => hash.len() == 32,
        Tree::Dir(children) => {
            &&& sorted_names(children)
            &&& forall|i: int|
                0 <= i < children.len() ==> valid_name((#[trigger] children[i]).name) && canonical(
                    children[i].tree,
                )
        },
    }
}

/// The hash of a canonical tree has full width.
pub proof fn lemma_hash_width(tree: Tree)
    requires
        canonical(tree),
    ensures
        tree_hash(tree).len() == 32,
{
}

/// The entries of a canonical directory can be the entries of one tree.
pub proof fn lemma_entries_ok(children: Seq<Child>)
    requires
        canonical(Tree::Dir(children)),
    ensures
        entries_ok(entries_of(children)),
{
    let entries = entries_of(children);
    assert forall|i: int| 0 <= i < entries.len() implies valid_name((#[trigger] entries[i]).name)
        && entries[i].hash.len() == 32 by {
        assert(valid_name(children[i].name) && canonical(children[i].tree));
        lemma_hash_width(children[i].tree);
    }
    assert forall|i: int, j: int| 0 <= i < j < entries.len() implies lex_lt(
        (#[trigger] entries[i]).name,
        (#[trigger] entries[j]).name,
    ) by {
        assert(lex_lt(children[i].name, children[j].name));
    }
}

/// Where the slot of a name lies: after every child below the name, and at
/// no child below it.
pub proof fn lemma_slot_bounds(children: Seq<Child>, name: Seq<u8>)
    ensures
        0 <= slot(children, name) <= children.len(),
        forall|j: int| 0 <= j < slot(children, name) ==> lex_lt(#[trigger] children[j].name, name),
        slot(children, name) < children.len() ==> !lex_lt(
            children[slot(children, name)].name,
            name,
        ),
    decreases children.len(),
{
    if children.len() > 0 && lex_lt(children[0].name, name) {
        let rest = children.skip(1);
        lemma_slot_bounds(rest, name);
        assert forall|j: int| 0 <= j < slot(children, name) implies lex_lt(
            #[trigger] children[j].name,
            name,
        ) by {
            if j > 0 {
                assert(children[j] == rest[j - 1]);
            }
        }
        if slot(children, name) < children.len() {
            assert(children[slot(children, name)] == rest[slot(rest, name)]);
        }
    }
}

/// In a sorted directory, every child after the slot of a name is above
/// the name, and so is the child at the slot unless it has that name.
pub proof fn lemma_slot_sorted(children: Seq<Child>, name: Seq<u8>)
    requires
        sorted_names(children),
    ensures
        forall|j: int|
            slot(children, name) <= j < children.len() && children[j].name != name ==> lex_lt(
                name,
                #[trigger] children[j].name,
            ),
        forall|j: int|
            slot(children, name) < j < children.len() ==> (#[trigger] children[j]).name != name,
{
    lemma_slot_bounds(children, name);
    let at = slot(children, name);
    assert forall|j: int| at <= j < children.len() implies (children[j].name != name ==> lex_lt(
        name,
        #[trigger] children[j].name,
    )) && (at < j ==> children[j].name != name) by {
        lemma_lex_total(children[at].name, name);
        if j == at {
        } else {
            assert(lex_lt(children[at].name, children[j].name));
            if children[at].name == name {
                crate::bytes::lemma_lex_asymmetric(name, children[j].name);
            } else {
                lemma_lex_transitive(name, children[at].name, children[j].name);
                crate::bytes::lemma_lex_asymmetric(name, children[j].name);
            }
        }
    }
}

/// Taking a child out of a sorted directory, or putting one in at its
/// slot, leaves the directory sorted, and every child in the result is the
/// new one or one that was there.
pub proof fn lemma_with_child(children: Seq<Child>, name: Seq<u8>, tree: Tree)
    requires
        sorted_names(children),
    ensures
        sorted_names(without(children, name)),
        sorted_names(with_child(children, name, tree)),
        forall|i: int|
            0 <= i < without(children, name).len() ==> children.contains(
                #[trigger] without(children, name)[i],
            ),
        forall|i: int|
            0 <= i < with_child(children, name, tree).len() ==> with_child(
                children,
                name,
                tree,
            )[i] == (Child { name, tree }) || children.contains(
                #[trigger] with_child(children, name, tree)[i],
            ),
{
    lemma_slot_bounds(children, name);
    lemma_slot_sorted(children, name);
    let at = slot(children, name);
    let less = without(children, name);
    let more = with_child(children, name, tree);
    assert forall|i: int| 0 <= i < less.len() implies children.contains(#[trigger] less[i]) && (i
        < at ==> less[i] == children[i]) && (i >= at ==> lex_lt(name, less[i].name)) by {
        if has_child(children, name) {
            if i < at {
                assert(less[i] == children[i]);
            } else {
                assert(less[i] == children[i + 1]);
            }
        } else {
            assert(less[i] == children[i]);
        }
    }
    assert forall|i: int, j: int| 0 <= i < j < less.len() implies lex_lt(
        (#[trigger] less[i]).name,
        (#[trigger] less[j]).name,
    ) by {
        let a = if has_child(children, name) && i >= at {
            i + 1
        } else {
            i
        };
        let b = if has_child(children, name) && j >= at {
            j + 1
        } else {
            j
        };
        assert(less[i] == children[a] && less[j] == children[b]);
    }
    assert forall|i: int| 0 <= i < more.len() implies more[i] == (Child { name, tree })
        || children.contains(#[trigger] more[i]) by {
        if i < at {
            assert(more[i] == less[i]);
        } else if i > at {
            assert(more[i] == less[i - 1]);
        }
    }
    assert forall|i: int, j: int| 0 <= i < j < more.len() implies lex_lt(
        (#[trigger] more[i]).name,
        (#[trigger] more[j]).name,
    ) by {
        if j < at {
            assert(more[i] == less[i] && more[j] == less[j]);
        } else if j == at {
            assert(more[i] == less[i]);
            assert(less[i] == children[i]);
        } else if i < at {
            assert(more[i] == less[i] && more[j] == less[j - 1]);
        } else if i == at {
            assert(more[j] == less[j - 1]);
        } else {
            assert(more[i] == less[i - 1] && more[j] == less[j - 1]);
        }
    }
}

/// Insertion at a path of valid names keeps the canonical form.
pub proof fn lemma_inserted_canonical(tree: Tree, path: Seq<Seq<u8>>, sub: Tree)
    requires
        canonical(tree),
        canonical(sub),
        valid_names(path),
    ensures
        canonical(inserted(tree, path, sub)),
    decreases path.len(),
{
    if path.len() > 0 {
        let children = children_of(tree);
        let name = path[0];
        assert(valid_name(name));
        assert(sorted_names(children));
        let old_child = child_named(children, name);
        assert(canonical(old_child)) by {
            if has_child(children, name) {
                assert(canonical(children[slot(children, name)].tree));
            }
        }
        let rest = path.skip(1);
        assert(valid_names(rest)) by {
            assert forall|i: int| 0 <= i < rest.len() implies valid_name(#[trigger] rest[i]) by {
                assert(rest[i] == path[i + 1]);
            }
        }
        lemma_inserted_canonical(old_child, rest, sub);
        let grown = inserted(old_child, rest, sub);
        lemma_with_child(children, name, grown);
        let less = without(children, name);
        let more = with_child(children, name, grown);
        assert forall|i: int| 0 <= i < less.len() implies valid_name((#[trigger] less[i]).name)
            && canonical(less[i].tree) by {
            assert(children.contains(less[i]));
            let k = choose|k: int| 0 <= k < children.len() && children[k] == less[i];
            assert(valid_name(children[k].name) && canonical(children[k].tree));
        }
        assert forall|i: int| 0 <= i < more.len() implies valid_name((#[trigger] more[i]).name)
            && canonical(more[i].tree) by {
            if more[i] != (Child { name, tree: grown }) {
                assert(children.contains(more[i]));
                let k = choose|k: int| 0 <= k < children.len() && children[k] == more[i];
                assert(valid_name(children[k].name) && canonical(children[k].tree));
            }
        }
    }
}

/// The empty directory is canonical.
pub proof fn lemma_empty_canonical()
    ensures
        canonical(empty_dir()),
{
}

} // verus!
