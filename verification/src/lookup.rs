//! What is staged where: the subtree at a path, and how insertion changes
//! it. Insertion puts a subtree at its path and leaves alone what lies
//! beside that path.

use crate::bytes::lemma_lex_asymmetric;
use crate::bytes::lex_lt;
use crate::canon::canonical;
use crate::canon::lemma_slot_bounds;
use crate::canon::lemma_slot_sorted;
use crate::canon::lemma_with_child;
use crate::canon::sorted_names;
use crate::bytes::bytes_eq;
use crate::codec::views;
use crate::hash::ContentHash;
use crate::tree::child_named;
use crate::tree::child_views;
use crate::tree::lemma_dir_view;
use crate::tree::locate;
use crate::tree::Node;
use crate::tree::children_of;
use crate::tree::empty_dir;
use crate::tree::has_child;
use crate::tree::inserted;
use crate::tree::lemma_slot;
use crate::tree::slot;
use crate::tree::with_child;
use crate::tree::without;
use crate::tree::Child;
use crate::tree::Tree;
use vstd::prelude::*;

verus! {

/// What lies at `path` in `tree`; the empty directory where nothing does.
pub open spec fn subtree_at(tree: Tree, path: Seq<Seq<u8>>) -> Tree
    decreases path.len(),
{
    if path.len() == 0 {
        tree
    } else {
        subtree_at(child_named(children_of(tree), path[0]), path.skip(1))
    }
}

/// Whether neither path is at or below the other.
pub open spec fn apart(p: Seq<Seq<u8>>, q: Seq<Seq<u8>>) -> bool {
    !p.is_prefix_of(q) && !q.is_prefix_of(p)
}

/// Below the empty directory lies nothing.
pub proof fn lemma_nothing_in_empty(path: Seq<Seq<u8>>)
    ensures
        subtree_at(empty_dir(), path) == empty_dir(),
    decreases path.len(),
{
    if path.len() > 0 {
        lemma_nothing_in_empty(path.skip(1));
    }
}

/// In a sorted directory, a child is found by its name exactly where it
/// is.
pub proof fn lemma_child_found(children: Seq<Child>, at: int)
    requires
        sorted_names(children),
        0 <= at < children.len(),
    ensures
        slot(children, children[at].name) == at,
        has_child(children, children[at].name),
        child_named(children, children[at].name) == children[at].tree,
{
    let name = children[at].name;
    crate::bytes::lemma_lex_irreflexive(name);
    assert forall|j: int| 0 <= j < at implies lex_lt(#[trigger] children[j].name, name) by {}
    lemma_slot(children, name, at);
}

/// In a sorted directory, a name that no child has is not found.
pub proof fn lemma_child_absent(children: Seq<Child>, name: Seq<u8>)
    requires
        sorted_names(children),
        forall|i: int| 0 <= i < children.len() ==> (#[trigger] children[i]).name != name,
    ensures
        child_named(children, name) == empty_dir(),
{
    lemma_slot_bounds(children, name);
}

/// After a child was put into a sorted directory, it is found by its name,
/// and every other name finds what it found before.
pub proof fn lemma_child_after_put(children: Seq<Child>, name: Seq<u8>, tree: Tree, other: Seq<u8>)
    requires
        sorted_names(children),
    ensures
        child_named(with_child(children, name, tree), name) == tree,
        other != name ==> child_named(with_child(children, name, tree), other) == child_named(
            children,
            other,
        ),
        child_named(without(children, name), name) == empty_dir(),
        other != name ==> child_named(without(children, name), other) == child_named(
            children,
            other,
        ),
{
    lemma_slot_bounds(children, name);
    lemma_slot_sorted(children, name);
    lemma_with_child(children, name, tree);
    let at = slot(children, name);
    let less = without(children, name);
    let more = with_child(children, name, tree);
    assert(more[at] == Child { name, tree });
    lemma_child_found(more, at);
    // no child of `less` has the name
    assert forall|i: int| 0 <= i < less.len() implies (#[trigger] less[i]).name != name by {
        if has_child(children, name) && i >= at {
            assert(less[i] == children[i + 1]);
        } else {
            assert(less[i] == children[i]);
            if i < at {
                lemma_lex_asymmetric(children[i].name, name);
            }
        }
    }
    lemma_child_absent(less, name);
    if other != name {
        if exists|k: int| 0 <= k < children.len() && (#[trigger] children[k]).name == other {
            let k = choose|k: int| 0 <= k < children.len() && (#[trigger] children[k]).name == other;
            lemma_child_found(children, k);
            let in_less = if has_child(children, name) && k > at {
                k - 1
            } else {
                k
            };
            assert(less[in_less] == children[k]);
            lemma_child_found(less, in_less);
            let in_more = if in_less >= at {
                in_less + 1
            } else {
                in_less
            };
            assert(more[in_more] == less[in_less]);
            lemma_child_found(more, in_more);
        } else {
            lemma_child_absent(children, other);
            assert forall|i: int| 0 <= i < less.len() implies (#[trigger] less[i]).name
                != other by {
                assert(children.contains(less[i]));
                let k = choose|k: int| 0 <= k < children.len() && children[k] == less[i];
                assert(children[k].name != other);
            }
            lemma_child_absent(less, other);
            assert forall|i: int| 0 <= i < more.len() implies (#[trigger] more[i]).name
                != other by {
                if more[i] != (Child { name, tree }) {
                    assert(children.contains(more[i]));
                    let k = choose|k: int| 0 <= k < children.len() && children[k] == more[i];
                    assert(children[k].name != other);
                }
            }
            lemma_child_absent(more, other);
        }
    }
}

/// What was put at a path lies at that path.
pub proof fn lemma_inserted_is_there(tree: Tree, path: Seq<Seq<u8>>, sub: Tree)
    requires
        canonical(tree),
    ensures
        subtree_at(inserted(tree, path, sub), path) == sub,
    decreases path.len(),
{
    if path.len() > 0 {
        let children = children_of(tree);
        let name = path[0];
        let old_child = child_named(children, name);
        assert(sorted_names(children));
        assert(canonical(old_child)) by {
            if has_child(children, name) {
                assert(canonical(children[slot(children, name)].tree));
            }
        }
        lemma_inserted_is_there(old_child, path.skip(1), sub);
        let grown = inserted(old_child, path.skip(1), sub);
        lemma_child_after_put(children, name, grown, name);
        if grown == empty_dir() {
            lemma_nothing_in_empty(path.skip(1));
        }
    }
}

/// What lies apart from the path of an insertion lies there as before.
pub proof fn lemma_inserted_leaves_alone(
    tree: Tree,
    path: Seq<Seq<u8>>,
    sub: Tree,
    other: Seq<Seq<u8>>,
)
    requires
        canonical(tree),
        apart(path, other),
    ensures
        subtree_at(inserted(tree, path, sub), other) == subtree_at(tree, other),
    decreases path.len(),
{
    assert(path.len() > 0) by {
        if path.len() == 0 {
            assert(path =~= other.subrange(0, 0));
        }
    }
    assert(other.len() > 0) by {
        if other.len() == 0 {
            assert(other =~= path.subrange(0, 0));
        }
    }
    let children = children_of(tree);
    let name = path[0];
    let old_child = child_named(children, name);
    assert(sorted_names(children));
    assert(canonical(old_child)) by {
        if has_child(children, name) {
            assert(canonical(children[slot(children, name)].tree));
        }
    }
    let grown = inserted(old_child, path.skip(1), sub);
    lemma_child_after_put(children, name, grown, other[0]);
    if other[0] == name {
        assert(apart(path.skip(1), other.skip(1))) by {
            if path.skip(1).is_prefix_of(other.skip(1)) {
                assert(path =~= other.subrange(0, path.len() as int)) by {
                    assert(path.skip(1) =~= other.skip(1).subrange(0, path.len() - 1));
                    assert forall|i: int| 0 <= i < path.len() implies path[i] == other[i] by {
                        if i > 0 {
                            assert(path[i] == path.skip(1)[i - 1]);
                            assert(other.skip(1).subrange(0, path.len() - 1)[i - 1] == other[i]);
                        }
                    }
                }
            }
            if other.skip(1).is_prefix_of(path.skip(1)) {
                assert(other =~= path.subrange(0, other.len() as int)) by {
                    assert(other.skip(1) =~= path.skip(1).subrange(0, other.len() - 1));
                    assert forall|i: int| 0 <= i < other.len() implies other[i] == path[i] by {
                        if i > 0 {
                            assert(other[i] == other.skip(1)[i - 1]);
                            assert(path.skip(1).subrange(0, other.len() - 1)[i - 1] == path[i]);
                        }
                    }
                }
            }
        }
        lemma_inserted_leaves_alone(old_child, path.skip(1), sub, other.skip(1));
        if grown == empty_dir() {
            lemma_nothing_in_empty(other.skip(1));
        }
    }
}

/// The hash of the file that lies at `path` in `node`, if a file lies
/// there.
pub fn find_file(node: &Node, path: &Vec<Vec<u8>>) -> (r: Option<ContentHash>)
    ensures
        r is Some <==> subtree_at(node@, views(path@)) is File,
        r is Some ==> subtree_at(node@, views(path@)) == Tree::File(r.unwrap()@),
{
    let ghost whole = views(path@);
    let mut at: &Node = node;
    let mut i: usize = 0;
    assert(whole.skip(0) =~= whole);
    while i < path.len()
        invariant
            i <= path.len(),
            whole == views(path@),
            subtree_at(node@, whole) == subtree_at(at@, whole.skip(i as int)),
        decreases path.len() - i,
    {
        let ghost rest = whole.skip(i as int);
        assert(rest[0] == path@[i as int]@);
        assert(rest.skip(1) =~= whole.skip(i + 1));
        match at {
            Node::File(_) => {
                proof {
                    lemma_nothing_in_empty(rest.skip(1));
                }
                return None;
            },
            Node::Dir(children) => {
                proof {
                    lemma_dir_view(*children);
                }
                let name = &path[i];
                let place = locate(children, name.as_slice());
                if place < children.len() && bytes_eq(
                    children[place].name.as_slice(),
                    name.as_slice(),
                ) {
                    assert(child_views(children@)[place as int] == children@[place as int]@);
                    at = &children[place].node;
                } else {
                    proof {
                        lemma_nothing_in_empty(rest.skip(1));
                    }
                    return None;
                }
            },
        }
        i = i + 1;
    }
    match at {
        Node::File(hash) => Some(*hash),
        Node::Dir(_) => None,
    }
}

} // verus!
