//! The index: the tree that the next commit will record.
//!
//! The index is kept as a tree in canonical form. Staging puts a file or a
//! whole directory at a path, in place of what was staged there; a snapshot
//! lists the staged files in order.

use crate::canon::canonical;
use crate::canon::lemma_inserted_canonical;
use crate::codec::views;
use crate::error::Error;
use crate::hash::ContentHash;
use crate::object::entry_views;
use crate::object::Entry;
use crate::object::TreeEntry;
use crate::path::valid_names;
use crate::store::ObjectStore;
use crate::tree::child_views;
use crate::tree::empty_dir;
use crate::tree::flatten;
use crate::tree::flattened;
use crate::tree::insert_at;
use crate::tree::inserted;
use crate::tree::lemma_dir_view;
use crate::tree::store_tree;
use crate::tree::stored_all;
use crate::tree::tree_hash;
use crate::tree::tree_objects;
use crate::tree::Child;
use crate::tree::Node;
use crate::tree::NodeEntry;
use crate::tree::Tree;
use crate::worktree::group;
use crate::worktree::groupable;
use crate::worktree::grouped;
use crate::worktree::hash_tree;
use crate::worktree::lemma_grouped;
use vstd::prelude::*;

verus! {

/// The staging area.
pub struct Index {
    root: Node,
}

impl View for Index {
    type V = Tree;

    /// The staged tree.
    closed spec fn view(&self) -> Tree {
        self.root@
    }
}

fn empty_node() -> (node: Node)
    ensures
        node@ == empty_dir(),
{
    let none: Vec<NodeEntry> = Vec::new();
    proof {
        lemma_dir_view(none);
        assert(child_views(none@) =~= Seq::<Child>::empty());
    }
    Node::Dir(none)
}

impl Index {
    /// Validity of an index: the staged tree is a directory in canonical
    /// form.
    pub open spec fn wf(&self) -> bool {
        self@ is Dir && canonical(self@)
    }

    /// The empty index.
    pub fn new() -> (index: Index)
        ensures
            index.wf(),
            index@ == empty_dir(),
    {
        Index { root: empty_node() }
    }

    /// The index that holds the tree `root`.
    pub fn from_tree(root: Node) -> (index: Index)
        requires
            root@ is Dir,
            canonical(root@),
        ensures
            index.wf(),
            index@ == root@,
    {
        Index { root }
    }

    /// The staged tree.
    pub fn root(&self) -> (node: &Node)
        ensures
            node@ == self@,
    {
        &self.root
    }

    /// Stages `sub` at `path`, in place of what was staged there.
    pub fn stage(&mut self, path: &Vec<Vec<u8>>, sub: Node)
        requires
            old(self).wf(),
            valid_names(views(path@)),
            canonical(sub@),
            path@.len() == 0 ==> sub@ is Dir,
        ensures
            final(self).wf(),
            final(self)@ == inserted(old(self)@, views(path@), sub@),
    {
        let mut root = empty_node();
        core::mem::swap(&mut self.root, &mut root);
        proof {
            assert(views(path@).skip(0) =~= views(path@));
            lemma_inserted_canonical(root@, views(path@), sub@);
        }
        self.root = insert_at(root, path, 0, sub);
    }

    /// The staged files in order, each with its path and the hash of its
    /// blob.
    pub fn snapshot(&self) -> (out: Vec<TreeEntry>)
        ensures
            entry_views(out@) == flattened(self@, Seq::empty()),
    {
        let mut out: Vec<TreeEntry> = Vec::new();
        let prefix: Vec<u8> = Vec::new();
        assert(entry_views(out@) =~= Seq::<Entry>::empty());
        flatten(&self.root, prefix.as_slice(), &mut out);
        assert(entry_views(out@) =~= flattened(self@, Seq::empty()));
        out
    }

    /// Replaces the index wholesale by the tree that `entries` stand for.
    /// Fails, and changes nothing, where a path among them is empty or
    /// holds an invalid name.
    pub fn reset(&mut self, entries: &Vec<TreeEntry>) -> (r: Result<(), Error>)
        requires
            old(self).wf(),
        ensures
            final(self).wf(),
            match r {
                Ok(_) => groupable(entry_views(entries@)) && final(self)@ == grouped(
                    entry_views(entries@),
                ),
                Err(e) => e == Error::PathNotFound && !groupable(entry_views(entries@))
                    && final(self)@ == old(self)@,
            },
    {
        match group(entries) {
            Some(root) => {
                proof {
                    let es = entry_views(entries@);
                    assert forall|i: int| 0 <= i < es.len() implies (#[trigger] es[i]).hash.len()
                        == 32 by {
                        assert(es[i].hash == entries@[i].hash@);
                    }
                    lemma_grouped(Seq::empty(), es);
                }
                self.root = root;
                Ok(())
            },
            None => Err(Error::PathNotFound),
        }
    }

    /// The hash staged for the file at `path`, if a file is staged there.
    pub fn get(&self, path: &[u8]) -> (r: Option<ContentHash>)
        ensures
            r is Some <==> crate::path::valid_path(path@) && crate::lookup::subtree_at(
                self@,
                crate::path::components(path@),
            ) is File,
            r is Some ==> crate::lookup::subtree_at(self@, crate::path::components(path@))
                == Tree::File(r.unwrap()@),
    {
        match crate::path::split_path(path) {
            Some(place) => crate::lookup::find_file(&self.root, &place),
            None => None,
        }
    }

    /// The hash of the staged tree.
    pub fn tree_hash(&self) -> (hash: ContentHash)
        ensures
            hash@ == tree_hash(self@),
    {
        hash_tree(&self.root)
    }

    /// Stores the staged tree and returns its hash.
    pub fn store(&self, store: &mut ObjectStore) -> (hash: ContentHash)
        requires
            old(store).wf(),
        ensures
            final(store).wf(),
            hash@ == tree_hash(self@),
            final(store)@ == stored_all(old(store)@, tree_objects(self@)),
    {
        store_tree(store, &self.root)
    }
}

} // verus!
