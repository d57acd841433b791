//! Directory trees.
//!
//! A tree is a file, known by the hash of its blob, or a directory of named
//! children. The hash of a directory is the hash of the stored form of its
//! entries, each of which carries the hash of a child: equal directories
//! have equal hashes, however deep they are.

use crate::bytes::bytes_eq;
use crate::bytes::bytes_lt;
use crate::bytes::lex_lt;
use crate::codec::views;
use crate::hash::content_hash;
use crate::hash::ContentHash;
use crate::error::Error;
use crate::object::encode_tree;
use crate::object::parse_tree;
use crate::object::parsed_tree;
use crate::path::extend_path;
use crate::path::extended;
use crate::store::distinct;
use crate::store::holds;
use crate::store::position;
use crate::object::entry_views;
use crate::object::tree_bytes;
use crate::object::Entry;
use crate::object::EntryKind;
use crate::object::TreeEntry;
use crate::store::stored;
use crate::store::ObjectStore;
use vstd::prelude::*;

verus! {

/// A directory tree, as a mathematical value.
pub enum Tree {
    /// A file, with the hash of its blob.
    File(Seq<u8>),
    /// A directory, with its children.
    Dir(Seq<Child>),
}

/// A named child of a directory, as a mathematical value.
pub struct Child {
    pub name: Seq<u8>,
    pub tree: Tree,
}

/// A directory tree.
#[derive(Debug)]
pub enum Node {
    /// A file, with the hash of its blob.
    File(ContentHash),
    /// A directory, with its children.
    Dir(Vec<NodeEntry>),
}

/// A named child of a directory.
#[derive(Debug)]
pub struct NodeEntry {
    pub name: Vec<u8>,
    pub node: Node,
}

/// The directory without children.
pub open spec fn empty_dir() -> Tree {
    Tree::Dir(Seq::empty())
}

impl Node {
    /// The tree that this node stands for.
    pub open spec fn model(self) -> Tree
        decreases self,
    {
        match self {
            Node::File(hash) => Tree::File(hash@),
            Node::Dir(entries) => Tree::Dir(
                Seq::new(
                    entries@.len(),
                    |i: int|
                        if 0 <= i < entries@.len() {
                            Child { name: entries@[i].name@, tree: entries@[i].node.model() }
                        } else {
                            Child { name: Seq::empty(), tree: empty_dir() }
                        },
                ),
            ),
        }
    }
}

impl View for Node {
    type V = Tree;

    open spec fn view(&self) -> Tree {
        self.model()
    }
}

impl View for NodeEntry {
    type V = Child;

    open spec fn view(&self) -> Child {
        Child { name: self.name@, tree: self.node@ }
    }
}

/// The views of a sequence of children.
pub open spec fn child_views(entries: Seq<NodeEntry>) -> Seq<Child> {
    Seq::new(entries.len(), |i: int| entries[i]@)
}

/// The view of a directory is the directory of the views of its children.
pub proof fn lemma_dir_view(entries: Vec<NodeEntry>)
    ensures
        Node::Dir(entries)@ == Tree::Dir(child_views(entries@)),
{
    assert(Node::Dir(entries).model()->Dir_0 =~= child_views(entries@));
}

/// What kind of entry stands for a tree in its parent.
pub open spec fn kind_of(tree: Tree) -> EntryKind {
    match tree {
        Tree::File(_) => EntryKind::File,
        Tree::Dir(_) => EntryKind::Directory,
    }
}

/// The hash of a tree: of a file its blob's hash, of a directory the hash
/// of the stored form of its entries.
pub open spec fn tree_hash(tree: Tree) -> Seq<u8>
    decreases tree, 0nat,
{
    match tree {
        Tree::File(hash) => hash,
        Tree::Dir(children) => content_hash(
            tree_bytes(first_entries(children, children.len() as int)),
        ),
    }
}

/// The entries that stand for the first `count` children of a directory.
pub open spec fn first_entries(children: Seq<Child>, count: int) -> Seq<Entry>
    decreases children, count,
{
    if 0 < count <= children.len() {
        first_entries(children, count - 1).push(
            Entry {
                name: children[count - 1].name,
                kind: kind_of(children[count - 1].tree),
                hash: tree_hash(children[count - 1].tree),
            },
        )
    } else {
        Seq::empty()
    }
}

/// The entry that stands for a child in its directory.
pub open spec fn entry_of(child: Child) -> Entry {
    Entry { name: child.name, kind: kind_of(child.tree), hash: tree_hash(child.tree) }
}

/// The entries of a directory with the given children.
pub open spec fn entries_of(children: Seq<Child>) -> Seq<Entry> {
    Seq::new(children.len(), |i: int| entry_of(children[i]))
}

/// The first entries of a directory are an initial segment of its entries.
pub proof fn lemma_first_entries(children: Seq<Child>, count: int)
    requires
        0 <= count <= children.len(),
    ensures
        first_entries(children, count) == entries_of(children).take(count),
    decreases count,
{
    if count > 0 {
        lemma_first_entries(children, count - 1);
        assert(first_entries(children, count) =~= entries_of(children).take(count));
    } else {
        assert(first_entries(children, count) =~= entries_of(children).take(count));
    }
}

/// The hash of a directory is the hash of the stored form of its entries.
pub proof fn lemma_dir_hash(children: Seq<Child>)
    ensures
        tree_hash(Tree::Dir(children)) == content_hash(tree_bytes(entries_of(children))),
{
    lemma_first_entries(children, children.len() as int);
    assert(entries_of(children).take(children.len() as int) =~= entries_of(children));
}

/// The objects that storing a tree puts into the store, in order: those of
/// each child in turn, then the tree's own stored form. A file puts none.
pub open spec fn tree_objects(tree: Tree) -> Seq<Seq<u8>>
    decreases tree, 0nat,
{
    match tree {
        Tree::File(_) => Seq::empty(),
        Tree::Dir(children) => children_objects(children, children.len() as int).push(
            tree_bytes(entries_of(children)),
        ),
    }
}

/// The objects that storing the first `count` children puts into the store.
pub open spec fn children_objects(children: Seq<Child>, count: int) -> Seq<Seq<u8>>
    decreases children, count,
{
    if 0 < count <= children.len() {
        children_objects(children, count - 1) + tree_objects(children[count - 1].tree)
    } else {
        Seq::empty()
    }
}

/// The store after each of `objects` has been put into it in turn.
pub open spec fn stored_all(store: Seq<Seq<u8>>, objects: Seq<Seq<u8>>) -> Seq<Seq<u8>>
    decreases objects.len(),
{
    if objects.len() == 0 {
        store
    } else {
        stored(stored_all(store, objects.drop_last()), objects.last())
    }
}

/// Putting a run of one object is putting that object.
pub proof fn lemma_stored_all_one(store: Seq<Seq<u8>>, data: Seq<u8>)
    ensures
        stored_all(store, seq![data]) == stored(store, data),
{
    let one = seq![data];
    assert(one.drop_last() =~= Seq::<Seq<u8>>::empty());
    assert(stored_all(store, one.drop_last()) == store);
    assert(one.last() == data);
}

/// Putting two runs of objects in turn is putting their concatenation.
pub proof fn lemma_stored_all_concat(store: Seq<Seq<u8>>, a: Seq<Seq<u8>>, b: Seq<Seq<u8>>)
    ensures
        stored_all(store, a + b) == stored_all(stored_all(store, a), b),
    decreases b.len(),
{
    if b.len() == 0 {
        assert(a + b =~= a);
    } else {
        lemma_stored_all_concat(store, a, b.drop_last());
        assert((a + b).drop_last() =~= a + b.drop_last());
        assert((a + b).last() == b.last());
    }
}

impl Node {
    /// What kind of entry stands for this node in its parent.
    pub fn kind(&self) -> (kind: EntryKind)
        ensures
            kind == kind_of(self@),
    {
        match self {
            Node::File(_) => EntryKind::File,
            Node::Dir(_) => EntryKind::Directory,
        }
    }

    /// Whether this node is a directory without children.
    pub fn is_empty_dir(&self) -> (yes: bool)
        ensures
            yes == (self@ == empty_dir()),
    {
        match self {
            Node::File(_) => false,
            Node::Dir(entries) => {
                proof {
                    lemma_dir_view(*entries);
                    if entries@.len() == 0 {
                        assert(child_views(entries@) =~= Seq::<Child>::empty());
                    } else {
                        assert(child_views(entries@).len() != Seq::<Child>::empty().len());
                    }
                }
                entries.len() == 0
            },
        }
    }
}

/// Stores a tree: every directory in it, children before parents, each as
/// the stored form of its entries. Returns the hash of the tree, which
/// depends on the tree alone.
pub fn store_tree(store: &mut ObjectStore, node: &Node) -> (hash: ContentHash)
    requires
        old(store).wf(),
    ensures
        final(store).wf(),
        hash@ == tree_hash(node@),
        final(store)@ == stored_all(old(store)@, tree_objects(node@)),
    decreases node,
{
    match node {
        Node::File(hash) => *hash,
        Node::Dir(children) => {
            let ghost before = store@;
            let ghost cs = child_views(children@);
            proof {
                lemma_dir_view(*children);
                lemma_dir_hash(cs);
            }
            let mut entries: Vec<TreeEntry> = Vec::new();
            let mut i: usize = 0;
            assert(entry_views(entries@) =~= entries_of(cs).take(0));
            while i < children.len()
                invariant
                    i <= children.len(),
                    node is Dir,
                    node->Dir_0 == *children,
                    cs == child_views(children@),
                    store.wf(),
                    store@ == stored_all(before, children_objects(cs, i as int)),
                    entries@.len() == i,
                    entry_views(entries@) == entries_of(cs).take(i as int),
                decreases children.len() - i,
            {
                let child = &children[i];
                proof {
                    broadcast use vstd::std_specs::vec::group_vec_axioms;

                    assert(decreases_to!(*node => node->Dir_0));
                    assert(decreases_to!(*children => children@));
                    assert(decreases_to!(children@ => children@[i as int]));
                    assert(decreases_to!(children@[i as int] => children@[i as int].node));
                    assert(cs[i as int] == child@);
                    lemma_stored_all_concat(
                        before,
                        children_objects(cs, i as int),
                        tree_objects(child.node@),
                    );
                }
                let hash = store_tree(store, &child.node);
                let entry = TreeEntry { name: child.name.clone(), kind: child.node.kind(), hash };
                proof {
                    assert(entry@ == entry_of(cs[i as int]));
                    let next = entry_views(entries@.push(entry));
                    assert forall|j: int| 0 <= j < i + 1 implies next[j] == entries_of(cs)[j] by {
                        if j < i {
                            assert(entry_views(entries@)[j] == entries_of(cs).take(i as int)[j]);
                        }
                    }
                    assert(next =~= entries_of(cs).take(i + 1));
                }
                entries.push(entry);
                i = i + 1;
            }
            assert(entries_of(cs).take(cs.len() as int) =~= entries_of(cs));
            let bytes = encode_tree(&entries);
            proof {
                let all = tree_objects(node@);
                assert(all.drop_last() =~= children_objects(cs, cs.len() as int));
            }
            store.put(bytes)
        },
    }
}

/// The place in `children` of the first child whose name is not below
/// `name`: where a child of that name is, or would be put.
pub open spec fn slot(children: Seq<Child>, name: Seq<u8>) -> int
    decreases children.len(),
{
    if children.len() == 0 || !lex_lt(children[0].name, name) {
        0
    } else {
        1 + slot(children.skip(1), name)
    }
}

/// Whether `children` has a child called `name` at the place for it.
pub open spec fn has_child(children: Seq<Child>, name: Seq<u8>) -> bool {
    let at = slot(children, name);
    0 <= at < children.len() && children[at].name == name
}

/// The child called `name`, or the empty directory where there is none.
pub open spec fn child_named(children: Seq<Child>, name: Seq<u8>) -> Tree {
    if has_child(children, name) {
        children[slot(children, name)].tree
    } else {
        empty_dir()
    }
}

/// The children without the one called `name`.
pub open spec fn without(children: Seq<Child>, name: Seq<u8>) -> Seq<Child> {
    if has_child(children, name) {
        children.remove(slot(children, name))
    } else {
        children
    }
}

/// The children with `tree` as the one called `name`, in its place.
pub open spec fn with_child(children: Seq<Child>, name: Seq<u8>, tree: Tree) -> Seq<Child> {
    without(children, name).insert(slot(children, name), Child { name, tree })
}

/// The children of a directory; a file has none.
pub open spec fn children_of(tree: Tree) -> Seq<Child> {
    match tree {
        Tree::File(_) => Seq::empty(),
        Tree::Dir(children) => children,
    }
}

/// The tree with `sub` put at `path`, in place of what was there. A file on
/// the way becomes a directory; a directory left without children is
/// dropped from its parent.
pub open spec fn inserted(tree: Tree, path: Seq<Seq<u8>>, sub: Tree) -> Tree
    decreases path.len(),
{
    if path.len() == 0 {
        sub
    } else {
        let children = children_of(tree);
        let name = path[0];
        let child = inserted(child_named(children, name), path.skip(1), sub);
        if child == empty_dir() {
            Tree::Dir(without(children, name))
        } else {
            Tree::Dir(with_child(children, name, child))
        }
    }
}

/// The slot of a name, given that exactly the children before `at` are
/// below it.
pub proof fn lemma_slot(children: Seq<Child>, name: Seq<u8>, at: int)
    requires
        0 <= at <= children.len(),
        forall|j: int| 0 <= j < at ==> lex_lt(#[trigger] children[j].name, name),
        at == children.len() || !lex_lt(children[at].name, name),
    ensures
        slot(children, name) == at,
    decreases at,
{
    if at > 0 {
        assert(lex_lt(children[0].name, name));
        assert forall|j: int| 0 <= j < at - 1 implies lex_lt(
            #[trigger] children.skip(1)[j].name,
            name,
        ) by {
            assert(children.skip(1)[j] == children[j + 1]);
        }
        lemma_slot(children.skip(1), name, at - 1);
    }
}

/// The place where a child called `name` is or would be put.
pub fn locate(children: &Vec<NodeEntry>, name: &[u8]) -> (at: usize)
    ensures
        at <= children@.len(),
        at == slot(child_views(children@), name@),
{
    let mut at: usize = 0;
    while at < children.len() && bytes_lt(children[at].name.as_slice(), name)
        invariant
            at <= children@.len(),
            forall|j: int| 0 <= j < at ==> lex_lt(#[trigger] child_views(children@)[j].name, name@),
        decreases children@.len() - at,
    {
        at = at + 1;
    }
    proof {
        lemma_slot(child_views(children@), name@, at as int);
    }
    at
}

/// Puts `sub` into `node` at the path `path[from..]`.
pub fn insert_at(node: Node, path: &Vec<Vec<u8>>, from: usize, sub: Node) -> (out: Node)
    requires
        from <= path@.len(),
    ensures
        out@ == inserted(node@, views(path@).skip(from as int), sub@),
    decreases path@.len() - from,
{
    let ghost rest = views(path@).skip(from as int);
    if from >= path.len() {
        return sub;
    }
    let ghost before = node@;
    let mut children = match node {
        Node::Dir(children) => {
            proof {
                lemma_dir_view(children);
            }
            children
        },
        Node::File(_) => {
            let none: Vec<NodeEntry> = Vec::new();
            assert(child_views(none@) =~= Seq::<Child>::empty());
            none
        },
    };
    let ghost cs = child_views(children@);
    assert(cs == children_of(before));
    let name = &path[from];
    assert(rest[0] == name@);
    assert(rest.skip(1) =~= views(path@).skip(from + 1));
    let at = locate(&children, name.as_slice());
    let found = at < children.len() && bytes_eq(children[at].name.as_slice(), name.as_slice());
    assert(found == has_child(cs, name@));
    let child = if found {
        let entry = children.remove(at);
        assert(entry@ == cs[at as int]);
        entry.node
    } else {
        let none: Vec<NodeEntry> = Vec::new();
        proof {
            lemma_dir_view(none);
            assert(child_views(none@) =~= Seq::<Child>::empty());
        }
        Node::Dir(none)
    };
    assert(child@ == child_named(cs, name@));
    assert(child_views(children@) =~= without(cs, name@));
    let grown = insert_at(child, path, from + 1, sub);
    if !grown.is_empty_dir() {
        let entry = NodeEntry { name: name.clone(), node: grown };
        let ghost shrunk = children@;
        children.insert(at, entry);
        assert(child_views(children@) =~= child_views(shrunk).insert(at as int, entry@));
    }
    proof {
        lemma_dir_view(children);
    }
    Node::Dir(children)
}

/// The files of a tree in order, each with its whole path below `prefix`.
pub open spec fn flattened(tree: Tree, prefix: Seq<u8>) -> Seq<Entry>
    decreases tree, 0nat,
{
    match tree {
        Tree::File(hash) => seq![Entry { name: prefix, kind: EntryKind::File, hash }],
        Tree::Dir(children) => flattened_children(children, prefix, children.len() as int),
    }
}

/// The files of the first `count` children of a directory at `prefix`.
pub open spec fn flattened_children(children: Seq<Child>, prefix: Seq<u8>, count: int) -> Seq<
    Entry,
>
    decreases children, count,
{
    if 0 < count <= children.len() {
        flattened_children(children, prefix, count - 1) + flattened(
            children[count - 1].tree,
            extended(prefix, children[count - 1].name),
        )
    } else {
        Seq::empty()
    }
}

/// Appends to `out` the files of `node`, each with its whole path below
/// `prefix`.
pub fn flatten(node: &Node, prefix: &[u8], out: &mut Vec<TreeEntry>)
    ensures
        entry_views(final(out)@) == entry_views(old(out)@) + flattened(node@, prefix@),
    decreases node,
{
    let ghost before = entry_views(out@);
    match node {
        Node::File(hash) => {
            let entry = TreeEntry {
                name: crate::bytes::copy_range(prefix, 0, prefix.len()),
                kind: EntryKind::File,
                hash: *hash,
            };
            assert(entry.name@ =~= prefix@);
            assert(entry_views(out@.push(entry)) =~= before + flattened(node@, prefix@));
            out.push(entry);
        },
        Node::Dir(children) => {
            let ghost cs = child_views(children@);
            proof {
                lemma_dir_view(*children);
                assert(before + flattened_children(cs, prefix@, 0) =~= before);
            }
            let mut i: usize = 0;
            while i < children.len()
                invariant
                    i <= children.len(),
                    node is Dir,
                    node->Dir_0 == *children,
                    cs == child_views(children@),
                    entry_views(out@) == before + flattened_children(cs, prefix@, i as int),
                decreases children.len() - i,
            {
                let child = &children[i];
                proof {
                    broadcast use vstd::std_specs::vec::group_vec_axioms;

                    assert(decreases_to!(*node => node->Dir_0));
                    assert(decreases_to!(*children => children@));
                    assert(decreases_to!(children@ => children@[i as int]));
                    assert(decreases_to!(children@[i as int] => children@[i as int].node));
                    assert(cs[i as int] == child@);
                }
                let below = extend_path(prefix, child.name.as_slice());
                let ghost so_far = entry_views(out@);
                flatten(&child.node, below.as_slice(), out);
                assert(entry_views(out@) =~= before + flattened_children(cs, prefix@, i + 1)) by {
                    assert(so_far + flattened(child.node@, below@) =~= before + (
                    flattened_children(cs, prefix@, i as int) + flattened(
                        child.node@,
                        below@,
                    )));
                }
                i = i + 1;
            }
        },
    }
}

/// Whether one of the first `bound` objects has the hash `hash`.
pub open spec fn held_below(objects: Seq<Seq<u8>>, hash: Seq<u8>, bound: int) -> bool {
    exists|i: int|
        0 <= i < bound && i < objects.len() && #[trigger] content_hash(objects[i]) == hash
}

/// The place among the first `bound` objects of the one with hash `hash`.
pub open spec fn place_below(objects: Seq<Seq<u8>>, hash: Seq<u8>, bound: int) -> int {
    choose|i: int|
        0 <= i < bound && i < objects.len() && #[trigger] content_hash(objects[i]) == hash
}

/// The tree whose stored form is the object at place `at`, each directory
/// in it being read from an object stored earlier than the one that names
/// it. `None` where an object is missing or is not the stored form of a
/// tree.
pub open spec fn loaded(objects: Seq<Seq<u8>>, at: int) -> Option<Tree>
    decreases at, 1nat, 0nat,
{
    if 0 <= at < objects.len() {
        match parsed_tree(objects[at]) {
            None => None,
            Some(entries) => match loaded_children(objects, at, entries, entries.len() as int) {
                None => None,
                Some(children) => Some(Tree::Dir(children)),
            },
        }
    } else {
        None
    }
}

/// The children that the first `count` of `entries` stand for, where
/// `entries` are those of the tree stored at place `at`.
pub open spec fn loaded_children(
    objects: Seq<Seq<u8>>,
    at: int,
    entries: Seq<Entry>,
    count: int,
) -> Option<Seq<Child>>
    decreases at, 0nat, count,
{
    if 0 < count <= entries.len() {
        match loaded_children(objects, at, entries, count - 1) {
            None => None,
            Some(done) => {
                let entry = entries[count - 1];
                match entry.kind {
                    EntryKind::File => Some(
                        done.push(Child { name: entry.name, tree: Tree::File(entry.hash) }),
                    ),
                    EntryKind::Directory => if held_below(objects, entry.hash, at) {
                        match loaded(objects, place_below(objects, entry.hash, at)) {
                            None => None,
                            Some(tree) => Some(done.push(Child { name: entry.name, tree })),
                        }
                    } else {
                        None
                    },
                }
            },
        }
    } else {
        Some(Seq::empty())
    }
}

/// The tree stored under `hash`.
pub open spec fn loaded_tree(objects: Seq<Seq<u8>>, hash: Seq<u8>) -> Option<Tree> {
    if holds(objects, hash) {
        loaded(objects, position(objects, hash))
    } else {
        None
    }
}

/// In a store without repeated hashes, an object is held below a bound
/// exactly if its one place is below it.
pub proof fn lemma_held_below(objects: Seq<Seq<u8>>, hash: Seq<u8>, bound: int)
    requires
        distinct(objects),
        holds(objects, hash),
    ensures
        held_below(objects, hash, bound) <==> position(objects, hash) < bound,
        held_below(objects, hash, bound) ==> place_below(objects, hash, bound) == position(
            objects,
            hash,
        ),
{
    let p = position(objects, hash);
    crate::store::lemma_position_unique(objects, p);
    if held_below(objects, hash, bound) {
        let q = place_below(objects, hash, bound);
        crate::store::lemma_position_unique(objects, q);
    }
    if p < bound {
        assert(content_hash(objects[p]) == hash);
    }
}

/// Reads the tree whose stored form is the object at place `at`.
pub fn load_at(store: &ObjectStore, at: usize) -> (r: Result<Node, Error>)
    requires
        store.wf(),
        at < store@.len(),
    ensures
        match r {
            Ok(node) => loaded(store@, at as int) == Some(node@),
            Err(e) => e == Error::CorruptObject && loaded(store@, at as int) is None,
        },
    decreases at,
{
    let entries = match parse_tree(store.object_at(at).as_slice()) {
        Some(entries) => entries,
        None => {
            return Err(Error::CorruptObject);
        },
    };
    let ghost es = entry_views(entries@);
    let mut children: Vec<NodeEntry> = Vec::new();
    let mut i: usize = 0;
    assert(child_views(children@) =~= Seq::<Child>::empty());
    while i < entries.len()
        invariant
            i <= entries.len(),
            store.wf(),
            at < store@.len(),
            es == entry_views(entries@),
            parsed_tree(store@[at as int]) == Some(es),
            loaded_children(store@, at as int, es, i as int) == Some(child_views(children@)),
        decreases entries.len() - i,
    {
        let entry = &entries[i];
        assert(es[i as int] == entry@);
        let node = match entry.kind {
            EntryKind::File => Node::File(entry.hash),
            EntryKind::Directory => {
                let found = store.find(&entry.hash);
                proof {
                    if holds(store@, entry.hash@) {
                        lemma_held_below(store@, entry.hash@, at as int);
                    } else {
                        if held_below(store@, entry.hash@, at as int) {
                            let q = place_below(store@, entry.hash@, at as int);
                            assert(content_hash(store@[q]) == entry.hash@);
                        }
                    }
                }
                match found {
                    Some(place) => {
                        if place >= at {
                            assert(loaded_children(store@, at as int, es, i + 1) is None);
                            assert(loaded_children(store@, at as int, es, es.len() as int)
                                is None) by {
                                lemma_loaded_children_none(store@, at as int, es, i + 1);
                            }
                            return Err(Error::CorruptObject);
                        }
                        match load_at(store, place) {
                            Ok(node) => node,
                            Err(e) => {
                                assert(loaded_children(store@, at as int, es, i + 1) is None);
                                proof {
                                    lemma_loaded_children_none(store@, at as int, es, i + 1);
                                }
                                return Err(Error::CorruptObject);
                            },
                        }
                    },
                    None => {
                        assert(loaded_children(store@, at as int, es, i + 1) is None);
                        proof {
                            lemma_loaded_children_none(store@, at as int, es, i + 1);
                        }
                        return Err(Error::CorruptObject);
                    },
                }
            },
        };
        let child = NodeEntry { name: entry.name.clone(), node };
        proof {
            let done = child_views(children@);
            assert(child_views(children@.push(child)) =~= done.push(child@));
        }
        children.push(child);
        i = i + 1;
    }
    proof {
        lemma_dir_view(children);
    }
    Ok(Node::Dir(children))
}

/// Once a child cannot be read, the children cannot be read.
pub proof fn lemma_loaded_children_none(
    objects: Seq<Seq<u8>>,
    at: int,
    entries: Seq<Entry>,
    count: int,
)
    requires
        0 <= count <= entries.len(),
        loaded_children(objects, at, entries, count) is None,
    ensures
        loaded_children(objects, at, entries, entries.len() as int) is None,
    decreases entries.len() - count,
{
    if count < entries.len() {
        assert(loaded_children(objects, at, entries, count + 1) is None);
        lemma_loaded_children_none(objects, at, entries, count + 1);
    }
}

/// Reads the tree stored under `hash`.
pub fn load(store: &ObjectStore, hash: &ContentHash) -> (r: Result<Node, Error>)
    requires
        store.wf(),
    ensures
        match r {
            Ok(node) => loaded_tree(store@, hash@) == Some(node@),
            Err(e) => e == Error::CorruptObject && loaded_tree(store@, hash@) is None,
        },
{
    match store.find(hash) {
        Some(at) => load_at(store, at),
        None => Err(Error::CorruptObject),
    }
}

} // verus!
