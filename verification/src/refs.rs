//! Branches and the head: the mutable pointers into the commit graph.

use crate::bytes::append_bytes;
use crate::bytes::bytes_eq;
use crate::bytes::copy_range;
use crate::bytes::starts_with;
use crate::error::Error;
use crate::hash::hex_of;
use crate::hash::lemma_unhex_hex;
use crate::hash::unhex;
use crate::hash::ContentHash;
use vstd::prelude::*;
use vstd::slice::slice_subrange;

verus! {

/// The byte that ends a record.
pub const NEWLINE: u8 = 10;

/// What the head points at, as a mathematical value.
pub enum HeadView {
    Attached(Seq<u8>),
    Detached(Seq<u8>),
}

/// What the head points at: a branch by name, or one commit.
#[derive(Clone, Debug, PartialEq, Eq)]
pub enum Head {
    Attached(Vec<u8>),
    Detached(ContentHash),
}

impl View for Head {
    type V = HeadView;

    open spec fn view(&self) -> HeadView {
        match self {
            Head::Attached(name) => HeadView::Attached(name@),
            Head::Detached(hash) => HeadView::Detached(hash@),
        }
    }
}

/// The name of the branch that a new repository's head is attached to:
/// `main`.
pub open spec fn default_branch() -> Seq<u8> {
    seq![109u8, 97u8, 105u8, 110u8]
}

/// What stands before a branch's name in the record of an attached head:
/// `ref: refs/heads/`.
pub open spec fn attached_prefix() -> Seq<u8> {
    seq![
        114u8, 101u8, 102u8, 58u8, 32u8, 114u8, 101u8, 102u8, 115u8, 47u8, 104u8, 101u8, 97u8,
        100u8, 115u8, 47u8,
    ]
}

/// The record of a hash: its hexadecimal form and a newline.
pub open spec fn hash_record(hash: Seq<u8>) -> Seq<u8> {
    hex_of(hash) + seq![NEWLINE]
}

/// The hash that a record holds, if it is the record of a hash.
pub open spec fn parsed_hash_record(record: Seq<u8>) -> Option<Seq<u8>> {
    if record.len() == 65 && record[64] == NEWLINE {
        unhex(record.take(64))
    } else {
        None
    }
}

/// The record of a head: for an attached one the line that names its
/// branch, for a detached one the record of its commit's hash.
pub open spec fn head_record(head: HeadView) -> Seq<u8> {
    match head {
        HeadView::Attached(name) => attached_prefix() + name + seq![NEWLINE],
        HeadView::Detached(hash) => hash_record(hash),
    }
}

/// The head that a record holds, if it is the record of a head.
pub open spec fn parsed_head_record(record: Seq<u8>) -> Option<HeadView> {
    if attached_prefix().is_prefix_of(record) {
        if record.len() > 16 && record.last() == NEWLINE {
            Some(HeadView::Attached(record.subrange(16, record.len() - 1)))
        } else {
            None
        }
    } else {
        match parsed_hash_record(record) {
            Some(hash) => Some(HeadView::Detached(hash)),
            None => None,
        }
    }
}

/// Reading the record of a hash gives the hash back.
pub proof fn lemma_parse_hash_record(hash: Seq<u8>)
    requires
        hash.len() == 32,
    ensures
        parsed_hash_record(hash_record(hash)) == Some(hash),
{
    lemma_unhex_hex(hash);
    assert(hash_record(hash).take(64) =~= hex_of(hash));
}

/// Reading the record of a head gives the head back.
pub proof fn lemma_parse_head_record(head: HeadView)
    requires
        head is Detached ==> head->Detached_0.len() == 32,
    ensures
        parsed_head_record(head_record(head)) == Some(head),
{
    let record = head_record(head);
    match head {
        HeadView::Attached(name) => {
            assert(record.subrange(0, 16) =~= attached_prefix());
            assert(record.subrange(16, record.len() - 1) =~= name);
        },
        HeadView::Detached(hash) => {
            lemma_parse_hash_record(hash);
            let first = record[0];
            assert(first == hex_of(hash)[0]);
            assert(first != 114u8) by {
                let b = hash[0] as int;
                assert(0 <= b / 16 < 16);
            }
            assert(!attached_prefix().is_prefix_of(record)) by {
                if attached_prefix().is_prefix_of(record) {
                    assert(record.subrange(0, 16)[0] == attached_prefix()[0]);
                }
            }
        },
    }
}

/// The name `main`.
pub fn default_branch_name() -> (name: Vec<u8>)
    ensures
        name@ == default_branch(),
{
    let name = vec![109u8, 97u8, 105u8, 110u8];
    assert(name@ =~= default_branch());
    name
}

fn attached_prefix_bytes() -> (out: Vec<u8>)
    ensures
        out@ == attached_prefix(),
{
    let out = vec![
        114u8, 101u8, 102u8, 58u8, 32u8, 114u8, 101u8, 102u8, 115u8, 47u8, 104u8, 101u8, 97u8,
        100u8, 115u8, 47u8,
    ];
    assert(out@ =~= attached_prefix());
    out
}

/// The record of a hash.
pub fn encode_hash_record(hash: &ContentHash) -> (out: Vec<u8>)
    ensures
        out@ == hash_record(hash@),
{
    let mut out = hash.to_hex();
    out.push(NEWLINE);
    out
}

/// The hash that a record holds, or `None` where it is not the record of a
/// hash.
pub fn parse_hash_record(record: &[u8]) -> (r: Option<ContentHash>)
    ensures
        r is Some <==> parsed_hash_record(record@) is Some,
        r is Some ==> r.unwrap()@ == parsed_hash_record(record@).unwrap(),
{
    if record.len() != 65 || record[64] != NEWLINE {
        return None;
    }
    let hex = slice_subrange(record, 0, 64);
    assert(hex@ =~= record@.take(64));
    ContentHash::from_hex(hex)
}

/// The record of a head.
pub fn encode_head(head: &Head) -> (out: Vec<u8>)
    ensures
        out@ == head_record(head@),
{
    match head {
        Head::Attached(name) => {
            let mut out = attached_prefix_bytes();
            append_bytes(&mut out, name.as_slice());
            out.push(NEWLINE);
            out
        },
        Head::Detached(hash) => encode_hash_record(hash),
    }
}

/// The head that a record holds, or `None` where it is not the record of a
/// head.
pub fn parse_head(record: &[u8]) -> (r: Option<Head>)
    ensures
        r is Some <==> parsed_head_record(record@) is Some,
        r is Some ==> r.unwrap()@ == parsed_head_record(record@).unwrap(),
{
    let prefix = attached_prefix_bytes();
    if starts_with(record, prefix.as_slice()) {
        if record.len() > 16 && record[record.len() - 1] == NEWLINE {
            let name = copy_range(record, 16, record.len() - 1);
            Some(Head::Attached(name))
        } else {
            None
        }
    } else {
        match parse_hash_record(record) {
            Some(hash) => Some(Head::Detached(hash)),
            None => None,
        }
    }
}

/// One branch, as a mathematical value.
pub struct BranchView {
    pub name: Seq<u8>,
    pub target: Seq<u8>,
}

/// One branch: a name and the commit it points at.
#[derive(Clone, Debug, PartialEq, Eq)]
pub struct Branch {
    pub name: Vec<u8>,
    pub target: ContentHash,
}

impl View for Branch {
    type V = BranchView;

    open spec fn view(&self) -> BranchView {
        BranchView { name: self.name@, target: self.target@ }
    }
}

/// Whether some branch in `branches` is called `name`.
pub open spec fn names(branches: Seq<BranchView>, name: Seq<u8>) -> bool {
    exists|i: int| 0 <= i < branches.len() && (#[trigger] branches[i]).name == name
}

/// The place of the branch called `name`.
pub open spec fn place_of(branches: Seq<BranchView>, name: Seq<u8>) -> int {
    choose|i: int| 0 <= i < branches.len() && (#[trigger] branches[i]).name == name
}

/// The branches as a map from names to commits.
pub open spec fn branch_map(branches: Seq<BranchView>) -> Map<Seq<u8>, Seq<u8>> {
    Map::new(
        |name: Seq<u8>| names(branches, name),
        |name: Seq<u8>| branches[place_of(branches, name)].target,
    )
}

/// Whether no two branches share a name.
pub open spec fn unique_names(branches: Seq<BranchView>) -> bool {
    forall|i: int, j: int|
        0 <= i < j < branches.len() ==> (#[trigger] branches[i]).name != (
        #[trigger] branches[j]).name
}

/// With unique names, a branch is found at its own place.
pub proof fn lemma_place_of(branches: Seq<BranchView>, at: int)
    requires
        unique_names(branches),
        0 <= at < branches.len(),
    ensures
        names(branches, branches[at].name),
        place_of(branches, branches[at].name) == at,
        branch_map(branches)[branches[at].name] == branches[at].target,
{
    let name = branches[at].name;
    let p = place_of(branches, name);
    assert(0 <= p < branches.len() && branches[p].name == name);
    if p < at {
        assert(branches[p].name != branches[at].name);
    }
    if at < p {
        assert(branches[at].name != branches[p].name);
    }
}

/// The branches of a repository.
pub struct RefStore {
    branches: Vec<Branch>,
}

impl RefStore {
    /// The branches in the order in which they were created.
    pub closed spec fn listing(&self) -> Seq<BranchView> {
        Seq::new(self.branches@.len(), |i: int| self.branches@[i]@)
    }

    /// Validity of the branches: no two share a name.
    pub open spec fn wf(&self) -> bool {
        unique_names(self.listing())
    }

    /// No branches.
    pub fn new() -> (refs: RefStore)
        ensures
            refs.wf(),
            refs.listing() == Seq::<BranchView>::empty(),
            refs@ == Map::<Seq<u8>, Seq<u8>>::empty(),
    {
        let refs = RefStore { branches: Vec::new() };
        assert(refs.listing() =~= Seq::<BranchView>::empty());
        assert(refs@ =~= Map::<Seq<u8>, Seq<u8>>::empty());
        refs
    }

    fn find(&self, name: &[u8]) -> (r: Option<usize>)
        requires
            self.wf(),
        ensures
            r is Some <==> names(self.listing(), name@),
            r is Some ==> r.unwrap() < self.listing().len() && r.unwrap() == place_of(
                self.listing(),
                name@,
            ) && self.listing()[r.unwrap() as int].name == name@,
    {
        let mut i: usize = 0;
        while i < self.branches.len()
            invariant
                i <= self.branches@.len(),
                self.wf(),
                forall|j: int| 0 <= j < i ==> (#[trigger] self.listing()[j]).name != name@,
            decreases self.branches.len() - i,
        {
            if bytes_eq(self.branches[i].name.as_slice(), name) {
                proof {
                    assert(self.listing()[i as int].name == name@);
                    lemma_place_of(self.listing(), i as int);
                }
                return Some(i);
            }
            i = i + 1;
        }
        None
    }

    /// How many branches there are.
    pub fn len(&self) -> (n: usize)
        ensures
            n == self.listing().len(),
    {
        self.branches.len()
    }

    /// The branch at place `at` in the order of creation.
    pub fn branch_at(&self, at: usize) -> (branch: &Branch)
        requires
            at < self.listing().len(),
        ensures
            branch@ == self.listing()[at as int],
    {
        &self.branches[at]
    }

    /// The commit that the branch `name` points at, if there is such a
    /// branch.
    pub fn get(&self, name: &[u8]) -> (r: Option<ContentHash>)
        requires
            self.wf(),
        ensures
            r is Some <==> self@.contains_key(name@),
            r is Some ==> r.unwrap()@ == self@[name@],
    {
        match self.find(name) {
            Some(at) => Some(self.branches[at].target),
            None => None,
        }
    }

    /// Creates the branch `name` at the commit `at`, unless the name is
    /// taken.
    pub fn create_branch(&mut self, name: &[u8], at: ContentHash) -> (r: Result<(), Error>)
        requires
            old(self).wf(),
        ensures
            final(self).wf(),
            match r {
                Ok(_) => !old(self)@.contains_key(name@) && final(self)@ == old(self)@.insert(
                    name@,
                    at@,
                ) && final(self).listing() == old(self).listing().push(
                    BranchView { name: name@, target: at@ },
                ),
                Err(e) => e == Error::BranchExists && old(self)@.contains_key(name@)
                    && final(self).listing() == old(self).listing(),
            },
    {
        if self.find(name).is_some() {
            return Err(Error::BranchExists);
        }
        let ghost before = self.listing();
        let branch = Branch { name: copy_range(name, 0, name.len()), target: at };
        assert(branch.name@ =~= name@);
        self.branches.push(branch);
        proof {
            let after = self.listing();
            assert(after =~= before.push(branch@));
            lemma_pushed(before, branch@);
        }
        Ok(())
    }

    /// Points the branch `name` at the commit `to`, creating the branch if
    /// there is none of that name.
    pub fn update_branch(&mut self, name: &[u8], to: ContentHash)
        requires
            old(self).wf(),
        ensures
            final(self).wf(),
            final(self)@ == old(self)@.insert(name@, to@),
    {
        let ghost before = self.listing();
        match self.find(name) {
            Some(at) => {
                let branch = Branch { name: copy_range(name, 0, name.len()), target: to };
                assert(branch.name@ =~= name@);
                self.branches.set(at, branch);
                proof {
                    let after = self.listing();
                    assert(after =~= before.update(at as int, branch@));
                    lemma_updated(before, at as int, to@);
                }
            },
            None => {
                let branch = Branch { name: copy_range(name, 0, name.len()), target: to };
                assert(branch.name@ =~= name@);
                self.branches.push(branch);
                proof {
                    let after = self.listing();
                    assert(after =~= before.push(branch@));
                    lemma_pushed(before, branch@);
                }
            },
        }
    }

    /// The names of the branches, in the order in which they were created.
    pub fn list_branches(&self) -> (out: Vec<Vec<u8>>)
        ensures
            out@.len() == self.listing().len(),
            forall|i: int| 0 <= i < out@.len() ==> (#[trigger] out@[i])@ == self.listing()[i].name,
    {
        let mut out: Vec<Vec<u8>> = Vec::new();
        let mut i: usize = 0;
        while i < self.branches.len()
            invariant
                i <= self.branches@.len(),
                out@.len() == i,
                forall|j: int| 0 <= j < i ==> (#[trigger] out@[j])@ == self.listing()[j].name,
            decreases self.branches.len() - i,
        {
            out.push(self.branches[i].name.clone());
            i = i + 1;
        }
        out
    }
}

impl View for RefStore {
    type V = Map<Seq<u8>, Seq<u8>>;

    /// The branches as a map from names to commits.
    open spec fn view(&self) -> Map<Seq<u8>, Seq<u8>> {
        branch_map(self.listing())
    }
}

/// Adding a branch with a new name adds its entry to the map.
pub proof fn lemma_pushed(branches: Seq<BranchView>, branch: BranchView)
    requires
        unique_names(branches),
        !names(branches, branch.name),
    ensures
        unique_names(branches.push(branch)),
        branch_map(branches.push(branch)) == branch_map(branches).insert(
            branch.name,
            branch.target,
        ),
{
    let after = branches.push(branch);
    assert forall|i: int, j: int| 0 <= i < j < after.len() implies (#[trigger] after[i]).name != (
    #[trigger] after[j]).name by {
        if j == branches.len() {
            assert(after[i] == branches[i]);
            if branches[i].name == branch.name {
                assert(names(branches, branch.name));
            }
        } else {
            assert(after[i] == branches[i] && after[j] == branches[j]);
        }
    }
    assert forall|name: Seq<u8>| names(after, name) <==> (names(branches, name) || name
        == branch.name) by {
        if names(after, name) {
            let i = place_of(after, name);
            if i < branches.len() {
                assert(branches[i].name == name);
            }
        }
        if names(branches, name) {
            let i = place_of(branches, name);
            assert(after[i].name == name);
        }
        if name == branch.name {
            assert(after[branches.len() as int].name == name);
        }
    }
    assert forall|name: Seq<u8>| names(after, name) implies #[trigger] branch_map(after)[name]
        == branch_map(branches).insert(branch.name, branch.target)[name] by {
        let i = place_of(after, name);
        lemma_place_of(after, i);
        if i < branches.len() {
            assert(after[i] == branches[i]);
            lemma_place_of(branches, i);
        }
    }
    assert(branch_map(after) =~= branch_map(branches).insert(branch.name, branch.target));
}

/// Moving a branch changes its entry in the map and nothing else.
pub proof fn lemma_updated(branches: Seq<BranchView>, at: int, target: Seq<u8>)
    requires
        unique_names(branches),
        0 <= at < branches.len(),
    ensures
        unique_names(branches.update(at, BranchView { name: branches[at].name, target })),
        branch_map(branches.update(at, BranchView { name: branches[at].name, target }))
            == branch_map(branches).insert(branches[at].name, target),
{
    let moved = BranchView { name: branches[at].name, target };
    let after = branches.update(at, moved);
    assert forall|i: int, j: int| 0 <= i < j < after.len() implies (#[trigger] after[i]).name != (
    #[trigger] after[j]).name by {
        assert(after[i].name == branches[i].name && after[j].name == branches[j].name);
    }
    assert forall|name: Seq<u8>| names(after, name) <==> names(branches, name) by {
        if names(after, name) {
            let i = place_of(after, name);
            assert(branches[i].name == name);
        }
        if names(branches, name) {
            let i = place_of(branches, name);
            assert(after[i].name == name);
        }
    }
    lemma_place_of(branches, at);
    assert forall|name: Seq<u8>| names(after, name) implies #[trigger] branch_map(after)[name]
        == branch_map(branches).insert(branches[at].name, target)[name] by {
        let i = place_of(after, name);
        lemma_place_of(after, i);
        if i != at {
            assert(after[i] == branches[i]);
            lemma_place_of(branches, i);
        }
    }
    assert(branch_map(after) =~= branch_map(branches).insert(branches[at].name, target));
}

} // verus!
