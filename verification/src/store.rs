//! The content store: byte strings kept once each, under their hashes.
//!
//! The store is an append-only sequence of contents. Nothing stored is ever
//! changed or removed, and storing what is already there changes nothing.

use crate::error::Error;
use crate::hash::content_hash;
use crate::hash::ContentHash;
use vstd::prelude::*;

verus! {

/// Whether some stored content has the hash `hash`.
pub open spec fn holds(objects: Seq<Seq<u8>>, hash: Seq<u8>) -> bool {
    exists|i: int| 0 <= i < objects.len() && #[trigger] content_hash(objects[i]) == hash
}

/// The place of the content with hash `hash`, where there is one.
pub open spec fn position(objects: Seq<Seq<u8>>, hash: Seq<u8>) -> int {
    choose|i: int| 0 <= i < objects.len() && #[trigger] content_hash(objects[i]) == hash
}

/// The content stored under `hash`, where there is one.
pub open spec fn lookup(objects: Seq<Seq<u8>>, hash: Seq<u8>) -> Seq<u8> {
    objects[position(objects, hash)]
}

/// The store after `data` has been put into it.
pub open spec fn stored(objects: Seq<Seq<u8>>, data: Seq<u8>) -> Seq<Seq<u8>> {
    if holds(objects, content_hash(data)) {
        objects
    } else {
        objects.push(data)
    }
}

/// Whether no two stored contents share a hash.
pub open spec fn distinct(objects: Seq<Seq<u8>>) -> bool {
    forall|i: int, j: int|
        0 <= i < j < objects.len() ==> content_hash(#[trigger] objects[i]) != content_hash(
            #[trigger] objects[j],
        )
}

/// In a store without repeated hashes, a hash has one place only.
pub proof fn lemma_position_unique(objects: Seq<Seq<u8>>, i: int)
    requires
        distinct(objects),
        0 <= i < objects.len(),
    ensures
        holds(objects, content_hash(objects[i])),
        position(objects, content_hash(objects[i])) == i,
{
    let h = content_hash(objects[i]);
    let p = position(objects, h);
    assert(0 <= p < objects.len() && content_hash(objects[p]) == h);
    if p < i {
        assert(content_hash(objects[p]) != content_hash(objects[i]));
    }
    if i < p {
        assert(content_hash(objects[i]) != content_hash(objects[p]));
    }
}

/// Putting content keeps everything that was stored, in its place, and
/// keeps hashes distinct.
pub proof fn lemma_stored_extends(objects: Seq<Seq<u8>>, data: Seq<u8>)
    requires
        distinct(objects),
    ensures
        distinct(stored(objects, data)),
        objects.is_prefix_of(stored(objects, data)),
        holds(stored(objects, data), content_hash(data)),
        forall|h: Seq<u8>| holds(objects, h) ==> holds(stored(objects, data), h),
        forall|h: Seq<u8>|
            holds(objects, h) ==> position(stored(objects, data), h) == position(objects, h),
        forall|h: Seq<u8>|
            holds(objects, h) ==> lookup(stored(objects, data), h) == lookup(objects, h),
{
    let after = stored(objects, data);
    if !holds(objects, content_hash(data)) {
        assert(after[objects.len() as int] == data);
        assert forall|i: int, j: int| 0 <= i < j < after.len() implies content_hash(
            #[trigger] after[i],
        ) != content_hash(#[trigger] after[j]) by {
            if j == objects.len() {
                assert(after[i] == objects[i]);
                if content_hash(objects[i]) == content_hash(data) {
                    assert(holds(objects, content_hash(data)));
                }
            } else {
                assert(after[i] == objects[i] && after[j] == objects[j]);
            }
        }
        assert(objects =~= after.subrange(0, objects.len() as int));
    } else {
        assert(objects =~= after.subrange(0, objects.len() as int));
    }
    assert forall|h: Seq<u8>| holds(objects, h) implies holds(after, h) && position(after, h)
        == position(objects, h) && lookup(after, h) == lookup(objects, h) by {
        let p = position(objects, h);
        assert(after[p] == objects[p]);
        lemma_position_unique(after, p);
    }
}

/// Putting the same content a second time changes nothing: the number of
/// stored objects stays what it was after the first put.
pub proof fn lemma_stored_twice(objects: Seq<Seq<u8>>, data: Seq<u8>)
    ensures
        stored(stored(objects, data), data) == stored(objects, data),
        stored(stored(objects, data), data).len() == stored(objects, data).len(),
{
    let once = stored(objects, data);
    if !holds(objects, content_hash(data)) {
        assert(once[objects.len() as int] == data);
    }
    assert(holds(once, content_hash(data)));
}

/// Putting content never alters or removes what is stored under a hash.
pub proof fn lemma_stored_is_immutable(objects: Seq<Seq<u8>>, data: Seq<u8>, hash: Seq<u8>)
    requires
        distinct(objects),
        holds(objects, hash),
    ensures
        holds(stored(objects, data), hash),
        lookup(stored(objects, data), hash) == lookup(objects, hash),
{
    lemma_stored_extends(objects, data);
}

/// One stored object with its hash.
struct StoredObject {
    hash: ContentHash,
    data: Vec<u8>,
}

/// The content store.
pub struct ObjectStore {
    objects: Vec<StoredObject>,
}

impl View for ObjectStore {
    type V = Seq<Seq<u8>>;

    /// The stored contents, oldest first.
    closed spec fn view(&self) -> Seq<Seq<u8>> {
        Seq::new(self.objects@.len(), |i: int| self.objects@[i].data@)
    }
}

impl ObjectStore {
    /// Whether each object is kept with its own hash.
    pub closed spec fn hashes_kept(&self) -> bool {
        forall|i: int|
            0 <= i < self.objects@.len() ==> (#[trigger] self.objects@[i]).hash@ == content_hash(
                self.objects@[i].data@,
            )
    }

    /// Validity of a store: no two stored contents share a hash.
    pub open spec fn wf(&self) -> bool {
        &&& self.hashes_kept()
        &&& distinct(self@)
    }

    /// An empty store.
    pub fn new() -> (store: ObjectStore)
        ensures
            store.wf(),
            store@ == Seq::<Seq<u8>>::empty(),
    {
        let store = ObjectStore { objects: Vec::new() };
        assert(store@ =~= Seq::<Seq<u8>>::empty());
        store
    }

    /// The number of stored objects.
    pub fn len(&self) -> (n: usize)
        ensures
            n == self@.len(),
    {
        self.objects.len()
    }

    /// The place of the object stored under `hash`, if there is one.
    pub fn find(&self, hash: &ContentHash) -> (r: Option<usize>)
        requires
            self.wf(),
        ensures
            r is Some <==> holds(self@, hash@),
            r is Some ==> r.unwrap() == position(self@, hash@) && r.unwrap() < self@.len(),
    {
        let mut i: usize = 0;
        while i < self.objects.len()
            invariant
                i <= self.objects@.len(),
                self.wf(),
                forall|j: int| 0 <= j < i ==> content_hash(#[trigger] self@[j]) != hash@,
            decreases self.objects.len() - i,
        {
            if self.objects[i].hash.same(hash) {
                proof {
                    assert(content_hash(self@[i as int]) == hash@);
                    lemma_position_unique(self@, i as int);
                }
                return Some(i);
            }
            i = i + 1;
        }
        None
    }

    /// Whether an object is stored under `hash`.
    pub fn contains(&self, hash: &ContentHash) -> (yes: bool)
        requires
            self.wf(),
        ensures
            yes == holds(self@, hash@),
    {
        self.find(hash).is_some()
    }

    /// The object at place `at`.
    pub fn object_at(&self, at: usize) -> (data: &Vec<u8>)
        requires
            at < self@.len(),
        ensures
            data@ == self@[at as int],
    {
        &self.objects[at].data
    }

    /// The hash of the object at place `at`.
    pub fn hash_at(&self, at: usize) -> (hash: ContentHash)
        requires
            self.wf(),
            at < self@.len(),
        ensures
            hash@ == content_hash(self@[at as int]),
    {
        self.objects[at].hash
    }

    /// The content stored under `hash`.
    pub fn get(&self, hash: &ContentHash) -> (r: Result<Vec<u8>, Error>)
        requires
            self.wf(),
        ensures
            match r {
                Ok(data) => holds(self@, hash@) && data@ == lookup(self@, hash@),
                Err(e) => !holds(self@, hash@) && e == Error::ObjectNotFound,
            },
    {
        match self.find(hash) {
            Some(at) => Ok(self.objects[at].data.clone()),
            None => Err(Error::ObjectNotFound),
        }
    }

    /// Stores `data` unless an object with its hash is stored already, and
    /// returns the hash. What was stored before stays as it was.
    pub fn put(&mut self, data: Vec<u8>) -> (hash: ContentHash)
        requires
            old(self).wf(),
        ensures
            final(self).wf(),
            hash@ == content_hash(data@),
            final(self)@ == stored(old(self)@, data@),
    {
        let hash = ContentHash::of(data.as_slice());
        proof {
            lemma_stored_extends(self@, data@);
        }
        if self.find(&hash).is_none() {
            let ghost before = self@;
            self.objects.push(StoredObject { hash, data });
            assert(self@ =~= before.push(data@));
        }
        hash
    }
}

} // verus!
