//! The commit graph: what an object refers to, the order in which objects
//! may refer to each other, and the walk through a commit's history.

use crate::commit::hash_views;
use crate::commit::parse_commit;
use crate::commit::parsed_commit;
use crate::commit::CommitView;
use crate::hash::content_hash;
use crate::hash::ContentHash;
use crate::object::parsed_tree;
use crate::store::distinct;
use crate::store::holds;
use crate::store::lookup;
use crate::store::position;
use crate::store::ObjectStore;
use crate::tree::held_below;
use crate::tree::lemma_held_below;
use vstd::prelude::*;

verus! {

/// The hashes that a stored object refers to: of a tree those of its
/// entries, of a commit its tree and its parents, of anything else none.
pub open spec fn references(bytes: Seq<u8>) -> Seq<Seq<u8>> {
    match parsed_tree(bytes) {
        Some(entries) => Seq::new(entries.len(), |i: int| entries[i].hash),
        None => match parsed_commit(bytes) {
            Some(commit) => seq![commit.tree] + commit.parents,
            None => Seq::empty(),
        },
    }
}

/// Whether every object refers only to objects stored before it.
pub open spec fn ranked(objects: Seq<Seq<u8>>) -> bool {
    forall|at: int, k: int|
        0 <= at < objects.len() && 0 <= k < references(objects[at]).len() ==> held_below(
            objects,
            #[trigger] references(objects[at])[k],
            at,
        )
}

/// The commit stored under `hash`, if what is stored there is a commit.
pub open spec fn commit_at(objects: Seq<Seq<u8>>, hash: Seq<u8>) -> Option<CommitView> {
    if holds(objects, hash) {
        parsed_commit(lookup(objects, hash))
    } else {
        None
    }
}

/// Whether `parent` is a parent of the commit stored under `child`.
pub open spec fn is_parent(objects: Seq<Seq<u8>>, child: Seq<u8>, parent: Seq<u8>) -> bool {
    commit_at(objects, child) is Some && commit_at(objects, child).unwrap().parents.contains(
        parent,
    )
}

/// Whether each hash in `path` but the first is a parent of the commit
/// before it.
pub open spec fn descends(objects: Seq<Seq<u8>>, path: Seq<Seq<u8>>) -> bool {
    forall|k: int|
        0 <= k < path.len() - 1 ==> is_parent(objects, #[trigger] path[k], path[k + 1])
}

/// A parent is stored before its child.
pub proof fn lemma_parent_is_older(objects: Seq<Seq<u8>>, child: Seq<u8>, parent: Seq<u8>)
    requires
        distinct(objects),
        ranked(objects),
        is_parent(objects, child, parent),
    ensures
        holds(objects, parent),
        position(objects, parent) < position(objects, child),
{
    let at = position(objects, child);
    let commit = parsed_commit(objects[at]).unwrap();
    let j = choose|j: int| 0 <= j < commit.parents.len() && commit.parents[j] == parent;
    assert(references(objects[at])[j + 1] == parent);
    assert(held_below(objects, parent, at));
    let q = choose|i: int|
        0 <= i < at && i < objects.len() && #[trigger] content_hash(objects[i]) == parent;
    assert(holds(objects, parent));
    lemma_held_below(objects, parent, at);
}

/// Along a path from child to parent, every step leads to an older object.
pub proof fn lemma_path_descends(objects: Seq<Seq<u8>>, path: Seq<Seq<u8>>)
    requires
        distinct(objects),
        ranked(objects),
        path.len() >= 2,
        descends(objects, path),
    ensures
        holds(objects, path.last()),
        position(objects, path.last()) < position(objects, path.first()),
    decreases path.len(),
{
    let n = path.len() as int;
    assert(is_parent(objects, path[n - 2], path[n - 1]));
    lemma_parent_is_older(objects, path[n - 2], path[n - 1]);
    if path.len() > 2 {
        let shorter = path.drop_last();
        assert forall|k: int| 0 <= k < shorter.len() - 1 implies is_parent(
            objects,
            #[trigger] shorter[k],
            shorter[k + 1],
        ) by {
            assert(is_parent(objects, path[k], path[k + 1]));
        }
        lemma_path_descends(objects, shorter);
    }
}

/// No commit is among its own ancestors: a path of one or more steps from
/// child to parent never ends where it began.
pub proof fn lemma_no_commit_is_its_own_ancestor(objects: Seq<Seq<u8>>, path: Seq<Seq<u8>>)
    requires
        distinct(objects),
        ranked(objects),
        path.len() >= 2,
        descends(objects, path),
    ensures
        path.last() != path.first(),
{
    lemma_path_descends(objects, path);
}

/// How many marks are not set.
pub open spec fn unmarked(marks: Seq<bool>) -> nat
    decreases marks.len(),
{
    if marks.len() == 0 {
        0
    } else {
        unmarked(marks.drop_last()) + if marks.last() {
            0nat
        } else {
            1nat
        }
    }
}

/// Setting a mark that was not set leaves one unset mark fewer.
pub proof fn lemma_mark(marks: Seq<bool>, at: int)
    requires
        0 <= at < marks.len(),
        !marks[at],
    ensures
        unmarked(marks.update(at, true)) + 1 == unmarked(marks),
    decreases marks.len(),
{
    let after = marks.update(at, true);
    if at == marks.len() - 1 {
        assert(after.drop_last() =~= marks.drop_last());
    } else {
        lemma_mark(marks.drop_last(), at);
        assert(after.drop_last() =~= marks.drop_last().update(at, true));
    }
}

/// Whether `hash` names a commit that the walk has not visited.
pub open spec fn fresh(objects: Seq<Seq<u8>>, hash: Seq<u8>, seen: Seq<bool>) -> bool {
    &&& commit_at(objects, hash) is Some
    &&& 0 <= position(objects, hash) < seen.len()
    &&& !seen[position(objects, hash)]
}

/// The commits that a depth-first walk visits, in order, from the hashes
/// waiting on `stack` (the last is next) and the marks of what was visited.
/// A commit is visited once; its parents wait in order, the first next.
pub open spec fn walk(objects: Seq<Seq<u8>>, stack: Seq<Seq<u8>>, seen: Seq<bool>) -> Seq<
    Seq<u8>,
>
    decreases unmarked(seen), stack.len(),
{
    if stack.len() == 0 {
        Seq::empty()
    } else {
        let hash = stack.last();
        let rest = stack.drop_last();
        if fresh(objects, hash, seen) {
            let at = position(objects, hash);
            proof {
                lemma_mark(seen, at);
            }
            seq![hash] + walk(
                objects,
                rest + commit_at(objects, hash).unwrap().parents.reverse(),
                seen.update(at, true),
            )
        } else {
            walk(objects, rest, seen)
        }
    }
}

/// The history of a commit: the commit itself, then its ancestors, depth
/// first, none twice. Empty where `start` names no commit.
pub open spec fn history(objects: Seq<Seq<u8>>, start: Seq<u8>) -> Seq<Seq<u8>> {
    walk(objects, seq![start], Seq::new(objects.len(), |i: int| false))
}

/// Every commit that a walk visits is one it had not seen, and it visits
/// none twice.
pub proof fn lemma_walk_visits_once(objects: Seq<Seq<u8>>, stack: Seq<Seq<u8>>, seen: Seq<bool>)
    requires
        distinct(objects),
    ensures
        forall|i: int|
            0 <= i < walk(objects, stack, seen).len() ==> fresh(
                objects,
                #[trigger] walk(objects, stack, seen)[i],
                seen,
            ),
        forall|i: int, j: int|
            0 <= i < j < walk(objects, stack, seen).len() ==> walk(objects, stack, seen)[i]
                != walk(objects, stack, seen)[j],
    decreases unmarked(seen), stack.len(),
{
    if stack.len() > 0 {
        let hash = stack.last();
        let rest = stack.drop_last();
        if fresh(objects, hash, seen) {
            let at = position(objects, hash);
            lemma_mark(seen, at);
            let next = rest + commit_at(objects, hash).unwrap().parents.reverse();
            let marked = seen.update(at, true);
            lemma_walk_visits_once(objects, next, marked);
            let tail = walk(objects, next, marked);
            let all = walk(objects, stack, seen);
            assert(all =~= seq![hash] + tail);
            assert forall|i: int| 0 <= i < all.len() implies fresh(
                objects,
                #[trigger] all[i],
                seen,
            ) by {
                if i > 0 {
                    assert(all[i] == tail[i - 1]);
                    assert(fresh(objects, tail[i - 1], marked));
                }
            }
            assert forall|i: int, j: int| 0 <= i < j < all.len() implies all[i] != all[j] by {
                assert(all[j] == tail[j - 1]);
                assert(fresh(objects, tail[j - 1], marked));
                if i > 0 {
                    assert(all[i] == tail[i - 1]);
                }
            }
        } else {
            lemma_walk_visits_once(objects, rest, seen);
            assert(walk(objects, stack, seen) == walk(objects, rest, seen));
        }
    } else {
        assert(walk(objects, stack, seen).len() == 0);
    }
}

/// The history of a commit begins with the commit itself and names no
/// commit twice.
pub proof fn lemma_history_shape(objects: Seq<Seq<u8>>, start: Seq<u8>)
    requires
        distinct(objects),
        commit_at(objects, start) is Some,
    ensures
        history(objects, start).len() > 0,
        history(objects, start)[0] == start,
        forall|i: int, j: int|
            0 <= i < j < history(objects, start).len() ==> history(objects, start)[i]
                != history(objects, start)[j],
{
    let seen = Seq::new(objects.len(), |i: int| false);
    let at = position(objects, start);
    assert(fresh(objects, start, seen));
    lemma_walk_visits_once(objects, seq![start], seen);
}

/// No commit appears among its own ancestors: after its first place, the
/// history of a commit never names the commit again.
pub proof fn lemma_commit_not_among_its_ancestors(objects: Seq<Seq<u8>>, start: Seq<u8>, k: int)
    requires
        distinct(objects),
        1 <= k < history(objects, start).len(),
    ensures
        history(objects, start)[0] == start,
        history(objects, start)[k] != start,
{
    let seen = Seq::new(objects.len(), |i: int| false);
    lemma_walk_visits_once(objects, seq![start], seen);
    if !fresh(objects, start, seen) {
        assert(walk(objects, seq![start].drop_last(), seen).len() == 0);
    }
    assert(history(objects, start)[0] == start);
}

/// Whether `to` can be reached from `from` by zero or more steps from a
/// commit to one of its parents.
pub open spec fn reaches(objects: Seq<Seq<u8>>, from: Seq<u8>, to: Seq<u8>) -> bool {
    exists|path: Seq<Seq<u8>>| #[trigger]
        descends(objects, path) && path.len() >= 1 && path.first() == from && path.last() == to
}

/// What can be reached from a parent can be reached from its child.
pub proof fn lemma_reaches_through_parent(
    objects: Seq<Seq<u8>>,
    child: Seq<u8>,
    parent: Seq<u8>,
    to: Seq<u8>,
)
    requires
        is_parent(objects, child, parent),
        reaches(objects, parent, to),
    ensures
        reaches(objects, child, to),
{
    let path = choose|path: Seq<Seq<u8>>| #[trigger]
        descends(objects, path) && path.len() >= 1 && path.first() == parent && path.last()
            == to;
    let longer = seq![child] + path;
    assert forall|k: int| 0 <= k < longer.len() - 1 implies is_parent(
        objects,
        #[trigger] longer[k],
        longer[k + 1],
    ) by {
        if k > 0 {
            assert(longer[k] == path[k - 1] && longer[k + 1] == path[k]);
            assert(is_parent(objects, path[k - 1], path[k]));
        } else {
            assert(longer[1] == path[0]);
        }
    }
    assert(descends(objects, longer) && longer.first() == child && longer.last() == to);
}

/// Every commit that a walk visits can be reached from a hash that was
/// waiting on the stack.
pub proof fn lemma_walk_reaches(
    objects: Seq<Seq<u8>>,
    stack: Seq<Seq<u8>>,
    seen: Seq<bool>,
    i: int,
)
    requires
        0 <= i < walk(objects, stack, seen).len(),
    ensures
        exists|j: int|
            0 <= j < stack.len() && reaches(
                objects,
                #[trigger] stack[j],
                walk(objects, stack, seen)[i],
            ),
    decreases unmarked(seen), stack.len(),
{
    let hash = stack.last();
    let rest = stack.drop_last();
    let to = walk(objects, stack, seen)[i];
    if fresh(objects, hash, seen) {
        let at = position(objects, hash);
        lemma_mark(seen, at);
        let parents = commit_at(objects, hash).unwrap().parents;
        let next = rest + parents.reverse();
        let marked = seen.update(at, true);
        let tail = walk(objects, next, marked);
        assert(walk(objects, stack, seen) =~= seq![hash] + tail);
        if i == 0 {
            let path = seq![hash];
            assert(descends(objects, path) && path.first() == hash && path.last() == to);
            assert(reaches(objects, stack[stack.len() - 1], to));
        } else {
            assert(to == tail[i - 1]);
            lemma_walk_reaches(objects, next, marked, i - 1);
            let j = choose|j: int| 0 <= j < next.len() && reaches(objects, #[trigger] next[j], to);
            if j < rest.len() {
                assert(next[j] == stack[j]);
            } else {
                let parent = next[j];
                assert(parent == parents.reverse()[j - rest.len()]);
                assert(parent == parents[parents.len() - 1 - (j - rest.len())]);
                assert(parents.contains(parent));
                lemma_reaches_through_parent(objects, hash, parent, to);
                assert(reaches(objects, stack[stack.len() - 1], to));
            }
        }
    } else {
        lemma_walk_reaches(objects, rest, seen, i);
        let j = choose|j: int| 0 <= j < rest.len() && reaches(objects, #[trigger] rest[j], to);
        assert(rest[j] == stack[j]);
    }
}

/// Every commit in the history of a commit can be reached from it along
/// the parents.
pub proof fn lemma_history_reaches(objects: Seq<Seq<u8>>, start: Seq<u8>, k: int)
    requires
        0 <= k < history(objects, start).len(),
    ensures
        reaches(objects, start, history(objects, start)[k]),
{
    let seen = Seq::new(objects.len(), |i: int| false);
    lemma_walk_reaches(objects, seq![start], seen, k);
}

/// Whether `path` leads from commit to parent through commits that the
/// walk has not visited.
pub open spec fn unvisited(objects: Seq<Seq<u8>>, seen: Seq<bool>, path: Seq<Seq<u8>>) -> bool {
    &&& descends(objects, path)
    &&& forall|k: int| 0 <= k < path.len() ==> fresh(objects, #[trigger] path[k], seen)
}

/// Where a path does not end at `hash`, some end of it avoids `hash`
/// altogether and begins right after a last `hash`, if the path holds one.
proof fn lemma_after_last(path: Seq<Seq<u8>>, hash: Seq<u8>) -> (from: int)
    requires
        path.len() >= 1,
        path.last() != hash,
    ensures
        0 <= from < path.len(),
        forall|k: int| from <= k < path.len() ==> path[k] != hash,
        from > 0 ==> path[from - 1] == hash,
    decreases path.len(),
{
    if path.len() == 1 {
        0
    } else if path[path.len() - 2] == hash {
        path.len() - 1
    } else {
        let from = lemma_after_last(path.drop_last(), hash);
        assert forall|k: int| from <= k < path.len() implies path[k] != hash by {
            if k < path.len() - 1 {
                assert(path.drop_last()[k] == path[k]);
            }
        }
        if from > 0 {
            assert(path.drop_last()[from - 1] == path[from - 1]);
        }
        from
    }
}

/// A walk visits every commit to which an unvisited path leads from a hash
/// that waits on the stack.
pub proof fn lemma_walk_is_complete(
    objects: Seq<Seq<u8>>,
    stack: Seq<Seq<u8>>,
    seen: Seq<bool>,
    path: Seq<Seq<u8>>,
)
    requires
        distinct(objects),
        path.len() >= 1,
        unvisited(objects, seen, path),
        stack.contains(path.first()),
    ensures
        walk(objects, stack, seen).contains(path.last()),
    decreases unmarked(seen), stack.len(),
{
    let hash = stack.last();
    let rest = stack.drop_last();
    let to = path.last();
    let j = choose|j: int| 0 <= j < stack.len() && stack[j] == path.first();
    assert(fresh(objects, path[0], seen));
    if fresh(objects, hash, seen) {
        let at = position(objects, hash);
        lemma_mark(seen, at);
        let parents = commit_at(objects, hash).unwrap().parents;
        let next = rest + parents.reverse();
        let marked = seen.update(at, true);
        let tail = walk(objects, next, marked);
        let all = walk(objects, stack, seen);
        assert(all =~= seq![hash] + tail);
        if to == hash {
            assert(all[0] == hash);
        } else {
            let from = lemma_after_last(path, hash);
            let end = path.skip(from);
            assert(end.last() == to);
            assert forall|k: int| 0 <= k < end.len() - 1 implies is_parent(
                objects,
                #[trigger] end[k],
                end[k + 1],
            ) by {
                assert(is_parent(objects, path[from + k], path[from + k + 1]));
            }
            assert forall|k: int| 0 <= k < end.len() implies fresh(
                objects,
                #[trigger] end[k],
                marked,
            ) by {
                assert(fresh(objects, path[from + k], seen));
                assert(end[k] != hash);
                let p = position(objects, end[k]);
                assert(content_hash(objects[p]) == end[k]);
                assert(content_hash(objects[at]) == hash);
            }
            assert(next.contains(end.first())) by {
                if from == 0 {
                    assert(stack[j] != hash);
                    assert(next[j] == stack[j]);
                } else {
                    assert(is_parent(objects, path[from - 1], path[from]));
                    let i = choose|i: int| 0 <= i < parents.len() && parents[i] == path[from];
                    assert(parents.reverse()[parents.len() - 1 - i] == parents[i]);
                    assert(next[rest.len() + parents.len() - 1 - i] == path[from]);
                }
            }
            lemma_walk_is_complete(objects, next, marked, end);
            let i = choose|i: int| 0 <= i < tail.len() && tail[i] == to;
            assert(all[i + 1] == to);
        }
    } else {
        assert(stack[j] != hash);
        assert(rest[j] == stack[j]);
        lemma_walk_is_complete(objects, rest, seen, path);
        assert(walk(objects, stack, seen) == walk(objects, rest, seen));
    }
}

/// The history of a commit holds every commit that can be reached from it
/// along the parents.
pub proof fn lemma_history_is_complete(objects: Seq<Seq<u8>>, start: Seq<u8>, to: Seq<u8>)
    requires
        distinct(objects),
        reaches(objects, start, to),
        commit_at(objects, to) is Some,
    ensures
        history(objects, start).contains(to),
{
    let path = choose|path: Seq<Seq<u8>>| #[trigger]
        descends(objects, path) && path.len() >= 1 && path.first() == start && path.last() == to;
    let seen = Seq::new(objects.len(), |i: int| false);
    assert forall|k: int| 0 <= k < path.len() implies fresh(objects, #[trigger] path[k], seen) by {
        if k < path.len() - 1 {
            assert(is_parent(objects, path[k], path[k + 1]));
        }
        let p = position(objects, path[k]);
        assert(0 <= p < objects.len());
    }
    assert(seq![start][0] == path.first());
    lemma_walk_is_complete(objects, seq![start], seen, path);
}

/// Walks the history of `start`: the commit itself, then its ancestors,
/// depth first along the parents, each commit once.
pub fn ancestors(store: &ObjectStore, start: &ContentHash) -> (out: Vec<ContentHash>)
    requires
        store.wf(),
    ensures
        hash_views(out@) == history(store@, start@),
{
    let mut seen: Vec<bool> = Vec::new();
    let count = store.len();
    while seen.len() < count
        invariant
            seen@.len() <= count,
            count == store@.len(),
            forall|i: int| 0 <= i < seen@.len() ==> !seen@[i],
        decreases count - seen@.len(),
    {
        seen.push(false);
    }
    assert(seen@ =~= Seq::new(store@.len(), |i: int| false));
    let mut stack: Vec<ContentHash> = Vec::new();
    stack.push(*start);
    let mut out: Vec<ContentHash> = Vec::new();
    proof {
        assert(hash_views(stack@) =~= seq![start@]);
        assert(hash_views(out@) + history(store@, start@) =~= history(store@, start@));
    }
    while stack.len() > 0
        invariant
            store.wf(),
            seen@.len() == store@.len(),
            history(store@, start@) == hash_views(out@) + walk(
                store@,
                hash_views(stack@),
                seen@,
            ),
        decreases unmarked(seen@), stack@.len(),
    {
        let ghost waiting = hash_views(stack@);
        let ghost marks = seen@;
        let hash = stack.pop().unwrap();
        assert(hash@ == waiting.last());
        assert(hash_views(stack@) =~= waiting.drop_last());
        let visited = match store.find(&hash) {
            Some(at) => if seen[at] {
                None
            } else {
                match parse_commit(store.object_at(at).as_slice()) {
                    Some(commit) => Some((at, commit)),
                    None => None,
                }
            },
            None => None,
        };
        match visited {
            Some((at, commit)) => {
                assert(fresh(store@, hash@, marks));
                proof {
                    lemma_mark(marks, at as int);
                }
                seen.set(at, true);
                let ghost rest = hash_views(stack@);
                let ghost parents = hash_views(commit.parents@);
                let mut k: usize = 0;
                assert(rest + parents.reverse().take(0) =~= rest);
                while k < commit.parents.len()
                    invariant
                        k <= commit.parents.len(),
                        parents == hash_views(commit.parents@),
                        hash_views(stack@) == rest + parents.reverse().take(k as int),
                    decreases commit.parents.len() - k,
                {
                    let parent = commit.parents[commit.parents.len() - 1 - k];
                    assert(parent@ == parents.reverse()[k as int]);
                    proof {
                        let next = hash_views(stack@.push(parent));
                        let want = rest + parents.reverse().take(k + 1);
                        assert(hash_views(stack@).len() == rest.len() + k);
                        assert forall|j: int| 0 <= j < next.len() implies next[j] == want[j] by {
                            if j < rest.len() + k {
                                assert(next[j] == hash_views(stack@)[j]);
                            }
                        }
                        assert(next =~= want);
                    }
                    stack.push(parent);
                    k = k + 1;
                }
                assert(parents.reverse().take(parents.len() as int) =~= parents.reverse());
                proof {
                    let tail = walk(store@, hash_views(stack@), seen@);
                    assert(hash_views(out@.push(hash)) + tail =~= hash_views(out@) + (seq![
                        hash@,
                    ] + tail));
                }
                out.push(hash);
            },
            None => {
                assert(!fresh(store@, hash@, marks));
            },
        }
    }
    assert(hash_views(out@) + Seq::<Seq<u8>>::empty() =~= hash_views(out@));
    out
}

} // verus!
