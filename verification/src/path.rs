//! Repository-relative paths: byte strings whose components are separated
//! by `/`. The empty path names the root.

use crate::bytes::copy_range;
use crate::codec::views;
use crate::object::is_valid_name;
use crate::object::valid_name;
use crate::object::SEPARATOR;
use vstd::prelude::*;

verus! {

/// The place of the first separator in `path`, or its length if it has none.
pub open spec fn first_separator(path: Seq<u8>) -> int
    decreases path.len(),
{
    if path.len() == 0 || path[0] == SEPARATOR {
        0
    } else {
        1 + first_separator(path.skip(1))
    }
}

/// The pieces of `path` between its separators; one piece if it has none.
pub open spec fn split(path: Seq<u8>) -> Seq<Seq<u8>>
    decreases path.len(),
{
    let k = first_separator(path);
    if k < 0 || k >= path.len() {
        seq![path]
    } else {
        seq![path.take(k)] + split(path.skip(k + 1))
    }
}

/// The components of a path. The empty path has none.
pub open spec fn components(path: Seq<u8>) -> Seq<Seq<u8>> {
    if path.len() == 0 {
        Seq::empty()
    } else {
        split(path)
    }
}

/// Whether every name in `names` can be a component of a path.
pub open spec fn valid_names(names: Seq<Seq<u8>>) -> bool {
    forall|i: int| 0 <= i < names.len() ==> valid_name(#[trigger] names[i])
}

/// Whether every component of `path` is a valid name.
pub open spec fn valid_path(path: Seq<u8>) -> bool {
    valid_names(components(path))
}

/// The path `prefix` extended by one component.
pub open spec fn extended(prefix: Seq<u8>, name: Seq<u8>) -> Seq<u8> {
    if prefix.len() == 0 {
        name
    } else {
        prefix + seq![SEPARATOR] + name
    }
}

/// Where the first separator is, given that none comes before `k`.
pub proof fn lemma_first_separator(path: Seq<u8>, k: int)
    requires
        0 <= k <= path.len(),
        forall|j: int| 0 <= j < k ==> path[j] != SEPARATOR,
        k == path.len() || path[k] == SEPARATOR,
    ensures
        first_separator(path) == k,
    decreases k,
{
    if k > 0 {
        lemma_first_separator(path.skip(1), k - 1);
    }
}

/// The first separator lies within the path or at its end.
pub proof fn lemma_first_separator_bounds(path: Seq<u8>)
    ensures
        0 <= first_separator(path) <= path.len(),
        first_separator(path) < path.len() ==> path[first_separator(path)] == SEPARATOR,
        forall|j: int| 0 <= j < first_separator(path) ==> path[j] != SEPARATOR,
    decreases path.len(),
{
    if path.len() > 0 && path[0] != SEPARATOR {
        let rest = path.skip(1);
        lemma_first_separator_bounds(rest);
        assert forall|j: int| 0 <= j < first_separator(path) implies path[j] != SEPARATOR by {
            if j > 0 {
                assert(path[j] == rest[j - 1]);
            }
        }
        if first_separator(path) < path.len() {
            assert(path[first_separator(path)] == rest[first_separator(rest)]);
        }
    }
}

/// A path that is not empty has a component.
pub proof fn lemma_split_nonempty(path: Seq<u8>)
    requires
        path.len() > 0,
    ensures
        components(path).len() > 0,
{
}

/// Splits a path into its components, or reports that one of them is not a
/// valid name.
pub fn split_path(path: &[u8]) -> (r: Option<Vec<Vec<u8>>>)
    ensures
        r is Some <==> valid_path(path@),
        r is Some ==> views(r.unwrap()@) == components(path@),
{
    let mut out: Vec<Vec<u8>> = Vec::new();
    if path.len() == 0 {
        assert(views(out@) =~= components(path@));
        return Some(out);
    }
    let mut start: usize = 0;
    let mut i: usize = 0;
    proof {
        assert(path@.skip(0) =~= path@);
        assert(views(out@) + split(path@) =~= split(path@));
    }
    while i < path.len()
        invariant
            start <= i <= path.len(),
            path@.len() > 0,
            split(path@) == views(out@) + split(path@.skip(start as int)),
            forall|j: int| start <= j < i ==> path@[j] != SEPARATOR,
            valid_names(views(out@)),
        decreases path.len() - i,
    {
        if path[i] == SEPARATOR {
            let piece = copy_range(path, start, i);
            let ghost rest = path@.skip(start as int);
            proof {
                lemma_first_separator(rest, i - start);
                assert(rest.take(i - start) =~= piece@);
                assert(rest.skip(i - start + 1) =~= path@.skip(i + 1));
                assert(split(path@) =~= views(out@.push(piece)) + split(path@.skip(i + 1))) by {
                    assert(views(out@.push(piece)) =~= views(out@) + seq![piece@]);
                }
            }
            if !is_valid_name(piece.as_slice()) {
                proof {
                    let at = out@.len() as int;
                    assert(components(path@)[at] == piece@);
                }
                return None;
            }
            proof {
                let next = views(out@.push(piece));
                assert forall|j: int| 0 <= j < next.len() implies valid_name(
                    #[trigger] next[j],
                ) by {
                    if j < out@.len() {
                        assert(next[j] == views(out@)[j]);
                    }
                }
            }
            out.push(piece);
            start = i + 1;
        }
        i = i + 1;
    }
    let piece = copy_range(path, start, path.len());
    let ghost rest = path@.skip(start as int);
    proof {
        lemma_first_separator(rest, rest.len() as int);
        assert(piece@ =~= rest);
        assert(split(rest) =~= seq![rest]);
        assert(views(out@.push(piece)) =~= views(out@) + seq![piece@]);
    }
    if !is_valid_name(piece.as_slice()) {
        proof {
            let at = out@.len() as int;
            assert(components(path@)[at] == piece@);
        }
        return None;
    }
    proof {
        let next = views(out@.push(piece));
        assert forall|j: int| 0 <= j < next.len() implies valid_name(#[trigger] next[j]) by {
            if j < out@.len() {
                assert(next[j] == views(out@)[j]);
            }
        }
    }
    out.push(piece);
    Some(out)
}

/// The path `prefix` extended by the component `name`.
pub fn extend_path(prefix: &[u8], name: &[u8]) -> (out: Vec<u8>)
    ensures
        out@ == extended(prefix@, name@),
{
    let mut out: Vec<u8> = Vec::new();
    if prefix.len() > 0 {
        crate::bytes::append_bytes(&mut out, prefix);
        out.push(SEPARATOR);
    }
    crate::bytes::append_bytes(&mut out, name);
    assert(out@ =~= extended(prefix@, name@));
    out
}

} // verus!
