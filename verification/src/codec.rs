//! Framing of byte-string fields.
//!
//! Every persisted record is a list of byte-string fields. A field is
//! written as its length, eight bytes little-endian, followed by its bytes;
//! a list is the concatenation of its fields. The empty list is the empty
//! byte string.

use crate::bytes::append_bytes;
use crate::bytes::copy_range;
use vstd::bytes::lemma_auto_spec_u64_to_from_le_bytes;
use vstd::bytes::spec_u64_from_le_bytes;
use vstd::bytes::spec_u64_to_le_bytes;
use vstd::bytes::u64_from_le_bytes;
use vstd::bytes::u64_to_le_bytes;
use vstd::prelude::*;
use vstd::slice::slice_subrange;

verus! {

/// The views of a sequence of byte vectors.
pub open spec fn views(v: Seq<Vec<u8>>) -> Seq<Seq<u8>> {
    Seq::new(v.len(), |i: int| v[i]@)
}

/// Whether every field is short enough for its length to be framed.
pub open spec fn fields_fit(fields: Seq<Seq<u8>>) -> bool {
    forall|i: int| 0 <= i < fields.len() ==> (#[trigger] fields[i]).len() <= u64::MAX
}

/// One framed field.
pub open spec fn framed(field: Seq<u8>) -> Seq<u8> {
    spec_u64_to_le_bytes(field.len() as u64) + field
}

/// The encoding of a list of fields.
pub open spec fn encoded(fields: Seq<Seq<u8>>) -> Seq<u8>
    decreases fields.len(),
{
    if fields.len() == 0 {
        Seq::empty()
    } else {
        framed(fields[0]) + encoded(fields.skip(1))
    }
}

/// The list of fields that a byte string encodes, if it encodes one.
pub open spec fn decoded(bytes: Seq<u8>) -> Option<Seq<Seq<u8>>>
    decreases bytes.len(),
{
    if bytes.len() == 0 {
        Some(Seq::empty())
    } else if bytes.len() < 8 {
        None
    } else {
        let n = spec_u64_from_le_bytes(bytes.subrange(0, 8)) as int;
        if n > bytes.len() - 8 {
            None
        } else {
            match decoded(bytes.skip(8 + n)) {
                None => None,
                Some(rest) => Some(seq![bytes.subrange(8, 8 + n)] + rest),
            }
        }
    }
}

/// Decoding undoes encoding.
pub proof fn lemma_decode_encoded(fields: Seq<Seq<u8>>)
    requires
        fields_fit(fields),
    ensures
        decoded(encoded(fields)) == Some(fields),
    decreases fields.len(),
{
    if fields.len() > 0 {
        lemma_auto_spec_u64_to_from_le_bytes();
        let head = fields[0];
        let rest = fields.skip(1);
        let bytes = encoded(fields);
        let n = head.len() as int;
        assert(fields_fit(rest)) by {
            assert forall|i: int| 0 <= i < rest.len() implies (#[trigger] rest[i]).len()
                <= u64::MAX by {
                assert(rest[i] == fields[i + 1]);
            }
        }
        lemma_decode_encoded(rest);
        assert(bytes.subrange(0, 8) =~= spec_u64_to_le_bytes(n as u64));
        assert(bytes.subrange(8, 8 + n) =~= head);
        assert(bytes.skip(8 + n) =~= encoded(rest));
        assert(seq![head] + rest =~= fields);
    }
}

/// Encoding undoes decoding: a byte string has at most one reading.
pub proof fn lemma_encode_decoded(bytes: Seq<u8>)
    requires
        decoded(bytes) is Some,
    ensures
        encoded(decoded(bytes).unwrap()) == bytes,
        fields_fit(decoded(bytes).unwrap()),
    decreases bytes.len(),
{
    if bytes.len() > 0 {
        lemma_auto_spec_u64_to_from_le_bytes();
        let n = spec_u64_from_le_bytes(bytes.subrange(0, 8)) as int;
        let tail = bytes.skip(8 + n);
        lemma_encode_decoded(tail);
        let rest = decoded(tail).unwrap();
        let head = bytes.subrange(8, 8 + n);
        let fields = seq![head] + rest;
        assert(fields.skip(1) =~= rest);
        assert(fields[0] == head);
        assert(spec_u64_to_le_bytes(n as u64) == bytes.subrange(0, 8));
        assert(framed(head) + encoded(rest) =~= bytes);
        assert forall|i: int| 0 <= i < fields.len() implies (#[trigger] fields[i]).len()
            <= u64::MAX by {
            if i > 0 {
                assert(fields[i] == rest[i - 1]);
            }
        }
    } else {
        assert(encoded(Seq::<Seq<u8>>::empty()) =~= bytes);
    }
}

/// The encoding of a concatenation is the concatenation of the encodings.
pub proof fn lemma_encoded_concat(a: Seq<Seq<u8>>, b: Seq<Seq<u8>>)
    ensures
        encoded(a + b) == encoded(a) + encoded(b),
    decreases a.len(),
{
    if a.len() == 0 {
        assert(a + b =~= b);
        assert(encoded(a) + encoded(b) =~= encoded(b));
    } else {
        lemma_encoded_concat(a.skip(1), b);
        assert((a + b).skip(1) =~= a.skip(1) + b);
        assert((a + b)[0] == a[0]);
        assert(encoded(a + b) =~= encoded(a) + encoded(b));
    }
}

/// The encoding of a single field is that field, framed.
pub proof fn lemma_encoded_one(field: Seq<u8>)
    ensures
        encoded(seq![field]) == framed(field),
{
    let one = seq![field];
    assert(one.skip(1) =~= Seq::<Seq<u8>>::empty());
    assert(encoded(one.skip(1)) =~= Seq::<u8>::empty());
    assert(encoded(one) =~= framed(field));
}

/// Two lists of fields with the same encoding are the same list.
pub proof fn lemma_encoded_injective(a: Seq<Seq<u8>>, b: Seq<Seq<u8>>)
    requires
        fields_fit(a),
        fields_fit(b),
        encoded(a) == encoded(b),
    ensures
        a == b,
{
    lemma_decode_encoded(a);
    lemma_decode_encoded(b);
}

/// Encodes a list of fields.
pub fn encode(fields: &Vec<Vec<u8>>) -> (out: Vec<u8>)
    ensures
        out@ == encoded(views(fields@)),
{
    let mut out: Vec<u8> = Vec::new();
    let mut i: usize = 0;
    assert(views(fields@).take(0) =~= Seq::<Seq<u8>>::empty());
    while i < fields.len()
        invariant
            i <= fields.len(),
            out@ == encoded(views(fields@).take(i as int)),
        decreases fields.len() - i,
    {
        let field = &fields[i];
        let len = u64_to_le_bytes(field.len() as u64);
        proof {
            let done = views(fields@).take(i as int);
            let one = seq![field@];
            lemma_encoded_concat(done, one);
            lemma_encoded_one(field@);
            assert(views(fields@).take(i + 1) =~= done + one);
        }
        append_bytes(&mut out, len.as_slice());
        append_bytes(&mut out, field.as_slice());
        assert(out@ =~= encoded(views(fields@).take(i as int)) + framed(field@));
        i = i + 1;
    }
    assert(views(fields@).take(fields@.len() as int) =~= views(fields@));
    out
}

/// What `decoded` gives for `bytes`, in terms of the fields already read
/// and the reading of what is left.
spec fn resumed(done: Seq<Seq<u8>>, left: Seq<u8>) -> Option<Seq<Seq<u8>>> {
    match decoded(left) {
        None => None,
        Some(rest) => Some(done + rest),
    }
}

/// Decodes a list of fields, or reports that `bytes` encodes none.
pub fn decode(bytes: &[u8]) -> (r: Option<Vec<Vec<u8>>>)
    ensures
        r is Some <==> decoded(bytes@) is Some,
        r is Some ==> views(r.unwrap()@) == decoded(bytes@).unwrap(),
{
    let mut out: Vec<Vec<u8>> = Vec::new();
    let mut pos: usize = 0;
    proof {
        assert(bytes@.skip(0) =~= bytes@);
        assert(views(out@) =~= Seq::<Seq<u8>>::empty());
        match decoded(bytes@) {
            None => {},
            Some(rest) => {
                assert(Seq::<Seq<u8>>::empty() + rest =~= rest);
            },
        }
    }
    while pos < bytes.len()
        invariant
            pos <= bytes.len(),
            decoded(bytes@) == resumed(views(out@), bytes@.skip(pos as int)),
        decreases bytes.len() - pos,
    {
        let ghost left = bytes@.skip(pos as int);
        if bytes.len() - pos < 8 {
            return None;
        }
        let n = u64_from_le_bytes(slice_subrange(bytes, pos, pos + 8));
        assert(bytes@.subrange(pos as int, pos + 8) =~= left.subrange(0, 8));
        if n > (bytes.len() - pos - 8) as u64 {
            return None;
        }
        let len = n as usize;
        let field = copy_range(bytes, pos + 8, pos + 8 + len);
        proof {
            assert(field@ =~= left.subrange(8, 8 + n));
            assert(left.skip(8 + n) =~= bytes@.skip(pos + 8 + len));
            let next = views(out@.push(field));
            assert(next =~= views(out@) + seq![field@]);
            match decoded(left.skip(8 + n)) {
                None => {},
                Some(rest) => {
                    assert(views(out@) + (seq![field@] + rest) =~= next + rest);
                },
            }
        }
        out.push(field);
        pos = pos + 8 + len;
    }
    proof {
        assert(bytes@.skip(pos as int) =~= Seq::<u8>::empty());
        assert(views(out@) + Seq::<Seq<u8>>::empty() =~= views(out@));
    }
    Some(out)
}

} // verus!
