//! Content hashes: the identity of stored content.

use sha2::Digest;
use vstd::prelude::*;

verus! {

/// Width of a content hash in bytes.
pub const HASH_LEN: usize = 32;

/// The SHA-256 digest of a byte sequence.
pub uninterp spec fn sha256_digest(data: Seq<u8>) -> Seq<u8>;

/// Calls `sha2::Sha256::digest` and copies its output into an array. The
/// contract names the result as the SHA-256 digest of `data`; the output of
/// SHA-256 is 32 bytes wide, which the array type records.
#[verifier::external_body]
fn sha256(data: &[u8]) -> (out: [u8; 32])
    ensures
        out@ == sha256_digest(data@),
{
    sha2::Sha256::digest(data).into()
}

/// The content hash of a byte sequence: its SHA-256 digest, always 32 bytes.
pub open spec fn content_hash(data: Seq<u8>) -> Seq<u8> {
    let d = sha256_digest(data);
    if d.len() == 32 {
        d
    } else {
        Seq::new(32, |i: int| 0u8)
    }
}

/// The lower-case hexadecimal digit for a value below 16.
pub open spec fn hex_digit(v: int) -> u8 {
    if v < 10 {
        (48 + v) as u8
    } else {
        (87 + v) as u8
    }
}

/// The hexadecimal form of a byte string: two digits per byte, high first.
pub open spec fn hex_of(bytes: Seq<u8>) -> Seq<u8> {
    Seq::new(
        2 * bytes.len(),
        |i: int|
            if i % 2 == 0 {
                hex_digit(bytes[i / 2] as int / 16)
            } else {
                hex_digit(bytes[i / 2] as int % 16)
            },
    )
}

/// The value of a hexadecimal digit, lower or upper case.
pub open spec fn hex_value(c: u8) -> Option<int> {
    if 48 <= c <= 57 {
        Some(c - 48)
    } else if 97 <= c <= 102 {
        Some(c - 87)
    } else {
        None
    }
}

/// Identity of content: a 256-bit digest.
#[derive(Clone, Copy, Debug, PartialEq, Eq, Hash)]
pub struct ContentHash {
    pub bytes: [u8; 32],
}

impl View for ContentHash {
    type V = Seq<u8>;

    open spec fn view(&self) -> Seq<u8> {
        self.bytes@
    }
}

fn hex_char(v: u8) -> (c: u8)
    requires
        v < 16,
    ensures
        c == hex_digit(v as int),
{
    if v < 10 {
        48 + v
    } else {
        87 + v
    }
}

impl ContentHash {
    /// Hashes `data`. Equal inputs always give equal hashes.
    pub fn of(data: &[u8]) -> (h: ContentHash)
        ensures
            h@ == content_hash(data@),
    {
        ContentHash { bytes: sha256(data) }
    }

    /// Reads a hash from exactly 32 bytes.
    pub fn from_slice(bytes: &[u8]) -> (r: Option<ContentHash>)
        ensures
            r is Some <==> bytes@.len() == HASH_LEN,
            r is Some ==> r.unwrap()@ == bytes@,
    {
        if bytes.len() != 32 {
            return None;
        }
        let mut out: [u8; 32] = [0u8; 32];
        let mut i: usize = 0;
        while i < 32
            invariant
                i <= 32,
                bytes@.len() == 32,
                forall|j: int| 0 <= j < i ==> out@[j] == bytes@[j],
            decreases 32 - i,
        {
            out[i] = bytes[i];
            i = i + 1;
        }
        assert(out@ =~= bytes@);
        Some(ContentHash { bytes: out })
    }

    /// The 32 bytes of the hash.
    pub fn to_vec(&self) -> (out: Vec<u8>)
        ensures
            out@ == self@,
    {
        let mut out: Vec<u8> = Vec::new();
        let mut i: usize = 0;
        while i < 32
            invariant
                i <= 32,
                out@ == self@.take(i as int),
            decreases 32 - i,
        {
            out.push(self.bytes[i]);
            assert(self@.take(i + 1) =~= self@.take(i as int).push(self@[i as int]));
            i = i + 1;
        }
        assert(self@.take(32) =~= self@);
        out
    }

    /// Whether two hashes are the same.
    pub fn same(&self, other: &ContentHash) -> (yes: bool)
        ensures
            yes == (self@ == other@),
    {
        let mut i: usize = 0;
        while i < 32
            invariant
                i <= 32,
                forall|j: int| 0 <= j < i ==> self@[j] == other@[j],
            decreases 32 - i,
        {
            if self.bytes[i] != other.bytes[i] {
                return false;
            }
            i = i + 1;
        }
        assert(self@ =~= other@);
        true
    }

    /// The hash in 64 lower-case hexadecimal digits.
    pub fn to_hex(&self) -> (out: Vec<u8>)
        ensures
            out@ == hex_of(self@),
    {
        let mut out: Vec<u8> = Vec::new();
        let mut i: usize = 0;
        while i < 32
            invariant
                i <= 32,
                out@ == hex_of(self@).take(2 * i),
            decreases 32 - i,
        {
            let b = self.bytes[i];
            out.push(hex_char(b / 16));
            out.push(hex_char(b % 16));
            assert(hex_of(self@).take(2 * (i + 1)) =~= hex_of(self@).take(2 * i).push(
                hex_digit(b as int / 16),
            ).push(hex_digit(b as int % 16)));
            i = i + 1;
        }
        assert(hex_of(self@).take(64) =~= hex_of(self@));
        out
    }
}

/// The byte string whose hexadecimal form is `hex`, if it is one: an even
/// number of lower-case hexadecimal digits.
pub open spec fn unhex(hex: Seq<u8>) -> Option<Seq<u8>> {
    if hex.len() % 2 == 0 && forall|i: int| 0 <= i < hex.len() ==> hex_value(#[trigger] hex[i])
        is Some {
        Some(
            Seq::new(
                hex.len() / 2,
                |k: int|
                    (16 * hex_value(hex[2 * k]).unwrap() + hex_value(hex[2 * k + 1]).unwrap()) as u8,
            ),
        )
    } else {
        None
    }
}

/// Reading the hexadecimal form of a byte string gives the string back.
pub proof fn lemma_unhex_hex(bytes: Seq<u8>)
    ensures
        unhex(hex_of(bytes)) == Some(bytes),
{
    let hex = hex_of(bytes);
    assert forall|i: int| 0 <= i < hex.len() implies hex_value(#[trigger] hex[i]) is Some by {
        let b = bytes[i / 2] as int;
        assert(0 <= b / 16 < 16 && 0 <= b % 16 < 16);
    }
    assert(unhex(hex).unwrap() =~= bytes) by {
        assert forall|k: int| 0 <= k < bytes.len() implies unhex(hex).unwrap()[k] == bytes[k] by {
            let b = bytes[k] as int;
            assert((2 * k) / 2 == k && (2 * k + 1) / 2 == k);
            assert((2 * k) % 2 == 0 && (2 * k + 1) % 2 == 1);
            assert(hex[2 * k] == hex_digit(b / 16));
            assert(hex[2 * k + 1] == hex_digit(b % 16));
            assert(0 <= b / 16 < 16 && 0 <= b % 16 < 16);
            assert(16 * (b / 16) + b % 16 == b);
        }
    }
}

/// A byte string has one hexadecimal form only: what reads as `bytes` is
/// the hexadecimal form of `bytes`.
pub proof fn lemma_hex_unhex(hex: Seq<u8>)
    requires
        unhex(hex) is Some,
    ensures
        hex_of(unhex(hex).unwrap()) == hex,
{
    let bytes = unhex(hex).unwrap();
    assert(hex_of(bytes) =~= hex) by {
        assert forall|i: int| 0 <= i < hex.len() implies hex_of(bytes)[i] == hex[i] by {
            let k = i / 2;
            assert(hex_value(hex[2 * k]) is Some && hex_value(hex[2 * k + 1]) is Some);
            let hi = hex_value(hex[2 * k]).unwrap();
            let lo = hex_value(hex[2 * k + 1]).unwrap();
            assert(0 <= hi < 16 && 0 <= lo < 16);
            assert(bytes[k] == 16 * hi + lo);
            assert((16 * hi + lo) / 16 == hi && (16 * hi + lo) % 16 == lo);
            assert(i == 2 * k || i == 2 * k + 1);
        }
    }
}

fn hex_digit_value(c: u8) -> (v: Option<u8>)
    ensures
        v is Some <==> hex_value(c) is Some,
        v is Some ==> v.unwrap() == hex_value(c).unwrap() && v.unwrap() < 16,
{
    if 48 <= c && c <= 57 {
        Some(c - 48)
    } else if 97 <= c && c <= 102 {
        Some(c - 87)
    } else {
        None
    }
}

impl ContentHash {
    /// Reads a hash from its 64 lower-case hexadecimal digits.
    pub fn from_hex(hex: &[u8]) -> (r: Option<ContentHash>)
        ensures
            r is Some <==> hex@.len() == 64 && unhex(hex@) is Some,
            r is Some ==> r.unwrap()@ == unhex(hex@).unwrap(),
    {
        if hex.len() != 64 {
            return None;
        }
        let mut out: [u8; 32] = [0u8; 32];
        let mut k: usize = 0;
        while k < 32
            invariant
                k <= 32,
                hex@.len() == 64,
                forall|i: int| 0 <= i < 2 * k ==> hex_value(#[trigger] hex@[i]) is Some,
                forall|j: int|
                    0 <= j < k ==> out@[j] == (16 * hex_value(hex@[2 * j]).unwrap() + hex_value(
                        hex@[2 * j + 1],
                    ).unwrap()) as u8,
            decreases 32 - k,
        {
            let hi = match hex_digit_value(hex[2 * k]) {
                Some(v) => v,
                None => {
                    return None;
                },
            };
            let lo = match hex_digit_value(hex[2 * k + 1]) {
                Some(v) => v,
                None => {
                    return None;
                },
            };
            out[k] = 16 * hi + lo;
            k = k + 1;
        }
        assert(out@ =~= unhex(hex@).unwrap());
        Some(ContentHash { bytes: out })
    }

    /// Whether `prefix` is a beginning of the hexadecimal form of the hash.
    pub fn has_hex_prefix(&self, prefix: &[u8]) -> (yes: bool)
        ensures
            yes == prefix@.is_prefix_of(hex_of(self@)),
    {
        let hex = self.to_hex();
        crate::bytes::starts_with(hex.as_slice(), prefix)
    }
}

} // verus!
