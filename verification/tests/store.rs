use vds::bytes::{bytes_eq, bytes_lt, starts_with};
use vds::codec::{decode, encode};
use vds::error::Error;
use vds::hash::ContentHash;
use vds::store::ObjectStore;

fn hex(hash: &ContentHash) -> String {
    String::from_utf8(hash.to_hex()).unwrap()
}

#[test]
fn hash_of_empty_input_is_the_known_digest() {
    let hash = ContentHash::of(b"");
    assert_eq!(
        hex(&hash),
        "e3b0c44298fc1c149afbf4c8996fb92427ae41e4649b934ca495991b7852b855"
    );
}

#[test]
fn hash_of_abc_is_the_known_digest() {
    let hash = ContentHash::of(b"abc");
    assert_eq!(
        hex(&hash),
        "ba7816bf8f01cfea414140de5dae2223b00361a396177a9cb410ff61f20015ad"
    );
}

#[test]
fn hashing_twice_gives_the_same_hash() {
    let data = b"the same bytes".to_vec();
    let first = ContentHash::of(&data);
    let second = ContentHash::of(&data);
    assert_eq!(first, second);
    assert!(first.same(&second));
}

#[test]
fn different_content_gives_different_hashes() {
    let first = ContentHash::of(b"one");
    let second = ContentHash::of(b"two");
    assert_ne!(first, second);
    assert!(!first.same(&second));
}

#[test]
fn hex_form_reads_back() {
    let hash = ContentHash::of(b"round trip");
    let text = hash.to_hex();
    assert_eq!(text.len(), 64);
    assert_eq!(ContentHash::from_hex(&text), Some(hash));
}

#[test]
fn hex_form_rejects_wrong_length_and_digits() {
    assert_eq!(ContentHash::from_hex(b"abcd"), None);
    let mut text = ContentHash::of(b"x").to_hex();
    text[10] = b'g';
    assert_eq!(ContentHash::from_hex(&text), None);
    let mut upper = ContentHash::of(b"x").to_hex();
    upper[0] = b'A';
    assert_eq!(ContentHash::from_hex(&upper), None);
}

#[test]
fn hash_from_slice_needs_exactly_32_bytes() {
    assert_eq!(ContentHash::from_slice(&[0u8; 31]), None);
    assert_eq!(ContentHash::from_slice(&[0u8; 33]), None);
    let bytes = [7u8; 32];
    let hash = ContentHash::from_slice(&bytes).unwrap();
    assert_eq!(hash.bytes, bytes);
    assert_eq!(hash.to_vec(), bytes.to_vec());
}

#[test]
fn hex_prefix_is_matched_from_the_start() {
    let hash = ContentHash::of(b"abc");
    assert!(hash.has_hex_prefix(b"ba7816"));
    assert!(hash.has_hex_prefix(b""));
    assert!(!hash.has_hex_prefix(b"a7816"));
    assert!(!hash.has_hex_prefix(b"BA7816"));
}

#[test]
fn put_then_get_returns_the_content() {
    let mut store = ObjectStore::new();
    let hash = store.put(b"hello".to_vec());
    assert_eq!(hash, ContentHash::of(b"hello"));
    assert!(store.contains(&hash));
    assert_eq!(store.get(&hash), Ok(b"hello".to_vec()));
}

#[test]
fn get_of_absent_hash_is_object_not_found() {
    let store = ObjectStore::new();
    let hash = ContentHash::of(b"never stored");
    assert!(!store.contains(&hash));
    assert_eq!(store.get(&hash), Err(Error::ObjectNotFound));
}

#[test]
fn storing_twice_leaves_the_count_unchanged() {
    let mut store = ObjectStore::new();
    assert_eq!(store.len(), 0);
    let first = store.put(b"same".to_vec());
    assert_eq!(store.len(), 1);
    let second = store.put(b"same".to_vec());
    assert_eq!(store.len(), 1);
    assert_eq!(first, second);
    store.put(b"other".to_vec());
    assert_eq!(store.len(), 2);
}

#[test]
fn stored_content_is_never_altered() {
    let mut store = ObjectStore::new();
    let first = store.put(b"first".to_vec());
    for i in 0..20u8 {
        store.put(vec![i; 3]);
        store.put(b"first".to_vec());
    }
    assert_eq!(store.get(&first), Ok(b"first".to_vec()));
    assert_eq!(store.find(&first), Some(0));
    assert_eq!(store.object_at(0), &b"first".to_vec());
    assert_eq!(store.len(), 21);
}

#[test]
fn objects_keep_their_order() {
    let mut store = ObjectStore::new();
    let a = store.put(b"a".to_vec());
    let b = store.put(b"b".to_vec());
    assert_eq!(store.find(&a), Some(0));
    assert_eq!(store.find(&b), Some(1));
    assert_eq!(store.hash_at(1), b);
}

#[test]
fn fields_are_framed_with_their_lengths() {
    let fields = vec![b"ab".to_vec(), Vec::new(), b"c".to_vec()];
    let bytes = encode(&fields);
    assert_eq!(
        bytes,
        vec![
            2, 0, 0, 0, 0, 0, 0, 0, b'a', b'b', 0, 0, 0, 0, 0, 0, 0, 0, 1, 0, 0, 0, 0, 0, 0, 0, b'c'
        ]
    );
    assert_eq!(decode(&bytes), Some(fields));
}

#[test]
fn empty_field_list_is_the_empty_byte_string() {
    let fields: Vec<Vec<u8>> = Vec::new();
    assert_eq!(encode(&fields), Vec::<u8>::new());
    assert_eq!(decode(b""), Some(Vec::new()));
}

#[test]
fn truncated_framing_is_rejected() {
    assert_eq!(decode(&[1, 0, 0]), None);
    assert_eq!(decode(&[2, 0, 0, 0, 0, 0, 0, 0, b'a']), None);
    assert_eq!(decode(&[255, 255, 255, 255, 255, 255, 255, 255, b'a']), None);
}

#[test]
fn byte_strings_compare_lexicographically() {
    assert!(bytes_lt(b"a", b"b"));
    assert!(bytes_lt(b"a", b"ab"));
    assert!(bytes_lt(b"", b"a"));
    assert!(!bytes_lt(b"a", b"a"));
    assert!(!bytes_lt(b"b", b"a"));
    assert!(bytes_lt(b"a.txt", b"a/b"));
    assert!(bytes_eq(b"same", b"same"));
    assert!(!bytes_eq(b"same", b"sama"));
    assert!(!bytes_eq(b"same", b"sam"));
    assert!(starts_with(b"prefix and more", b"prefix"));
    assert!(!starts_with(b"pre", b"prefix"));
}
