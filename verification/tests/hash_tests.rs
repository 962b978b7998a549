use sumpig::hash::{ContentHasher, hash_to_hex};

#[test]
fn hash_to_hex_format() {
    let hash = *blake3::hash(b"test").as_bytes();
    let hex = hash_to_hex(&hash);
    assert_eq!(hex.len(), 32, "should be 32 hex chars (128 bits)");
    assert!(hex.chars().all(|c| c.is_ascii_hexdigit()));
    assert!(hex.chars().all(|c| !c.is_ascii_uppercase()));
}

#[test]
fn hash_to_hex_known_value() {
    // blake3("") has a known hash; verify our truncation matches.
    let hash = *blake3::hash(b"").as_bytes();
    let hex = hash_to_hex(&hash);
    let full_hex = blake3::hash(b"").to_hex();
    assert_eq!(hex, &full_hex.as_str()[..32]);
}

// Further cases.

#[test]
fn hash_to_hex_exact_digits() {
    let mut hash = [0u8; 32];
    hash[0] = 0x0f;
    hash[1] = 0xa0;
    hash[15] = 0xff;
    hash[16] = 0x12;
    assert_eq!(hash_to_hex(&hash), "0fa000000000000000000000000000ff");
}

#[test]
fn content_hasher_hashes_the_concatenation() {
    let mut h = ContentHasher::new();
    h.update(b"hello ");
    h.update_parallel(b"wor");
    h.update(b"ld");
    assert_eq!(h.finalize(), *blake3::hash(b"hello world").as_bytes());
    let empty = ContentHasher::new();
    assert_eq!(empty.finalize(), *blake3::hash(b"").as_bytes());
}
