use alchemy::integrity::{compute_integrity, compute_integrity_sha256, verify_integrity};
use alchemy::store::{hex_encode, sha256_hex, ContentStore};

#[test]
fn test_sha256_verify_correct() {
    let data = b"hello world";
    let sri = compute_integrity_sha256(data);
    assert!(verify_integrity(data, &sri));
}

#[test]
fn test_sha256_verify_wrong_data() {
    let data = b"hello world";
    let sri = compute_integrity_sha256(data);
    assert!(!verify_integrity(b"different data", &sri));
}

#[test]
fn test_sha512_verify_correct() {
    let data = b"hello world";
    let sri = compute_integrity(data);
    assert!(verify_integrity(data, &sri));
}

#[test]
fn test_sha512_verify_wrong_data() {
    let data = b"hello world";
    let sri = compute_integrity(data);
    assert!(!verify_integrity(b"different data", &sri));
}

#[test]
fn test_unknown_hash_type_returns_false() {
    // Unknown hash type must fail closed (security: don't silently skip)
    assert!(!verify_integrity(b"data", "md5-somehash"));
    assert!(!verify_integrity(b"data", "sha1-somehash"));
    assert!(!verify_integrity(b"data", "invalid"));
}

#[test]
fn integrity_of_empty_input_is_the_known_digest() {
    assert_eq!(
        compute_integrity(b""),
        "sha512-z4PhNX7vuL3xVChQ1m2AB9Yg5AULVxXcg/SpIdNs6c5H0NE8XYXysP+DGNKHfuwvY7kxvUdBeoGlODJ6+SfaPg=="
    );
    assert_eq!(
        compute_integrity_sha256(b""),
        "sha256-47DEQpj8HBSa+/TImW+5JCeuQeRkm5NMpJWZG3hSuFU="
    );
}

#[test]
fn integrity_string_is_checked_exactly() {
    let sri = compute_integrity_sha256(b"abc");
    let mut broken = sri.clone();
    broken.pop();
    assert!(!verify_integrity(b"abc", &broken));
    let mut longer = sri.clone();
    longer.push('A');
    assert!(!verify_integrity(b"abc", &longer));
}

#[test]
fn sha256_hex_of_known_inputs() {
    assert_eq!(
        sha256_hex(b""),
        "e3b0c44298fc1c149afbf4c8996fb92427ae41e4649b934ca495991b7852b855"
    );
    assert_eq!(
        sha256_hex(b"hello world"),
        "b94d27b9934d3e08a52e52d7da7dabfac484efe37a5380ee9088f7ace2efcde9"
    );
}

#[test]
fn hex_encode_uses_two_lowercase_digits_per_byte() {
    assert_eq!(hex_encode(&[0x00, 0x0f, 0xa0, 0xff]), "000fa0ff");
    assert_eq!(hex_encode(&[]), "");
}

#[test]
fn content_store_paths() {
    let store = ContentStore::with_base("/data/store".to_string());
    assert_eq!(store.base_dir(), "/data/store");
    assert_eq!(
        store.package_dir("@types/node", "20.1.0"),
        "/data/store/packages/@types/node/20.1.0"
    );
    let home = ContentStore::new(Some("/home/me"));
    assert_eq!(home.base_dir(), "/home/me/.alchemy-store");
    let none = ContentStore::new(None);
    assert_eq!(none.base_dir(), "/tmp/.alchemy-store");
}
