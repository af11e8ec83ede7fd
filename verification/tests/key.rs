use leaky_bucket::key::generate_bucket_key;

#[test]
fn key_is_the_prefix_and_the_hex_digest_of_the_identity() {
    assert_eq!(
        generate_bucket_key("127.0.0.1"),
        "bucket:12ca17b49af2289436f303e0166030a21e525d266e209267433801a8fd4071a0"
    );
    assert_eq!(
        generate_bucket_key("alice"),
        "bucket:2bd806c97f0e00af1a1fc3328fa763a9269723c8db8fac4f93af71db186d6e90"
    );
}

#[test]
fn empty_identity_has_a_key_too() {
    assert_eq!(
        generate_bucket_key(""),
        "bucket:e3b0c44298fc1c149afbf4c8996fb92427ae41e4649b934ca495991b7852b855"
    );
}

#[test]
fn identity_is_hashed_as_utf8() {
    assert_eq!(
        generate_bucket_key("h\u{e9}llo"),
        "bucket:3c48591d8d098a4538f5e013dfcf406e948eac4d3277b10bf614e295d6068179"
    );
}

#[test]
fn same_identity_same_key() {
    assert_eq!(generate_bucket_key("client-42"), generate_bucket_key("client-42"));
}

#[test]
fn different_identities_get_different_keys() {
    assert_ne!(generate_bucket_key("client-42"), generate_bucket_key("client-43"));
    assert_ne!(generate_bucket_key("a"), generate_bucket_key("A"));
}

#[test]
fn key_does_not_hold_the_identity() {
    let key = generate_bucket_key("127.0.0.1");
    assert!(!key.contains("127.0.0.1"));
    assert!(key.starts_with("bucket:"));
    assert_eq!(key.len(), 7 + 64);
    assert!(key[7..].bytes().all(|b| b.is_ascii_digit() || (b'a'..=b'f').contains(&b)));
}
