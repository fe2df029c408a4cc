//! Content identities.

use pocket_voice::identity::{content_identity, valid_hash};

#[test]
fn identities_are_sha256_in_lower_case_hexadecimal() {
    assert_eq!(
        content_identity(b""),
        "e3b0c44298fc1c149afbf4c8996fb92427ae41e4649b934ca495991b7852b855"
    );
    assert_eq!(
        content_identity(b"abc"),
        "ba7816bf8f01cfea414140de5dae2223b00361a396177a9cb410ff61f20015ad"
    );
    assert_eq!(
        content_identity(b"abcdbcdecdefdefgefghfghighijhijkijkljklmklmnlmnomnopnopq"),
        "248d6a61d20638b8e5c026930c3e6039a33ce45964ff2167f6ecedd419db06c1"
    );
}

#[test]
fn identities_are_valid_hashes() {
    assert!(valid_hash(&content_identity(b"any content")));
    assert!(valid_hash(&"0123456789abcdefABCDEF0123456789".repeat(2)));
}

#[test]
fn other_texts_are_no_hashes() {
    let hash = "0123456789abcdef".repeat(4);
    assert!(!valid_hash(""));
    assert!(!valid_hash(&hash[1..]));
    assert!(!valid_hash(&format!("{hash}0")));
    assert!(!valid_hash(&hash.replace('f', "g")));
    assert!(!valid_hash(&hash.replace('f', "/")));
    assert!(!valid_hash(&hash.replace('0', "é")));
    assert!(!valid_hash(&"é".repeat(32)));
}
