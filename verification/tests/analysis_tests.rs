use iris_parsers::analysis::{is_known_format, sha256_digest};
use iris_parsers::dns::hex;

#[test]
fn sha256_empty_input() {
    let digest = sha256_digest(b"");
    assert_eq!(
        hex(&digest),
        b"e3b0c44298fc1c149afbf4c8996fb92427ae41e4649b934ca495991b7852b855".to_vec()
    );
}

#[test]
fn sha256_abc() {
    let digest = sha256_digest(b"abc");
    assert_eq!(
        hex(&digest),
        b"ba7816bf8f01cfea414140de5dae2223b00361a396177a9cb410ff61f20015ad".to_vec()
    );
}

#[test]
fn sha256_multi_block() {
    // 56 bytes force a second padding block
    let digest = sha256_digest(b"abcdbcdecdefdefgefghfghighijhijkijkljklmklmnlmnomnopnopq");
    assert_eq!(
        hex(&digest),
        b"248d6a61d20638b8e5c026930c3e6039a33ce45964ff2167f6ecedd419db06c1".to_vec()
    );
}

#[test]
fn known_formats_detected() {
    assert!(is_known_format(&[0x89, 0x50, 0x4e, 0x47, 0x0d, 0x0a]));
    assert!(is_known_format(&[0xff, 0xd8, 0xff, 0xe0]));
    assert!(is_known_format(&[0x47, 0x49, 0x46, 0x38]));
    assert!(is_known_format(&[0x49, 0x49, 0x2a, 0x00]));
    assert!(is_known_format(&[0x4d, 0x4d, 0x00, 0x2a]));
    assert!(is_known_format(&[0x1f, 0x8b, 0x08, 0x00]));
    assert!(is_known_format(&[0x50, 0x4b, 0x03, 0x04]));
    assert!(is_known_format(b"%PDF-1.4"));
}

#[test]
fn unknown_formats_rejected() {
    assert!(!is_known_format(b"abcd"));
    assert!(!is_known_format(&[0x89, 0x50]));
    assert!(!is_known_format(&[]));
}
