use dedup::{Digester, DigestKind, UnknownDigest};

fn digest_of(kind: DigestKind, data: &[u8]) -> Vec<u8> {
    let mut d = Digester::new(kind);
    d.update(data);
    d.finish()
}

/// Stand-ins for two different files of a package.
const LOCK_CONTENT: &[u8] = b"# This file is automatically generated.\nversion = 3\n";
const MANIFEST_CONTENT: &[u8] = b"[package]\nname = \"dedup\"\nversion = \"0.1.0\"\n";

#[test]
fn test_equal_file_checksum() {
    assert_eq!(
        digest_of(DigestKind::MD5, LOCK_CONTENT),
        digest_of(DigestKind::MD5, LOCK_CONTENT)
    );
}

#[test]
fn test_unequal_file_checksum() {
    assert_ne!(
        digest_of(DigestKind::MD5, LOCK_CONTENT),
        digest_of(DigestKind::MD5, MANIFEST_CONTENT)
    );
}

#[test]
fn md5_of_empty_content_is_reference_vector() {
    let d = Digester::new(DigestKind::MD5);
    assert_eq!(d.finish(), b"d41d8cd98f00b204e9800998ecf8427e".to_vec());
}

#[test]
fn sha1_and_sha256_reference_vectors() {
    assert_eq!(
        digest_of(DigestKind::SHA1, b""),
        b"da39a3ee5e6b4b0d3255bfef95601890afd80709".to_vec()
    );
    assert_eq!(
        digest_of(DigestKind::SHA1, b"foo"),
        b"0beec7b5ea3f0fdbc95d0dd47f3c5bc275da8a33".to_vec()
    );
    assert_eq!(
        digest_of(DigestKind::SHA2, b""),
        b"e3b0c44298fc1c149afbf4c8996fb92427ae41e4649b934ca495991b7852b855".to_vec()
    );
    assert_eq!(
        digest_of(DigestKind::MD5, b"hello"),
        b"5d41402abc4b2a76b9719d911017c592".to_vec()
    );
}

#[test]
fn digest_does_not_depend_on_chunking() {
    let whole = digest_of(DigestKind::SHA2, b"hello world");
    let mut d = Digester::new(DigestKind::SHA2);
    d.update(b"hel");
    d.update(b"");
    d.update(b"lo wor");
    d.update(b"ld");
    assert_eq!(d.finish(), whole);
}

#[test]
fn digesting_twice_gives_the_same_digest() {
    for kind in [DigestKind::MD5, DigestKind::SHA1, DigestKind::SHA2] {
        assert_eq!(digest_of(kind, b"same bytes"), digest_of(kind, b"same bytes"));
    }
    assert_ne!(
        digest_of(DigestKind::SHA1, b"hello"),
        digest_of(DigestKind::SHA1, b"world")
    );
}

#[test]
fn digest_lengths_follow_the_algorithm() {
    assert_eq!(digest_of(DigestKind::MD5, b"x").len(), 32);
    assert_eq!(digest_of(DigestKind::SHA1, b"x").len(), 40);
    assert_eq!(digest_of(DigestKind::SHA2, b"x").len(), 64);
    for kind in [DigestKind::MD5, DigestKind::SHA1, DigestKind::SHA2] {
        assert!(digest_of(kind, LOCK_CONTENT)
            .iter()
            .all(|c| c.is_ascii_digit() || (b'a'..=b'f').contains(c)));
    }
}

#[test]
fn digest_kind_names_parse_ignoring_case() {
    assert_eq!(DigestKind::parse("md5"), Ok(DigestKind::MD5));
    assert_eq!(DigestKind::parse("MD5"), Ok(DigestKind::MD5));
    assert_eq!(DigestKind::parse("sha1"), Ok(DigestKind::SHA1));
    assert_eq!(DigestKind::parse("Sha128"), Ok(DigestKind::SHA1));
    assert_eq!(DigestKind::parse("SHA2"), Ok(DigestKind::SHA2));
    assert_eq!(DigestKind::parse("sha256"), Ok(DigestKind::SHA2));
    assert_eq!(DigestKind::parse("sha512"), Err(UnknownDigest));
    assert_eq!(DigestKind::parse(""), Err(UnknownDigest));
    assert_eq!(DigestKind::parse("md55"), Err(UnknownDigest));
}

#[test]
fn digest_kind_display_names() {
    assert_eq!(DigestKind::MD5.name(), "MD5");
    assert_eq!(DigestKind::SHA1.name(), "SHA1");
    assert_eq!(DigestKind::SHA2.name(), "SHA2");
}
