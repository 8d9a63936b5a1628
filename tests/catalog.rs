use dedup::{dedup_from_set, parse, serialize, ArtifactError, SizeIndex};

fn d(s: &str) -> Vec<u8> {
    s.as_bytes().to_vec()
}

#[test]
fn index_groups_digests_by_length() {
    let mut idx = SizeIndex::new();
    assert!(!idx.has_bucket(3));
    idx.insert(3, d("aa"));
    idx.insert(3, d("bb"));
    idx.insert(3, d("aa"));
    idx.insert(0, d("ee"));
    assert!(idx.has_bucket(3));
    assert!(idx.has_bucket(0));
    assert!(!idx.has_bucket(4));
    assert!(idx.contains(3, b"aa"));
    assert!(idx.contains(3, b"bb"));
    assert!(!idx.contains(3, b"ee"));
    assert!(!idx.contains(4, b"aa"));
    assert_eq!(idx.bucket(3).unwrap().len(), 2);
    assert_eq!(idx.lengths().len(), 2);
}

#[test]
fn membership_in_a_digest_set() {
    let set = vec![d("abc"), d("def")];
    assert!(dedup_from_set(b"def", &set));
    assert!(!dedup_from_set(b"de", &set));
    assert!(!dedup_from_set(b"abc", &Vec::new()));
}

#[test]
fn serialize_writes_one_line_per_bucket() {
    let mut idx = SizeIndex::new();
    idx.insert(3, d("0beec7b5ea3f0fdbc95d0dd47f3c5bc275da8a33"));
    assert_eq!(serialize(&idx), d("3:0beec7b5ea3f0fdbc95d0dd47f3c5bc275da8a33\n"));
    assert_eq!(serialize(&SizeIndex::new()), Vec::<u8>::new());
}

#[test]
fn serialize_joins_a_bucket_with_commas() {
    let mut idx = SizeIndex::new();
    idx.insert(12345, d("x"));
    idx.insert(12345, d("y"));
    let text = String::from_utf8(serialize(&idx)).unwrap();
    assert!(text == "12345:x,y\n" || text == "12345:y,x\n");
}

#[test]
fn parse_reads_buckets_and_trims() {
    let idx = parse(b" 3 : aa , bb\r\n10:cc\n0:dd").unwrap();
    assert!(idx.contains(3, b"aa"));
    assert!(idx.contains(3, b"bb"));
    assert!(idx.contains(10, b"cc"));
    assert!(idx.contains(0, b"dd"));
    assert!(!idx.has_bucket(4));
    assert_eq!(idx.lengths().len(), 3);
}

#[test]
fn parse_of_empty_text_is_empty_index() {
    let idx = parse(b"").unwrap();
    assert_eq!(idx.lengths().len(), 0);
}

#[test]
fn parse_later_line_replaces_earlier() {
    let idx = parse(b"3:aa\n3:bb\n").unwrap();
    assert!(!idx.contains(3, b"aa"));
    assert!(idx.contains(3, b"bb"));
}

#[test]
fn parse_accepts_a_plus_sign_and_the_largest_length() {
    let idx = parse(b"+7:aa\n18446744073709551615:bb\n").unwrap();
    assert!(idx.contains(7, b"aa"));
    assert!(idx.contains(u64::MAX, b"bb"));
}

#[test]
fn parse_rejects_a_line_without_colon() {
    assert_eq!(
        parse(b"3:aa\nno colon here\n5:bb\n").err(),
        Some(ArtifactError::MalformedLine { line: 2 })
    );
    assert_eq!(parse(b"\n").err(), Some(ArtifactError::MalformedLine { line: 1 }));
}

#[test]
fn parse_rejects_a_bad_length() {
    assert_eq!(parse(b"x:aa\n").err(), Some(ArtifactError::InvalidLength { line: 1 }));
    assert_eq!(parse(b"3:a\n:aa\n").err(), Some(ArtifactError::InvalidLength { line: 2 }));
    assert_eq!(parse(b"-1:aa\n").err(), Some(ArtifactError::InvalidLength { line: 1 }));
    assert_eq!(
        parse(b"18446744073709551616:aa\n").err(),
        Some(ArtifactError::InvalidLength { line: 1 })
    );
}

#[test]
fn first_fault_wins() {
    assert_eq!(
        parse(b"bad\nx:aa\n").err(),
        Some(ArtifactError::MalformedLine { line: 1 })
    );
}

#[test]
fn serialize_then_parse_gives_the_same_index() {
    let mut idx = SizeIndex::new();
    idx.insert(3, d("aa"));
    idx.insert(3, d("bb"));
    idx.insert(0, d("d41d8cd98f00b204e9800998ecf8427e"));
    idx.insert(u64::MAX, d("ff"));
    let back = parse(&serialize(&idx)).unwrap();
    assert_eq!(back.lengths().len(), 3);
    for (len, digest) in [(3u64, "aa"), (3, "bb"), (0, "d41d8cd98f00b204e9800998ecf8427e"), (u64::MAX, "ff")] {
        assert!(back.contains(len, digest.as_bytes()));
    }
    assert_eq!(back.bucket(3).unwrap().len(), 2);
}

#[test]
fn parse_trims_unicode_whitespace() {
    let text = "\u{a0}3\u{3000}:\u{2028} aa\u{a0},bb\u{85}\t\n\u{2003}10\u{202f}:cc\u{205f}\n";
    let idx = parse(text.as_bytes()).unwrap();
    assert!(idx.contains(3, b"aa"));
    assert!(idx.contains(3, b"bb"));
    assert!(idx.contains(10, b"cc"));
    assert_eq!(idx.bucket(3).unwrap().len(), 2);
    assert_eq!(idx.lengths().len(), 2);
}

#[test]
fn parse_keeps_other_unicode_inside_digests() {
    let idx = parse("5:\u{e9}a\u{a0}b\n".as_bytes()).unwrap();
    assert!(idx.contains(5, "\u{e9}a\u{a0}b".as_bytes()));
}

#[test]
fn parse_rejects_text_that_is_not_utf8() {
    assert_eq!(parse(b"3:aa\n4:\xff\n").err(), Some(ArtifactError::NotText));
    assert_eq!(parse(b"\xc2").err(), Some(ArtifactError::NotText));
}
