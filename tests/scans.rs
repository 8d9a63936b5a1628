use dedup::{
    compare_chunks, parse, removal_step, serialize, ArtifactError, Digester, DigestKind, Local,
    LocalScan, OperationResult, Phase, ReferenceIndex, Remote, RemoteScan, SameRoots, SizeIndex,
    Step,
};

fn sha1(data: &[u8]) -> Vec<u8> {
    let mut d = Digester::new(DigestKind::SHA1);
    d.update(data);
    d.finish()
}

/// Runs a remote scan over in-memory files; returns the steps that ended
/// each file and how many files were digested.
fn run_remote(scan: &mut RemoteScan, kind: DigestKind, files: &[&[u8]]) -> (Vec<Step>, usize) {
    let mut ends = Vec::new();
    let mut digested = 0;
    for content in files {
        let mut step = scan.start_file(content.len() as u64);
        if step == Step::DigestTarget {
            digested += 1;
            let mut d = Digester::new(kind);
            d.update(content);
            step = scan.target_digest(&d.finish());
        }
        if step == Step::Delete || step == Step::Report {
            scan.removal_done(true);
        }
        ends.push(step);
    }
    (ends, digested)
}

#[test]
fn analyze_then_remote_over_the_same_tree() {
    let files: [&[u8]; 2] = [b"foo", b"foo"];
    let mut idx = SizeIndex::new();
    for content in files {
        idx.insert(content.len() as u64, sha1(content));
    }
    let text = serialize(&idx);
    assert_eq!(text, b"3:0beec7b5ea3f0fdbc95d0dd47f3c5bc275da8a33\n".to_vec());

    let back = parse(&text).unwrap();
    let mut scan = RemoteScan::new(back, false);
    let (ends, _) = run_remote(&mut scan, DigestKind::SHA1, &files);
    assert_eq!(ends, vec![Step::Report, Step::Report]);
    assert!(!ends.contains(&Step::Delete));
    assert_eq!(
        scan.outcome(),
        OperationResult { files_processed: 2, duplicates_found: 2 }
    );
}

#[test]
fn files_of_unindexed_lengths_are_never_digested() {
    let mut idx = SizeIndex::new();
    idx.insert(3, sha1(b"foo"));
    let mut scan = RemoteScan::new(idx, true);
    let (ends, digested) = run_remote(&mut scan, DigestKind::SHA1, &[b"four", b"", b"fo", b"bar"]);
    assert_eq!(digested, 1);
    assert_eq!(ends, vec![Step::Skip, Step::Skip, Step::Skip, Step::Skip]);
    assert_eq!(
        scan.outcome(),
        OperationResult { files_processed: 4, duplicates_found: 0 }
    );
}

#[test]
fn empty_tree_yields_zero_counts() {
    let scan = RemoteScan::new(SizeIndex::new(), false);
    assert_eq!(
        scan.outcome(),
        OperationResult { files_processed: 0, duplicates_found: 0 }
    );
}

#[test]
fn empty_files_are_duplicates_of_each_other() {
    let mut idx = SizeIndex::new();
    idx.insert(0, sha1(b""));
    let mut scan = RemoteScan::new(idx, true);
    let (ends, _) = run_remote(&mut scan, DigestKind::SHA1, &[b"", b""]);
    assert_eq!(ends, vec![Step::Delete, Step::Delete]);
    assert_eq!(scan.outcome().duplicates_found, 2);
}

#[test]
fn failed_removals_and_unreadable_files_are_not_counted() {
    let mut idx = SizeIndex::new();
    idx.insert(3, sha1(b"foo"));
    let mut scan = RemoteScan::new(idx, true);
    assert_eq!(scan.start_file(3), Step::DigestTarget);
    assert_eq!(scan.target_digest(&sha1(b"foo")), Step::Delete);
    assert_eq!(scan.current_phase(), Phase::AwaitRemoval);
    scan.removal_done(false);
    assert_eq!(scan.start_file(3), Step::DigestTarget);
    scan.file_failed();
    assert_eq!(scan.current_phase(), Phase::Idle);
    assert_eq!(
        scan.outcome(),
        OperationResult { files_processed: 2, duplicates_found: 0 }
    );
}

#[test]
fn removal_follows_the_commit_flag() {
    assert_eq!(removal_step(true), Step::Delete);
    assert_eq!(removal_step(false), Step::Report);
}

#[test]
fn local_run_removes_only_the_matching_file() {
    let reference: [&[u8]; 1] = [b"hello"];
    let mut refs = ReferenceIndex::new();
    for content in reference {
        assert_eq!(refs.add(content.len() as u64), 0);
    }
    let mut scan = LocalScan::new(refs, true);
    let mut deleted = Vec::new();
    let local: [&[u8]; 2] = [b"hello", b"world"];
    for (i, content) in local.iter().enumerate() {
        let mut step = scan.start_file(content.len() as u64);
        if step == Step::DigestTarget {
            step = scan.target_digest(sha1(content));
        }
        while let Step::DigestReference(id) = step {
            step = scan.reference_digest(&sha1(reference[id]));
        }
        if step == Step::Delete {
            deleted.push(i);
            scan.removal_done(true);
        }
    }
    assert_eq!(deleted, vec![0]);
    assert_eq!(
        scan.outcome(),
        OperationResult { files_processed: 2, duplicates_found: 1 }
    );
}

#[test]
fn local_search_goes_through_references_of_equal_length() {
    let mut refs = ReferenceIndex::new();
    assert_eq!(refs.add(5), 0);
    assert_eq!(refs.add(3), 1);
    assert_eq!(refs.add(5), 2);
    assert_eq!(refs.candidates(5).unwrap(), &vec![0, 2]);
    assert!(refs.candidates(4).is_none());
    let mut scan = LocalScan::new(refs, false);
    assert_eq!(scan.start_file(4), Step::Skip);
    assert_eq!(scan.start_file(5), Step::DigestTarget);
    assert_eq!(scan.target_digest(sha1(b"bbbbb")), Step::DigestReference(0));
    assert_eq!(scan.reference_failed(), Step::DigestReference(2));
    assert_eq!(scan.reference_digest(&sha1(b"bbbbb")), Step::Report);
    scan.removal_done(true);
    assert_eq!(scan.start_file(5), Step::DigestTarget);
    assert_eq!(scan.target_digest(sha1(b"ccccc")), Step::DigestReference(0));
    assert_eq!(scan.reference_digest(&sha1(b"aaaaa")), Step::DigestReference(2));
    assert_eq!(scan.reference_digest(&sha1(b"bbbbb")), Step::Skip);
    assert_eq!(
        scan.outcome(),
        OperationResult { files_processed: 3, duplicates_found: 1 }
    );
}

#[test]
fn same_roots_are_refused() {
    assert_eq!(Local::check_roots(b"/data/tree", b"/data/tree"), Err(SameRoots));
    assert_eq!(Local::check_roots(b"/data/tree", b"/data/other"), Ok(()));
}

#[test]
fn malformed_catalog_fails_before_any_scan() {
    let result = parse(b"3:0beec7b5ea3f0fdbc95d0dd47f3c5bc275da8a33\nnot a bucket\n");
    assert_eq!(result.err(), Some(ArtifactError::MalformedLine { line: 2 }));
}

#[test]
fn dash_names_standard_input() {
    assert!(Remote::reads_stdin(b"-"));
    assert!(!Remote::reads_stdin(b"--"));
    assert!(!Remote::reads_stdin(b"dedup.out"));
}

#[test]
fn lockstep_comparison_of_chunks() {
    assert_eq!(compare_chunks(b"abc", b"abc"), None);
    assert_eq!(compare_chunks(b"abc", b"abd"), Some(false));
    assert_eq!(compare_chunks(b"abc", b"ab"), Some(false));
    assert_eq!(compare_chunks(b"", b"x"), Some(false));
    assert_eq!(compare_chunks(b"", b""), Some(true));
}

fn equals(a: &[u8], b: &[u8]) -> bool {
    let (mut ca, mut cb) = (a.chunks(2), b.chunks(2));
    loop {
        let x = ca.next().unwrap_or(&[]);
        let y = cb.next().unwrap_or(&[]);
        if let Some(v) = compare_chunks(x, y) {
            return v;
        }
    }
}

#[test]
fn content_equals_on_whole_streams() {    assert!(equals(b"hello", b"hello"));
    assert!(equals(b"", b""));
    assert!(!equals(b"hello", b"hell"));
    assert!(!equals(b"hello", b"hallo"));
}
