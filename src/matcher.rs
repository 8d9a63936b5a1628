use crate::index::{bytes_eq, ReferenceIndex, SizeIndex};
use vstd::prelude::*;

verus! {

/// What the driver of a scan does next for the file in hand.
#[derive(Debug, Clone, Copy, PartialEq, Eq, Structural)]
pub enum Step {
    /// Nothing more: the file is unique, or could not be evaluated.
    Skip,
    /// Digest the file in hand and hand the digest back.
    DigestTarget,
    /// Digest the reference file with this number and hand the digest back.
    DigestReference(usize),
    /// The file is a duplicate: delete it, then report how that went.
    Delete,
    /// The file is a duplicate: list it as a candidate for removal, touching nothing.
    Report,
}

/// Counts of a scan: files whose length was read, and duplicates found
/// (under commit: duplicates deleted).
#[derive(Debug, Clone, Copy, PartialEq, Eq, Structural)]
pub struct OperationResult {
    pub files_processed: u64,
    pub duplicates_found: u64,
}

/// Where a scan stands with the file in hand.
#[derive(Debug, Clone, Copy, PartialEq, Eq, Structural)]
pub enum Phase {
    /// No file in hand.
    Idle,
    /// Waiting for the digest of the file in hand, of this length.
    AwaitTarget { len: u64 },
    /// Waiting for the digest of the `pos`-th reference file of this length.
    AwaitReference { len: u64, pos: usize },
    /// Waiting for the outcome of removing the file in hand.
    AwaitRemoval,
}

/// What becomes of a duplicate: deleted under commit, else only listed.
pub open spec fn removal_for(commit: bool) -> Step {
    if commit {
        Step::Delete
    } else {
        Step::Report
    }
}

/// Decides what becomes of a duplicate, by the one commit flag of the run.
pub fn removal_step(commit: bool) -> (r: Step)
    ensures
        r == removal_for(commit),
{
    if commit {
        Step::Delete
    } else {
        Step::Report
    }
}

/// Counts that a finished file adds: one duplicate, unless its removal failed.
pub open spec fn counted(res: OperationResult, ok: bool) -> OperationResult {
    OperationResult {
        files_processed: res.files_processed,
        duplicates_found: if ok {
            (res.duplicates_found + 1) as u64
        } else {
            res.duplicates_found
        },
    }
}

/// Matches the files of a tree against a digest index, one file at a time:
/// a file whose length has no bucket is unique without being digested; one
/// whose digest is in its length's bucket is a duplicate.
pub struct RemoteScan {
    index: SizeIndex,
    commit: bool,
    phase: Phase,
    result: OperationResult,
}

impl RemoteScan {
    pub closed spec fn index(&self) -> Map<u64, Set<Seq<u8>>> {
        self.index@
    }

    pub closed spec fn commit(&self) -> bool {
        self.commit
    }

    pub closed spec fn phase(&self) -> Phase {
        self.phase
    }

    pub closed spec fn result(&self) -> OperationResult {
        self.result
    }

    /// The index is well formed; duplicates never outnumber processed files,
    /// and the file in hand is not yet among the duplicates.
    pub closed spec fn wf(&self) -> bool {
        &&& self.index.wf()
        &&& self.result.duplicates_found <= self.result.files_processed
        &&& self.phase != Phase::Idle ==> self.result.duplicates_found
            < self.result.files_processed
        &&& match self.phase {
            Phase::AwaitTarget { len } => self.index@.contains_key(len),
            Phase::AwaitReference { .. } => false,
            _ => true,
        }
    }

    pub fn new(index: SizeIndex, commit: bool) -> (r: RemoteScan)
        requires
            index.wf(),
        ensures
            r.wf(),
            r.index() == index@,
            r.commit() == commit,
            r.phase() == Phase::Idle,
            r.result() == (OperationResult { files_processed: 0, duplicates_found: 0 }),
    {
        RemoteScan {
            index,
            commit,
            phase: Phase::Idle,
            result: OperationResult { files_processed: 0, duplicates_found: 0 },
        }
    }

    /// Takes up a file whose length has been read, dropping any file still in
    /// hand. Only a file whose length has a bucket is to be digested.
    pub fn start_file(&mut self, len: u64) -> (r: Step)
        requires
            old(self).wf(),
            old(self).result().files_processed < u64::MAX,
        ensures
            final(self).wf(),
            final(self).index() == old(self).index(),
            final(self).commit() == old(self).commit(),
            final(self).result() == (OperationResult {
                files_processed: (old(self).result().files_processed + 1) as u64,
                duplicates_found: old(self).result().duplicates_found,
            }),
            old(self).index().contains_key(len) ==> r == Step::DigestTarget && final(self).phase()
                == (Phase::AwaitTarget { len }),
            !old(self).index().contains_key(len) ==> r == Step::Skip && final(self).phase()
                == Phase::Idle,
    {
        self.result.files_processed = self.result.files_processed + 1;
        if self.index.has_bucket(len) {
            self.phase = Phase::AwaitTarget { len };
            Step::DigestTarget
        } else {
            self.phase = Phase::Idle;
            Step::Skip
        }
    }

    /// Takes the digest of the file in hand: a duplicate exactly when the
    /// digest is in the bucket of the file's length.
    pub fn target_digest(&mut self, digest: &[u8]) -> (r: Step)
        requires
            old(self).wf(),
        ensures
            final(self).wf(),
            final(self).index() == old(self).index(),
            final(self).commit() == old(self).commit(),
            final(self).result() == old(self).result(),
            match old(self).phase() {
                Phase::AwaitTarget { len } => if old(self).index()[len].contains(digest@) {
                    r == removal_for(old(self).commit()) && final(self).phase()
                        == Phase::AwaitRemoval
                } else {
                    r == Step::Skip && final(self).phase() == Phase::Idle
                },
                _ => r == Step::Skip && final(self).phase() == old(self).phase(),
            },
    {
        match self.phase {
            Phase::AwaitTarget { len } => {
                if self.index.contains(len, digest) {
                    self.phase = Phase::AwaitRemoval;
                    removal_step(self.commit)
                } else {
                    self.phase = Phase::Idle;
                    Step::Skip
                }
            },
            _ => Step::Skip,
        }
    }

    /// The file in hand could not be read: it is left out of the duplicates.
    pub fn file_failed(&mut self)
        requires
            old(self).wf(),
        ensures
            final(self).wf(),
            final(self).index() == old(self).index(),
            final(self).commit() == old(self).commit(),
            final(self).result() == old(self).result(),
            final(self).phase() == Phase::Idle,
    {
        self.phase = Phase::Idle;
    }

    /// Reports how removing the duplicate in hand went; it counts only if
    /// it went well.
    pub fn removal_done(&mut self, ok: bool)
        requires
            old(self).wf(),
        ensures
            final(self).wf(),
            final(self).index() == old(self).index(),
            final(self).commit() == old(self).commit(),
            old(self).phase() == Phase::AwaitRemoval ==> final(self).phase() == Phase::Idle
                && final(self).result() == counted(old(self).result(), ok),
            old(self).phase() != Phase::AwaitRemoval ==> final(self).phase() == old(self).phase() && final(self).result() == old(self).result(),
    {
        if self.phase == Phase::AwaitRemoval {
            if ok {
                self.result.duplicates_found = self.result.duplicates_found + 1;
            }
            self.phase = Phase::Idle;
        }
    }

    pub fn current_phase(&self) -> (r: Phase)
        ensures
            r == self.phase(),
    {
        self.phase
    }

    pub fn outcome(&self) -> (r: OperationResult)
        ensures
            r == self.result(),
    {
        self.result
    }
}

/// Matches the files of a tree against reference files of the same length,
/// one file at a time: a file whose length no reference file has is unique
/// without being digested; otherwise the references of its length are
/// digested in turn until one has the file's digest.
pub struct LocalScan {
    refs: ReferenceIndex,
    commit: bool,
    phase: Phase,
    target: Vec<u8>,
    result: OperationResult,
}

impl LocalScan {
    pub closed spec fn refs(&self) -> Map<u64, Seq<usize>> {
        self.refs@
    }

    pub closed spec fn commit(&self) -> bool {
        self.commit
    }

    pub closed spec fn phase(&self) -> Phase {
        self.phase
    }

    /// The digest of the file in hand, once known.
    pub closed spec fn target(&self) -> Seq<u8> {
        self.target@
    }

    pub closed spec fn result(&self) -> OperationResult {
        self.result
    }

    /// Duplicates never outnumber processed files, the file in hand is not
    /// yet among the duplicates, and a reference in wait exists.
    pub closed spec fn wf(&self) -> bool {
        &&& self.result.duplicates_found <= self.result.files_processed
        &&& self.phase != Phase::Idle ==> self.result.duplicates_found
            < self.result.files_processed
        &&& match self.phase {
            Phase::AwaitReference { len, pos } => self.refs@.contains_key(len) && pos
                < self.refs@[len].len(),
            _ => true,
        }
    }

    pub fn new(refs: ReferenceIndex, commit: bool) -> (r: LocalScan)
        ensures
            r.wf(),
            r.refs() == refs@,
            r.commit() == commit,
            r.phase() == Phase::Idle,
            r.result() == (OperationResult { files_processed: 0, duplicates_found: 0 }),
    {
        LocalScan {
            refs,
            commit,
            phase: Phase::Idle,
            target: Vec::new(),
            result: OperationResult { files_processed: 0, duplicates_found: 0 },
        }
    }

    /// Takes up a file whose length has been read, dropping any file still in
    /// hand. Only a file with reference files of its length is to be digested.
    pub fn start_file(&mut self, len: u64) -> (r: Step)
        requires
            old(self).wf(),
            old(self).result().files_processed < u64::MAX,
        ensures
            final(self).wf(),
            final(self).refs() == old(self).refs(),
            final(self).commit() == old(self).commit(),
            final(self).result() == (OperationResult {
                files_processed: (old(self).result().files_processed + 1) as u64,
                duplicates_found: old(self).result().duplicates_found,
            }),
            ({
                let known = old(self).refs().contains_key(len) && old(self).refs()[len].len() > 0;
                &&& known ==> r == Step::DigestTarget && final(self).phase() == (Phase::AwaitTarget {
                    len,
                })
                &&& !known ==> r == Step::Skip && final(self).phase() == Phase::Idle
            }),
    {
        self.result.files_processed = self.result.files_processed + 1;
        let known = match self.refs.candidates(len) {
            Some(c) => c.len() > 0,
            None => false,
        };
        if known {
            self.phase = Phase::AwaitTarget { len };
            Step::DigestTarget
        } else {
            self.phase = Phase::Idle;
            Step::Skip
        }
    }

    /// Takes the digest of the file in hand; the first reference file of its
    /// length is to be digested next.
    pub fn target_digest(&mut self, digest: Vec<u8>) -> (r: Step)
        requires
            old(self).wf(),
        ensures
            final(self).wf(),
            final(self).refs() == old(self).refs(),
            final(self).commit() == old(self).commit(),
            final(self).result() == old(self).result(),
            match old(self).phase() {
                Phase::AwaitTarget { len } => if old(self).refs().contains_key(len) && old(self).refs()[len].len() > 0 {
                    &&& r == Step::DigestReference(old(self).refs()[len][0])
                    &&& final(self).phase() == (Phase::AwaitReference { len, pos: 0 })
                    &&& final(self).target() == digest@
                } else {
                    r == Step::Skip && final(self).phase() == Phase::Idle
                },
                _ => r == Step::Skip && final(self).phase() == old(self).phase() && final(self).target() == old(self).target(),
            },
    {
        match self.phase {
            Phase::AwaitTarget { len } => {
                match self.refs.candidates(len) {
                    Some(c) => {
                        if c.len() > 0 {
                            let first = c[0];
                            self.target = digest;
                            self.phase = Phase::AwaitReference { len, pos: 0 };
                            Step::DigestReference(first)
                        } else {
                            self.phase = Phase::Idle;
                            Step::Skip
                        }
                    },
                    None => {
                        self.phase = Phase::Idle;
                        Step::Skip
                    },
                }
            },
            _ => Step::Skip,
        }
    }

    /// Moves past the reference file in wait: the next one of the same
    /// length is to be digested, or, when none is left, the file is unique.
    fn next_reference(&mut self) -> (r: Step)
        requires
            old(self).wf(),
            old(self).phase() is AwaitReference,
        ensures
            final(self).wf(),
            final(self).refs() == old(self).refs(),
            final(self).commit() == old(self).commit(),
            final(self).result() == old(self).result(),
            final(self).target() == old(self).target(),
            match old(self).phase() {
                Phase::AwaitReference { len, pos } => if pos + 1 < old(self).refs()[len].len() {
                    r == Step::DigestReference(old(self).refs()[len][pos + 1]) && final(self).phase() == (Phase::AwaitReference { len, pos: (pos + 1) as usize })
                } else {
                    r == Step::Skip && final(self).phase() == Phase::Idle
                },
                _ => false,
            },
    {
        match self.phase {
            Phase::AwaitReference { len, pos } => {
                match self.refs.candidates(len) {
                    Some(c) => {
                        assert(pos < c.len());
                        if pos + 1 < c.len() {
                            let next = c[pos + 1];
                            self.phase = Phase::AwaitReference { len, pos: pos + 1 };
                            Step::DigestReference(next)
                        } else {
                            self.phase = Phase::Idle;
                            Step::Skip
                        }
                    },
                    None => {
                        self.phase = Phase::Idle;
                        Step::Skip
                    },
                }
            },
            _ => {
                self.phase = Phase::Idle;
                Step::Skip
            },
        }
    }

    /// Takes the digest of the reference file in wait: the file in hand is a
    /// duplicate exactly when the digests agree; else the search goes on.
    pub fn reference_digest(&mut self, digest: &[u8]) -> (r: Step)
        requires
            old(self).wf(),
        ensures
            final(self).wf(),
            final(self).refs() == old(self).refs(),
            final(self).commit() == old(self).commit(),
            final(self).result() == old(self).result(),
            match old(self).phase() {
                Phase::AwaitReference { len, pos } => if digest@ == old(self).target() {
                    r == removal_for(old(self).commit()) && final(self).phase()
                        == Phase::AwaitRemoval
                } else if pos + 1 < old(self).refs()[len].len() {
                    r == Step::DigestReference(old(self).refs()[len][pos + 1]) && final(self).phase() == (Phase::AwaitReference { len, pos: (pos + 1) as usize })
                } else {
                    r == Step::Skip && final(self).phase() == Phase::Idle
                },
                _ => r == Step::Skip && final(self).phase() == old(self).phase(),
            },
    {
        match self.phase {
            Phase::AwaitReference { .. } => {
                if bytes_eq(digest, self.target.as_slice()) {
                    self.phase = Phase::AwaitRemoval;
                    removal_step(self.commit)
                } else {
                    self.next_reference()
                }
            },
            _ => Step::Skip,
        }
    }

    /// The reference file in wait could not be read: the search goes on
    /// with the next one.
    pub fn reference_failed(&mut self) -> (r: Step)
        requires
            old(self).wf(),
        ensures
            final(self).wf(),
            final(self).refs() == old(self).refs(),
            final(self).commit() == old(self).commit(),
            final(self).result() == old(self).result(),
            match old(self).phase() {
                Phase::AwaitReference { len, pos } => if pos + 1 < old(self).refs()[len].len() {
                    r == Step::DigestReference(old(self).refs()[len][pos + 1]) && final(self).phase() == (Phase::AwaitReference { len, pos: (pos + 1) as usize })
                } else {
                    r == Step::Skip && final(self).phase() == Phase::Idle
                },
                _ => r == Step::Skip && final(self).phase() == old(self).phase(),
            },
    {
        match self.phase {
            Phase::AwaitReference { .. } => self.next_reference(),
            _ => Step::Skip,
        }
    }

    /// The file in hand could not be read: it is left out of the duplicates.
    pub fn file_failed(&mut self)
        requires
            old(self).wf(),
        ensures
            final(self).wf(),
            final(self).refs() == old(self).refs(),
            final(self).commit() == old(self).commit(),
            final(self).result() == old(self).result(),
            final(self).phase() == Phase::Idle,
    {
        self.phase = Phase::Idle;
    }

    /// Reports how removing the duplicate in hand went; it counts only if
    /// it went well.
    pub fn removal_done(&mut self, ok: bool)
        requires
            old(self).wf(),
        ensures
            final(self).wf(),
            final(self).refs() == old(self).refs(),
            final(self).commit() == old(self).commit(),
            old(self).phase() == Phase::AwaitRemoval ==> final(self).phase() == Phase::Idle
                && final(self).result() == counted(old(self).result(), ok),
            old(self).phase() != Phase::AwaitRemoval ==> final(self).phase() == old(self).phase() && final(self).result() == old(self).result(),
    {
        if self.phase == Phase::AwaitRemoval {
            if ok {
                self.result.duplicates_found = self.result.duplicates_found + 1;
            }
            self.phase = Phase::Idle;
        }
    }

    pub fn current_phase(&self) -> (r: Phase)
        ensures
            r == self.phase(),
    {
        self.phase
    }

    pub fn outcome(&self) -> (r: OperationResult)
        ensures
            r == self.result(),
    {
        self.result
    }
}

} // verus!
