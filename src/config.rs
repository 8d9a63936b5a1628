use crate::kind::DigestKind;
use std::path::PathBuf;
use vstd::prelude::*;

verus! {

/// `std::path::PathBuf`, carried through the settings without being read.
#[verifier::external_type_specification]
#[verifier::external_body]
pub struct ExPathBuf(PathBuf);

/// Settings of an analysis: the tree to catalog, the algorithm, and where
/// the catalog goes.
pub struct Analyze {
    pub output_file: PathBuf,
    pub local_path: PathBuf,
    pub digest: DigestKind,
}

/// Settings of a run against a catalog: where the catalog is read from
/// (`-` for standard input), the tree to clean, and the catalog's algorithm.
pub struct Remote {
    pub input_file: Option<PathBuf>,
    pub local_path: PathBuf,
    pub digest: DigestKind,
}

/// Settings of a run against a reference tree.
pub struct Local {
    pub reference_path: Option<PathBuf>,
    pub local_path: PathBuf,
}

/// Settings of an in-place run over one tree.
pub struct InPlace {
    pub local_path: PathBuf,
}

/// The two roots of a run against a reference tree are one place.
#[derive(Debug, Clone, Copy, PartialEq, Eq, Structural)]
pub struct SameRoots;

impl Remote {
    /// Whether a catalog path names standard input: it is exactly `-`.
    pub fn reads_stdin(path: &[u8]) -> (r: bool)
        ensures
            r == (path@ == seq![45u8]),
    {
        if path.len() == 1 && path[0] == 45 {
            assert(path@ =~= seq![45u8]);
            true
        } else {
            false
        }
    }
}

impl Local {
    /// The algorithm that compares local files with reference files.
    pub fn digest_kind(&self) -> (r: DigestKind)
        ensures
            r == DigestKind::SHA1,
    {
        DigestKind::SHA1
    }

    /// Refuses a run whose two roots, once canonical, are the same place:
    /// that would remove every file of the tree.
    pub fn check_roots(reference_canonical: &[u8], local_canonical: &[u8]) -> (r: Result<(), SameRoots>)
        ensures
            r is Err <==> reference_canonical@ == local_canonical@,
    {
        if crate::index::bytes_eq(reference_canonical, local_canonical) {
            Err(SameRoots)
        } else {
            Ok(())
        }
    }
}

} // verus!
