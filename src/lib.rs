//! Duplicate-file detection by content digest.
//!
//! - `kind`: the hash algorithms and their names.
//! - `hashing`: streaming digests, chunk by chunk, in lower-case hex.
//! - `index`: digests, or reference files, grouped by content length.
//! - `artifact`: the text catalog of a digest index, `LENGTH:DIGEST[,DIGEST]*`
//!   per line.
//! - `round_trip`: reading back a written catalog gives the index.
//! - `compare`: byte-for-byte comparison of two streams in lockstep chunks.
//! - `matcher`: the per-file decisions of a run, as steps a driver performs.
//! - `config`: the settings of each kind of run, and the check on the roots.

mod artifact;
mod compare;
mod config;
mod hashing;
mod index;
mod kind;
mod matcher;
mod round_trip;

pub use artifact::{
    all_digits, colon_at, decimal, digits_value, is_digit, is_space, join, lemma_split_nonempty,
    line_body, line_digests, lines, lists_bucket, lists_index, parse, parse_artifact, parse_length,
    parse_lines, render, serialize, serialized, split, strip_return, trim, trim_end, trim_start,
    unsigned_part, ArtifactError,
};
pub use compare::{
    chunk_verdict, compare_chunks, fixed_chunks, is_reading, lemma_content_equals,
    lemma_fixed_chunks, lemma_lockstep_lengths, lemma_lockstep_reflexive,
    lemma_lockstep_sound, lockstep,
};
pub use config::{Analyze, InPlace, Local, Remote, SameRoots};
pub use hashing::{
    digest_hex, digest_size, hex_ascii, hex_digit, is_lower_hex, lemma_digest_deterministic, md5_absorbed, md5_of, raw_digest,
    sha1_absorbed, sha1_of, sha256_absorbed, sha256_of, Digester, Md5State, Sha1State, Sha256State,
};
pub use index::{
    bytes_eq, dedup_from_set, digest_set, lemma_views_to_set, views, ReferenceIndex, SizeIndex,
};
pub use kind::{ascii_lower, kind_named, lower_bytes, DigestKind, UnknownDigest};
pub use matcher::{
    counted, removal_for, removal_step, LocalScan, OperationResult, Phase, RemoteScan, Step,
};
pub use round_trip::{is_token, lemma_round_trip};
