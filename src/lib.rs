//! Finds duplicate audio tracks in a music library by the content of their
//! decoded audio, and picks which copies can be deleted safely.
//!
//! The library holds the logic: the streaming digest of decoded audio
//! (`fingerprint`), the collection of per-file outcomes into fingerprint
//! pairs (`engine`), and the grouping of equal digests with the choice of the
//! newest copy as survivor (`resolve`). Decoding, walking directories, reading
//! file metadata and deleting files are left to the caller.

mod engine;
mod fingerprint;
mod resolve;

pub use engine::{collect_fingerprints, pairs_of, Fingerprint, FingerprintError};
pub use fingerprint::{
    joined, digest_eq, digest_frames, frames_view, lemma_digest_deterministic, Digest, Fingerprinter,
};
pub use resolve::{
    best_before, deleted_files, first_of, first_positions, lemma_deletion_count, deleted_of, distinct_keys, files_of, find_deletable,
    group_duplicates, group_of, in_group_before, in_some_group, is_deletable, is_duplicated,
    is_first, is_grouping, is_permutation, is_reordering, is_resolution, is_second, is_survivor,
    keeps_before, lemma_one_survivor_per_group, lemma_order_independent, lemma_resolution_unique,
    lemma_survivor_is_newest, lemma_unique_digest_never_grouped, metadata_complete, same_digest,
    ResolveError, Timestamp,
};
