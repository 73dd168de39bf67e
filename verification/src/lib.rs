//! Constrained unique random orderings of audio tracks.
//!
//! Given a fixed set of tracks, the crate computes how many distinct valid
//! orderings are achievable ([`budget::PermutationBudget`]), and repeatedly
//! samples random orderings subject to two constraints: no two adjacent
//! tracks may share an artist key ([`artist`]), and no ordering may repeat
//! within a run ([`sampler`]). Orderings are deduplicated through
//! fingerprints ([`fingerprint`]), and sampling is bounded by a retry
//! ceiling so that a drained search space surfaces as an error instead of a
//! hang. The base track set of a run is fixed by [`prepare`]: the audio
//! files of a directory listing ([`audio`]), sorted and free of duplicates.
//!
//! A track is identified by the bytes of its file name; orderings are plain
//! sequences of such names. Reading a directory and copying files out in
//! the generated orders are the caller's business.

pub mod artist;
pub mod audio;
pub mod budget;
pub mod elapsed;
pub mod fingerprint;
pub mod prepare;
pub mod sampler;
