//! Content-integrity commitments over an ordered set of byte blobs: a binary
//! hash tree with duplication padding, inclusion proofs by leaf position, and
//! proof replay against a recorded root digest.

pub mod digest;
pub mod model;
pub mod levels;
pub mod laws;
pub mod merkle;
