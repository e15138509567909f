//! Verified core for reading and checking the on-disk object storage of a
//! content-addressed version-control system: the loose-object header codec,
//! the pack and pack-index file formats, the delta graph, and the engine that
//! reconstructs every packed object and checks it against the recorded
//! hashes and checksums.
//!
//! The textual object grammar (parsing and re-serialising commits, trees and
//! tags) is an external collaborator that this library does not provide. The
//! engine reconstructs and hashes every object in every mode; in the decode
//! and re-encode modes the caller owning such a decoder feeds it the
//! reconstructed bytes and records the verdicts, which the engine leaves
//! open (`decoded_ok` and `re_encoded_matches` are `None` in its output).
pub mod bytes;
pub mod data;
pub mod delta;
pub mod digest;
pub mod engine;
pub mod entry;
pub mod errors;
pub mod graph;
pub mod index_file;
pub mod kinds;
pub mod loose_header;
