//! Merkle tree fingerprints of directory trees: the manifest format, the
//! Merkle hash computation, manifest comparison and the default ignore rules.

pub mod calendar;
pub mod commands;
pub mod compare;
pub mod hash;
pub mod manifest;
pub mod merkle;
pub mod order;
pub mod text;
pub mod walk;
