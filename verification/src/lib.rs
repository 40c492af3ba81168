//! Content-addressed manifests for local archives: FNV-1a hashing, the
//! line-oriented VHS1 manifest format, and the comparison of manifests with
//! each other and with what was found on disk.

pub mod fnv;
pub mod text;
pub mod number;
pub mod manifest;
pub mod parse;
pub mod diff;
pub mod verify;
pub mod walk;
pub mod cli;
