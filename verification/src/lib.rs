//! A minimal local version-control engine.
//!
//! Snapshots of files are recorded as blobs in a content-addressed object
//! store, staged in a mutable index, and linked into a linear commit chain
//! with a single mutable `HEAD` pointer.  History is read back by walking
//! parent links, and a diff report retrieves both sides of each tracked
//! file's content for external comparison.

pub mod diff;
pub mod errors;
pub mod codec;
pub mod hashing;
pub mod object_store;
pub mod records;
pub mod repo;
pub mod staging;
