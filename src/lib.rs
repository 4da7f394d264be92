//! Resolving, fetching and checking releases of a versioned toolchain.
//!
//! The library holds the decisions of the tool: the grammar and order of
//! release identifiers, the catalog of releases, the naming of artifacts,
//! the partition of a download among workers, the positional reassembly of
//! chunks and the comparison of integrity digests. Network and disk access
//! stay with the caller, which hands plain values in and takes plain values
//! back.

pub mod error;
pub mod version;
pub mod catalog;
pub mod download;
pub mod text;
pub mod artifact;
pub mod integrity;
