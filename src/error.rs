//! The kinds of failure that the library reports.

use vstd::prelude::*;

verus! {

/// A typed failure of resolution, download or verification.
#[derive(Debug, Clone, Copy, PartialEq, Eq, Structural)]
pub enum Error {
    /// A selector is not a valid release identifier.
    VersionParse,
    /// The catalog could not be fetched.
    CatalogUnavailable,
    /// The catalog holds no release identifier.
    CatalogEmpty,
    /// The host's operating system or architecture has no artifact.
    UnsupportedPlatform,
    /// The companion digest could not be fetched or read.
    DigestUnavailable,
    /// The host did not tell the artifact's size.
    ArtifactUnavailable,
    /// The byte range `[start, end)` was not fully written.
    PartialDownload { start: u64, end: u64 },
    /// The digest of the file differs from the published one.
    IntegrityMismatch,
    /// A local file operation failed.
    IoFailure,
}

} // verus!
