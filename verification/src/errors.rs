//! The patcher's error taxonomy: every failure is either a network failure
//! (fetching the digest listing, the remote version, or a file body) or a
//! file failure (creating, reading, writing or renaming local files).

use vstd::prelude::*;

verus! {

/// The two failure classes of the patcher core.
#[derive(Clone, Copy, Debug, PartialEq, Eq, Structural)]
pub enum PatchError {
    /// A failure fetching remote data, or a malformed digest listing.
    Network,
    /// A failure touching the local file system.
    File,
}

impl PatchError {
    /// The machine-readable reason string surfaced to callers.
    pub fn code(&self) -> (r: &'static str)
        ensures
            *self is Network ==> r@ == "patcher-network-error"@,
            *self is File ==> r@ == "patcher-file-error"@,
    {
        match self {
            PatchError::Network => "patcher-network-error",
            PatchError::File => "patcher-file-error",
        }
    }
}

} // verus!
