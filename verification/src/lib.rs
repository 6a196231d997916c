//! A worker-side content-addressed artifact cache: a single-owner state
//! machine that coordinates fetches, reference-counts users of extracted
//! artifact directories, and evicts least-recently-released entries under a
//! soft byte budget.
use vstd::prelude::*;

pub mod digest;
pub mod model;
pub mod table;
pub mod heap;
pub mod effects;
pub mod deps;
pub mod handle;
pub mod cache;
pub mod laws;

verus! {

/// Identifies one outstanding request so a completion callback can be matched
/// to it. Uniqueness is the caller's concern.
#[derive(Clone, Copy, Debug, PartialEq, Eq, Hash, Structural)]
pub struct CacheRequestId(pub u64);

/// What a failed fetch reports. The cache acts the same whatever went wrong,
/// so the error carries no detail.
#[derive(Clone, Copy, Debug, PartialEq, Eq, Structural)]
pub struct FetchError;

/// The cache's inbox. Every interaction with the cache is one of these,
/// handed to `Cache::receive_message`.
pub enum Message {
    /// Ask for a handle on the artifact of a digest; the cache answers
    /// through `CacheDeps::get_completed`, now or when the fetch finishes.
    GetRequest(CacheRequestId, crate::digest::Sha256Digest),
    /// A `CacheDeps::download_and_extract` finished, successfully with the
    /// artifact's size in bytes, or not.
    DownloadAndExtractCompleted(crate::digest::Sha256Digest, Result<u64, FetchError>),
    /// A handle was duplicated: one more user of the digest's directory.
    IncrementRefcount(crate::digest::Sha256Digest),
    /// A handle was released: one fewer user of the digest's directory.
    DecrementRefcount(crate::digest::Sha256Digest),
}

} // verus!
