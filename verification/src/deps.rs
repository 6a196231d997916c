use vstd::prelude::*;
use crate::digest::Sha256Digest;
use crate::effects::Effect;
use crate::handle::CacheHandle;
use crate::CacheRequestId;

verus! {

/// The refcount messages a capability has sent to the cache, oldest first.
pub type RefcountLog = Seq<crate::Message>;

/// Implemented by the caller and carried inside every `CacheHandle`: the
/// capability through which a handle reports its own duplication and
/// release back to the cache's inbox. Each send is recorded in the
/// capability's ghost log, so handle contracts can say which message went
/// out. The caller must deliver the messages in an order that never lets a
/// decrement overtake its matching increment; a same-thread queue does.
pub trait CacheHandleDeps: Sized + Clone {
    /// The refcount messages this capability has sent so far, oldest first.
    spec fn sent(&self) -> RefcountLog;

    /// Send `Message::IncrementRefcount` for the digest to the cache.
    fn send_increment_refcount(&mut self, digest: Sha256Digest)
        ensures
            final(self).sent() == old(self).sent().push(
                crate::Message::IncrementRefcount(digest),
            ),
    ;

    /// Send `Message::DecrementRefcount` for the digest to the cache.
    fn send_decrement_refcount(&mut self, digest: Sha256Digest)
        ensures
            final(self).sent() == old(self).sent().push(
                crate::Message::DecrementRefcount(digest),
            ),
    ;
}

/// The cache's outward dependencies, implemented by the caller: the
/// filesystem, the downloader, the random number generator, and the channel
/// that answers requests. Each call is recorded in the implementation's
/// ghost log of `Effect`s, so the cache's contracts can pin down the exact
/// sequence of operations a message causes.
pub trait CacheDeps: Sized {
    /// The capability cloned into each handle this cache hands out.
    type CacheHandleDeps: CacheHandleDeps;

    /// The operations asked of this implementation so far, oldest first.
    spec fn effects(&self) -> crate::effects::EffectLog;

    /// Draw the next 64-bit word from the caller's random number generator;
    /// used to pick staging names under `removing/`.
    fn rng(&mut self) -> (w: u64)
        ensures
            final(self).effects() == old(self).effects().push(Effect::RandomWord(w)),
    ;

    /// Whether a file, directory or link exists at the path. Filesystem
    /// errors are the implementation's to treat as fatal.
    fn file_exists(&mut self, path: &String) -> (r: bool)
        ensures
            final(self).effects() == old(self).effects().push(Effect::FileExists(path@, r)),
    ;

    /// Atomically rename `source` to `destination`, whose parent exists and
    /// which sits on the same filesystem.
    fn rename(&mut self, source: &String, destination: &String)
        ensures
            final(self).effects() == old(self).effects().push(
                Effect::Rename(source@, destination@),
            ),
    ;

    /// Remove the path, recursively, on a separate thread.
    fn remove_recursively_on_thread(&mut self, path: String)
        ensures
            final(self).effects() == old(self).effects().push(Effect::RemoveRecursively(path@)),
    ;

    /// Create the path as a directory, with any missing ancestors.
    fn mkdir_recursively(&mut self, path: &String)
        ensures
            final(self).effects() == old(self).effects().push(Effect::MkdirRecursively(path@)),
    ;

    /// The children of a directory that exists.
    fn read_dir(&mut self, path: &String) -> (r: Vec<String>)
        ensures
            final(self).effects() == old(self).effects().push(
                Effect::ReadDir(path@, r@.map_values(|c: String| c@)),
            ),
    ;

    /// Start downloading the digest's artifact and extracting it into
    /// `path`, validating the digest; exactly one
    /// `Message::DownloadAndExtractCompleted` must eventually follow.
    fn download_and_extract(&mut self, digest: Sha256Digest, path: String)
        ensures
            final(self).effects() == old(self).effects().push(
                Effect::DownloadAndExtract(digest, path@),
            ),
    ;

    /// Answer one `Message::GetRequest`: with a handle whose directory will
    /// outlive the handle, or with nothing if the fetch failed. The logged
    /// effect records both the digest the handle is bound to and its path,
    /// so a contract over the log pins which artifact a caller was handed.
    fn get_completed(
        &mut self,
        request_id: CacheRequestId,
        handle: Option<CacheHandle<Self::CacheHandleDeps>>,
    )
        ensures
            final(self).effects() == old(self).effects().push(
                Effect::GetCompleted(
                    request_id,
                    match handle {
                        Some(h) => Some((h.digest_spec(), h.path_spec())),
                        None => None,
                    },
                ),
            ),
    ;

    /// The capability that handles clone to send refcount messages.
    fn cache_handle_deps(&self) -> &Self::CacheHandleDeps;
}

} // verus!
