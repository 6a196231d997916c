use vstd::prelude::*;
use crate::deps::CacheHandleDeps;
use crate::digest::Sha256Digest;

verus! {

/// An externally held reference to a cache entry's directory: as long as a
/// handle or any of its clones is alive, the directory exists. A handle
/// holds no pointer to the cache; duplicating one sends an increment message
/// through its capability before the copy is observable, and dropping one
/// sends a decrement.
pub struct CacheHandle<D: CacheHandleDeps> {
    deps: D,
    digest: Sha256Digest,
    path: String,
}

impl<D: CacheHandleDeps> CacheHandle<D> {
    /// The digest this handle keeps alive.
    pub closed spec fn digest_spec(&self) -> Sha256Digest {
        self.digest
    }

    /// The directory this handle guarantees to exist.
    pub closed spec fn path_spec(&self) -> Seq<char> {
        self.path@
    }

    /// The refcount messages this handle's own capability has sent.
    pub closed spec fn sent_spec(&self) -> crate::deps::RefcountLog {
        self.deps.sent()
    }

    pub fn new(deps: D, digest: Sha256Digest, path: String) -> (r: Self)
        ensures
            r.digest_spec() == digest,
            r.path_spec() == path@,
    {
        CacheHandle { deps, digest, path }
    }

    /// The handle's directory; it exists as long as the handle or any of
    /// its clones does.
    pub fn path(&self) -> (r: &str)
        ensures
            r@ == self.path_spec(),
    {
        self.path.as_str()
    }
}

impl<D: CacheHandleDeps> Clone for CacheHandle<D> {
    /// Duplicating a handle announces the new user first: before the clone
    /// becomes observable, its capability has sent an increment for this
    /// handle's digest, as its latest message.
    fn clone(&self) -> (r: Self)
        ensures
            r.digest_spec() == self.digest_spec(),
            r.path_spec() == self.path_spec(),
            r.sent_spec().len() >= 1,
            r.sent_spec().last() == crate::Message::IncrementRefcount(self.digest_spec()),
    {
        let mut deps_clone = self.deps.clone();
        deps_clone.send_increment_refcount(self.digest);
        CacheHandle { deps: deps_clone, digest: self.digest, path: self.path.clone() }
    }
}

impl<D: CacheHandleDeps> CacheHandle<D> {
    /// Release the handle: one user fewer, reported by a decrement for the
    /// handle's digest, sent through its capability, which is handed back
    /// with the decrement as its latest message. Every handle must be
    /// released exactly once; an embedding program that wants releases to
    /// happen automatically can wire this into a destructor of a wrapper
    /// type of its own.
    pub fn release(self) -> (r: D)
        ensures
            r.sent() == self.sent_spec().push(
                crate::Message::DecrementRefcount(self.digest_spec()),
            ),
    {
        let CacheHandle { mut deps, digest, path: _ } = self;
        deps.send_decrement_refcount(digest);
        deps
    }
}

} // verus!
