use vstd::prelude::*;
use crate::digest::{digest_hex, hex16, Sha256Digest};
use crate::CacheRequestId;

verus! {

/// One operation the cache asked of its collaborator, in the order asked.
/// The contracts of `CacheDeps` append each call to a ghost log of these, so
/// what a run of the cache does to the outside world is a provable sequence.
pub enum Effect {
    /// A 64-bit word was drawn from the caller's random number generator.
    RandomWord(u64),
    /// An existence probe of a path, and what the collaborator answered.
    FileExists(Seq<char>, bool),
    /// An atomic rename from the first path to the second.
    Rename(Seq<char>, Seq<char>),
    /// A recursive removal, handed to a background thread.
    RemoveRecursively(Seq<char>),
    /// A recursive directory creation.
    MkdirRecursively(Seq<char>),
    /// A directory listing, and the children the collaborator reported.
    ReadDir(Seq<char>, Seq<Seq<char>>),
    /// A fetch was started for a digest, to extract into the given path.
    DownloadAndExtract(Sha256Digest, Seq<char>),
    /// A request was answered: with a handle bound to a digest and the path
    /// of that digest's live directory, or with nothing after a failed
    /// fetch.
    GetCompleted(CacheRequestId, Option<(Sha256Digest, Seq<char>)>),
}

/// The ghost log a `CacheDeps` implementation carries: every operation the
/// cache has asked of it, oldest first.
pub type EffectLog = Seq<Effect>;

/// The staging directory for deletions.
pub open spec fn removing_dir(root: Seq<char>) -> Seq<char> {
    root + "/removing"@
}

/// The directory of live artifacts.
pub open spec fn sha_dir(root: Seq<char>) -> Seq<char> {
    root + "/sha256"@
}

/// The directory of one artifact, named by its digest.
pub open spec fn artifact_path(root: Seq<char>, d: Sha256Digest) -> Seq<char> {
    sha_dir(root) + "/"@ + digest_hex(d)
}

/// A staging name under `removing/`, 16 hex digits drawn from a random word.
pub open spec fn removing_path(root: Seq<char>, w: u64) -> Seq<char> {
    removing_dir(root) + "/"@ + hex16(w)
}

/// As `removal_trace`, with `remaining` probes still allowed: a taken
/// candidate is followed by another probe while attempts remain; the first
/// free candidate — or, after astronomically many collisions, the last
/// allowed one — receives the rename and the background removal.
pub open spec fn removal_trace_n(
    root: Seq<char>,
    src: Seq<char>,
    delta: Seq<Effect>,
    remaining: int,
) -> bool
    decreases delta.len(),
{
    &&& delta.len() >= 4
    &&& delta[0] is RandomWord
    &&& remaining >= 1
    &&& {
        let w = delta[0]->RandomWord_0;
        let target = removing_path(root, w);
        if delta[1] == Effect::FileExists(target, true) && remaining > 1 {
            removal_trace_n(root, src, delta.skip(2), remaining - 1)
        } else {
            &&& delta.len() == 4
            &&& (delta[1] == Effect::FileExists(target, false) || (delta[1]
                == Effect::FileExists(target, true) && remaining == 1))
            &&& delta[2] == Effect::Rename(src, target)
            &&& delta[3] == Effect::RemoveRecursively(target)
        }
    }
}

/// The calls that move a path aside and schedule its removal: candidate
/// staging names are drawn from the random number generator and probed one
/// after the other, and the first free one receives the rename; the renamed
/// tree is then removed in the background.
pub open spec fn removal_trace(root: Seq<char>, src: Seq<char>, delta: Seq<Effect>) -> bool {
    removal_trace_n(root, src, delta, u64::MAX as int)
}

/// `post` is `pre` with more effects appended.
pub open spec fn extends(pre: Seq<Effect>, post: Seq<Effect>) -> bool {
    post.len() >= pre.len() && post.take(pre.len() as int) == pre
}

/// The effects appended since `pre`.
pub open spec fn appended(pre: Seq<Effect>, post: Seq<Effect>) -> Seq<Effect> {
    post.skip(pre.len() as int)
}

pub proof fn lemma_extends_trans(a: Seq<Effect>, b: Seq<Effect>, c: Seq<Effect>)
    requires
        extends(a, b),
        extends(b, c),
    ensures
        extends(a, c),
        appended(a, c) == appended(a, b) + appended(b, c),
{
    assert(c.take(a.len() as int) =~= a);
    assert(appended(a, c) =~= appended(a, b) + appended(b, c));
}

pub proof fn lemma_extends_push(a: Seq<Effect>, b: Seq<Effect>, e: Effect)
    requires
        b == a.push(e),
    ensures
        extends(a, b),
        appended(a, b) == seq![e],
{
    assert(b.take(a.len() as int) =~= a);
    assert(appended(a, b) =~= seq![e]);
}

/// A run of staging-name probes that all found their candidate taken.
pub open spec fn failed_probes(root: Seq<char>, delta: Seq<Effect>) -> bool
    decreases delta.len(),
{
    if delta.len() == 0 {
        true
    } else {
        &&& delta.len() >= 2
        &&& delta[0] is RandomWord
        &&& delta[1] == Effect::FileExists(
            removing_path(root, delta[0]->RandomWord_0),
            true,
        )
        &&& failed_probes(root, delta.skip(2))
    }
}

/// One more taken candidate extends a run of failed probes.
pub proof fn lemma_failed_probes_snoc(root: Seq<char>, a: Seq<Effect>, w: u64)
    requires
        failed_probes(root, a),
    ensures
        failed_probes(
            root,
            a.push(Effect::RandomWord(w)).push(Effect::FileExists(removing_path(root, w), true)),
        ),
    decreases a.len(),
{
    let b = a.push(Effect::RandomWord(w)).push(Effect::FileExists(removing_path(root, w), true));
    assert(b[a.len() as int] == Effect::RandomWord(w));
    assert(b[a.len() as int + 1] == Effect::FileExists(removing_path(root, w), true));
    if a.len() == 0 {
        assert(b.skip(2) =~= Seq::<Effect>::empty());
        assert(failed_probes(root, b.skip(2)));
    } else {
        lemma_failed_probes_snoc(root, a.skip(2), w);
        assert(b.skip(2) =~= a.skip(2).push(Effect::RandomWord(w)).push(
            Effect::FileExists(removing_path(root, w), true),
        ));
        assert(b[0] == a[0] && b[1] == a[1]);
    }
}

/// Failed probes, one final probe, the rename and the removal make a
/// complete removal trace: the final candidate was free, or it was the last
/// allowed attempt.
pub proof fn lemma_removal_trace_build(
    root: Seq<char>,
    src: Seq<char>,
    a: Seq<Effect>,
    w: u64,
    taken: bool,
    remaining: int,
)
    requires
        failed_probes(root, a),
        a.len() % 2 == 0,
        remaining >= a.len() / 2 + 1,
        taken ==> remaining == a.len() / 2 + 1,
    ensures
        removal_trace_n(
            root,
            src,
            a + seq![
                Effect::RandomWord(w),
                Effect::FileExists(removing_path(root, w), taken),
                Effect::Rename(src, removing_path(root, w)),
                Effect::RemoveRecursively(removing_path(root, w)),
            ],
            remaining,
        ),
    decreases a.len(),
{
    let tail = seq![
        Effect::RandomWord(w),
        Effect::FileExists(removing_path(root, w), taken),
        Effect::Rename(src, removing_path(root, w)),
        Effect::RemoveRecursively(removing_path(root, w)),
    ];
    let b = a + tail;
    if a.len() == 0 {
        assert(b =~= tail);
    } else {
        lemma_removal_trace_build(root, src, a.skip(2), w, taken, remaining - 1);
        assert(b.skip(2) =~= a.skip(2) + tail);
        assert(b[0] == a[0] && b[1] == a[1]);
    }
}

/// The calls a whole eviction round makes: one removal trace per evicted
/// entry, least priority first, until the total is back within the goal or
/// the heap is empty.
pub open spec fn eviction_trace(m: crate::model::CacheModel, delta: Seq<Effect>) -> bool
    decreases crate::model::in_heap_set(m.entries).len(),
    via eviction_trace_decreases
{
    if crate::model::needs_eviction(m) {
        exists|k: int|
            0 <= k <= delta.len() && removal_trace(
                m.root,
                artifact_path(m.root, crate::model::min_prio_digest(m.entries)),
                #[trigger] delta.take(k),
            ) && eviction_trace(crate::model::evict_one(m), delta.skip(k))
    } else {
        delta.len() == 0
    }
}

#[via_fn]
proof fn eviction_trace_decreases(m: crate::model::CacheModel, delta: Seq<Effect>) {
    if crate::model::needs_eviction(m) {
        crate::model::lemma_evict_one_shrinks(m);
    }
}

/// The calls a `GetRequest` makes: a fetch is started for an unknown
/// digest; a fetch in flight absorbs the request silently; a resident entry
/// is answered at once, with no fetch.
pub open spec fn get_request_trace(
    m: crate::model::CacheModel,
    rid: CacheRequestId,
    d: Sha256Digest,
    delta: Seq<Effect>,
) -> bool {
    if !m.entries.dom().contains(d) {
        delta == seq![Effect::DownloadAndExtract(d, artifact_path(m.root, d))]
    } else {
        match m.entries[d] {
            crate::model::EntryModel::Downloading { .. } => delta.len() == 0,
            _ => delta == seq![
                Effect::GetCompleted(rid, Some((d, artifact_path(m.root, d)))),
            ],
        }
    }
}

/// One successful answer per pending request, in the order they arrived.
pub open spec fn completions(
    root: Seq<char>,
    requests: Seq<CacheRequestId>,
    d: Sha256Digest,
) -> Seq<Effect> {
    Seq::new(
        requests.len(),
        |i: int| Effect::GetCompleted(requests[i], Some((d, artifact_path(root, d)))),
    )
}

/// The calls a successful completion makes: every pending request receives
/// a handle on the artifact's path, then eviction runs.
pub open spec fn success_trace(
    m: crate::model::CacheModel,
    d: Sha256Digest,
    n: u64,
    delta: Seq<Effect>,
) -> bool {
    let requests = m.entries[d]->Downloading_requests;
    let k = requests.len() as int;
    &&& delta.len() >= k
    &&& delta.take(k) == completions(m.root, requests, d)
    &&& eviction_trace(crate::model::success_mid(m, d, n), delta.skip(k))
}

/// One failure answer per pending request, in the order they arrived.
pub open spec fn failures(requests: Seq<CacheRequestId>) -> Seq<Effect> {
    Seq::new(requests.len(), |i: int| Effect::GetCompleted(requests[i], None))
}

/// The calls a failed completion makes: every pending request is answered
/// with nothing, then the artifact's path is probed, and whatever partial
/// state the fetch left behind is moved aside and removed.
pub open spec fn error_trace(
    m: crate::model::CacheModel,
    d: Sha256Digest,
    delta: Seq<Effect>,
) -> bool {
    let requests = m.entries[d]->Downloading_requests;
    let k = requests.len() as int;
    let p = artifact_path(m.root, d);
    &&& delta.len() >= k + 1
    &&& delta.take(k) == failures(requests)
    &&& {
        let rest = delta.skip(k);
        if rest[0] == Effect::FileExists(p, false) {
            rest.len() == 1
        } else {
            rest[0] == Effect::FileExists(p, true) && removal_trace(m.root, p, rest.skip(1))
        }
    }
}

/// The calls a decrement makes: none while users remain; after the last
/// release, eviction runs.
pub open spec fn decrement_trace(
    m: crate::model::CacheModel,
    d: Sha256Digest,
    delta: Seq<Effect>,
) -> bool {
    if m.entries[d]->InUse_refcount > 1 {
        delta.len() == 0
    } else {
        eviction_trace(crate::model::decrement_mid(m, d), delta)
    }
}

/// The exact calls `Cache::receive_message` makes for a message, as a
/// predicate over the slice the message appended to the effect log.
pub open spec fn message_trace(
    m: crate::model::CacheModel,
    msg: crate::Message,
    delta: Seq<Effect>,
) -> bool {
    match msg {
        crate::Message::GetRequest(rid, d) => get_request_trace(m, rid, d, delta),
        crate::Message::DownloadAndExtractCompleted(d, r) => match r {
            Ok(n) => success_trace(m, d, n, delta),
            Err(_) => error_trace(m, d, delta),
        },
        crate::Message::IncrementRefcount(_) => delta.len() == 0,
        crate::Message::DecrementRefcount(d) => decrement_trace(m, d, delta),
    }
}

/// The calls `Cache::new` makes: create `removing/`, resume the removal of
/// whatever the listing finds there, discard a pre-existing `sha256/` by
/// moving it aside, and create `sha256/` afresh.
pub open spec fn new_trace(root: Seq<char>, delta: Seq<Effect>) -> bool {
    &&& delta.len() >= 2
    &&& delta[0] == Effect::MkdirRecursively(removing_dir(root))
    &&& delta[1] is ReadDir
    &&& delta[1]->ReadDir_0 == removing_dir(root)
    &&& {
        let children = delta[1]->ReadDir_1;
        let k = children.len() as int;
        &&& delta.len() >= k + 4
        &&& delta.subrange(2, k + 2) == Seq::new(
            children.len(),
            |i: int| Effect::RemoveRecursively(children[i]),
        )
        &&& {
            let rest = delta.skip(k + 2);
            if rest[0] == Effect::FileExists(sha_dir(root), false) {
                rest.len() == 2 && rest[1] == Effect::MkdirRecursively(sha_dir(root))
            } else {
                &&& rest[0] == Effect::FileExists(sha_dir(root), true)
                &&& removal_trace(root, sha_dir(root), rest.subrange(1, rest.len() - 1))
                &&& rest.last() == Effect::MkdirRecursively(sha_dir(root))
            }
        }
    }
}

/// Whether the collaborator, not the cache, decided what an effect holds:
/// drawn words, existence answers and directory listings.
pub open spec fn is_response(e: Effect) -> bool {
    match e {
        Effect::RandomWord(_) => true,
        Effect::FileExists(_, _) => true,
        Effect::ReadDir(_, _) => true,
        _ => false,
    }
}

/// The words drawn and the answers given back during a sequence of calls,
/// in order: everything in it that the cache did not itself decide.
pub open spec fn responses(delta: Seq<Effect>) -> Seq<Effect>
    decreases delta.len(),
{
    if delta.len() == 0 {
        Seq::empty()
    } else if is_response(delta.first()) {
        seq![delta.first()] + responses(delta.drop_first())
    } else {
        responses(delta.drop_first())
    }
}

pub proof fn lemma_responses_concat(a: Seq<Effect>, b: Seq<Effect>)
    ensures
        responses(a + b) == responses(a) + responses(b),
    decreases a.len(),
{
    if a.len() == 0 {
        assert(a + b =~= b);
        assert(responses(a) + responses(b) =~= responses(b));
    } else {
        lemma_responses_concat(a.drop_first(), b);
        assert((a + b).first() == a.first());
        assert((a + b).drop_first() =~= a.drop_first() + b);
        if is_response(a.first()) {
            assert(seq![a.first()] + (responses(a.drop_first()) + responses(b)) =~= (seq![
                a.first(),
            ] + responses(a.drop_first())) + responses(b));
        }
    }
}

/// Equal sequences with an equal prefix have equal suffixes.
pub proof fn lemma_cancel_prefix(x: Seq<Effect>, y1: Seq<Effect>, y2: Seq<Effect>)
    requires
        x + y1 == x + y2,
    ensures
        y1 == y2,
{
    assert(y1 =~= (x + y1).skip(x.len() as int));
    assert(y2 =~= (x + y2).skip(x.len() as int));
}

} // verus!
