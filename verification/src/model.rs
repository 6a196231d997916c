use vstd::prelude::*;
use crate::digest::Sha256Digest;
use crate::CacheRequestId;

verus! {

/// The mathematical model of one table entry. Executable entries (which hold
/// vectors and machine indices) view to this.
pub enum EntryModel {
    /// A fetch is in flight; the listed requests await its completion.
    Downloading { requests: Seq<CacheRequestId> },
    /// On disk, held by `refcount` live handles.
    InUse { bytes_used: u64, refcount: u32 },
    /// On disk, unreferenced; eligible for eviction at `priority`, currently
    /// sitting at position `heap_index` of the heap.
    InHeap { bytes_used: u64, priority: u64, heap_index: int },
}

/// What an entry is expected to satisfy at rest: a pending-request set is
/// never empty (cancellation is unsupported) and never lists a request twice,
/// and an in-use entry is held by at least one handle.
pub open spec fn entry_wf(e: EntryModel) -> bool {
    match e {
        EntryModel::Downloading { requests } => requests.len() >= 1 && forall|i: int, j: int|
            0 <= i < j < requests.len() ==> requests[i] != requests[j],
        EntryModel::InUse { refcount, .. } => refcount >= 1,
        EntryModel::InHeap { .. } => true,
    }
}

/// The bytes an entry contributes to the cache total: fetches in flight have
/// no known size yet and contribute nothing.
pub open spec fn entry_bytes(e: EntryModel) -> int {
    match e {
        EntryModel::Downloading { .. } => 0,
        EntryModel::InUse { bytes_used, .. } => bytes_used as int,
        EntryModel::InHeap { bytes_used, .. } => bytes_used as int,
    }
}

/// The sum of `entry_bytes` over every entry of the table.
pub open spec fn total_bytes(m: Map<Sha256Digest, EntryModel>) -> int
    decreases m.dom().len(),
{
    if m.dom().finite() && m.dom().len() > 0 {
        let d = m.dom().choose();
        entry_bytes(m[d]) + total_bytes(m.remove(d))
    } else {
        0
    }
}

/// The sum over a table does not depend on which member is split off first.
pub proof fn lemma_total_bytes_pick(m: Map<Sha256Digest, EntryModel>, k: Sha256Digest)
    requires
        m.dom().finite(),
        m.dom().contains(k),
    ensures
        total_bytes(m) == entry_bytes(m[k]) + total_bytes(m.remove(k)),
    decreases m.dom().len(),
{
    let d = m.dom().choose();
    assert(m.dom().contains(d));
    if d == k {
    } else {
        lemma_total_bytes_pick(m.remove(d), k);
        lemma_total_bytes_pick(m.remove(k), d);
        assert(m.remove(d).remove(k) =~= m.remove(k).remove(d));
    }
}

pub proof fn lemma_total_bytes_insert(m: Map<Sha256Digest, EntryModel>, k: Sha256Digest, v: EntryModel)
    requires
        m.dom().finite(),
    ensures
        total_bytes(m.insert(k, v)) == total_bytes(m) + entry_bytes(v) - (
        if m.dom().contains(k) {
            entry_bytes(m[k])
        } else {
            0
        }),
{
    lemma_total_bytes_pick(m.insert(k, v), k);
    assert(m.insert(k, v).remove(k) =~= m.remove(k));
    if m.dom().contains(k) {
        lemma_total_bytes_pick(m, k);
    } else {
        assert(m.remove(k) =~= m);
    }
}

pub proof fn lemma_total_bytes_remove(m: Map<Sha256Digest, EntryModel>, k: Sha256Digest)
    requires
        m.dom().finite(),
        m.dom().contains(k),
    ensures
        total_bytes(m.remove(k)) == total_bytes(m) - entry_bytes(m[k]),
{
    lemma_total_bytes_pick(m, k);
}

pub proof fn lemma_total_bytes_nonneg(m: Map<Sha256Digest, EntryModel>)
    requires
        m.dom().finite(),
    ensures
        total_bytes(m) >= 0,
    decreases m.dom().len(),
{
    if m.dom().len() > 0 {
        let d = m.dom().choose();
        assert(m.dom().contains(d));
        lemma_total_bytes_nonneg(m.remove(d));
    }
}

/// The digests whose entries sit in the heap.
pub open spec fn in_heap_set(m: Map<Sha256Digest, EntryModel>) -> Set<Sha256Digest> {
    m.dom().filter(|d: Sha256Digest| m[d] is InHeap)
}

/// The eviction priority of an in-heap entry.
pub open spec fn prio(m: Map<Sha256Digest, EntryModel>, d: Sha256Digest) -> u64 {
    m[d]->InHeap_priority
}

/// The cache's observable state: what every contract of `Cache` speaks of.
/// Where an `InHeap` entry sits inside the heap's array is the one thing the
/// transitions below leave open; `heap_index` fields are compared only up to
/// `same_except_indices`.
#[verifier::ext_equal]
pub struct CacheModel {
    pub root: Seq<char>,
    pub entries: Map<Sha256Digest, EntryModel>,
    pub next_priority: u64,
    pub bytes_used: u64,
    pub bytes_used_goal: u64,
}

/// Priorities are stamped from the `next_priority` counter, so they all lie
/// below it and no two in-heap entries share one.
pub open spec fn priorities_wf(m: CacheModel) -> bool {
    &&& forall|d: Sha256Digest|
        m.entries.dom().contains(d) && #[trigger] m.entries[d] is InHeap
            ==> m.entries[d]->InHeap_priority < m.next_priority
    &&& forall|d1: Sha256Digest, d2: Sha256Digest|
        m.entries.dom().contains(d1) && m.entries.dom().contains(d2) && #[trigger] m.entries[d1] is InHeap
            && #[trigger] m.entries[d2] is InHeap && d1 != d2 ==> m.entries[d1]->InHeap_priority
            != m.entries[d2]->InHeap_priority
}

/// The entry-level invariants of a reachable cache state: every entry is
/// well formed, the byte total is the sum over the table, and priorities
/// are fresh and pairwise distinct.
pub open spec fn model_wf(m: CacheModel) -> bool {
    &&& m.entries.dom().finite()
    &&& forall|d: Sha256Digest| m.entries.dom().contains(d) ==> entry_wf(#[trigger] m.entries[d])
    &&& total_bytes(m.entries) == m.bytes_used
    &&& priorities_wf(m)
}

/// `b` is `a` with only `heap_index` fields changed: the states, byte sizes
/// and priorities of every entry are untouched.
pub open spec fn entry_same_except_index(a: EntryModel, b: EntryModel) -> bool {
    match (a, b) {
        (
            EntryModel::InHeap { bytes_used: b1, priority: p1, heap_index: _ },
            EntryModel::InHeap { bytes_used: b2, priority: p2, heap_index: _ },
        ) => b1 == b2 && p1 == p2,
        _ => a == b,
    }
}

/// The two tables hold the same digests in the same states, differing at
/// most in where their `InHeap` entries claim to sit.
pub open spec fn same_except_indices(
    m1: Map<Sha256Digest, EntryModel>,
    m2: Map<Sha256Digest, EntryModel>,
) -> bool {
    m1.dom() =~= m2.dom() && forall|d: Sha256Digest|
        m1.dom().contains(d) ==> entry_same_except_index(#[trigger] m1[d], #[trigger] m2[d])
}

pub proof fn lemma_same_except_indices_trans(
    m1: Map<Sha256Digest, EntryModel>,
    m2: Map<Sha256Digest, EntryModel>,
    m3: Map<Sha256Digest, EntryModel>,
)
    requires
        same_except_indices(m1, m2),
        same_except_indices(m2, m3),
    ensures
        same_except_indices(m1, m3),
{
    assert forall|d: Sha256Digest|
        m1.dom().contains(d) implies entry_same_except_index(#[trigger] m1[d], #[trigger] m3[d]) by {
        assert(entry_same_except_index(m1[d], m2[d]));
        assert(entry_same_except_index(m2[d], m3[d]));
    }
}

/// How a computed state is held against a specified one: equal in every
/// field, except that `heap_index` fields may differ — where an entry sits
/// inside the heap's array is the heap's business, not the transition's.
pub open spec fn state_matches(a: CacheModel, b: CacheModel) -> bool {
    &&& a.root == b.root
    &&& a.next_priority == b.next_priority
    &&& a.bytes_used == b.bytes_used
    &&& a.bytes_used_goal == b.bytes_used_goal
    &&& same_except_indices(a.entries, b.entries)
}

/// Entry byte counts survive index changes, so so does the total.
pub proof fn lemma_total_bytes_same_except(
    m1: Map<Sha256Digest, EntryModel>,
    m2: Map<Sha256Digest, EntryModel>,
)
    requires
        m1.dom().finite(),
        same_except_indices(m1, m2),
    ensures
        total_bytes(m2) == total_bytes(m1),
    decreases m1.dom().len(),
{
    if m1.dom().len() > 0 {
        let d = m1.dom().choose();
        assert(m1.dom().contains(d));
        assert(m2.dom().contains(d));
        lemma_total_bytes_pick(m2, d);
        assert(entry_same_except_index(m1[d], m2[d]));
        assert(entry_bytes(m2[d]) == entry_bytes(m1[d]));
        assert(same_except_indices(m1.remove(d), m2.remove(d)));
        lemma_total_bytes_same_except(m1.remove(d), m2.remove(d));
    } else {
        assert(m2.dom() =~= m1.dom());
    }
}

/// Everything `model_wf` demands is blind to heap indices.
pub proof fn lemma_model_wf_transfer(a: CacheModel, b: CacheModel)
    requires
        model_wf(a),
        state_matches(a, b),
    ensures
        model_wf(b),
{
    lemma_total_bytes_same_except(a.entries, b.entries);
    assert forall|d: Sha256Digest| b.entries.dom().contains(d) implies entry_wf(
        #[trigger] b.entries[d],
    ) by {
        assert(entry_same_except_index(a.entries[d], b.entries[d]));
        assert(entry_wf(a.entries[d]));
    }
    assert forall|d: Sha256Digest|
        b.entries.dom().contains(d) && #[trigger] b.entries[d] is InHeap implies b.entries[d]->InHeap_priority
        < b.next_priority by {
        assert(entry_same_except_index(a.entries[d], b.entries[d]));
        assert(a.entries[d] is InHeap);
    }
    assert forall|d1: Sha256Digest, d2: Sha256Digest|
        b.entries.dom().contains(d1) && b.entries.dom().contains(d2)
            && #[trigger] b.entries[d1] is InHeap && #[trigger] b.entries[d2] is InHeap && d1
            != d2 implies b.entries[d1]->InHeap_priority != b.entries[d2]->InHeap_priority by {
        assert(entry_same_except_index(a.entries[d1], b.entries[d1]));
        assert(entry_same_except_index(a.entries[d2], b.entries[d2]));
        assert(a.entries[d1] is InHeap && a.entries[d2] is InHeap);
    }
}

/// With pairwise-distinct priorities, there is only one least entry, so
/// whatever is least is what `min_prio_digest` names.
pub proof fn lemma_min_prio_unique(entries: Map<Sha256Digest, EntryModel>, d: Sha256Digest)
    requires
        is_min_prio(entries, d),
        forall|d1: Sha256Digest, d2: Sha256Digest|
            entries.dom().contains(d1) && entries.dom().contains(d2) && #[trigger] entries[d1] is InHeap
                && #[trigger] entries[d2] is InHeap && d1 != d2 ==> entries[d1]->InHeap_priority
                != entries[d2]->InHeap_priority,
    ensures
        min_prio_digest(entries) == d,
{
    let w = min_prio_digest(entries);
    assert(is_min_prio(entries, w));
    if w != d {
        assert(prio(entries, w) <= prio(entries, d));
        assert(prio(entries, d) <= prio(entries, w));
        assert(false);
    }
}

/// `d` is in the heap and no in-heap entry has a smaller priority.
pub open spec fn is_min_prio(entries: Map<Sha256Digest, EntryModel>, d: Sha256Digest) -> bool {
    &&& entries.dom().contains(d)
    &&& entries[d] is InHeap
    &&& forall|d2: Sha256Digest|
        entries.dom().contains(d2) && #[trigger] entries[d2] is InHeap ==> prio(entries, d)
            <= prio(entries, d2)
}

/// The next entry eviction would remove: the least-priority one.
pub open spec fn min_prio_digest(entries: Map<Sha256Digest, EntryModel>) -> Sha256Digest {
    choose|d: Sha256Digest| is_min_prio(entries, d)
}

/// Eviction continues while the total exceeds the goal and an evictable
/// entry remains.
pub open spec fn needs_eviction(m: CacheModel) -> bool {
    m.bytes_used > m.bytes_used_goal && in_heap_set(m.entries).len() > 0 && m.entries.dom().finite()
}

/// Remove the least-priority in-heap entry and release its bytes.
pub open spec fn evict_one(m: CacheModel) -> CacheModel {
    let d = min_prio_digest(m.entries);
    CacheModel {
        entries: m.entries.remove(d),
        bytes_used: (m.bytes_used - entry_bytes(m.entries[d])) as u64,
        ..m
    }
}

/// Evict least-priority entries until the total is within the goal or
/// nothing evictable remains. `InUse` and `Downloading` entries are never
/// touched.
pub open spec fn evict_all(m: CacheModel) -> CacheModel
    decreases in_heap_set(m.entries).len(),
    via evict_all_decreases
{
    if needs_eviction(m) {
        evict_all(evict_one(m))
    } else {
        m
    }
}

pub proof fn lemma_evict_one_shrinks(m: CacheModel)
    requires
        needs_eviction(m),
    ensures
        is_min_prio(m.entries, min_prio_digest(m.entries)),
        in_heap_set(evict_one(m).entries) =~= in_heap_set(m.entries).remove(min_prio_digest(m.entries)),
        in_heap_set(evict_one(m).entries).len() < in_heap_set(m.entries).len(),
{
    let s = in_heap_set(m.entries);
    m.entries.dom().lemma_len_filter(|d: Sha256Digest| m.entries[d] is InHeap);
    lemma_min_prio_exists(m.entries, s);
    let w = choose|d: Sha256Digest|
        s.contains(d) && (forall|d2: Sha256Digest| s.contains(d2) ==> prio(m.entries, d) <= prio(
            m.entries,
            d2,
        ));
    assert(is_min_prio(m.entries, w)) by {
        assert forall|d2: Sha256Digest|
            m.entries.dom().contains(d2) && #[trigger] m.entries[d2] is InHeap implies prio(
            m.entries,
            w,
        ) <= prio(m.entries, d2) by {
            assert(s.contains(d2));
        }
    }
    let d = min_prio_digest(m.entries);
    assert(is_min_prio(m.entries, d));
    assert(s.contains(d));
    assert(in_heap_set(evict_one(m).entries) =~= s.remove(d));
}

#[via_fn]
proof fn evict_all_decreases(m: CacheModel) {
    if needs_eviction(m) {
        lemma_evict_one_shrinks(m);
    }
}

/// When a `GetRequest` is acceptable: a request still downloading must not
/// be repeated, and an in-use entry must have room for one more user.
pub open spec fn get_request_ok(m: CacheModel, rid: CacheRequestId, d: Sha256Digest) -> bool {
    if m.entries.dom().contains(d) {
        match m.entries[d] {
            EntryModel::Downloading { requests } => !requests.contains(rid),
            EntryModel::InUse { refcount, .. } => refcount < u32::MAX,
            EntryModel::InHeap { .. } => true,
        }
    } else {
        true
    }
}

/// The state after a `GetRequest`: an unknown digest starts a fetch; a
/// fetch in flight gains one more waiting request; an in-use entry gains a
/// user; an in-heap entry is promoted back to use with one user.
pub open spec fn get_request_next(m: CacheModel, rid: CacheRequestId, d: Sha256Digest) -> CacheModel {
    if !m.entries.dom().contains(d) {
        CacheModel {
            entries: m.entries.insert(d, EntryModel::Downloading { requests: seq![rid] }),
            ..m
        }
    } else {
        match m.entries[d] {
            EntryModel::Downloading { requests } => CacheModel {
                entries: m.entries.insert(
                    d,
                    EntryModel::Downloading { requests: requests.push(rid) },
                ),
                ..m
            },
            EntryModel::InUse { bytes_used, refcount } => CacheModel {
                entries: m.entries.insert(
                    d,
                    EntryModel::InUse { bytes_used, refcount: (refcount + 1) as u32 },
                ),
                ..m
            },
            EntryModel::InHeap { bytes_used, .. } => CacheModel {
                entries: m.entries.insert(d, EntryModel::InUse { bytes_used, refcount: 1 }),
                ..m
            },
        }
    }
}

/// A completion is only ever delivered for a fetch in flight; on success
/// the pending requests become the first users and the byte total must not
/// overflow.
pub open spec fn success_ok(m: CacheModel, d: Sha256Digest, n: u64) -> bool {
    &&& m.entries.dom().contains(d)
    &&& m.entries[d] is Downloading
    &&& m.entries[d]->Downloading_requests.len() <= u32::MAX
    &&& m.bytes_used + n <= u64::MAX
}

/// The state after a successful fetch: the entry holds its size and one
/// user per answered request, the total grows, and eviction brings it back
/// under the goal as far as evictable entries allow.
pub open spec fn success_mid(m: CacheModel, d: Sha256Digest, n: u64) -> CacheModel {
    let requests = m.entries[d]->Downloading_requests;
    CacheModel {
        entries: m.entries.insert(
            d,
            EntryModel::InUse { bytes_used: n, refcount: requests.len() as u32 },
        ),
        bytes_used: (m.bytes_used + n) as u64,
        ..m
    }
}

pub open spec fn success_next(m: CacheModel, d: Sha256Digest, n: u64) -> CacheModel {
    evict_all(success_mid(m, d, n))
}

pub open spec fn error_ok(m: CacheModel, d: Sha256Digest) -> bool {
    m.entries.dom().contains(d) && m.entries[d] is Downloading
}

/// The state after a failed fetch: the digest is forgotten entirely, so a
/// later request starts afresh.
pub open spec fn error_next(m: CacheModel, d: Sha256Digest) -> CacheModel {
    CacheModel { entries: m.entries.remove(d), ..m }
}

pub open spec fn increment_ok(m: CacheModel, d: Sha256Digest) -> bool {
    &&& m.entries.dom().contains(d)
    &&& m.entries[d] is InUse
    &&& m.entries[d]->InUse_refcount < u32::MAX
}

pub open spec fn increment_next(m: CacheModel, d: Sha256Digest) -> CacheModel {
    let e = m.entries[d];
    CacheModel {
        entries: m.entries.insert(
            d,
            EntryModel::InUse {
                bytes_used: e->InUse_bytes_used,
                refcount: (e->InUse_refcount + 1) as u32,
            },
        ),
        ..m
    }
}

/// A decrement must match an increment, so it only ever meets an in-use
/// entry; the release that takes an entry out of use stamps a fresh
/// priority, which must not overflow.
pub open spec fn decrement_ok(m: CacheModel, d: Sha256Digest) -> bool {
    &&& m.entries.dom().contains(d)
    &&& m.entries[d] is InUse
    &&& (m.entries[d]->InUse_refcount == 1 ==> m.next_priority < u64::MAX)
}

/// The state after a decrement: one user fewer, or, for the last user, the
/// entry moves to the heap under a fresh priority and eviction runs.
pub open spec fn decrement_next(m: CacheModel, d: Sha256Digest) -> CacheModel {
    let e = m.entries[d];
    if e->InUse_refcount > 1 {
        CacheModel {
            entries: m.entries.insert(
                d,
                EntryModel::InUse {
                    bytes_used: e->InUse_bytes_used,
                    refcount: (e->InUse_refcount - 1) as u32,
                },
            ),
            ..m
        }
    } else {
        evict_all(decrement_mid(m, d))
    }
}

/// The state just after the last user releases an entry, before eviction
/// runs: the entry sits in the heap under the freshly stamped priority.
pub open spec fn decrement_mid(m: CacheModel, d: Sha256Digest) -> CacheModel {
    let e = m.entries[d];
    CacheModel {
        entries: m.entries.insert(
            d,
            EntryModel::InHeap {
                bytes_used: e->InUse_bytes_used,
                priority: m.next_priority,
                heap_index: 0,
            },
        ),
        next_priority: (m.next_priority + 1) as u64,
        ..m
    }
}

/// When `Cache::receive_message` accepts a message: the protocol conditions
/// whose violation the design treats as fatal.
pub open spec fn message_ok(m: CacheModel, msg: crate::Message) -> bool {
    match msg {
        crate::Message::GetRequest(rid, d) => get_request_ok(m, rid, d),
        crate::Message::DownloadAndExtractCompleted(d, r) => match r {
            Ok(n) => success_ok(m, d, n),
            Err(_) => error_ok(m, d),
        },
        crate::Message::IncrementRefcount(d) => increment_ok(m, d),
        crate::Message::DecrementRefcount(d) => decrement_ok(m, d),
    }
}

/// The state a message leads to.
pub open spec fn message_next(m: CacheModel, msg: crate::Message) -> CacheModel {
    match msg {
        crate::Message::GetRequest(rid, d) => get_request_next(m, rid, d),
        crate::Message::DownloadAndExtractCompleted(d, r) => match r {
            Ok(n) => success_next(m, d, n),
            Err(_) => error_next(m, d),
        },
        crate::Message::IncrementRefcount(d) => increment_next(m, d),
        crate::Message::DecrementRefcount(d) => decrement_next(m, d),
    }
}

/// A nonempty finite collection of in-heap entries has one of least priority.
pub proof fn lemma_min_prio_exists(m: Map<Sha256Digest, EntryModel>, s: Set<Sha256Digest>)
    requires
        s.finite(),
        s.len() > 0,
        s.subset_of(in_heap_set(m)),
    ensures
        exists|d: Sha256Digest|
            s.contains(d) && (forall|d2: Sha256Digest| s.contains(d2) ==> prio(m, d) <= prio(m, d2)),
    decreases s.len(),
{
    let x = s.choose();
    assert(s.contains(x));
    let rest = s.remove(x);
    if rest.len() == 0 {
        assert(rest =~= Set::empty());
        assert(forall|d2: Sha256Digest| s.contains(d2) ==> d2 == x);
        assert(s.contains(x) && (forall|d2: Sha256Digest| s.contains(d2) ==> prio(m, x) <= prio(m, d2)));
    } else {
        lemma_min_prio_exists(m, rest);
        let y = choose|d: Sha256Digest|
            rest.contains(d) && (forall|d2: Sha256Digest| rest.contains(d2) ==> prio(m, d) <= prio(m, d2));
        if prio(m, x) <= prio(m, y) {
            assert(forall|d2: Sha256Digest| s.contains(d2) && d2 != x ==> rest.contains(d2));
            assert(s.contains(x) && (forall|d2: Sha256Digest| s.contains(d2) ==> prio(m, x) <= prio(m, d2)));
        } else {
            assert(s.contains(y) && (forall|d2: Sha256Digest| s.contains(d2) ==> prio(m, y) <= prio(m, d2)));
        }
    }
}

} // verus!
