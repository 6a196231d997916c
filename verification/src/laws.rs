use vstd::prelude::*;
use crate::cache::Cache;
use crate::digest::Sha256Digest;
use crate::effects::{
    artifact_path, eviction_trace, get_request_trace, removal_trace, removal_trace_n,
    removing_path, success_trace, Effect,
};
use crate::heap::{entries_covered, heap_wf, ordered, slots_match};
use crate::model::{
    decrement_mid, decrement_next, decrement_ok, entry_bytes, evict_all, evict_one,
    get_request_next, get_request_ok, in_heap_set, lemma_evict_one_shrinks, min_prio_digest,
    model_wf, needs_eviction, success_next, success_ok, total_bytes, CacheModel, EntryModel,
};
use crate::CacheRequestId;

verus! {

/// In every reachable cache: each heap slot holds an `InHeap` entry whose
/// recorded index is that slot, and each `InHeap` entry occupies the slot it
/// records; the heap order holds between every parent and child; the byte
/// total equals the sum over the table; and every `InUse` entry is held by
/// at least one handle.
pub proof fn law_reachable_state_invariants(c: &Cache)
    requires
        c.wf(),
    ensures
        slots_match(c.heap_seq(), c@.entries),
        entries_covered(c.heap_seq(), c@.entries),
        ordered(c.heap_seq(), c@.entries),
        total_bytes(c@.entries) == c@.bytes_used,
        forall|d: Sha256Digest|
            c@.entries.dom().contains(d) && #[trigger] c@.entries[d] is InUse
                ==> c@.entries[d]->InUse_refcount > 0,
{
    assert forall|d: Sha256Digest|
        c@.entries.dom().contains(d) && #[trigger] c@.entries[d] is InUse implies c@.entries[d]->InUse_refcount
        > 0 by {
        assert(crate::model::entry_wf(c@.entries[d]));
    }
}

/// Eviction never touches an entry that is in use or still downloading:
/// however far the eviction loop runs, such an entry survives unchanged.
pub proof fn law_eviction_spares_entries_in_use(m: CacheModel, d: Sha256Digest)
    requires
        m.entries.dom().contains(d),
        !(m.entries[d] is InHeap),
    ensures
        evict_all(m).entries.dom().contains(d),
        evict_all(m).entries[d] == m.entries[d],
    decreases in_heap_set(m.entries).len(),
{
    if needs_eviction(m) {
        lemma_evict_one_shrinks(m);
        assert(min_prio_digest(m.entries) != d);
        law_eviction_spares_entries_in_use(evict_one(m), d);
    }
}

/// Eviction changes no field but the table and the byte total.
pub proof fn law_evict_all_fields(m: CacheModel)
    ensures
        evict_all(m).root == m.root,
        evict_all(m).next_priority == m.next_priority,
        evict_all(m).bytes_used_goal == m.bytes_used_goal,
    decreases in_heap_set(m.entries).len(),
{
    if needs_eviction(m) {
        lemma_evict_one_shrinks(m);
        law_evict_all_fields(evict_one(m));
    }
}

/// The digest a message is about.
pub open spec fn message_digest(msg: crate::Message) -> Sha256Digest {
    match msg {
        crate::Message::GetRequest(_, d) => d,
        crate::Message::DownloadAndExtractCompleted(d, _) => d,
        crate::Message::IncrementRefcount(d) => d,
        crate::Message::DecrementRefcount(d) => d,
    }
}

/// No message ever evicts or alters an entry that is in use or still
/// downloading, other than the one entry the message itself is about: the
/// eviction that a completion or release triggers removes `InHeap` entries
/// only.
pub proof fn law_no_message_evicts_entries_in_use(
    m: CacheModel,
    msg: crate::Message,
    d2: Sha256Digest,
)
    requires
        model_wf(m),
        crate::model::message_ok(m, msg),
        m.entries.dom().contains(d2),
        !(m.entries[d2] is InHeap),
        d2 != message_digest(msg),
    ensures
        crate::model::message_next(m, msg).entries.dom().contains(d2),
        crate::model::message_next(m, msg).entries[d2] == m.entries[d2],
{
    match msg {
        crate::Message::GetRequest(_, _) => {
        },
        crate::Message::DownloadAndExtractCompleted(d, r) => match r {
            Ok(n) => {
                law_eviction_spares_entries_in_use(crate::model::success_mid(m, d, n), d2);
            },
            Err(_) => {
            },
        },
        crate::Message::IncrementRefcount(_) => {
        },
        crate::Message::DecrementRefcount(d) => {
            if m.entries[d]->InUse_refcount <= 1 {
                law_eviction_spares_entries_in_use(decrement_mid(m, d), d2);
            }
        },
    }
}

/// The priority counter never moves backwards, whatever the message.
pub proof fn law_priority_counter_monotonic(m: CacheModel, msg: crate::Message)
    requires
        model_wf(m),
        crate::model::message_ok(m, msg),
    ensures
        crate::model::message_next(m, msg).next_priority >= m.next_priority,
{
    match msg {
        crate::Message::DownloadAndExtractCompleted(d, r) => match r {
            Ok(n) => {
                law_evict_all_fields(crate::model::success_mid(m, d, n));
            },
            Err(_) => {
            },
        },
        crate::Message::DecrementRefcount(d) => {
            if m.entries[d]->InUse_refcount <= 1 {
                law_evict_all_fields(decrement_mid(m, d));
            }
        },
        _ => {
        },
    }
}

/// The priority counter is strictly monotonic across releases: the release
/// that drops a refcount to zero stamps the entry with the current counter
/// value — above every priority already in the heap — and advances the
/// counter, so a later release always stamps a strictly greater priority.
pub proof fn law_release_priorities_increase(m: CacheModel, d: Sha256Digest)
    requires
        model_wf(m),
        decrement_ok(m, d),
        m.entries[d]->InUse_refcount == 1,
    ensures
        decrement_mid(m, d).entries[d]->InHeap_priority == m.next_priority,
        decrement_next(m, d).next_priority == m.next_priority + 1,
        forall|d2: Sha256Digest|
            m.entries.dom().contains(d2) && #[trigger] m.entries[d2] is InHeap
                ==> m.entries[d2]->InHeap_priority < m.next_priority,
{
    law_evict_all_fields(decrement_mid(m, d));
}

/// Fetch-then-release on an empty cache ends in exactly one of two states:
/// the artifact resident in the heap with its size charged, if it fits the
/// goal, or a cache holding nothing at all, if it does not.
pub proof fn law_fetch_then_release(m: CacheModel, rid: CacheRequestId, d: Sha256Digest, n: u64)
    requires
        model_wf(m),
        m.entries == Map::<Sha256Digest, EntryModel>::empty(),
        m.bytes_used == 0,
        m.next_priority < u64::MAX,
    ensures
        get_request_ok(m, rid, d),
        success_ok(get_request_next(m, rid, d), d, n),
        decrement_ok(success_next(get_request_next(m, rid, d), d, n), d),
        ({
            let m3 = decrement_next(success_next(get_request_next(m, rid, d), d, n), d);
            if n <= m.bytes_used_goal {
                m3.bytes_used == n && m3.entries.dom().contains(d) && m3.entries[d] is InHeap
                    && m3.entries[d]->InHeap_bytes_used == n
            } else {
                m3.bytes_used == 0 && !m3.entries.dom().contains(d)
            }
        }),
        forall|delta: Seq<Effect>| #[trigger] crate::effects::decrement_trace(
            success_next(get_request_next(m, rid, d), d, n),
            d,
            delta,
        ) ==> (if n <= m.bytes_used_goal {
            delta.len() == 0
        } else {
            removal_trace(m.root, artifact_path(m.root, d), delta)
        }),
{
    let m1 = get_request_next(m, rid, d);
    assert(m1.entries =~= Map::empty().insert(
        d,
        EntryModel::Downloading { requests: seq![rid] },
    ));
    assert(m1.entries[d]->Downloading_requests.len() == 1);
    let mid = crate::model::success_mid(m1, d, n);
    assert(mid.entries =~= Map::empty().insert(d, EntryModel::InUse { bytes_used: n, refcount: 1 }));
    assert(in_heap_set(mid.entries) =~= Set::<Sha256Digest>::empty());
    assert(!needs_eviction(mid));
    let m2 = success_next(m1, d, n);
    assert(m2 == mid);
    assert(m2.entries[d] is InUse && m2.entries[d]->InUse_refcount == 1);
    let mid2 = decrement_mid(m2, d);
    let e = EntryModel::InHeap { bytes_used: n, priority: m.next_priority, heap_index: 0 };
    assert(mid2.entries =~= Map::empty().insert(d, e));
    let m3 = decrement_next(m2, d);
    if n <= m.bytes_used_goal {
        assert(!needs_eviction(mid2));
        assert(m3 == mid2);
        assert forall|delta: Seq<Effect>| #[trigger] crate::effects::decrement_trace(
            m2,
            d,
            delta,
        ) implies delta.len() == 0 by {}
    } else {
        assert(in_heap_set(mid2.entries) =~= Set::<Sha256Digest>::empty().insert(d));
        assert(crate::model::is_min_prio(mid2.entries, d));
        crate::model::lemma_min_prio_unique(mid2.entries, d);
        assert(needs_eviction(mid2));
        let m4 = evict_one(mid2);
        assert(m4.entries =~= Map::<Sha256Digest, EntryModel>::empty());
        assert(m4.bytes_used == 0);
        assert(in_heap_set(m4.entries) =~= Set::<Sha256Digest>::empty());
        assert(!needs_eviction(m4));
        assert(evict_all(m4) == m4);
        assert(m3 == m4);
        assert forall|delta: Seq<Effect>| #[trigger] crate::effects::decrement_trace(
            m2,
            d,
            delta,
        ) implies removal_trace(m.root, artifact_path(m.root, d), delta) by {
            let k = choose|k: int|
                0 <= k <= delta.len() && removal_trace(
                    mid2.root,
                    artifact_path(mid2.root, min_prio_digest(mid2.entries)),
                    #[trigger] delta.take(k),
                ) && eviction_trace(evict_one(mid2), delta.skip(k));
            assert(delta.skip(k).len() == 0);
            assert(delta.take(k) =~= delta);
        }
    }
}

/// Promotion is idempotent up to recency: requesting an in-heap entry and
/// releasing it again leaves it in the heap with the same size but a
/// strictly greater priority — it has become the most recently released.
pub proof fn law_promotion_refreshes_priority(m: CacheModel, rid: CacheRequestId, d: Sha256Digest)
    requires
        model_wf(m),
        m.entries.dom().contains(d),
        m.entries[d] is InHeap,
        m.bytes_used <= m.bytes_used_goal,
        m.next_priority < u64::MAX,
    ensures
        get_request_ok(m, rid, d),
        decrement_ok(get_request_next(m, rid, d), d),
        ({
            let m2 = decrement_next(get_request_next(m, rid, d), d);
            &&& m2.entries.dom().contains(d)
            &&& m2.entries[d] is InHeap
            &&& m2.entries[d]->InHeap_bytes_used == m.entries[d]->InHeap_bytes_used
            &&& m2.entries[d]->InHeap_priority > m.entries[d]->InHeap_priority
        }),
        forall|delta: Seq<Effect>| #[trigger] crate::effects::decrement_trace(
            get_request_next(m, rid, d),
            d,
            delta,
        ) ==> delta.len() == 0,
{
    let bu = m.entries[d]->InHeap_bytes_used;
    let m1 = get_request_next(m, rid, d);
    assert(m1.entries == m.entries.insert(d, EntryModel::InUse { bytes_used: bu, refcount: 1 }));
    let mid = decrement_mid(m1, d);
    assert(mid.entries =~= m.entries.insert(
        d,
        EntryModel::InHeap { bytes_used: bu, priority: m.next_priority, heap_index: 0 },
    ));
    assert(mid.bytes_used == m.bytes_used);
    assert(!needs_eviction(mid));
    assert(decrement_next(m1, d) == mid);
    assert forall|delta: Seq<Effect>| #[trigger] crate::effects::decrement_trace(
        m1,
        d,
        delta,
    ) implies delta.len() == 0 by {}
}

/// Removal traces hold no request answers: eviction and cleanup never speak
/// to a waiting caller.
pub proof fn law_removal_trace_no_answers(root: Seq<char>, src: Seq<char>, delta: Seq<Effect>, rem: int)
    requires
        removal_trace_n(root, src, delta, rem),
    ensures
        forall|j: int|
            0 <= j < delta.len() ==> !(#[trigger] delta[j] is GetCompleted) && !(delta[j] is DownloadAndExtract),
    decreases delta.len(),
{
    let w = delta[0]->RandomWord_0;
    let target = removing_path(root, w);
    if delta[1] == Effect::FileExists(target, true) && rem > 1 {
        law_removal_trace_no_answers(root, src, delta.skip(2), rem - 1);
        assert forall|j: int|
            0 <= j < delta.len() implies !(#[trigger] delta[j] is GetCompleted) && !(delta[j] is DownloadAndExtract) by {
            if j >= 2 {
                assert(delta[j] == delta.skip(2)[j - 2]);
            }
        }
    }
}

/// Whole eviction rounds hold no request answers either.
pub proof fn law_eviction_trace_no_answers(m: CacheModel, delta: Seq<Effect>)
    requires
        eviction_trace(m, delta),
    ensures
        forall|j: int|
            0 <= j < delta.len() ==> !(#[trigger] delta[j] is GetCompleted) && !(delta[j] is DownloadAndExtract),
    decreases in_heap_set(m.entries).len(),
{
    if needs_eviction(m) {
        lemma_evict_one_shrinks(m);
        let k = choose|k: int|
            0 <= k <= delta.len() && removal_trace(
                m.root,
                artifact_path(m.root, min_prio_digest(m.entries)),
                #[trigger] delta.take(k),
            ) && eviction_trace(evict_one(m), delta.skip(k));
        law_removal_trace_no_answers(
            m.root,
            artifact_path(m.root, min_prio_digest(m.entries)),
            delta.take(k),
            u64::MAX as int,
        );
        law_eviction_trace_no_answers(evict_one(m), delta.skip(k));
        assert forall|j: int|
            0 <= j < delta.len() implies !(#[trigger] delta[j] is GetCompleted) && !(delta[j] is DownloadAndExtract) by {
            if j < k {
                assert(delta[j] == delta.take(k)[j]);
            } else {
                assert(delta[j] == delta.skip(k)[j - k]);
            }
        }
    }
}

/// On a successful fetch every pending request is answered exactly once,
/// all with the same artifact path: answer `i` goes to request `i`, no two
/// pending requests are alike, and nothing after the answers is an answer.
pub proof fn law_one_handle_per_request(m: CacheModel, d: Sha256Digest, n: u64, delta: Seq<Effect>)
    requires
        model_wf(m),
        success_ok(m, d, n),
        success_trace(m, d, n, delta),
    ensures
        ({
            let requests = m.entries[d]->Downloading_requests;
            &&& forall|i: int|
                0 <= i < requests.len() ==> delta[i] == Effect::GetCompleted(
                    requests[i],
                    Some((d, artifact_path(m.root, d))),
                )
            &&& forall|i: int, j: int|
                0 <= i < j < requests.len() ==> requests[i] != requests[j]
            &&& forall|j: int|
                requests.len() <= j < delta.len() ==> !(#[trigger] delta[j] is GetCompleted)
        }),
{
    let requests = m.entries[d]->Downloading_requests;
    let k = requests.len() as int;
    assert(crate::model::entry_wf(m.entries[d]));
    assert forall|i: int|
        0 <= i < requests.len() implies delta[i] == Effect::GetCompleted(
        requests[i],
        Some((d, artifact_path(m.root, d))),
    ) by {
        assert(delta[i] == delta.take(k)[i]);
    }
    law_eviction_trace_no_answers(crate::model::success_mid(m, d, n), delta.skip(k));
    assert forall|j: int|
        requests.len() <= j < delta.len() implies !(#[trigger] delta[j] is GetCompleted) by {
        assert(delta[j] == delta.skip(k)[j - k]);
    }
}

/// On a failed fetch every pending request is answered exactly once, each
/// with nothing — no handle exists anywhere in the trace — and nothing
/// after the answers is an answer.
pub proof fn law_one_answer_per_request_on_error(m: CacheModel, d: Sha256Digest, delta: Seq<Effect>)
    requires
        model_wf(m),
        crate::model::error_ok(m, d),
        crate::effects::error_trace(m, d, delta),
    ensures
        ({
            let requests = m.entries[d]->Downloading_requests;
            &&& forall|i: int|
                0 <= i < requests.len() ==> delta[i] == Effect::GetCompleted(requests[i], None)
            &&& forall|i: int, j: int|
                0 <= i < j < requests.len() ==> requests[i] != requests[j]
            &&& forall|j: int|
                requests.len() <= j < delta.len() ==> !(#[trigger] delta[j] is GetCompleted)
        }),
{
    let requests = m.entries[d]->Downloading_requests;
    let k = requests.len() as int;
    let p = artifact_path(m.root, d);
    assert(crate::model::entry_wf(m.entries[d]));
    assert forall|i: int|
        0 <= i < requests.len() implies delta[i] == Effect::GetCompleted(requests[i], None) by {
        assert(delta[i] == delta.take(k)[i]);
    }
    let rest = delta.skip(k);
    if rest[0] == Effect::FileExists(p, false) {
        assert forall|j: int|
            requests.len() <= j < delta.len() implies !(#[trigger] delta[j] is GetCompleted) by {
            assert(delta[j] == rest[j - k]);
            assert(j == k);
        }
    } else {
        law_removal_trace_no_answers(m.root, p, rest.skip(1), u64::MAX as int);
        assert forall|j: int|
            requests.len() <= j < delta.len() implies !(#[trigger] delta[j] is GetCompleted) by {
            assert(delta[j] == rest[j - k]);
            if j > k {
                assert(rest[j - k] == rest.skip(1)[j - k - 1]);
            }
        }
    }
}

/// A request for a resident, unreferenced entry is answered synchronously
/// and alone: the whole trace is the one answer — a handle bound to the
/// requested digest at its artifact path — and in particular no fetch is
/// started; the entry itself is promoted back to use with one user.
pub proof fn law_resident_get_is_synchronous(
    m: CacheModel,
    rid: CacheRequestId,
    d: Sha256Digest,
    delta: Seq<Effect>,
)
    requires
        m.entries.dom().contains(d),
        m.entries[d] is InHeap,
        get_request_trace(m, rid, d, delta),
    ensures
        delta == seq![Effect::GetCompleted(rid, Some((d, artifact_path(m.root, d))))],
        forall|j: int| 0 <= j < delta.len() ==> !(#[trigger] delta[j] is DownloadAndExtract),
        get_request_next(m, rid, d).entries[d] == (EntryModel::InUse {
            bytes_used: m.entries[d]->InHeap_bytes_used,
            refcount: 1,
        }),
        get_request_next(m, rid, d).bytes_used == m.bytes_used,
{
}

proof fn lemma_responses_pair(x: Effect, y: Effect)
    requires
        crate::effects::is_response(x),
        crate::effects::is_response(y),
    ensures
        crate::effects::responses(seq![x, y]) == seq![x, y],
{
    let s = seq![x, y];
    assert(s.first() == x);
    assert(s.drop_first() =~= seq![y]);
    assert(seq![y].first() == y);
    assert(seq![y].drop_first() =~= Seq::<Effect>::empty());
    assert(crate::effects::responses(Seq::<Effect>::empty()) =~= Seq::<Effect>::empty());
    assert(crate::effects::responses(seq![y]) =~= seq![y]);
    assert(crate::effects::responses(s) =~= seq![x] + crate::effects::responses(seq![y]));
    assert(crate::effects::responses(s) =~= seq![x, y]);
}

/// A removal trace is carved off a longer effect log unambiguously: the
/// drawn words and probe answers alone decide where it ends.
proof fn law_removal_parse(
    root: Seq<char>,
    src: Seq<char>,
    a: Seq<Effect>,
    b: Seq<Effect>,
    a2: Seq<Effect>,
    b2: Seq<Effect>,
    rem: int,
)
    requires
        removal_trace_n(root, src, a, rem),
        removal_trace_n(root, src, a2, rem),
        crate::effects::responses(a + b) == crate::effects::responses(a2 + b2),
    ensures
        a == a2,
        crate::effects::responses(b) == crate::effects::responses(b2),
    decreases a.len(),
{
    let head = seq![a[0], a[1]];
    let head2 = seq![a2[0], a2[1]];
    assert(a + b =~= head + (a.skip(2) + b));
    assert(a2 + b2 =~= head2 + (a2.skip(2) + b2));
    crate::effects::lemma_responses_concat(head, a.skip(2) + b);
    crate::effects::lemma_responses_concat(head2, a2.skip(2) + b2);
    lemma_responses_pair(a[0], a[1]);
    lemma_responses_pair(a2[0], a2[1]);
    assert(crate::effects::responses(a + b)[0] == a[0]);
    assert(crate::effects::responses(a + b)[1] == a[1]);
    assert(crate::effects::responses(a2 + b2)[0] == a2[0]);
    assert(crate::effects::responses(a2 + b2)[1] == a2[1]);
    assert(a[0] == a2[0] && a[1] == a2[1]);
    assert(head == head2);
    let w = a[0]->RandomWord_0;
    let target = removing_path(root, w);
    crate::effects::lemma_cancel_prefix(
        crate::effects::responses(head),
        crate::effects::responses(a.skip(2) + b),
        crate::effects::responses(a2.skip(2) + b2),
    );
    if a[1] == Effect::FileExists(target, true) && rem > 1 {
        law_removal_parse(root, src, a.skip(2), b, a2.skip(2), b2, rem - 1);
        assert(a =~= head + a.skip(2));
        assert(a2 =~= head2 + a2.skip(2));
    } else {
        assert(a.len() == 4 && a2.len() == 4);
        assert(a =~= a2);
        let tail = seq![a[2], a[3]];
        assert(a =~= head + tail);
        assert(a2 =~= head2 + tail);
        crate::effects::lemma_responses_concat(tail, b);
        crate::effects::lemma_responses_concat(tail, b2);
        assert(tail.drop_first() =~= seq![a[3]]);
        assert(seq![a[3]].drop_first() =~= Seq::<Effect>::empty());
        assert(crate::effects::responses(Seq::<Effect>::empty()) =~= Seq::<Effect>::empty());
        assert(crate::effects::responses(seq![a[3]]) =~= Seq::<Effect>::empty());
        assert(crate::effects::responses(tail) =~= crate::effects::responses(seq![a[3]]));
        assert(a.skip(2) + b =~= tail + b);
        assert(a2.skip(2) + b2 =~= tail + b2);
        assert(crate::effects::responses(b) == crate::effects::responses(b2));
    }
}

/// A whole eviction round is carved off a longer log unambiguously too.
proof fn law_eviction_parse(
    m: CacheModel,
    a: Seq<Effect>,
    b: Seq<Effect>,
    a2: Seq<Effect>,
    b2: Seq<Effect>,
)
    requires
        eviction_trace(m, a),
        eviction_trace(m, a2),
        crate::effects::responses(a + b) == crate::effects::responses(a2 + b2),
    ensures
        a == a2,
        crate::effects::responses(b) == crate::effects::responses(b2),
    decreases in_heap_set(m.entries).len(),
{
    if needs_eviction(m) {
        lemma_evict_one_shrinks(m);
        let src = artifact_path(m.root, min_prio_digest(m.entries));
        let k = choose|k: int|
            0 <= k <= a.len() && removal_trace(m.root, src, #[trigger] a.take(k)) && eviction_trace(
                evict_one(m),
                a.skip(k),
            );
        let k2 = choose|k: int|
            0 <= k <= a2.len() && removal_trace(m.root, src, #[trigger] a2.take(k))
                && eviction_trace(evict_one(m), a2.skip(k));
        assert(a + b =~= a.take(k) + (a.skip(k) + b));
        assert(a2 + b2 =~= a2.take(k2) + (a2.skip(k2) + b2));
        law_removal_parse(
            root_of(m),
            src,
            a.take(k),
            a.skip(k) + b,
            a2.take(k2),
            a2.skip(k2) + b2,
            u64::MAX as int,
        );
        law_eviction_parse(evict_one(m), a.skip(k), b, a2.skip(k2), b2);
        assert(a =~= a.take(k) + a.skip(k));
        assert(a2 =~= a2.take(k2) + a2.skip(k2));
    } else {
        assert(a =~= a2);
        assert(a + b =~= b);
        assert(a2 + b2 =~= b2);
    }
}

spec fn root_of(m: CacheModel) -> Seq<char> {
    m.root
}

/// Eviction order, probe order and every other emitted operation are a
/// function of the cache state, the message and the collaborator's answers:
/// two runs of one message from one state that drew the same random words
/// and received the same filesystem answers emit identical operations.
pub proof fn law_deterministic_effects(
    m: CacheModel,
    msg: crate::Message,
    d1: Seq<Effect>,
    d2: Seq<Effect>,
)
    requires
        model_wf(m),
        crate::model::message_ok(m, msg),
        crate::effects::message_trace(m, msg, d1),
        crate::effects::message_trace(m, msg, d2),
        crate::effects::responses(d1) == crate::effects::responses(d2),
    ensures
        d1 == d2,
{
    match msg {
        crate::Message::GetRequest(rid, d) => {
            if m.entries.dom().contains(d) && m.entries[d] is Downloading {
                assert(d1 =~= d2);
            }
        },
        crate::Message::DownloadAndExtractCompleted(d, r) => {
            let requests = m.entries[d]->Downloading_requests;
            let k = requests.len() as int;
            match r {
                Ok(n) => {
                    assert(d1.take(k) == d2.take(k));
                    assert(d1 =~= d1.take(k) + d1.skip(k));
                    assert(d2 =~= d2.take(k) + d2.skip(k));
                    crate::effects::lemma_responses_concat(d1.take(k), d1.skip(k));
                    crate::effects::lemma_responses_concat(d2.take(k), d2.skip(k));
                    crate::effects::lemma_cancel_prefix(
                        crate::effects::responses(d1.take(k)),
                        crate::effects::responses(d1.skip(k)),
                        crate::effects::responses(d2.skip(k)),
                    );
                    assert(d1.skip(k) + Seq::<Effect>::empty() =~= d1.skip(k));
                    assert(d2.skip(k) + Seq::<Effect>::empty() =~= d2.skip(k));
                    law_eviction_parse(
                        crate::model::success_mid(m, d, n),
                        d1.skip(k),
                        Seq::empty(),
                        d2.skip(k),
                        Seq::empty(),
                    );
                },
                Err(_) => {
                    let p = artifact_path(m.root, d);
                    assert(d1.take(k) == d2.take(k));
                    assert(d1 =~= d1.take(k) + d1.skip(k));
                    assert(d2 =~= d2.take(k) + d2.skip(k));
                    crate::effects::lemma_responses_concat(d1.take(k), d1.skip(k));
                    crate::effects::lemma_responses_concat(d2.take(k), d2.skip(k));
                    crate::effects::lemma_cancel_prefix(
                        crate::effects::responses(d1.take(k)),
                        crate::effects::responses(d1.skip(k)),
                        crate::effects::responses(d2.skip(k)),
                    );
                    let rest1 = d1.skip(k);
                    let rest2 = d2.skip(k);
                    assert(rest1 =~= seq![rest1[0]] + rest1.skip(1));
                    assert(rest2 =~= seq![rest2[0]] + rest2.skip(1));
                    crate::effects::lemma_responses_concat(seq![rest1[0]], rest1.skip(1));
                    crate::effects::lemma_responses_concat(seq![rest2[0]], rest2.skip(1));
                    assert(seq![rest1[0]].first() == rest1[0]);
                    assert(seq![rest1[0]].drop_first() =~= Seq::<Effect>::empty());
                    assert(seq![rest2[0]].drop_first() =~= Seq::<Effect>::empty());
                    assert(crate::effects::responses(seq![rest1[0]]) =~= seq![rest1[0]]);
                    assert(crate::effects::responses(seq![rest2[0]]) =~= seq![rest2[0]]);
                    assert(crate::effects::responses(rest1)[0] == rest1[0]);
                    assert(crate::effects::responses(rest2)[0] == rest2[0]);
                    assert(rest1[0] == rest2[0]);
                    if rest1[0] == Effect::FileExists(p, false) {
                        assert(rest1 =~= rest2);
                        assert(d1 =~= d2);
                    } else {
                        crate::effects::lemma_cancel_prefix(
                            seq![rest1[0]],
                            crate::effects::responses(rest1.skip(1)),
                            crate::effects::responses(rest2.skip(1)),
                        );
                        assert(rest1.skip(1) + Seq::<Effect>::empty() =~= rest1.skip(1));
                        assert(rest2.skip(1) + Seq::<Effect>::empty() =~= rest2.skip(1));
                        law_removal_parse(
                            m.root,
                            p,
                            rest1.skip(1),
                            Seq::empty(),
                            rest2.skip(1),
                            Seq::empty(),
                            u64::MAX as int,
                        );
                        assert(rest1 =~= rest2);
                        assert(d1 =~= d2);
                    }
                },
            }
        },
        crate::Message::IncrementRefcount(_) => {
            assert(d1 =~= d2);
        },
        crate::Message::DecrementRefcount(d) => {
            if m.entries[d]->InUse_refcount > 1 {
                assert(d1 =~= d2);
            } else {
                assert(d1 + Seq::<Effect>::empty() =~= d1);
                assert(d2 + Seq::<Effect>::empty() =~= d2);
                law_eviction_parse(
                    crate::model::decrement_mid(m, d),
                    d1,
                    Seq::empty(),
                    d2,
                    Seq::empty(),
                );
            }
        },
    }
}

/// A removal probes candidate names in turn and renames to the one that was
/// found free: every probe before the last found its candidate taken, each
/// probe tests the name drawn just before it, and the rename target is the
/// last candidate probed.
pub proof fn law_removal_probes_in_turn(root: Seq<char>, src: Seq<char>, delta: Seq<Effect>)
    requires
        removal_trace(root, src, delta),
    ensures
        delta.len() >= 4,
        delta.len() % 2 == 0,
        forall|j: int|
            0 <= j < (delta.len() - 4) / 2 ==> (#[trigger] delta[2 * j] is RandomWord
                && delta[2 * j + 1] == Effect::FileExists(
                removing_path(root, delta[2 * j]->RandomWord_0),
                true,
            )),
        delta[delta.len() - 4] is RandomWord,
        delta[delta.len() - 3] is FileExists,
        delta[delta.len() - 3]->FileExists_0 == removing_path(
            root,
            delta[delta.len() - 4]->RandomWord_0,
        ),
        delta[delta.len() - 2] == Effect::Rename(
            src,
            removing_path(root, delta[delta.len() - 4]->RandomWord_0),
        ),
        delta[delta.len() - 1] == Effect::RemoveRecursively(
            removing_path(root, delta[delta.len() - 4]->RandomWord_0),
        ),
{
    law_removal_probes_in_turn_n(root, src, delta, u64::MAX as int);
}

proof fn law_removal_probes_in_turn_n(root: Seq<char>, src: Seq<char>, delta: Seq<Effect>, rem: int)
    requires
        removal_trace_n(root, src, delta, rem),
    ensures
        delta.len() >= 4,
        delta.len() % 2 == 0,
        forall|j: int|
            0 <= j < (delta.len() - 4) / 2 ==> (#[trigger] delta[2 * j] is RandomWord
                && delta[2 * j + 1] == Effect::FileExists(
                removing_path(root, delta[2 * j]->RandomWord_0),
                true,
            )),
        delta[delta.len() - 4] is RandomWord,
        delta[delta.len() - 3] is FileExists,
        delta[delta.len() - 3]->FileExists_0 == removing_path(
            root,
            delta[delta.len() - 4]->RandomWord_0,
        ),
        delta[delta.len() - 2] == Effect::Rename(
            src,
            removing_path(root, delta[delta.len() - 4]->RandomWord_0),
        ),
        delta[delta.len() - 1] == Effect::RemoveRecursively(
            removing_path(root, delta[delta.len() - 4]->RandomWord_0),
        ),
    decreases delta.len(),
{
    let w = delta[0]->RandomWord_0;
    let target = removing_path(root, w);
    if delta[1] == Effect::FileExists(target, true) && rem > 1 {
        law_removal_probes_in_turn_n(root, src, delta.skip(2), rem - 1);
        assert forall|j: int|
            0 <= j < (delta.len() - 4) / 2 implies (#[trigger] delta[2 * j] is RandomWord
            && delta[2 * j + 1] == Effect::FileExists(
            removing_path(root, delta[2 * j]->RandomWord_0),
            true,
        )) by {
            if j > 0 {
                assert(delta[2 * j] == delta.skip(2)[2 * (j - 1)]);
                assert(delta[2 * j + 1] == delta.skip(2)[2 * (j - 1) + 1]);
            }
        }
        assert(delta[delta.len() - 4] == delta.skip(2)[delta.len() - 6]);
        assert(delta[delta.len() - 3] == delta.skip(2)[delta.len() - 5]);
        assert(delta[delta.len() - 2] == delta.skip(2)[delta.len() - 4]);
        assert(delta[delta.len() - 1] == delta.skip(2)[delta.len() - 3]);
    }
}

} // verus!


