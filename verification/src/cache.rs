use vstd::prelude::*;
use crate::deps::CacheDeps;
use crate::digest::Sha256Digest;
use crate::effects::{
    appended, artifact_path, extends, eviction_trace, failed_probes, get_request_trace,
    lemma_extends_push, lemma_extends_trans, lemma_failed_probes_snoc, lemma_removal_trace_build,
    message_trace, new_trace, removal_trace, removing_dir, removing_path, sha_dir, Effect,
};
use crate::handle::CacheHandle;
use crate::heap::{
    entries_covered, entry_covered, heap_wf, ordered, ordered_except_hole, over_hole, slots_match,
    slots_match_except, Heap,
};
use crate::model::{
    decrement_mid, decrement_next, decrement_ok, entry_bytes, entry_wf, error_next, error_ok,
    evict_all, evict_one, get_request_next, get_request_ok, in_heap_set, increment_next,
    increment_ok, is_min_prio, lemma_evict_one_shrinks, lemma_min_prio_unique,
    lemma_model_wf_transfer, lemma_total_bytes_insert,
    lemma_total_bytes_nonneg, lemma_total_bytes_remove, message_next, message_ok, min_prio_digest,
    model_wf, needs_eviction, priorities_wf, prio, same_except_indices, state_matches, success_mid,
    success_next, success_ok, CacheModel, EntryModel,
};
use crate::table::{CacheEntry, EntryMap};
use crate::{CacheRequestId, Message};

verus! {

/// What a `GetRequest` found and must therefore do.
enum GetAction {
    StartFetch,
    Coalesce,
    Bump { bytes_used: u64, refcount: u32 },
    Promote { bytes_used: u64, heap_index: usize },
}

/// The worker-side artifact cache: a single-owner state machine over an
/// entry table and an eviction heap, driven one message at a time through
/// `receive_message`. All its outward work — filesystem, downloads, answers
/// to callers — goes through a `CacheDeps` the caller supplies.
pub struct Cache {
    root: String,
    entries: EntryMap,
    heap: Heap,
    next_priority: u64,
    bytes_used: u64,
    bytes_used_goal: u64,
}

impl Cache {
    /// The cache's observable state.
    pub closed spec fn view(&self) -> CacheModel {
        CacheModel {
            root: self.root@,
            entries: self.entries@,
            next_priority: self.next_priority,
            bytes_used: self.bytes_used,
            bytes_used_goal: self.bytes_used_goal,
        }
    }

    /// The digests in the eviction heap, in heap-array order.
    pub closed spec fn heap_seq(&self) -> Seq<Sha256Digest> {
        self.heap@
    }

    pub closed spec fn rep_wf(&self) -> bool {
        self.entries.wf()
    }

    /// Every reachable cache satisfies this: well-formed entries, the byte
    /// total equal to the sum over the table, fresh and distinct priorities
    /// (`model_wf`), and a heap that agrees with the table — each heap slot
    /// holds an `InHeap` entry pointing back at it, every `InHeap` entry has
    /// a slot, and parents never exceed children (`heap_wf`).
    pub open spec fn wf(&self) -> bool {
        &&& self.rep_wf()
        &&& model_wf(self@)
        &&& heap_wf(self.heap_seq(), self@.entries)
    }

    proof fn lemma_table_wf(&self)
        requires
            self.wf(),
        ensures
            self.entries.wf(),
            self.entries@ == self@.entries,
    {
    }

    /// The directory of one artifact under a cache root: `{root}/sha256/`
    /// followed by the digest's 64 hex digits.
    pub fn cache_path(root: &str, digest: &Sha256Digest) -> (r: String)
        ensures
            r@ == artifact_path(root@, *digest),
    {
        let mut path = String::from_str(root);
        path.append("/sha256/");
        let hex = digest.to_hex();
        path.append(hex.as_str());
        proof {
            reveal_strlit("/sha256/");
            reveal_strlit("/sha256");
            reveal_strlit("/");
            assert(path@ =~= artifact_path(root@, *digest));
        }
        path
    }

    fn removing_dir_path(root: &str) -> (r: String)
        ensures
            r@ == removing_dir(root@),
    {
        let mut path = String::from_str(root);
        path.append("/removing");
        proof {
            assert(path@ =~= removing_dir(root@));
        }
        path
    }

    fn sha_dir_path(root: &str) -> (r: String)
        ensures
            r@ == sha_dir(root@),
    {
        let mut path = String::from_str(root);
        path.append("/sha256");
        proof {
            assert(path@ =~= sha_dir(root@));
        }
        path
    }

    fn removing_target(root: &str, w: u64) -> (r: String)
        ensures
            r@ == removing_path(root@, w),
    {
        let mut path = String::from_str(root);
        path.append("/removing/");
        crate::digest::append_hex16(&mut path, w);
        proof {
            reveal_strlit("/removing/");
            reveal_strlit("/removing");
            reveal_strlit("/");
            assert(path@ =~= removing_path(root@, w));
        }
        path
    }

    /// Move `source` aside into `removing/` under a fresh random name and
    /// schedule its recursive removal: candidate names are probed until a
    /// free one is found, so the rename cannot clobber an older casualty.
    fn remove_in_background<D: CacheDeps>(deps: &mut D, root: &str, source: &String)
        ensures
            extends(old(deps).effects(), final(deps).effects()),
            removal_trace(
                root@,
                source@,
                appended(old(deps).effects(), final(deps).effects()),
            ),
    {
        let ghost base = deps.effects();
        let mut target: String = String::new();
        let mut attempts: u64 = 0;
        let ghost mut last_word: u64 = 0;
        let ghost mut last_taken: bool = false;
        proof {
            assert(deps.effects().take(base.len() as int) =~= base);
            assert(appended(base, deps.effects()) =~= Seq::<Effect>::empty());
        }
        loop
            invariant_except_break
                failed_probes(root@, appended(base, deps.effects())),
                appended(base, deps.effects()).len() == 2 * attempts,
                attempts < u64::MAX,
            invariant
                extends(base, deps.effects()),
            ensures
                extends(base, deps.effects()),
                failed_probes(
                    root@,
                    appended(base, deps.effects()).take(
                        appended(base, deps.effects()).len() - 2,
                    ),
                ),
                appended(base, deps.effects()).len() >= 2,
                appended(base, deps.effects()).len() % 2 == 0,
                appended(base, deps.effects()).len() <= 2 * (u64::MAX as int),
                appended(base, deps.effects()).last() == Effect::FileExists(
                    removing_path(root@, last_word),
                    last_taken,
                ),
                appended(base, deps.effects())[appended(base, deps.effects()).len() - 2]
                    == Effect::RandomWord(last_word),
                last_taken ==> appended(base, deps.effects()).len() == 2 * (u64::MAX as int),
                target@ == removing_path(root@, last_word),
            decreases u64::MAX - attempts,
        {
            let ghost pre = deps.effects();
            let w = deps.rng();
            let t = Self::removing_target(root, w);
            let exists_already = deps.file_exists(&t);
            proof {
                assert(deps.effects() =~= pre.push(Effect::RandomWord(w)).push(
                    Effect::FileExists(t@, exists_already),
                ));
                assert(deps.effects().take(base.len() as int) =~= base);
            }
            attempts = attempts + 1;
            if !exists_already || attempts == u64::MAX {
                target = t;
                proof {
                    last_word = w;
                    last_taken = exists_already;
                    assert(appended(base, deps.effects()).take(
                        appended(base, deps.effects()).len() - 2,
                    ) =~= appended(base, pre));
                }
                break ;
            }
            proof {
                lemma_failed_probes_snoc(root@, appended(base, pre), w);
                assert(appended(base, deps.effects()) =~= appended(base, pre).push(
                    Effect::RandomWord(w),
                ).push(Effect::FileExists(removing_path(root@, w), true)));
            }
        }
        let ghost mid = deps.effects();
        deps.rename(source, &target);
        deps.remove_recursively_on_thread(target);
        proof {
            let probes = appended(base, mid).take(appended(base, mid).len() - 2);
            lemma_removal_trace_build(
                root@,
                source@,
                probes,
                last_word,
                last_taken,
                u64::MAX as int,
            );
            assert(deps.effects().take(base.len() as int) =~= base);
            assert(appended(base, deps.effects()) =~= probes + seq![
                Effect::RandomWord(last_word),
                Effect::FileExists(removing_path(root@, last_word), last_taken),
                Effect::Rename(source@, removing_path(root@, last_word)),
                Effect::RemoveRecursively(removing_path(root@, last_word)),
            ]);
        }
    }

    /// While the byte total exceeds the goal and the heap is not empty: pop
    /// the least-priority entry, forget it, move its directory aside for
    /// background removal, and release its bytes. `InUse` entries are never
    /// touched, so the total may stay above the goal.
    fn possibly_remove_some<D: CacheDeps>(
        &mut self,
        deps: &mut D,
        Ghost(g0): Ghost<CacheModel>,
    )
        requires
            old(self).wf(),
            model_wf(g0),
            state_matches(g0, old(self)@),
        ensures
            final(self).wf(),
            state_matches(evict_all(g0), final(self)@),
            extends(old(deps).effects(), final(deps).effects()),
            eviction_trace(g0, appended(old(deps).effects(), final(deps).effects())),
    {
        let ghost base = deps.effects();
        let ghost mut g = g0;
        proof {
            assert(deps.effects().take(base.len() as int) =~= base);
            assert(appended(base, deps.effects()) =~= Seq::<Effect>::empty());
        }
        loop
            invariant
                self.wf(),
                model_wf(g),
                state_matches(g, self@),
                evict_all(g) == evict_all(g0),
                g.root == self@.root,
                extends(base, deps.effects()),
                forall|rest: Seq<Effect>| #[trigger]
                    eviction_trace(g, rest) ==> eviction_trace(
                        g0,
                        appended(base, deps.effects()) + rest,
                    ),
            ensures
                self.wf(),
                model_wf(g),
                state_matches(g, self@),
                evict_all(g) == evict_all(g0),
                extends(base, deps.effects()),
                forall|rest: Seq<Effect>| #[trigger]
                    eviction_trace(g, rest) ==> eviction_trace(
                        g0,
                        appended(base, deps.effects()) + rest,
                    ),
                !needs_eviction(g),
            decreases in_heap_set(g.entries).len(),
        {
            if !(self.bytes_used > self.bytes_used_goal) {
                proof {
                    assert(!needs_eviction(g));
                }
                break ;
            }
            proof {
                self.lemma_table_wf();
            }
            let ghost h0 = self.heap_seq();
            let ghost m0 = self@.entries;
            let popped = self.heap.pop(&mut self.entries);
            match popped {
                None => {
                    proof {
                        assert(h0.len() == 0);
                        assert(in_heap_set(g.entries) =~= Set::<Sha256Digest>::empty()) by {
                            assert forall|d2: Sha256Digest|
                                !in_heap_set(g.entries).contains(d2) by {
                                if in_heap_set(g.entries).contains(d2) {
                                    assert(crate::model::entry_same_except_index(
                                        g.entries[d2],
                                        m0[d2],
                                    ));
                                    assert(m0[d2] is InHeap);
                                    assert(entry_covered(h0, m0, d2));
                                    assert(false);
                                }
                            }
                        }
                        assert(!needs_eviction(g));
                    }
                    break ;
                },
                Some(d) => {
                    let ghost m1 = self.entries@;
                    let entry = self.entries.take(&d);
                    proof {
                        assert(m0.dom().contains(d) && m0[d] is InHeap);
                        assert(crate::model::entry_same_except_index(m0[d], m1[d]));
                    }
                    match entry {
                        Some(CacheEntry::InHeap { bytes_used: bu, .. }) => {
                            let ghost m2 = self.entries@;
                            let path = Self::cache_path(self.root.as_str(), &d);
                            let ghost pre = deps.effects();
                            Self::remove_in_background(deps, self.root.as_str(), &path);
                            proof {
                                // the byte total covers the popped entry
                                assert(m1.dom().finite()) by {
                                    assert(m1.dom() =~= m0.dom());
                                }
                                crate::model::lemma_total_bytes_same_except(m0, m1);
                                lemma_total_bytes_remove(m1, d);
                                lemma_total_bytes_nonneg(m2);
                                assert(m2 == m1.remove(d));
                                assert(entry_bytes(m1[d]) == bu);
                            }
                            self.bytes_used = self.bytes_used - bu;
                            proof {
                                let gnew = evict_one(g);
                                // the popped digest is the least-priority entry of g
                                assert(is_min_prio(g.entries, d)) by {
                                    assert(g.entries.dom().contains(d));
                                    assert(crate::model::entry_same_except_index(
                                        g.entries[d],
                                        m0[d],
                                    ));
                                    assert forall|d2: Sha256Digest|
                                        g.entries.dom().contains(d2)
                                            && #[trigger] g.entries[d2] is InHeap implies prio(
                                        g.entries,
                                        d,
                                    ) <= prio(g.entries, d2) by {
                                        assert(crate::model::entry_same_except_index(
                                            g.entries[d2],
                                            m0[d2],
                                        ));
                                        assert(m0[d2] is InHeap);
                                        assert(prio(m0, d) <= prio(m0, d2));
                                    }
                                }
                                lemma_min_prio_unique(g.entries, d);
                                assert(in_heap_set(g.entries).contains(d));
                                g.entries.dom().lemma_len_filter(
                                    |d2: Sha256Digest| g.entries[d2] is InHeap,
                                );
                                assert(in_heap_set(g.entries).len() > 0) by {
                                    if in_heap_set(g.entries).len() == 0 {
                                        assert(in_heap_set(g.entries) =~= Set::<
                                            Sha256Digest,
                                        >::empty());
                                    }
                                }
                                assert(needs_eviction(g));
                                lemma_evict_one_shrinks(g);
                                // the new table and heap still agree
                                assert(slots_match(self.heap_seq(), m2)) by {
                                    assert forall|i: int|
                                        0 <= i < self.heap_seq().len() implies #[trigger] m2.dom().contains(
                                        self.heap_seq()[i],
                                    ) && m2[self.heap_seq()[i]] is InHeap
                                        && m2[self.heap_seq()[i]]->InHeap_heap_index == i by {
                                        assert(self.heap_seq()[i] != d);
                                    }
                                }
                                assert(entries_covered(self.heap_seq(), m2)) by {
                                    assert forall|d2: Sha256Digest| #[trigger] entry_covered(
                                        self.heap_seq(),
                                        m2,
                                        d2,
                                    ) by {
                                        if d2 != d {
                                            assert(entry_covered(self.heap_seq(), m1, d2));
                                        }
                                    }
                                }
                                assert(ordered(self.heap_seq(), m2)) by {
                                    assert forall|i: int|
                                        1 <= i < self.heap_seq().len() implies crate::heap::heap_le(
                                        m2,
                                        self.heap_seq()[#[trigger] crate::heap::parent(i)],
                                        self.heap_seq()[i],
                                    ) by {
                                        assert(crate::heap::heap_le(
                                            m1,
                                            self.heap_seq()[crate::heap::parent(i)],
                                            self.heap_seq()[i],
                                        ));
                                        assert(self.heap_seq()[i] != d);
                                        assert(self.heap_seq()[crate::heap::parent(i)] != d);
                                    }
                                }
                                // the executable step is one spec eviction
                                assert(same_except_indices(gnew.entries, m2)) by {
                                    assert(gnew.entries.dom() =~= m2.dom());
                                    assert forall|d2: Sha256Digest|
                                        gnew.entries.dom().contains(d2) implies
                                        crate::model::entry_same_except_index(
                                        #[trigger] gnew.entries[d2],
                                        #[trigger] m2[d2],
                                    ) by {
                                        assert(crate::model::entry_same_except_index(
                                            g.entries[d2],
                                            m0[d2],
                                        ));
                                        assert(crate::model::entry_same_except_index(
                                            m0[d2],
                                            m1[d2],
                                        ));
                                    }
                                }
                                assert(entry_bytes(g.entries[d]) == bu) by {
                                    assert(crate::model::entry_same_except_index(
                                        g.entries[d],
                                        m0[d],
                                    ));
                                }
                                assert(state_matches(gnew, self@));
                                // well-formedness carries over
                                assert(model_wf(self@)) by {
                                    assert(m2.dom().finite()) by {
                                        assert(m2.dom() =~= m1.dom().remove(d));
                                    }
                                    assert forall|d2: Sha256Digest|
                                        m2.dom().contains(d2) implies entry_wf(
                                        #[trigger] m2[d2],
                                    ) by {
                                        assert(crate::model::entry_same_except_index(
                                            m0[d2],
                                            m1[d2],
                                        ));
                                        assert(entry_wf(m0[d2]));
                                    }
                                    assert(priorities_wf(self@)) by {
                                        assert forall|d2: Sha256Digest|
                                            m2.dom().contains(d2)
                                                && #[trigger] m2[d2] is InHeap implies m2[d2]->InHeap_priority
                                            < self@.next_priority by {
                                            assert(crate::model::entry_same_except_index(
                                                m0[d2],
                                                m1[d2],
                                            ));
                                            assert(m0[d2] is InHeap);
                                        }
                                        assert forall|da: Sha256Digest, db: Sha256Digest|
                                            m2.dom().contains(da) && m2.dom().contains(db)
                                                && #[trigger] m2[da] is InHeap
                                                && #[trigger] m2[db] is InHeap && da
                                                != db implies m2[da]->InHeap_priority
                                            != m2[db]->InHeap_priority by {
                                            assert(crate::model::entry_same_except_index(
                                                m0[da],
                                                m1[da],
                                            ));
                                            assert(crate::model::entry_same_except_index(
                                                m0[db],
                                                m1[db],
                                            ));
                                            assert(m0[da] is InHeap && m0[db] is InHeap);
                                        }
                                    }
                                }
                                assert(model_wf(gnew)) by {
                                    assert(gnew.entries.dom().finite()) by {
                                        assert(gnew.entries.dom() =~= m2.dom());
                                    }
                                    crate::model::lemma_total_bytes_same_except(
                                        gnew.entries,
                                        m2,
                                    );
                                    assert forall|d2: Sha256Digest|
                                        gnew.entries.dom().contains(d2) implies entry_wf(
                                        #[trigger] gnew.entries[d2],
                                    ) by {
                                        assert(entry_wf(g.entries[d2]));
                                    }
                                    assert(priorities_wf(gnew)) by {
                                        assert forall|d2: Sha256Digest|
                                            gnew.entries.dom().contains(d2)
                                                && #[trigger] gnew.entries[d2] is InHeap implies gnew.entries[d2]->InHeap_priority
                                            < gnew.next_priority by {
                                            assert(g.entries[d2] is InHeap);
                                        }
                                        assert forall|da: Sha256Digest, db: Sha256Digest|
                                            gnew.entries.dom().contains(da)
                                                && gnew.entries.dom().contains(db)
                                                && #[trigger] gnew.entries[da] is InHeap
                                                && #[trigger] gnew.entries[db] is InHeap && da
                                                != db implies gnew.entries[da]->InHeap_priority
                                            != gnew.entries[db]->InHeap_priority by {
                                            assert(g.entries[da] is InHeap
                                                && g.entries[db] is InHeap);
                                        }
                                    }
                                }
                                // the effect log grew by one removal trace
                                let r = appended(pre, deps.effects());
                                lemma_extends_trans(base, pre, deps.effects());
                                assert forall|rest: Seq<Effect>| #[trigger]
                                    eviction_trace(gnew, rest) implies eviction_trace(
                                    g0,
                                    appended(base, deps.effects()) + rest,
                                ) by {
                                    assert(removal_trace(
                                        g.root,
                                        artifact_path(g.root, min_prio_digest(g.entries)),
                                        r,
                                    ));
                                    let combined = r + rest;
                                    assert(combined.take(r.len() as int) =~= r);
                                    assert(combined.skip(r.len() as int) =~= rest);
                                    assert(eviction_trace(g, combined));
                                    assert(eviction_trace(
                                        g0,
                                        appended(base, pre) + combined,
                                    ));
                                    assert(appended(base, deps.effects()) + rest =~= appended(
                                        base,
                                        pre,
                                    ) + combined);
                                }
                                g = gnew;
                            }
                        },
                        _ => {
                            proof {
                                assert(m1[d] is InHeap);
                                assert(false);
                            }
                        },
                    }
                },
            }
        }
        proof {
            assert(evict_all(g) == g);
            assert(eviction_trace(g, Seq::<Effect>::empty()));
            assert(appended(base, deps.effects()) + Seq::<Effect>::empty() =~= appended(
                base,
                deps.effects(),
            ));
        }
    }

    /// Build a cache rooted at `root` with the given soft byte budget. The
    /// staging directory `removing/` is created and whatever a previous run
    /// left in it resumes being removed; a pre-existing `sha256/` is moved
    /// aside and discarded — no cache state survives a restart — and a
    /// fresh empty `sha256/` is created.
    pub fn new<D: CacheDeps>(root: &str, deps: &mut D, bytes_used_goal: u64) -> (r: Cache)
        ensures
            r.wf(),
            r@ == (CacheModel {
                root: root@,
                entries: Map::empty(),
                next_priority: 0,
                bytes_used: 0,
                bytes_used_goal,
            }),
            extends(old(deps).effects(), final(deps).effects()),
            new_trace(root@, appended(old(deps).effects(), final(deps).effects())),
    {
        let ghost base = deps.effects();
        let removing = Self::removing_dir_path(root);
        deps.mkdir_recursively(&removing);
        let children = deps.read_dir(&removing);
        let ghost kids = children@.map_values(|c: String| c@);
        let ghost base2 = deps.effects();
        proof {
            assert(deps.effects().take(base.len() as int) =~= base);
            assert(appended(base, base2) =~= seq![
                Effect::MkdirRecursively(removing_dir(root@)),
                Effect::ReadDir(removing_dir(root@), kids),
            ]);
        }
        let n = children.len();
        let mut i: usize = 0;
        proof {
            assert(deps.effects().take(base2.len() as int) =~= base2);
            assert(appended(base2, deps.effects()) =~= Seq::new(
                0nat,
                |j: int| Effect::RemoveRecursively(kids[j]),
            ));
        }
        while i < n
            invariant
                n == children@.len(),
                kids == children@.map_values(|c: String| c@),
                i <= n,
                extends(base2, deps.effects()),
                appended(base2, deps.effects()) == Seq::new(
                    i as nat,
                    |j: int| Effect::RemoveRecursively(kids[j]),
                ),
            decreases n - i,
        {
            let child = children[i].clone();
            let ghost pre = deps.effects();
            proof {
                assert(child@ == kids[i as int]);
            }
            deps.remove_recursively_on_thread(child);
            proof {
                lemma_extends_push(pre, deps.effects(), Effect::RemoveRecursively(kids[i as int]));
                lemma_extends_trans(base2, pre, deps.effects());
                assert(appended(base2, deps.effects()) =~= Seq::new(
                    (i + 1) as nat,
                    |j: int| Effect::RemoveRecursively(kids[j]),
                ));
            }
            i = i + 1;
        }
        let sha = Self::sha_dir_path(root);
        let ghost base3 = deps.effects();
        let sha_exists = deps.file_exists(&sha);
        let ghost base4 = deps.effects();
        if sha_exists {
            Self::remove_in_background(deps, root, &sha);
        }
        let ghost base5 = deps.effects();
        deps.mkdir_recursively(&sha);
        let cache = Cache {
            root: String::from_str(root),
            entries: EntryMap::new(),
            heap: Heap::new(),
            next_priority: 0,
            bytes_used: 0,
            bytes_used_goal,
        };
        proof {
            // the fresh cache is empty and well formed
            assert(cache@.entries =~= Map::<Sha256Digest, crate::model::EntryModel>::empty());
            assert(cache@ =~= (CacheModel {
                root: root@,
                entries: Map::empty(),
                next_priority: 0,
                bytes_used: 0,
                bytes_used_goal,
            }));
            assert(cache.heap_seq().len() == 0);
            assert(model_wf(cache@));
            assert(heap_wf(cache.heap_seq(), cache@.entries)) by {
                assert forall|d2: Sha256Digest| #[trigger] entry_covered(
                    cache.heap_seq(),
                    cache@.entries,
                    d2,
                ) by {
                    assert(!cache@.entries.dom().contains(d2));
                }
            }
            // the construction trace
            lemma_extends_trans(base, base2, base3);
            lemma_extends_push(base3, base4, Effect::FileExists(sha_dir(root@), sha_exists));
            if sha_exists {
                lemma_extends_trans(base3, base4, base5);
            } else {
                assert(base5 == base4);
                assert(base5.take(base3.len() as int) =~= base3);
            }
            lemma_extends_push(base5, deps.effects(), Effect::MkdirRecursively(sha_dir(root@)));
            lemma_extends_trans(base3, base5, deps.effects());
            lemma_extends_trans(base, base3, deps.effects());
            let delta = appended(base, deps.effects());
            let k = kids.len() as int;
            assert(delta =~= (appended(base, base2) + appended(base2, base3)) + (appended(
                base3,
                base5,
            ) + appended(base5, deps.effects())));
            assert(delta[0] == Effect::MkdirRecursively(removing_dir(root@)));
            assert(delta[1] == Effect::ReadDir(removing_dir(root@), kids));
            assert(delta.subrange(2, k + 2) =~= Seq::new(
                kids.len(),
                |j: int| Effect::RemoveRecursively(kids[j]),
            ));
            let rest = delta.skip(k + 2);
            assert(rest =~= appended(base3, base5) + appended(base5, deps.effects()));
            assert(rest[0] == Effect::FileExists(sha_dir(root@), sha_exists));
            if sha_exists {
                assert(rest.subrange(1, rest.len() - 1) =~= appended(base4, base5));
                assert(rest.last() == Effect::MkdirRecursively(sha_dir(root@)));
            } else {
                assert(rest =~= seq![
                    Effect::FileExists(sha_dir(root@), false),
                    Effect::MkdirRecursively(sha_dir(root@)),
                ]);
            }
            assert(new_trace(root@, delta));
        }
        cache
    }

    /// Receive one message and act on it to completion: the cache's single
    /// entry point, and the only place its state changes.
    pub fn receive_message<D: CacheDeps>(&mut self, deps: &mut D, msg: Message)
        requires
            old(self).wf(),
            message_ok(old(self)@, msg),
        ensures
            final(self).wf(),
            state_matches(message_next(old(self)@, msg), final(self)@),
            extends(old(deps).effects(), final(deps).effects()),
            message_trace(
                old(self)@,
                msg,
                appended(old(deps).effects(), final(deps).effects()),
            ),
    {
        match msg {
            Message::GetRequest(request_id, digest) => {
                self.receive_get_request(deps, request_id, digest)
            },
            Message::DownloadAndExtractCompleted(digest, Ok(bytes_used)) => {
                self.receive_download_and_extract_success(deps, digest, bytes_used)
            },
            Message::DownloadAndExtractCompleted(digest, Err(_)) => {
                self.receive_download_and_extract_error(deps, digest)
            },
            Message::IncrementRefcount(digest) => {
                self.receive_increment_refcount(digest);
                proof {
                    assert(deps.effects().take(old(deps).effects().len() as int) =~= old(
                        deps,
                    ).effects());
                    assert(appended(old(deps).effects(), deps.effects()) =~= Seq::<
                        Effect,
                    >::empty());
                    assert(state_matches(message_next(old(self)@, msg), self@));
                }
            },
            Message::DecrementRefcount(digest) => {
                self.receive_decrement_refcount(deps, digest)
            },
        }
    }

    /// One more live handle on an in-use entry. Legal only for `InUse`
    /// entries with room in the count: handles only ever duplicate while the
    /// entry is in use, so any other state means the protocol was broken.
    pub fn receive_increment_refcount(&mut self, digest: Sha256Digest)
        requires
            old(self).wf(),
            increment_ok(old(self)@, digest),
        ensures
            final(self).wf(),
            final(self)@ == increment_next(old(self)@, digest),
    {
        proof {
            self.lemma_table_wf();
        }
        let (bytes_used, refcount) = match self.entries.get(&digest) {
            Some(CacheEntry::InUse { bytes_used, refcount }) => (*bytes_used, *refcount),
            _ => vstd::pervasive::unreached(),
        };
        self.entries.set(digest, CacheEntry::InUse { bytes_used, refcount: refcount + 1 });
        proof {
            let m0 = old(self)@.entries;
            let e = EntryModel::InUse { bytes_used, refcount: (refcount + 1) as u32 };
            lemma_total_bytes_insert(m0, digest, e);
            crate::heap::lemma_update_non_heap(self.heap_seq(), m0, digest, e);
            assert(self@.entries =~= m0.insert(digest, e));
            assert(priorities_wf(self@)) by {
                assert forall|d2: Sha256Digest|
                    self@.entries.dom().contains(d2)
                        && #[trigger] self@.entries[d2] is InHeap implies self@.entries[d2]->InHeap_priority
                    < self@.next_priority by {
                    assert(m0[d2] is InHeap);
                }
                assert forall|da: Sha256Digest, db: Sha256Digest|
                    self@.entries.dom().contains(da) && self@.entries.dom().contains(db)
                        && #[trigger] self@.entries[da] is InHeap
                        && #[trigger] self@.entries[db] is InHeap && da
                        != db implies self@.entries[da]->InHeap_priority
                    != self@.entries[db]->InHeap_priority by {
                    assert(m0[da] is InHeap && m0[db] is InHeap);
                }
            }
            assert(self@.entries.dom() =~= m0.dom().insert(digest));
            assert(self@ =~= increment_next(old(self)@, digest));
        }
    }

    /// Ask for a handle on a digest's artifact. An unknown digest starts a
    /// fetch; one already downloading absorbs the request; a resident entry
    /// is answered synchronously, promoting it out of the heap if necessary.
    fn receive_get_request<D: CacheDeps>(
        &mut self,
        deps: &mut D,
        request_id: CacheRequestId,
        digest: Sha256Digest,
    )
        requires
            old(self).wf(),
            get_request_ok(old(self)@, request_id, digest),
        ensures
            final(self).wf(),
            state_matches(get_request_next(old(self)@, request_id, digest), final(self)@),
            extends(old(deps).effects(), final(deps).effects()),
            get_request_trace(
                old(self)@,
                request_id,
                digest,
                appended(old(deps).effects(), final(deps).effects()),
            ),
    {
        proof {
            self.lemma_table_wf();
        }
        let ghost base = deps.effects();
        let ghost m0 = old(self)@.entries;
        let action = match self.entries.get(&digest) {
            None => GetAction::StartFetch,
            Some(CacheEntry::DownloadingAndExtracting(_)) => GetAction::Coalesce,
            Some(CacheEntry::InUse { bytes_used, refcount }) => GetAction::Bump {
                bytes_used: *bytes_used,
                refcount: *refcount,
            },
            Some(CacheEntry::InHeap { bytes_used, heap_index, .. }) => GetAction::Promote {
                bytes_used: *bytes_used,
                heap_index: *heap_index,
            },
        };
        match action {
            GetAction::StartFetch => {
                let cache_path = Self::cache_path(self.root.as_str(), &digest);
                deps.download_and_extract(digest, cache_path);
                let mut requests: Vec<CacheRequestId> = Vec::new();
                requests.push(request_id);
                self.entries.set(digest, CacheEntry::DownloadingAndExtracting(requests));
                proof {
                    let e = EntryModel::Downloading { requests: seq![request_id] };
                    lemma_total_bytes_insert(m0, digest, e);
                    crate::heap::lemma_update_non_heap(self.heap_seq(), m0, digest, e);
                    assert(self@.entries =~= m0.insert(digest, e));
                    assert(priorities_wf(self@)) by {
                        assert forall|d2: Sha256Digest|
                            self@.entries.dom().contains(d2)
                                && #[trigger] self@.entries[d2] is InHeap implies self@.entries[d2]->InHeap_priority
                            < self@.next_priority by {
                            assert(m0[d2] is InHeap);
                        }
                        assert forall|da: Sha256Digest, db: Sha256Digest|
                            self@.entries.dom().contains(da) && self@.entries.dom().contains(db)
                                && #[trigger] self@.entries[da] is InHeap
                                && #[trigger] self@.entries[db] is InHeap && da
                                != db implies self@.entries[da]->InHeap_priority
                            != self@.entries[db]->InHeap_priority by {
                            assert(m0[da] is InHeap && m0[db] is InHeap);
                        }
                    }
                    assert(self@.entries.dom() =~= m0.dom().insert(digest));
                    assert(same_except_indices(
                        get_request_next(old(self)@, request_id, digest).entries,
                        self@.entries,
                    ));
                    lemma_extends_push(
                        base,
                        deps.effects(),
                        Effect::DownloadAndExtract(digest, artifact_path(old(self)@.root, digest)),
                    );
                }
            },
            GetAction::Coalesce => {
                let entry = self.entries.take(&digest);
                match entry {
                    Some(CacheEntry::DownloadingAndExtracting(mut requests)) => {
                        requests.push(request_id);
                        self.entries.set(digest, CacheEntry::DownloadingAndExtracting(requests));
                        proof {
                            let rs = m0[digest]->Downloading_requests;
                            let e = EntryModel::Downloading { requests: rs.push(request_id) };
                            lemma_total_bytes_insert(m0, digest, e);
                            crate::heap::lemma_update_non_heap(self.heap_seq(), m0, digest, e);
                            assert(self@.entries =~= m0.insert(digest, e));
                            assert(entry_wf(e)) by {
                                assert(forall|i: int|
                                    0 <= i < rs.len() ==> rs.push(request_id)[i] == rs[i]);
                                assert(rs.push(request_id)[rs.len() as int] == request_id);
                                assert(!rs.contains(request_id));
                            }
                            assert(priorities_wf(self@)) by {
                                assert forall|d2: Sha256Digest|
                                    self@.entries.dom().contains(d2)
                                        && #[trigger] self@.entries[d2] is InHeap implies self@.entries[d2]->InHeap_priority
                                    < self@.next_priority by {
                                    assert(m0[d2] is InHeap);
                                }
                                assert forall|da: Sha256Digest, db: Sha256Digest|
                                    self@.entries.dom().contains(da) && self@.entries.dom().contains(
                                        db,
                                    ) && #[trigger] self@.entries[da] is InHeap
                                        && #[trigger] self@.entries[db] is InHeap && da
                                        != db implies self@.entries[da]->InHeap_priority
                                    != self@.entries[db]->InHeap_priority by {
                                    assert(m0[da] is InHeap && m0[db] is InHeap);
                                }
                            }
                            assert(self@.entries.dom() =~= m0.dom().insert(digest));
                            assert(deps.effects().take(base.len() as int) =~= base);
                            assert(appended(base, deps.effects()) =~= Seq::<Effect>::empty());
                        }
                    },
                    _ => vstd::pervasive::unreached(),
                }
            },
            GetAction::Bump { bytes_used, refcount } => {
                self.entries.set(digest, CacheEntry::InUse { bytes_used, refcount: refcount + 1 });
                Self::send_get_completed_successfully(
                    deps,
                    self.root.as_str(),
                    request_id,
                    digest,
                );
                proof {
                    let e = EntryModel::InUse { bytes_used, refcount: (refcount + 1) as u32 };
                    lemma_total_bytes_insert(m0, digest, e);
                    crate::heap::lemma_update_non_heap(self.heap_seq(), m0, digest, e);
                    assert(self@.entries =~= m0.insert(digest, e));
                    assert(priorities_wf(self@)) by {
                        assert forall|d2: Sha256Digest|
                            self@.entries.dom().contains(d2)
                                && #[trigger] self@.entries[d2] is InHeap implies self@.entries[d2]->InHeap_priority
                            < self@.next_priority by {
                            assert(m0[d2] is InHeap);
                        }
                        assert forall|da: Sha256Digest, db: Sha256Digest|
                            self@.entries.dom().contains(da) && self@.entries.dom().contains(db)
                                && #[trigger] self@.entries[da] is InHeap
                                && #[trigger] self@.entries[db] is InHeap && da
                                != db implies self@.entries[da]->InHeap_priority
                            != self@.entries[db]->InHeap_priority by {
                            assert(m0[da] is InHeap && m0[db] is InHeap);
                        }
                    }
                    assert(self@.entries.dom() =~= m0.dom().insert(digest));
                    lemma_extends_push(
                        base,
                        deps.effects(),
                        Effect::GetCompleted(
                            request_id,
                            Some((digest, artifact_path(old(self)@.root, digest))),
                        ),
                    );
                }
            },
            GetAction::Promote { bytes_used, heap_index } => {
                self.entries.set(digest, CacheEntry::InUse { bytes_used, refcount: 1 });
                proof {
                    let m1 = self.entries@;
                    let h = self.heap_seq();
                    assert(entry_covered(h, m0, digest));
                    assert(h[heap_index as int] == digest);
                    assert(slots_match_except(h, m1, heap_index as int)) by {
                        assert forall|i: int|
                            0 <= i < h.len() && i != heap_index as int implies #[trigger] m1.dom().contains(
                            h[i],
                        ) && m1[h[i]] is InHeap && m1[h[i]]->InHeap_heap_index == i by {
                            assert(m0.dom().contains(h[i]));
                            assert(m0[h[i]] is InHeap);
                            assert(m0[h[i]]->InHeap_heap_index == i);
                            assert(h[i] != digest);
                        }
                    }
                    assert(entries_covered(h, m1)) by {
                        assert forall|d2: Sha256Digest| #[trigger] entry_covered(h, m1, d2) by {
                            assert(entry_covered(h, m0, d2));
                        }
                    }
                    assert(ordered_except_hole(h, m1, heap_index as int)) by {
                        assert forall|i: int|
                            1 <= i < h.len() && i != heap_index as int && crate::heap::parent(i)
                                != heap_index as int implies crate::heap::heap_le(
                            m1,
                            h[#[trigger] crate::heap::parent(i)],
                            h[i],
                        ) by {
                            assert(crate::heap::heap_le(m0, h[crate::heap::parent(i)], h[i]));
                            assert(h[i] != digest && h[crate::heap::parent(i)] != digest);
                        }
                    }
                    assert(over_hole(h, m1, heap_index as int)) by {
                        assert forall|i: int|
                            1 <= i < h.len() && #[trigger] crate::heap::parent(i)
                                == heap_index as int && heap_index as int >= 1 implies crate::heap::heap_le(
                            m1,
                            h[crate::heap::parent(heap_index as int)],
                            h[i],
                        ) by {
                            let p = crate::heap::parent(heap_index as int);
                            assert(0 <= p < heap_index as int);
                            assert(h[p] != digest && h[i] != digest);
                            assert(crate::heap::heap_le(m0, h[p], h[heap_index as int]));
                            assert(crate::heap::heap_le(m0, h[heap_index as int], h[i]));
                        }
                    }
                }
                self.heap.remove(&mut self.entries, heap_index);
                Self::send_get_completed_successfully(
                    deps,
                    self.root.as_str(),
                    request_id,
                    digest,
                );
                proof {
                    let e = EntryModel::InUse { bytes_used, refcount: 1 };
                    let m1 = m0.insert(digest, e);
                    let m2 = self@.entries;
                    assert(same_except_indices(m1, m2));
                    assert(m1.dom().finite()) by {
                        assert(m1.dom() =~= m0.dom().insert(digest));
                    }
                    lemma_total_bytes_insert(m0, digest, e);
                    crate::model::lemma_total_bytes_same_except(m1, m2);
                    assert(model_wf(self@)) by {
                        assert(m2.dom().finite()) by {
                            assert(m2.dom() =~= m1.dom());
                        }
                        assert forall|d2: Sha256Digest|
                            m2.dom().contains(d2) implies entry_wf(#[trigger] m2[d2]) by {
                            assert(crate::model::entry_same_except_index(m1[d2], m2[d2]));
                            if d2 != digest {
                                assert(entry_wf(m0[d2]));
                            }
                        }
                        assert(priorities_wf(self@)) by {
                            assert forall|d2: Sha256Digest|
                                m2.dom().contains(d2)
                                    && #[trigger] m2[d2] is InHeap implies m2[d2]->InHeap_priority
                                < self@.next_priority by {
                                assert(crate::model::entry_same_except_index(m1[d2], m2[d2]));
                                assert(m0[d2] is InHeap);
                            }
                            assert forall|da: Sha256Digest, db: Sha256Digest|
                                m2.dom().contains(da) && m2.dom().contains(db)
                                    && #[trigger] m2[da] is InHeap && #[trigger] m2[db] is InHeap
                                    && da != db implies m2[da]->InHeap_priority
                                != m2[db]->InHeap_priority by {
                                assert(crate::model::entry_same_except_index(m1[da], m2[da]));
                                assert(crate::model::entry_same_except_index(m1[db], m2[db]));
                                assert(m0[da] is InHeap && m0[db] is InHeap);
                            }
                        }
                    }
                    assert(state_matches(get_request_next(old(self)@, request_id, digest), self@));
                    lemma_extends_push(
                        base,
                        deps.effects(),
                        Effect::GetCompleted(
                            request_id,
                            Some((digest, artifact_path(old(self)@.root, digest))),
                        ),
                    );
                }
            },
        }
    }

    /// One live handle fewer. While other handles remain the count just
    /// drops; the last release stamps the entry with a fresh priority, moves
    /// it into the eviction heap, and lets eviction run.
    fn receive_decrement_refcount<D: CacheDeps>(&mut self, deps: &mut D, digest: Sha256Digest)
        requires
            old(self).wf(),
            decrement_ok(old(self)@, digest),
        ensures
            final(self).wf(),
            state_matches(decrement_next(old(self)@, digest), final(self)@),
            extends(old(deps).effects(), final(deps).effects()),
            crate::effects::decrement_trace(
                old(self)@,
                digest,
                appended(old(deps).effects(), final(deps).effects()),
            ),
    {
        proof {
            self.lemma_table_wf();
        }
        let ghost base = deps.effects();
        let ghost m0 = old(self)@.entries;
        let (bytes_used, refcount) = match self.entries.get(&digest) {
            Some(CacheEntry::InUse { bytes_used, refcount }) => (*bytes_used, *refcount),
            _ => vstd::pervasive::unreached(),
        };
        if refcount > 1 {
            self.entries.set(digest, CacheEntry::InUse { bytes_used, refcount: refcount - 1 });
            proof {
                let e = EntryModel::InUse { bytes_used, refcount: (refcount - 1) as u32 };
                lemma_total_bytes_insert(m0, digest, e);
                crate::heap::lemma_update_non_heap(self.heap_seq(), m0, digest, e);
                assert(self@.entries =~= m0.insert(digest, e));
                assert(priorities_wf(self@)) by {
                    assert forall|d2: Sha256Digest|
                        self@.entries.dom().contains(d2)
                            && #[trigger] self@.entries[d2] is InHeap implies self@.entries[d2]->InHeap_priority
                        < self@.next_priority by {
                        assert(m0[d2] is InHeap);
                    }
                    assert forall|da: Sha256Digest, db: Sha256Digest|
                        self@.entries.dom().contains(da) && self@.entries.dom().contains(db)
                            && #[trigger] self@.entries[da] is InHeap
                            && #[trigger] self@.entries[db] is InHeap && da
                            != db implies self@.entries[da]->InHeap_priority
                        != self@.entries[db]->InHeap_priority by {
                        assert(m0[da] is InHeap && m0[db] is InHeap);
                    }
                }
                assert(self@.entries.dom() =~= m0.dom().insert(digest));
                assert(deps.effects().take(base.len() as int) =~= base);
                assert(appended(base, deps.effects()) =~= Seq::<Effect>::empty());
            }
        } else {
            let priority = self.next_priority;
            self.next_priority = self.next_priority + 1;
            self.entries.set(
                digest,
                CacheEntry::InHeap { bytes_used, priority, heap_index: 0 },
            );
            proof {
                let m1 = self.entries@;
                let h = self.heap_seq();
                assert(forall|i: int| 0 <= i < h.len() ==> h[i] != digest) by {
                    assert forall|i: int| 0 <= i < h.len() implies h[i] != digest by {
                        assert(m0.dom().contains(h[i]));
                        assert(m0[h[i]] is InHeap);
                    }
                }
                assert(slots_match(h, m1)) by {
                    assert forall|i: int|
                        0 <= i < h.len() implies #[trigger] m1.dom().contains(h[i])
                        && m1[h[i]] is InHeap && m1[h[i]]->InHeap_heap_index == i by {
                        assert(m0.dom().contains(h[i]));
                        assert(m0[h[i]] is InHeap);
                        assert(m0[h[i]]->InHeap_heap_index == i);
                        assert(h[i] != digest);
                    }
                }
                assert(crate::heap::entries_covered_except(h, m1, digest)) by {
                    assert forall|d2: Sha256Digest| d2 != digest implies #[trigger] entry_covered(
                        h,
                        m1,
                        d2,
                    ) by {
                        assert(entry_covered(h, m0, d2));
                    }
                }
                assert(ordered(h, m1)) by {
                    assert forall|i: int|
                        1 <= i < h.len() implies crate::heap::heap_le(
                        m1,
                        h[#[trigger] crate::heap::parent(i)],
                        h[i],
                    ) by {
                        assert(crate::heap::heap_le(m0, h[crate::heap::parent(i)], h[i]));
                        assert(h[i] != digest && h[crate::heap::parent(i)] != digest);
                    }
                }
            }
            self.heap.push(&mut self.entries, digest);
            proof {
                let gmid = decrement_mid(old(self)@, digest);
                let e = EntryModel::InHeap {
                    bytes_used,
                    priority: old(self)@.next_priority,
                    heap_index: 0,
                };
                let m1 = m0.insert(digest, e);
                let m2 = self@.entries;
                assert(same_except_indices(m1, m2));
                assert(m1.dom().finite()) by {
                    assert(m1.dom() =~= m0.dom().insert(digest));
                }
                lemma_total_bytes_insert(m0, digest, e);
                crate::model::lemma_total_bytes_same_except(m1, m2);
                assert(model_wf(gmid)) by {
                    assert(gmid.entries == m1);
                    assert forall|d2: Sha256Digest|
                        m1.dom().contains(d2) implies entry_wf(#[trigger] m1[d2]) by {
                        if d2 != digest {
                            assert(entry_wf(m0[d2]));
                        }
                    }
                    assert(priorities_wf(gmid)) by {
                        assert forall|d2: Sha256Digest|
                            m1.dom().contains(d2)
                                && #[trigger] m1[d2] is InHeap implies m1[d2]->InHeap_priority
                            < gmid.next_priority by {
                            if d2 != digest {
                                assert(m0[d2] is InHeap);
                            }
                        }
                        assert forall|da: Sha256Digest, db: Sha256Digest|
                            m1.dom().contains(da) && m1.dom().contains(db)
                                && #[trigger] m1[da] is InHeap && #[trigger] m1[db] is InHeap && da
                                != db implies m1[da]->InHeap_priority != m1[db]->InHeap_priority by {
                            if da != digest && db != digest {
                                assert(m0[da] is InHeap && m0[db] is InHeap);
                            } else if da == digest {
                                assert(m0[db] is InHeap);
                            } else {
                                assert(m0[da] is InHeap);
                            }
                        }
                    }
                }
                assert(state_matches(gmid, self@));
                crate::model::lemma_model_wf_transfer(gmid, self@);
            }
            self.possibly_remove_some(deps, Ghost(decrement_mid(old(self)@, digest)));
        }
    }

    /// A fetch finished with the artifact's size in bytes: answer every
    /// pending request with a handle, charge the bytes to the total, and
    /// let eviction bring the total back towards the goal.
    fn receive_download_and_extract_success<D: CacheDeps>(
        &mut self,
        deps: &mut D,
        digest: Sha256Digest,
        bytes_used: u64,
    )
        requires
            old(self).wf(),
            success_ok(old(self)@, digest, bytes_used),
        ensures
            final(self).wf(),
            state_matches(success_next(old(self)@, digest, bytes_used), final(self)@),
            extends(old(deps).effects(), final(deps).effects()),
            crate::effects::success_trace(
                old(self)@,
                digest,
                bytes_used,
                appended(old(deps).effects(), final(deps).effects()),
            ),
    {
        proof {
            self.lemma_table_wf();
        }
        let ghost base = deps.effects();
        let ghost m0 = old(self)@.entries;
        let ghost rs = m0[digest]->Downloading_requests;
        let entry = self.entries.take(&digest);
        match entry {
            Some(CacheEntry::DownloadingAndExtracting(requests)) => {
                let n_requests = requests.len();
                let mut i: usize = 0;
                proof {
                    assert(deps.effects().take(base.len() as int) =~= base);
                    assert(appended(base, deps.effects()) =~= crate::effects::completions(
                        old(self)@.root,
                        rs,
                        digest,
                    ).take(0));
                }
                while i < n_requests
                    invariant
                        self.entries.wf(),
                        self.entries@ == old(self)@.entries.remove(digest),
                        self.heap@ == old(self).heap@,
                        self.root@ == old(self)@.root,
                        self.next_priority == old(self)@.next_priority,
                        self.bytes_used == old(self)@.bytes_used,
                        self.bytes_used_goal == old(self)@.bytes_used_goal,
                        requests@ == rs,
                        n_requests == rs.len(),
                        i <= n_requests,
                        extends(base, deps.effects()),
                        appended(base, deps.effects()) == crate::effects::completions(
                            old(self)@.root,
                            rs,
                            digest,
                        ).take(i as int),
                    decreases n_requests - i,
                {
                    let rid = requests[i];
                    let ghost pre = deps.effects();
                    Self::send_get_completed_successfully(
                        deps,
                        self.root.as_str(),
                        rid,
                        digest,
                    );
                    proof {
                        let c = crate::effects::completions(old(self)@.root, rs, digest);
                        assert(deps.effects() == pre.push(c[i as int]));
                        lemma_extends_push(pre, deps.effects(), c[i as int]);
                        lemma_extends_trans(base, pre, deps.effects());
                        assert(appended(base, deps.effects()) =~= c.take(i as int) + seq![
                            c[i as int],
                        ]);
                        assert(appended(base, deps.effects()) =~= c.take(i + 1));
                    }
                    i = i + 1;
                }
                let refcount = n_requests as u32;
                self.entries.set(digest, CacheEntry::InUse { bytes_used, refcount });
                self.bytes_used = self.bytes_used + bytes_used;
                let ghost gmid = success_mid(old(self)@, digest, bytes_used);
                proof {
                    let e = EntryModel::InUse { bytes_used, refcount: rs.len() as u32 };
                    assert(self@.entries =~= m0.insert(digest, e));
                    lemma_total_bytes_insert(m0, digest, e);
                    crate::heap::lemma_update_non_heap(self.heap_seq(), m0, digest, e);
                    assert(entry_wf(e));
                    assert(priorities_wf(self@)) by {
                        assert forall|d2: Sha256Digest|
                            self@.entries.dom().contains(d2)
                                && #[trigger] self@.entries[d2] is InHeap implies self@.entries[d2]->InHeap_priority
                            < self@.next_priority by {
                            assert(m0[d2] is InHeap);
                        }
                        assert forall|da: Sha256Digest, db: Sha256Digest|
                            self@.entries.dom().contains(da) && self@.entries.dom().contains(db)
                                && #[trigger] self@.entries[da] is InHeap
                                && #[trigger] self@.entries[db] is InHeap && da
                                != db implies self@.entries[da]->InHeap_priority
                            != self@.entries[db]->InHeap_priority by {
                            assert(m0[da] is InHeap && m0[db] is InHeap);
                        }
                    }
                    assert(self@.entries.dom() =~= m0.dom().insert(digest));
                    assert(model_wf(self@));
                    assert(state_matches(gmid, self@));
                    assert(model_wf(gmid)) by {
                        crate::model::lemma_total_bytes_same_except(gmid.entries, self@.entries);
                        assert(gmid.entries.dom().finite()) by {
                            assert(gmid.entries.dom() =~= self@.entries.dom());
                        }
                        assert forall|d2: Sha256Digest|
                            gmid.entries.dom().contains(d2) implies entry_wf(
                            #[trigger] gmid.entries[d2],
                        ) by {
                            assert(crate::model::entry_same_except_index(
                                gmid.entries[d2],
                                self@.entries[d2],
                            ));
                            assert(entry_wf(self@.entries[d2]));
                        }
                        assert(priorities_wf(gmid)) by {
                            assert forall|d2: Sha256Digest|
                                gmid.entries.dom().contains(d2)
                                    && #[trigger] gmid.entries[d2] is InHeap implies gmid.entries[d2]->InHeap_priority
                                < gmid.next_priority by {
                                assert(crate::model::entry_same_except_index(
                                    gmid.entries[d2],
                                    self@.entries[d2],
                                ));
                                assert(self@.entries[d2] is InHeap);
                            }
                            assert forall|da: Sha256Digest, db: Sha256Digest|
                                gmid.entries.dom().contains(da) && gmid.entries.dom().contains(db)
                                    && #[trigger] gmid.entries[da] is InHeap
                                    && #[trigger] gmid.entries[db] is InHeap && da
                                    != db implies gmid.entries[da]->InHeap_priority
                                != gmid.entries[db]->InHeap_priority by {
                                assert(crate::model::entry_same_except_index(
                                    gmid.entries[da],
                                    self@.entries[da],
                                ));
                                assert(crate::model::entry_same_except_index(
                                    gmid.entries[db],
                                    self@.entries[db],
                                ));
                                assert(self@.entries[da] is InHeap && self@.entries[db] is InHeap);
                            }
                        }
                    }
                }
                let ghost pre = deps.effects();
                self.possibly_remove_some(deps, Ghost(gmid));
                proof {
                    lemma_extends_trans(base, pre, deps.effects());
                    let k = rs.len() as int;
                    let delta = appended(base, deps.effects());
                    assert(delta.take(k) =~= crate::effects::completions(
                        old(self)@.root,
                        rs,
                        digest,
                    ));
                    assert(delta.skip(k) =~= appended(pre, deps.effects()));
                }
            },
            _ => vstd::pervasive::unreached(),
        }
    }

    /// A fetch failed: answer every pending request with nothing, forget
    /// the digest so a later request can retry, and sweep whatever partial
    /// state the fetch left on disk into `removing/`.
    fn receive_download_and_extract_error<D: CacheDeps>(
        &mut self,
        deps: &mut D,
        digest: Sha256Digest,
    )
        requires
            old(self).wf(),
            error_ok(old(self)@, digest),
        ensures
            final(self).wf(),
            state_matches(error_next(old(self)@, digest), final(self)@),
            extends(old(deps).effects(), final(deps).effects()),
            crate::effects::error_trace(
                old(self)@,
                digest,
                appended(old(deps).effects(), final(deps).effects()),
            ),
    {
        proof {
            self.lemma_table_wf();
        }
        let ghost base = deps.effects();
        let ghost m0 = old(self)@.entries;
        let ghost rs = m0[digest]->Downloading_requests;
        let entry = self.entries.take(&digest);
        match entry {
            Some(CacheEntry::DownloadingAndExtracting(requests)) => {
                let n_requests = requests.len();
                let mut i: usize = 0;
                proof {
                    assert(deps.effects().take(base.len() as int) =~= base);
                    assert(appended(base, deps.effects()) =~= crate::effects::failures(rs).take(
                        0,
                    ));
                }
                while i < n_requests
                    invariant
                        requests@ == rs,
                        n_requests == rs.len(),
                        i <= n_requests,
                        extends(base, deps.effects()),
                        appended(base, deps.effects()) == crate::effects::failures(rs).take(
                            i as int,
                        ),
                    decreases n_requests - i,
                {
                    let rid = requests[i];
                    let ghost pre = deps.effects();
                    deps.get_completed(rid, None);
                    proof {
                        let c = crate::effects::failures(rs);
                        assert(deps.effects() == pre.push(c[i as int]));
                        lemma_extends_push(pre, deps.effects(), c[i as int]);
                        lemma_extends_trans(base, pre, deps.effects());
                        assert(appended(base, deps.effects()) =~= c.take(i as int) + seq![
                            c[i as int],
                        ]);
                        assert(appended(base, deps.effects()) =~= c.take(i + 1));
                    }
                    i = i + 1;
                }
                let cache_path = Self::cache_path(self.root.as_str(), &digest);
                let ghost mid = deps.effects();
                let found = deps.file_exists(&cache_path);
                let ghost mid2 = deps.effects();
                if found {
                    Self::remove_in_background(deps, self.root.as_str(), &cache_path);
                }
                proof {
                    // state and well-formedness
                    assert(self@.entries =~= m0.remove(digest));
                    lemma_total_bytes_remove(m0, digest);
                    crate::heap::lemma_remove_non_heap(self.heap_seq(), m0, digest);
                    assert(priorities_wf(self@)) by {
                        assert forall|d2: Sha256Digest|
                            self@.entries.dom().contains(d2)
                                && #[trigger] self@.entries[d2] is InHeap implies self@.entries[d2]->InHeap_priority
                            < self@.next_priority by {
                            assert(m0[d2] is InHeap);
                        }
                        assert forall|da: Sha256Digest, db: Sha256Digest|
                            self@.entries.dom().contains(da) && self@.entries.dom().contains(db)
                                && #[trigger] self@.entries[da] is InHeap
                                && #[trigger] self@.entries[db] is InHeap && da
                                != db implies self@.entries[da]->InHeap_priority
                            != self@.entries[db]->InHeap_priority by {
                            assert(m0[da] is InHeap && m0[db] is InHeap);
                        }
                    }
                    assert(self@.entries.dom() =~= m0.dom().remove(digest));
                    assert(state_matches(error_next(old(self)@, digest), self@));
                    // the effect trace
                    let k = rs.len() as int;
                    let p = artifact_path(old(self)@.root, digest);
                    assert(appended(base, mid) == crate::effects::failures(rs).take(k));
                    assert(crate::effects::failures(rs).take(k) =~= crate::effects::failures(rs));
                    if found {
                        lemma_extends_push(mid, mid2, Effect::FileExists(p, true));
                        lemma_extends_trans(mid, mid2, deps.effects());
                        lemma_extends_trans(base, mid, deps.effects());
                        let delta = appended(base, deps.effects());
                        assert(delta =~= crate::effects::failures(rs) + (seq![
                            Effect::FileExists(p, true),
                        ] + appended(mid2, deps.effects())));
                        assert(delta.take(k) =~= crate::effects::failures(rs));
                        assert(delta.skip(k)[0] == Effect::FileExists(p, true));
                        assert(delta.skip(k).skip(1) =~= appended(mid2, deps.effects()));
                    } else {
                        assert(deps.effects() == mid.push(Effect::FileExists(p, false)));
                        assert(deps.effects().take(base.len() as int) =~= base);
                        let delta = appended(base, deps.effects());
                        assert(delta =~= crate::effects::failures(rs).push(
                            Effect::FileExists(p, false),
                        ));
                        assert(delta.take(k) =~= crate::effects::failures(rs));
                        assert(delta.skip(k) =~= seq![Effect::FileExists(p, false)]);
                    }
                }
            },
            _ => vstd::pervasive::unreached(),
        }
    }

    /// Answer one request with a fresh handle bound to the given digest, at
    /// that digest's artifact directory.
    fn send_get_completed_successfully<D: CacheDeps>(
        deps: &mut D,
        root: &str,
        request_id: CacheRequestId,
        digest: Sha256Digest,
    )
        ensures
            final(deps).effects() == old(deps).effects().push(
                Effect::GetCompleted(request_id, Some((digest, artifact_path(root@, digest)))),
            ),
    {
        let path = Self::cache_path(root, &digest);
        let handle_deps = deps.cache_handle_deps().clone();
        deps.get_completed(request_id, Some(CacheHandle::new(handle_deps, digest, path)));
    }
}

} // verus!
