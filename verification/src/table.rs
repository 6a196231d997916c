use vstd::prelude::*;
use vstd::pervasive::VecAdditionalExecFns;
use crate::digest::Sha256Digest;
use crate::model::EntryModel;
use crate::CacheRequestId;

verus! {

/// Per-digest state. There is one entry for every digest the cache knows:
/// a fetch in flight, a directory in use, or a directory awaiting eviction.
pub enum CacheEntry {
    /// The artifact is being downloaded and extracted; the vector lists the
    /// requests to answer when the fetch completes.
    DownloadingAndExtracting(Vec<CacheRequestId>),
    /// The artifact is on disk and at least one handle is live.
    InUse { bytes_used: u64, refcount: u32 },
    /// The artifact is on disk with no live handle; it sits in the eviction
    /// heap at `heap_index` with the recorded `priority`.
    InHeap { bytes_used: u64, priority: u64, heap_index: usize },
}

impl View for CacheEntry {
    type V = EntryModel;

    open spec fn view(&self) -> EntryModel {
        match self {
            CacheEntry::DownloadingAndExtracting(requests) => EntryModel::Downloading {
                requests: requests@,
            },
            CacheEntry::InUse { bytes_used, refcount } => EntryModel::InUse {
                bytes_used: *bytes_used,
                refcount: *refcount,
            },
            CacheEntry::InHeap { bytes_used, priority, heap_index } => EntryModel::InHeap {
                bytes_used: *bytes_used,
                priority: *priority,
                heap_index: *heap_index as int,
            },
        }
    }
}

/// The entry table: a mapping from digest to entry, stored as an association
/// list with pairwise-distinct keys and viewed as a `Map`.
pub struct EntryMap {
    items: Vec<(Sha256Digest, CacheEntry)>,
}

/// The map an association list denotes, later pairs taking precedence; the
/// table keeps its keys distinct, so no pair ever shadows another.
pub open spec fn assoc_map(s: Seq<(Sha256Digest, CacheEntry)>) -> Map<Sha256Digest, EntryModel>
    decreases s.len(),
{
    if s.len() == 0 {
        Map::empty()
    } else {
        assoc_map(s.drop_last()).insert(s.last().0, s.last().1@)
    }
}

pub open spec fn distinct_keys(s: Seq<(Sha256Digest, CacheEntry)>) -> bool {
    forall|i: int, j: int| 0 <= i < j < s.len() ==> s[i].0 != s[j].0
}

pub proof fn lemma_assoc_map_props(s: Seq<(Sha256Digest, CacheEntry)>)
    ensures
        assoc_map(s).dom().finite(),
        forall|k: Sha256Digest| #[trigger]
            assoc_map(s).dom().contains(k) <==> (exists|i: int| 0 <= i < s.len() && s[i].0 == k),
        distinct_keys(s) ==> forall|i: int|
            0 <= i < s.len() ==> #[trigger] assoc_map(s)[s[i].0] == s[i].1@,
    decreases s.len(),
{
    if s.len() > 0 {
        lemma_assoc_map_props(s.drop_last());
        assert(forall|k: Sha256Digest| #[trigger] assoc_map(s).dom().contains(k) ==> (exists|i: int|
            0 <= i < s.len() && s[i].0 == k)) by {
            assert forall|k: Sha256Digest| #[trigger] assoc_map(s).dom().contains(k) implies (exists|
                i: int,
            | 0 <= i < s.len() && s[i].0 == k) by {
                if k == s.last().0 {
                    assert(s[s.len() - 1].0 == k);
                } else {
                    let i = choose|i: int| 0 <= i < s.drop_last().len() && s.drop_last()[i].0 == k;
                    assert(s[i].0 == k);
                }
            }
        }
        assert(forall|i: int| 0 <= i < s.len() ==> #[trigger] assoc_map(s).dom().contains(s[i].0))
            by {
            assert forall|i: int| 0 <= i < s.len() implies #[trigger] assoc_map(s).dom().contains(
                s[i].0,
            ) by {
                if i < s.len() - 1 {
                    assert(s.drop_last()[i].0 == s[i].0);
                }
            }
        }
        if distinct_keys(s) {
            assert(distinct_keys(s.drop_last()));
            assert forall|i: int| 0 <= i < s.len() implies #[trigger] assoc_map(s)[s[i].0]
                == s[i].1@ by {
                if i < s.len() - 1 {
                    assert(s.drop_last()[i] == s[i]);
                    assert(s[i].0 != s.last().0);
                }
            }
        }
    }
}

pub proof fn lemma_assoc_map_update(s: Seq<(Sha256Digest, CacheEntry)>, i: int, v: CacheEntry)
    requires
        distinct_keys(s),
        0 <= i < s.len(),
    ensures
        assoc_map(s.update(i, (s[i].0, v))) =~= assoc_map(s).insert(s[i].0, v@),
    decreases s.len(),
{
    let k = s[i].0;
    let t = s.update(i, (k, v));
    if i == s.len() - 1 {
        assert(t.drop_last() =~= s.drop_last());
    } else {
        assert(t.drop_last() =~= s.drop_last().update(i, (k, v)));
        assert(s.drop_last()[i] == s[i]);
        lemma_assoc_map_update(s.drop_last(), i, v);
        assert(t.last() == s.last());
        assert(s.last().0 != k);
    }
}

/// The sequence with its `i`-th element removed.
pub open spec fn remove_ith(s: Seq<(Sha256Digest, CacheEntry)>, i: int) -> Seq<
    (Sha256Digest, CacheEntry),
> {
    s.subrange(0, i) + s.subrange(i + 1, s.len() as int)
}

pub proof fn lemma_assoc_map_remove(s: Seq<(Sha256Digest, CacheEntry)>, i: int)
    requires
        distinct_keys(s),
        0 <= i < s.len(),
    ensures
        assoc_map(remove_ith(s, i)) =~= assoc_map(s).remove(s[i].0),
        distinct_keys(remove_ith(s, i)),
    decreases s.len(),
{
    let k = s[i].0;
    lemma_assoc_map_props(s.drop_last());
    if i == s.len() - 1 {
        assert(remove_ith(s, i) =~= s.drop_last());
        assert(!assoc_map(s.drop_last()).dom().contains(k)) by {
            if assoc_map(s.drop_last()).dom().contains(k) {
                let j = choose|j: int| 0 <= j < s.drop_last().len() && s.drop_last()[j].0 == k;
                assert(s[j].0 == k);
            }
        }
        assert(assoc_map(remove_ith(s, i)) =~= assoc_map(s).remove(k));
    } else {
        assert(remove_ith(s, i).drop_last() =~= remove_ith(s.drop_last(), i));
        assert(remove_ith(s, i).last() == s.last());
        assert(s.drop_last()[i] == s[i]);
        lemma_assoc_map_remove(s.drop_last(), i);
        assert(s.last().0 != k);
        assert(assoc_map(remove_ith(s, i)) =~= assoc_map(s.drop_last()).remove(k).insert(
            s.last().0,
            s.last().1@,
        ));
        assert(assoc_map(s).remove(k) =~= assoc_map(s.drop_last()).insert(
            s.last().0,
            s.last().1@,
        ).remove(k));
    }
}

impl EntryMap {
    /// Distinct keys: what makes the association list denote its map plainly.
    pub closed spec fn wf(&self) -> bool {
        distinct_keys(self.items@)
    }

    pub closed spec fn view(&self) -> Map<Sha256Digest, EntryModel> {
        assoc_map(self.items@)
    }

    pub fn new() -> (r: EntryMap)
        ensures
            r.wf(),
            r@ =~= Map::empty(),
    {
        EntryMap { items: Vec::new() }
    }

    pub proof fn lemma_finite(&self)
        ensures
            self@.dom().finite(),
    {
        lemma_assoc_map_props(self.items@);
    }

    /// The position holding a digest, if any.
    fn find(&self, d: &Sha256Digest) -> (r: Option<usize>)
        requires
            self.wf(),
        ensures
            match r {
                Some(i) => i < self.items@.len() && self.items@[i as int].0 == *d
                    && self@.dom().contains(*d),
                None => !self@.dom().contains(*d),
            },
    {
        proof {
            lemma_assoc_map_props(self.items@);
        }
        let n = self.items.len();
        let mut i: usize = 0;
        while i < n
            invariant
                self.wf(),
                n == self.items@.len(),
                i <= n,
                forall|j: int| 0 <= j < i ==> self.items@[j].0 != *d,
            decreases n - i,
        {
            if self.items[i].0 == *d {
                proof {
                    lemma_assoc_map_props(self.items@);
                }
                return Some(i);
            }
            i = i + 1;
        }
        proof {
            if self@.dom().contains(*d) {
                let j = choose|j: int| 0 <= j < self.items@.len() && self.items@[j].0 == *d;
                assert(self.items@[j].0 != *d);
            }
        }
        None
    }

    /// A reference to the entry of a digest, if the table holds one.
    pub fn get(&self, d: &Sha256Digest) -> (r: Option<&CacheEntry>)
        requires
            self.wf(),
        ensures
            match r {
                Some(e) => self@.dom().contains(*d) && self@[*d] == e@,
                None => !self@.dom().contains(*d),
            },
    {
        proof {
            lemma_assoc_map_props(self.items@);
        }
        match self.find(d) {
            Some(i) => Some(&self.items[i].1),
            None => None,
        }
    }

    /// Insert an entry, replacing any entry the digest already had.
    pub fn set(&mut self, d: Sha256Digest, e: CacheEntry)
        requires
            old(self).wf(),
        ensures
            final(self).wf(),
            final(self)@ =~= old(self)@.insert(d, e@),
    {
        proof {
            lemma_assoc_map_props(self.items@);
        }
        match self.find(&d) {
            Some(i) => {
                proof {
                    lemma_assoc_map_update(self.items@, i as int, e);
                }
                self.items.set(i, (d, e));
                proof {
                    assert forall|a: int, b: int|
                        0 <= a < b < self.items@.len() implies self.items@[a].0
                        != self.items@[b].0 by {
                        assert(old(self).items@[a].0 != old(self).items@[b].0);
                    }
                }
            },
            None => {
                self.items.push((d, e));
                proof {
                    assert(self.items@.drop_last() =~= old(self).items@);
                    assert forall|a: int, b: int|
                        0 <= a < b < self.items@.len() implies self.items@[a].0
                        != self.items@[b].0 by {
                        if b < self.items@.len() - 1 {
                            assert(old(self).items@[a].0 != old(self).items@[b].0);
                        } else {
                            assert(old(self).items@[a].0 == self.items@[a].0);
                        }
                    }
                }
            },
        }
    }

    /// Compare two in-heap entries by eviction priority, on behalf of the
    /// heap, which stores no priorities of its own.
    pub fn is_element_less_than(&self, lhs: &Sha256Digest, rhs: &Sha256Digest) -> (r: bool)
        requires
            self.wf(),
            self@.dom().contains(*lhs),
            self@[*lhs] is InHeap,
            self@.dom().contains(*rhs),
            self@[*rhs] is InHeap,
        ensures
            r == (crate::model::prio(self@, *lhs) < crate::model::prio(self@, *rhs)),
    {
        proof {
            lemma_assoc_map_props(self.items@);
        }
        let lhs_priority = match self.find(lhs) {
            Some(i) => match &self.items[i].1 {
                CacheEntry::InHeap { priority, .. } => *priority,
                _ => vstd::pervasive::unreached(),
            },
            None => vstd::pervasive::unreached(),
        };
        let rhs_priority = match self.find(rhs) {
            Some(i) => match &self.items[i].1 {
                CacheEntry::InHeap { priority, .. } => *priority,
                _ => vstd::pervasive::unreached(),
            },
            None => vstd::pervasive::unreached(),
        };
        lhs_priority < rhs_priority
    }

    /// Record an in-heap entry's new position, on behalf of the heap, after
    /// the heap moves the element.
    pub fn update_index(&mut self, elem: &Sha256Digest, idx: usize)
        requires
            old(self).wf(),
            old(self)@.dom().contains(*elem),
            old(self)@[*elem] is InHeap,
        ensures
            final(self).wf(),
            final(self)@ =~= old(self)@.insert(
                *elem,
                EntryModel::InHeap {
                    bytes_used: old(self)@[*elem]->InHeap_bytes_used,
                    priority: old(self)@[*elem]->InHeap_priority,
                    heap_index: idx as int,
                },
            ),
    {
        proof {
            lemma_assoc_map_props(self.items@);
        }
        match self.find(elem) {
            Some(i) => {
                let (bytes_used, priority) = match &self.items[i].1 {
                    CacheEntry::InHeap { bytes_used, priority, .. } => (*bytes_used, *priority),
                    _ => vstd::pervasive::unreached(),
                };
                self.set(*elem, CacheEntry::InHeap { bytes_used, priority, heap_index: idx });
            },
            None => vstd::pervasive::unreached(),
        }
    }

    /// Remove and return the entry of a digest.
    pub fn take(&mut self, d: &Sha256Digest) -> (r: Option<CacheEntry>)
        requires
            old(self).wf(),
        ensures
            final(self).wf(),
            match r {
                Some(e) => old(self)@.dom().contains(*d) && old(self)@[*d] == e@ && final(self)@
                    =~= old(self)@.remove(*d),
                None => !old(self)@.dom().contains(*d) && final(self)@ =~= old(self)@,
            },
    {
        proof {
            lemma_assoc_map_props(self.items@);
        }
        match self.find(d) {
            Some(i) => {
                proof {
                    lemma_assoc_map_remove(self.items@, i as int);
                    assert(remove_ith(self.items@, i as int) =~= self.items@.remove(i as int));
                }
                let (_, e) = self.items.remove(i);
                Some(e)
            },
            None => None,
        }
    }
}

} // verus!
