use vstd::prelude::*;
use vstd::pervasive::VecAdditionalExecFns;
use crate::digest::Sha256Digest;
use crate::model::{lemma_same_except_indices_trans, prio, same_except_indices, EntryModel};
use crate::table::EntryMap;

verus! {

/// A binary min-heap of digests, ordered by the priorities that the entry
/// table stores. The heap holds no priorities itself: it compares elements
/// and publishes their positions through the table, so an `InHeap` entry's
/// `heap_index` always names its slot and any element can be removed by
/// index.
pub struct Heap {
    elements: Vec<Sha256Digest>,
}

/// The parent slot of a non-root heap slot.
pub open spec fn parent(i: int) -> int {
    (i - 1) / 2
}

/// Entry `a` may sit above entry `b`.
pub open spec fn heap_le(m: Map<Sha256Digest, EntryModel>, a: Sha256Digest, b: Sha256Digest) -> bool {
    prio(m, a) <= prio(m, b)
}

/// Every heap slot holds a digest whose table entry is `InHeap` and points
/// back at that very slot.
pub open spec fn slots_match(h: Seq<Sha256Digest>, m: Map<Sha256Digest, EntryModel>) -> bool {
    forall|i: int|
        0 <= i < h.len() ==> #[trigger] m.dom().contains(h[i]) && m[h[i]] is InHeap
            && m[h[i]]->InHeap_heap_index == i
}

/// As `slots_match`, except that slot `j` is not vouched for.
pub open spec fn slots_match_except(
    h: Seq<Sha256Digest>,
    m: Map<Sha256Digest, EntryModel>,
    j: int,
) -> bool {
    forall|i: int|
        0 <= i < h.len() && i != j ==> #[trigger] m.dom().contains(h[i]) && m[h[i]] is InHeap
            && m[h[i]]->InHeap_heap_index == i
}

/// If `d`'s entry is in the heap, its recorded index names a slot that holds
/// `d`.
pub open spec fn entry_covered(
    h: Seq<Sha256Digest>,
    m: Map<Sha256Digest, EntryModel>,
    d: Sha256Digest,
) -> bool {
    (m.dom().contains(d) && m[d] is InHeap) ==> {
        let i = m[d]->InHeap_heap_index;
        0 <= i < h.len() && h[i] == d
    }
}

/// Every `InHeap` entry of the table occupies a heap slot.
pub open spec fn entries_covered(h: Seq<Sha256Digest>, m: Map<Sha256Digest, EntryModel>) -> bool {
    forall|d: Sha256Digest| #[trigger] entry_covered(h, m, d)
}

/// The heap order, in full: every non-root slot is no smaller than its
/// parent.
pub open spec fn ordered(h: Seq<Sha256Digest>, m: Map<Sha256Digest, EntryModel>) -> bool {
    forall|i: int| 1 <= i < h.len() ==> heap_le(m, h[#[trigger] parent(i)], h[i])
}

/// The heap order, except that slot `j` may be smaller than its parent.
pub open spec fn ordered_except_up(
    h: Seq<Sha256Digest>,
    m: Map<Sha256Digest, EntryModel>,
    j: int,
) -> bool {
    forall|i: int| 1 <= i < h.len() && i != j ==> heap_le(m, h[#[trigger] parent(i)], h[i])
}

/// The heap order, except that slot `j` may be larger than its children.
pub open spec fn ordered_except_down(
    h: Seq<Sha256Digest>,
    m: Map<Sha256Digest, EntryModel>,
    j: int,
) -> bool {
    forall|i: int| 1 <= i < h.len() && parent(i) != j ==> heap_le(m, h[#[trigger] parent(i)], h[i])
}

/// The heap order on every pair that does not touch slot `j` at all.
pub open spec fn ordered_except_hole(
    h: Seq<Sha256Digest>,
    m: Map<Sha256Digest, EntryModel>,
    j: int,
) -> bool {
    forall|i: int|
        1 <= i < h.len() && i != j && parent(i) != j ==> heap_le(m, h[#[trigger] parent(i)], h[i])
}

/// Whatever sits in slot `j`, its parent is no larger than `j`'s children:
/// the order would survive lifting the parent into slot `j`.
pub open spec fn over_hole(h: Seq<Sha256Digest>, m: Map<Sha256Digest, EntryModel>, j: int) -> bool {
    forall|i: int|
        1 <= i < h.len() && #[trigger] parent(i) == j && j >= 1 ==> heap_le(m, h[parent(j)], h[i])
}

/// The heap and the table agree completely.
pub open spec fn heap_wf(h: Seq<Sha256Digest>, m: Map<Sha256Digest, EntryModel>) -> bool {
    slots_match(h, m) && entries_covered(h, m) && ordered(h, m)
}

impl Heap {
    /// The digests in heap order, root first.
    pub closed spec fn view(&self) -> Seq<Sha256Digest> {
        self.elements@
    }

    pub fn new() -> (r: Heap)
        ensures
            r@ =~= Seq::<Sha256Digest>::empty(),
    {
        Heap { elements: Vec::new() }
    }

    /// Restore the order by floating slot `j` towards the root, keeping every
    /// moved element's `heap_index` current.
    fn sift_up(&mut self, table: &mut EntryMap, j: usize)
        requires
            old(table).wf(),
            j < old(self)@.len(),
            slots_match(old(self)@, old(table)@),
            ordered_except_up(old(self)@, old(table)@, j as int),
            over_hole(old(self)@, old(table)@, j as int),
        ensures
            final(table).wf(),
            final(self)@.len() == old(self)@.len(),
            slots_match(final(self)@, final(table)@),
            ordered(final(self)@, final(table)@),
            same_except_indices(old(table)@, final(table)@),
            forall|d: Sha256Digest|
                entry_covered(final(self)@, final(table)@, d) == entry_covered(
                    old(self)@,
                    old(table)@,
                    d,
                ),
        decreases j,
    {
        if j == 0 {
            return ;
        }
        let p: usize = (j - 1) / 2;
        let ej = self.elements[j];
        let ep = self.elements[p];
        proof {
            assert(table@.dom().contains(self@[j as int]));
            assert(table@.dom().contains(self@[p as int]));
        }
        if table.is_element_less_than(&ej, &ep) {
            proof {
                assert(ej != ep);
            }
            self.elements.set(j, ep);
            self.elements.set(p, ej);
            table.update_index(&ep, j);
            table.update_index(&ej, p);
            proof {
                let h0 = old(self)@;
                let m0 = old(table)@;
                let h1 = self@;
                let m1 = table@;
                assert(slots_match(h1, m1)) by {
                    assert forall|i: int|
                        0 <= i < h1.len() implies #[trigger] m1.dom().contains(h1[i])
                        && m1[h1[i]] is InHeap && m1[h1[i]]->InHeap_heap_index == i by {
                        if i == j {
                            assert(h1[i] == ep);
                            assert(m1.dom().contains(ep));
                            assert(m1[ep] is InHeap);
                            assert(m1[ep]->InHeap_heap_index == j as int);
                        } else if i == p {
                            assert(h1[i] == ej);
                            assert(m1.dom().contains(ej));
                            assert(m1[ej] is InHeap);
                            assert(m1[ej]->InHeap_heap_index == p as int);
                        } else {
                            assert(m0.dom().contains(h0[i]));
                            assert(h0[i] != ej && h0[i] != ep);
                        }
                    }
                }
                assert(ordered_except_up(h1, m1, p as int)) by {
                    assert forall|i: int|
                        1 <= i < h1.len() && i != p implies heap_le(m1, h1[#[trigger] parent(i)], h1[i]) by {
                        let pi = parent(i);
                        assert(heap_le(m1, h1[pi], h1[i]) == heap_le(m0, h1[pi], h1[i]));
                        if i == j {
                            assert(h1[pi] == ej && h1[i] == ep);
                        } else if pi == j {
                            assert(heap_le(m0, h0[parent(j as int)], h0[i]));
                        } else if pi == p {
                            assert(i != j);
                            assert(heap_le(m0, h0[p as int], h0[i]));
                            assert(heap_le(m0, ej, h0[p as int]));
                        } else {
                            assert(heap_le(m0, h0[pi], h0[i]));
                        }
                    }
                }
                assert(over_hole(h1, m1, p as int)) by {
                    if p >= 1 {
                        let gp = parent(p as int);
                        assert forall|i: int|
                            1 <= i < h1.len() && #[trigger] parent(i) == p as int implies heap_le(
                            m1,
                            h1[parent(p as int)],
                            h1[i],
                        ) by {
                            assert(gp != j as int && gp != p as int);
                            assert(h1[gp] == h0[gp]);
                            if i == j {
                                assert(heap_le(m0, h0[gp], h0[p as int]));
                            } else {
                                assert(h1[i] == h0[i]);
                                assert(heap_le(m0, h0[p as int], h0[i]));
                                assert(heap_le(m0, h0[gp], h0[p as int]));
                            }
                        }
                    }
                }
                assert forall|d: Sha256Digest|
                    entry_covered(h1, m1, d) == entry_covered(h0, m0, d) by {
                    if m0.dom().contains(d) && m0[d] is InHeap {
                        if d == ej || d == ep {
                        } else {
                            let i = m0[d]->InHeap_heap_index;
                            assert(m1[d] == m0[d]);
                            if 0 <= i < h0.len() && h0[i] == d {
                                assert(i != j && i != p);
                                assert(h1[i] == d);
                            } else {
                                if 0 <= i < h1.len() && h1[i] == d {
                                    assert(h0[i] == d);
                                }
                            }
                        }
                    }
                }
            }
            let ghost m_mid = table@;
            proof {
                assert(same_except_indices(old(table)@, m_mid));
            }
            self.sift_up(table, p);
            proof {
                lemma_same_except_indices_trans(old(table)@, m_mid, table@);
            }
        }
    }

    /// Add an element whose entry the table already marks `InHeap`; its
    /// recorded index is corrected at once and the order restored.
    pub fn push(&mut self, table: &mut EntryMap, elem: Sha256Digest)
        requires
            old(table).wf(),
            old(table)@.dom().contains(elem),
            old(table)@[elem] is InHeap,
            forall|i: int| 0 <= i < old(self)@.len() ==> old(self)@[i] != elem,
            slots_match(old(self)@, old(table)@),
            entries_covered_except(old(self)@, old(table)@, elem),
            ordered(old(self)@, old(table)@),
        ensures
            final(table).wf(),
            final(self)@.len() == old(self)@.len() + 1,
            heap_wf(final(self)@, final(table)@),
            same_except_indices(old(table)@, final(table)@),
    {
        let n = self.elements.len();
        self.elements.push(elem);
        table.update_index(&elem, n);
        proof {
            let h0 = old(self)@;
            let m0 = old(table)@;
            let h1 = self@;
            let m1 = table@;
            assert(slots_match(h1, m1)) by {
                assert forall|i: int|
                    0 <= i < h1.len() implies #[trigger] m1.dom().contains(h1[i])
                    && m1[h1[i]] is InHeap && m1[h1[i]]->InHeap_heap_index == i by {
                    if i < n {
                        assert(h0[i] != elem);
                        assert(h1[i] == h0[i]);
                    }
                }
            }
            assert(ordered_except_up(h1, m1, n as int)) by {
                assert forall|i: int|
                    1 <= i < h1.len() && i != n implies heap_le(m1, h1[#[trigger] parent(i)], h1[i]) by {
                    assert(h0[parent(i)] != elem && h0[i] != elem);
                    assert(heap_le(m0, h0[parent(i)], h0[i]));
                }
            }
            assert(over_hole(h1, m1, n as int));
        }
        let ghost h_mid = self@;
        let ghost m_mid = table@;
        proof {
            assert(same_except_indices(old(table)@, m_mid));
            assert forall|d: Sha256Digest| #[trigger] entry_covered(h_mid, m_mid, d) by {
                if d == elem {
                    assert(h_mid[n as int] == elem);
                } else {
                    assert(entry_covered(old(self)@, old(table)@, d));
                    if m_mid.dom().contains(d) && m_mid[d] is InHeap {
                        let i = m_mid[d]->InHeap_heap_index;
                        assert(m_mid[d] == old(table)@[d]);
                        assert(0 <= i < old(self)@.len() && old(self)@[i] == d);
                        assert(h_mid[i] == d);
                    }
                }
            }
        }
        self.sift_up(table, n);
        proof {
            lemma_same_except_indices_trans(old(table)@, m_mid, table@);
            assert(entries_covered(self@, table@)) by {
                assert forall|d: Sha256Digest| #[trigger] entry_covered(self@, table@, d) by {
                    assert(entry_covered(h_mid, m_mid, d));
                }
            }
        }
    }
}

/// The root of an ordered heap is no larger than any element.
pub proof fn lemma_root_le(h: Seq<Sha256Digest>, m: Map<Sha256Digest, EntryModel>, i: int)
    requires
        ordered(h, m),
        0 <= i < h.len(),
    ensures
        heap_le(m, h[0], h[i]),
    decreases i,
{
    if i > 0 {
        assert(0 <= parent(i) < i);
        lemma_root_le(h, m, parent(i));
    }
}

impl Heap {
    /// Restore the order by sinking slot `j` towards the leaves, keeping
    /// every moved element's `heap_index` current.
    #[verifier::rlimit(50)]
    fn sift_down(&mut self, table: &mut EntryMap, j: usize)
        requires
            old(table).wf(),
            j < old(self)@.len(),
            slots_match(old(self)@, old(table)@),
            ordered_except_down(old(self)@, old(table)@, j as int),
            over_hole(old(self)@, old(table)@, j as int),
        ensures
            final(table).wf(),
            final(self)@.len() == old(self)@.len(),
            slots_match(final(self)@, final(table)@),
            ordered(final(self)@, final(table)@),
            same_except_indices(old(table)@, final(table)@),
            forall|d: Sha256Digest|
                entry_covered(final(self)@, final(table)@, d) == entry_covered(
                    old(self)@,
                    old(table)@,
                    d,
                ),
        decreases old(self)@.len() - j,
    {
        let n = self.elements.len();
        if j >= n / 2 {
            proof {
                assert(ordered(self@, table@)) by {
                    assert forall|i: int|
                        1 <= i < self@.len() implies heap_le(
                        table@,
                        self@[#[trigger] parent(i)],
                        self@[i],
                    ) by {
                        assert(parent(i) != j as int);
                    }
                }
            }
            return ;
        }
        let c1 = 2 * j + 1;
        let mut c = c1;
        proof {
            assert(table@.dom().contains(self@[j as int]));
            assert(table@.dom().contains(self@[2 * j + 1]));
            if 2 * j + 2 < self@.len() {
                assert(table@.dom().contains(self@[2 * j + 2]));
            }
        }
        if c1 + 1 < n {
            if table.is_element_less_than(&self.elements[c1 + 1], &self.elements[c1]) {
                c = c1 + 1;
            }
        }
        let ej = self.elements[j];
        let ec = self.elements[c];
        if table.is_element_less_than(&ec, &ej) {
            proof {
                assert(ej != ec);
            }
            self.elements.set(j, ec);
            self.elements.set(c, ej);
            table.update_index(&ec, j);
            table.update_index(&ej, c);
            proof {
                let h0 = old(self)@;
                let m0 = old(table)@;
                let h1 = self@;
                let m1 = table@;
                assert(slots_match(h1, m1)) by {
                    assert forall|i: int|
                        0 <= i < h1.len() implies #[trigger] m1.dom().contains(h1[i])
                        && m1[h1[i]] is InHeap && m1[h1[i]]->InHeap_heap_index == i by {
                        if i != j && i != c {
                            assert(m0.dom().contains(h0[i]));
                            assert(h0[i] != ej && h0[i] != ec);
                        }
                    }
                }
                assert(ordered_except_down(h1, m1, c as int)) by {
                    assert forall|i: int|
                        1 <= i < h1.len() && parent(i) != c as int implies heap_le(
                        m1,
                        h1[#[trigger] parent(i)],
                        h1[i],
                    ) by {
                        let pi = parent(i);
                        assert(heap_le(m1, h1[pi], h1[i]) == heap_le(m0, h1[pi], h1[i]));
                        if i == j as int {
                            assert(parent(j as int) != j as int && parent(j as int) != c as int);
                            assert(parent(c as int) == j as int);
                            assert(heap_le(m0, h0[parent(j as int)], h0[c as int]));
                        } else if i == c as int {
                            assert(pi == j as int);
                            assert(h1[pi] == ec && h1[i] == ej);
                        } else if pi == j as int {
                            assert(h1[i] == h0[i]);
                            if c == c1 {
                                assert(i == c1 + 1);
                                assert(heap_le(m0, h0[c as int], h0[i]));
                            } else {
                                assert(i == c1 as int);
                                assert(heap_le(m0, h0[c as int], h0[i]));
                            }
                        } else {
                            assert(pi != c as int && i != j as int && i != c as int);
                            assert(heap_le(m0, h0[pi], h0[i]));
                        }
                    }
                }
                assert(over_hole(h1, m1, c as int)) by {
                    assert forall|i: int|
                        1 <= i < h1.len() && #[trigger] parent(i) == c as int && c as int
                        >= 1 implies heap_le(m1, h1[parent(c as int)], h1[i]) by {
                        assert(parent(c as int) == j as int);
                        assert(h1[parent(c as int)] == ec);
                        assert(i != j as int && i != c as int);
                        assert(h1[i] == h0[i]);
                        assert(heap_le(m0, h0[c as int], h0[i]));
                    }
                }
                assert forall|d: Sha256Digest|
                    entry_covered(h1, m1, d) == entry_covered(h0, m0, d) by {
                    if m0.dom().contains(d) && m0[d] is InHeap {
                        if d == ej || d == ec {
                        } else {
                            let i = m0[d]->InHeap_heap_index;
                            assert(m1[d] == m0[d]);
                            if 0 <= i < h0.len() && h0[i] == d {
                                assert(i != j && i != c);
                                assert(h1[i] == d);
                            } else {
                                if 0 <= i < h1.len() && h1[i] == d {
                                    assert(h0[i] == d);
                                }
                            }
                        }
                    }
                }
            }
            let ghost m_mid = table@;
            proof {
                assert(same_except_indices(old(table)@, m_mid));
            }
            self.sift_down(table, c);
            proof {
                lemma_same_except_indices_trans(old(table)@, m_mid, table@);
            }
        } else {
            proof {
                assert(ordered(self@, table@)) by {
                    assert forall|i: int|
                        1 <= i < self@.len() implies heap_le(
                        table@,
                        self@[#[trigger] parent(i)],
                        self@[i],
                    ) by {
                        if parent(i) == j as int {
                            if i == c as int {
                            } else if c1 + 1 < n {
                                assert(heap_le(table@, self@[c as int], self@[i]));
                            }
                        }
                    }
                }
            }
        }
    }

    /// Remove and return the least-priority element, the heap's root. The
    /// popped digest's table entry is left as it was, no longer covered by
    /// the heap; the caller disposes of it.
    pub fn pop(&mut self, table: &mut EntryMap) -> (r: Option<Sha256Digest>)
        requires
            old(table).wf(),
            slots_match(old(self)@, old(table)@),
            entries_covered(old(self)@, old(table)@),
            ordered(old(self)@, old(table)@),
        ensures
            final(table).wf(),
            same_except_indices(old(table)@, final(table)@),
            match r {
                None => old(self)@.len() == 0 && final(self)@ == old(self)@ && final(table)@
                    == old(table)@,
                Some(d) => {
                    &&& old(self)@.len() > 0
                    &&& d == old(self)@[0]
                    &&& final(self)@.len() == old(self)@.len() - 1
                    &&& slots_match(final(self)@, final(table)@)
                    &&& ordered(final(self)@, final(table)@)
                    &&& entries_covered_except(final(self)@, final(table)@, d)
                    &&& forall|i: int| 0 <= i < final(self)@.len() ==> final(self)@[i] != d
                    &&& forall|d2: Sha256Digest|
                        old(table)@.dom().contains(d2) && old(table)@[d2] is InHeap ==> prio(
                            old(table)@,
                            d,
                        ) <= prio(old(table)@, d2)
                },
            },
    {
        let n = self.elements.len();
        if n == 0 {
            return None;
        }
        let root = self.elements[0];
        proof {
            assert forall|d2: Sha256Digest|
                old(table)@.dom().contains(d2) && old(table)@[d2] is InHeap implies prio(
                old(table)@,
                root,
            ) <= prio(old(table)@, d2) by {
                assert(entry_covered(old(self)@, old(table)@, d2));
                let i = old(table)@[d2]->InHeap_heap_index;
                lemma_root_le(old(self)@, old(table)@, i);
            }
        }
        let last = match self.elements.pop() {
            Some(e) => e,
            None => vstd::pervasive::unreached(),
        };
        if n == 1 {
            proof {
                assert(old(self)@.last() == old(self)@[0]);
                assert(last == root);
                assert forall|d: Sha256Digest| d != root implies #[trigger] entry_covered(
                    self@,
                    table@,
                    d,
                ) by {
                    if table@.dom().contains(d) && table@[d] is InHeap {
                        assert(entry_covered(old(self)@, old(table)@, d));
                        let i = table@[d]->InHeap_heap_index;
                        assert(old(self)@[i] == d);
                        assert(i == 0);
                        assert(false);
                    }
                }
            }
            return Some(root);
        }
        proof {
            assert(old(self)@.last() == old(self)@[n - 1]);
            assert(old(self)@[n - 1] == last);
            assert(old(table)@.dom().contains(old(self)@[n - 1]));
            assert(old(table)@.dom().contains(old(self)@[0]));
            assert(last != root);
        }
        self.elements.set(0, last);
        table.update_index(&last, 0);
        proof {
            let h0 = old(self)@;
            let m0 = old(table)@;
            let h1 = self@;
            let m1 = table@;
            assert(slots_match(h1, m1)) by {
                assert forall|i: int|
                    0 <= i < h1.len() implies #[trigger] m1.dom().contains(h1[i])
                    && m1[h1[i]] is InHeap && m1[h1[i]]->InHeap_heap_index == i by {
                    if i != 0 {
                        assert(h1[i] == h0[i]);
                        assert(h0[i] != last && h0[i] != root);
                    }
                }
            }
            assert(ordered_except_down(h1, m1, 0)) by {
                assert forall|i: int|
                    1 <= i < h1.len() && parent(i) != 0 implies heap_le(
                    m1,
                    h1[#[trigger] parent(i)],
                    h1[i],
                ) by {
                    assert(h1[parent(i)] == h0[parent(i)] && h1[i] == h0[i]);
                    assert(heap_le(m0, h0[parent(i)], h0[i]));
                }
            }
        }
        let ghost h_mid = self@;
        let ghost m_mid = table@;
        proof {
            assert(same_except_indices(old(table)@, m_mid));
            assert forall|d: Sha256Digest| d != root implies #[trigger] entry_covered(
                h_mid,
                m_mid,
                d,
            ) by {
                if m_mid.dom().contains(d) && m_mid[d] is InHeap {
                    assert(entry_covered(old(self)@, old(table)@, d));
                    let i = m_mid[d]->InHeap_heap_index;
                    if d == last {
                        assert(h_mid[0] == last);
                    } else {
                        assert(m_mid[d] == old(table)@[d]);
                        assert(old(self)@[i] == d);
                        assert(i != 0 && i != n - 1);
                        assert(h_mid[i] == d);
                    }
                }
            }
        }
        self.sift_down(table, 0);
        proof {
            lemma_same_except_indices_trans(old(table)@, m_mid, table@);
            assert forall|d: Sha256Digest| d != root implies #[trigger] entry_covered(
                self@,
                table@,
                d,
            ) by {
                assert(entry_covered(h_mid, m_mid, d));
            }
            assert forall|i: int| 0 <= i < self@.len() implies self@[i] != root by {
                if self@[i] == root {
                    assert(table@.dom().contains(root) && table@[root] is InHeap
                        && table@[root]->InHeap_heap_index == i);
                    assert(entry_covered(self@, table@, root) == entry_covered(h_mid, m_mid, root));
                    assert(h_mid[0] == last);
                    assert(m_mid[root]->InHeap_heap_index == 0);
                    assert(!entry_covered(h_mid, m_mid, root));
                    assert(entry_covered(self@, table@, root));
                    assert(false);
                }
            }
        }
        Some(root)
    }

    /// Remove the element at a given slot: the one whose entry the caller
    /// has just taken out of the `InHeap` state.
    pub fn remove(&mut self, table: &mut EntryMap, index: usize)
        requires
            old(table).wf(),
            index < old(self)@.len(),
            slots_match_except(old(self)@, old(table)@, index as int),
            !(old(table)@[old(self)@[index as int]] is InHeap),
            entries_covered(old(self)@, old(table)@),
            ordered_except_hole(old(self)@, old(table)@, index as int),
            over_hole(old(self)@, old(table)@, index as int),
        ensures
            final(table).wf(),
            same_except_indices(old(table)@, final(table)@),
            final(self)@.len() == old(self)@.len() - 1,
            slots_match(final(self)@, final(table)@),
            ordered(final(self)@, final(table)@),
            entries_covered(final(self)@, final(table)@),
    {
        let n = self.elements.len();
        let ghost ex = old(self)@[index as int];
        let last = match self.elements.pop() {
            Some(e) => e,
            None => vstd::pervasive::unreached(),
        };
        if index == n - 1 {
            proof {
                let h1 = self@;
                let m1 = table@;
                assert(slots_match(h1, m1)) by {
                    assert forall|i: int|
                        0 <= i < h1.len() implies #[trigger] m1.dom().contains(h1[i])
                        && m1[h1[i]] is InHeap && m1[h1[i]]->InHeap_heap_index == i by {
                        assert(h1[i] == old(self)@[i]);
                        assert(old(table)@.dom().contains(old(self)@[i]));
                    }
                }
                assert(ordered(h1, m1)) by {
                    assert forall|i: int|
                        1 <= i < h1.len() implies heap_le(m1, h1[#[trigger] parent(i)], h1[i]) by {
                        assert(parent(i) < i < n - 1);
                        assert(heap_le(m1, h1[parent(i)], h1[i]) == heap_le(
                            old(table)@,
                            old(self)@[parent(i)],
                            old(self)@[i],
                        ));
                    }
                }
                assert forall|d: Sha256Digest| #[trigger] entry_covered(h1, m1, d) by {
                    if m1.dom().contains(d) && m1[d] is InHeap {
                        assert(entry_covered(old(self)@, old(table)@, d));
                        let i = m1[d]->InHeap_heap_index;
                        assert(old(self)@[i] == d);
                        assert(d != ex);
                        assert(i != index);
                    }
                }
            }
            return ;
        }
        proof {
            assert(old(self)@.last() == old(self)@[n - 1]);
            assert(old(table)@.dom().contains(old(self)@[n - 1]));
        }
        self.elements.set(index, last);
        table.update_index(&last, index);
        proof {
            let h0 = old(self)@;
            let m0 = old(table)@;
            let h1 = self@;
            let m1 = table@;
            assert(h0[n - 1] == last);
            assert(last != ex);
            assert(slots_match(h1, m1)) by {
                assert forall|i: int|
                    0 <= i < h1.len() implies #[trigger] m1.dom().contains(h1[i])
                    && m1[h1[i]] is InHeap && m1[h1[i]]->InHeap_heap_index == i by {
                    if i != index {
                        assert(h1[i] == h0[i]);
                        assert(h0[i] != last);
                    }
                }
            }
        }
        let ghost h_mid = self@;
        let ghost m_mid = table@;
        proof {
            assert(same_except_indices(old(table)@, m_mid));
            assert forall|d: Sha256Digest| #[trigger] entry_covered(h_mid, m_mid, d) by {
                if m_mid.dom().contains(d) && m_mid[d] is InHeap {
                    assert(entry_covered(old(self)@, old(table)@, d));
                    let i = m_mid[d]->InHeap_heap_index;
                    if d == last {
                        assert(h_mid[index as int] == last);
                    } else {
                        assert(m_mid[d] == old(table)@[d]);
                        assert(old(self)@[i] == d);
                        assert(d != ex);
                        assert(i != index && i != n - 1);
                        assert(h_mid[i] == d);
                    }
                }
            }
        }
        let go_up = if index > 0 {
            let p: usize = (index - 1) / 2;
            proof {
                assert(table@.dom().contains(self@[p as int]));
                assert(table@.dom().contains(self@[index as int]));
            }
            table.is_element_less_than(&last, &self.elements[p])
        } else {
            false
        };
        if go_up {
            proof {
                let h1 = self@;
                let m1 = table@;
                let j = index as int;
                assert(ordered_except_up(h1, m1, j)) by {
                    assert forall|i: int|
                        1 <= i < h1.len() && i != j implies heap_le(m1, h1[#[trigger] parent(i)], h1[i]) by {
                        let pi = parent(i);
                        if pi == j {
                            assert(heap_le(m1, h1[parent(j)], h1[i])) by {
                                assert(h1[parent(j)] == old(self)@[parent(j)]);
                                assert(h1[i] == old(self)@[i]);
                            }
                            assert(prio(m1, h1[j]) < prio(m1, h1[parent(j)]));
                        } else {
                            assert(h1[pi] == old(self)@[pi] && h1[i] == old(self)@[i]);
                            assert(heap_le(old(table)@, old(self)@[pi], old(self)@[i]));
                        }
                    }
                }
                assert(over_hole(h1, m1, j)) by {
                    assert forall|i: int|
                        1 <= i < h1.len() && #[trigger] parent(i) == j && j >= 1 implies heap_le(
                        m1,
                        h1[parent(j)],
                        h1[i],
                    ) by {
                        assert(h1[parent(j)] == old(self)@[parent(j)]);
                        assert(h1[i] == old(self)@[i]);
                    }
                }
            }
            self.sift_up(table, index);
        } else {
            proof {
                let h1 = self@;
                let m1 = table@;
                let j = index as int;
                assert(ordered_except_down(h1, m1, j)) by {
                    assert forall|i: int|
                        1 <= i < h1.len() && parent(i) != j implies heap_le(
                        m1,
                        h1[#[trigger] parent(i)],
                        h1[i],
                    ) by {
                        let pi = parent(i);
                        if i == j {
                            if j >= 1 {
                                assert(h1[pi] == old(self)@[pi]);
                                assert(!(prio(m1, h1[j]) < prio(m1, h1[pi])));
                            }
                        } else {
                            assert(h1[pi] == old(self)@[pi] && h1[i] == old(self)@[i]);
                            assert(heap_le(old(table)@, old(self)@[pi], old(self)@[i]));
                        }
                    }
                }
                assert(over_hole(h1, m1, j)) by {
                    assert forall|i: int|
                        1 <= i < h1.len() && #[trigger] parent(i) == j && j >= 1 implies heap_le(
                        m1,
                        h1[parent(j)],
                        h1[i],
                    ) by {
                        assert(h1[parent(j)] == old(self)@[parent(j)]);
                        assert(h1[i] == old(self)@[i]);
                    }
                }
            }
            self.sift_down(table, index);
        }
        proof {
            lemma_same_except_indices_trans(old(table)@, m_mid, table@);
            assert forall|d: Sha256Digest| #[trigger] entry_covered(self@, table@, d) by {
                assert(entry_covered(h_mid, m_mid, d));
            }
        }
    }
}

/// Writing a non-heap entry over a non-heap (or absent) entry leaves the
/// heap's agreement with the table untouched.
pub proof fn lemma_update_non_heap(
    h: Seq<Sha256Digest>,
    m: Map<Sha256Digest, EntryModel>,
    d: Sha256Digest,
    e: EntryModel,
)
    requires
        heap_wf(h, m),
        !(e is InHeap),
        m.dom().contains(d) ==> !(m[d] is InHeap),
    ensures
        heap_wf(h, m.insert(d, e)),
{
    let m2 = m.insert(d, e);
    assert forall|i: int|
        0 <= i < h.len() implies #[trigger] m2.dom().contains(h[i]) && m2[h[i]] is InHeap
        && m2[h[i]]->InHeap_heap_index == i by {
        assert(m.dom().contains(h[i]));
        assert(m[h[i]] is InHeap);
        assert(h[i] != d);
    }
    assert forall|d2: Sha256Digest| #[trigger] entry_covered(h, m2, d2) by {
        assert(entry_covered(h, m, d2));
    }
    assert forall|i: int| 1 <= i < h.len() implies heap_le(m2, h[#[trigger] parent(i)], h[i]) by {
        assert(heap_le(m, h[parent(i)], h[i]));
        assert(m.dom().contains(h[i]));
        assert(m.dom().contains(h[parent(i)]));
        assert(h[i] != d);
        assert(h[parent(i)] != d);
    }
}

/// Dropping a non-heap entry leaves the heap's agreement untouched.
pub proof fn lemma_remove_non_heap(
    h: Seq<Sha256Digest>,
    m: Map<Sha256Digest, EntryModel>,
    d: Sha256Digest,
)
    requires
        heap_wf(h, m),
        m.dom().contains(d) ==> !(m[d] is InHeap),
    ensures
        heap_wf(h, m.remove(d)),
{
    let m2 = m.remove(d);
    assert forall|i: int|
        0 <= i < h.len() implies #[trigger] m2.dom().contains(h[i]) && m2[h[i]] is InHeap
        && m2[h[i]]->InHeap_heap_index == i by {
        assert(m.dom().contains(h[i]));
        assert(m[h[i]] is InHeap);
        assert(h[i] != d);
    }
    assert forall|d2: Sha256Digest| #[trigger] entry_covered(h, m2, d2) by {
        assert(entry_covered(h, m, d2));
    }
    assert forall|i: int| 1 <= i < h.len() implies heap_le(m2, h[#[trigger] parent(i)], h[i]) by {
        assert(heap_le(m, h[parent(i)], h[i]));
        assert(m.dom().contains(h[i]));
        assert(m.dom().contains(h[parent(i)]));
        assert(h[i] != d);
        assert(h[parent(i)] != d);
    }
}

/// Every `InHeap` entry except possibly `ex` occupies a heap slot.
pub open spec fn entries_covered_except(
    h: Seq<Sha256Digest>,
    m: Map<Sha256Digest, EntryModel>,
    ex: Sha256Digest,
) -> bool {
    forall|d: Sha256Digest| d != ex ==> #[trigger] entry_covered(h, m, d)
}

} // verus!
