//! The queue of the times at which pending batches were opened.

use vstd::multiset::Multiset;
use vstd::prelude::*;
use crate::endpoint::{EndpointView, Principal, RemoteCallEndpoint};

verus! {

broadcast use {vstd::seq_lib::group_to_multiset_ensures, vstd::multiset::group_multiset_axioms};

/// What a [`TimestampedRemoteCallEndpoint`] stands for: a time and an endpoint.
pub type DeadlineView = (u64, EndpointView);

/// The time at which a batch for an endpoint was opened.
#[derive(Debug)]
pub struct TimestampedRemoteCallEndpoint {
    pub timestamp: u64,
    pub endpoint: RemoteCallEndpoint,
}

impl View for TimestampedRemoteCallEndpoint {
    type V = DeadlineView;

    open spec fn view(&self) -> DeadlineView {
        (self.timestamp, self.endpoint@)
    }
}

/// No entry of `q` is earlier than `t`, which is an entry of `q`.
pub open spec fn earliest_in(t: DeadlineView, q: Multiset<DeadlineView>) -> bool {
    q.count(t) > 0 && forall|x: DeadlineView| q.count(x) > 0 ==> t.0 <= x.0
}

/// The position above position `i` of a binary heap.
pub open spec fn parent(i: int) -> int {
    (i - 1) / 2
}

/// No entry of `m` is earlier than the entry above it.
pub open spec fn heap_ordered(m: Seq<DeadlineView>) -> bool {
    forall|k: int| 0 < k < m.len() ==> m[parent(k)].0 <= (#[trigger] m[k]).0
}

/// `m` is ordered as a heap but for the entry at `i`, which may be earlier
/// than the entry above it; the entries below it are ordered with that one.
spec fn ordered_but_above(m: Seq<DeadlineView>, i: int) -> bool {
    &&& forall|k: int| 0 < k < m.len() && k != i ==> m[parent(k)].0 <= (#[trigger] m[k]).0
    &&& forall|c: int|
        0 < i && 0 < c < m.len() && parent(c) == i ==> m[parent(i)].0 <= (#[trigger] m[c]).0
}

/// `m` is ordered as a heap but for the entry at `i`, which may be later than
/// the entries below it; these are ordered with the entry above it.
spec fn ordered_but_below(m: Seq<DeadlineView>, i: int) -> bool {
    &&& forall|k: int|
        0 < k < m.len() && parent(k) != i ==> m[parent(k)].0 <= (#[trigger] m[k]).0
    &&& forall|c: int|
        0 < i && 0 < c < m.len() && parent(c) == i ==> m[parent(i)].0 <= (#[trigger] m[c]).0
}

/// Exchanging two entries keeps the entries, with their multiplicities.
proof fn lemma_swap_keeps_entries(m: Seq<DeadlineView>, i: int, j: int)
    requires
        0 <= i < m.len(),
        0 <= j < m.len(),
        i != j,
    ensures
        m.update(i, m[j]).update(j, m[i]).to_multiset() == m.to_multiset(),
{
    let s1 = m.update(i, m[j]);
    let s2 = s1.update(j, m[i]);
    assert(m.contains(m[i]));
    assert(m.contains(m[j]));
    assert(s1[j] == m[j]);
    assert(s2.to_multiset() =~= m.to_multiset());
}

/// The first entry of a heap is its earliest.
proof fn lemma_first_is_earliest(m: Seq<DeadlineView>, k: int)
    requires
        heap_ordered(m),
        0 <= k < m.len(),
    ensures
        m[0].0 <= m[k].0,
    decreases k,
{
    if k > 0 {
        lemma_first_is_earliest(m, parent(k));
    }
}

/// A heap that is ordered but below `i` is ordered where the entry at `i` is
/// no later than the entries below it.
proof fn lemma_settled_below(m: Seq<DeadlineView>, i: int)
    requires
        0 <= i < m.len(),
        ordered_but_below(m, i),
        2 * i + 1 < m.len() ==> m[i].0 <= m[2 * i + 1].0,
        2 * i + 2 < m.len() ==> m[i].0 <= m[2 * i + 2].0,
    ensures
        heap_ordered(m),
{
    assert forall|k: int| 0 < k < m.len() implies m[parent(k)].0 <= (#[trigger] m[k]).0 by {
        if parent(k) == i {
            assert(k == 2 * i + 1 || k == 2 * i + 2);
        }
    }
}

/// Exchanging the entry at `i` with the earliest of the entries below it, at
/// `least`, leaves a heap that is ordered but below `least`.
proof fn lemma_step_below(m: Seq<DeadlineView>, i: int, least: int)
    requires
        0 <= i < m.len(),
        least < m.len(),
        least == 2 * i + 1 || least == 2 * i + 2,
        ordered_but_below(m, i),
        m[least].0 < m[i].0,
        2 * i + 1 < m.len() ==> m[least].0 <= m[2 * i + 1].0,
        2 * i + 2 < m.len() ==> m[least].0 <= m[2 * i + 2].0,
    ensures
        ordered_but_below(m.update(i, m[least]).update(least, m[i]), least),
{
    let m2 = m.update(i, m[least]).update(least, m[i]);
    assert(parent(least) == i);
    assert forall|k: int| 0 < k < m2.len() && parent(k) != least implies m2[parent(k)].0 <= (
    #[trigger] m2[k]).0 by {
        if k == least {
        } else if parent(k) == i {
            assert(k == 2 * i + 1 || k == 2 * i + 2);
        } else if k == i {
            assert(m[parent(i)].0 <= m[least].0);
        } else {
            assert(m[parent(k)].0 <= m[k].0);
        }
    }
    assert forall|c: int| 0 < least && 0 < c < m2.len() && parent(c) == least implies m2[parent(
        least,
    )].0 <= (#[trigger] m2[c]).0 by {
        assert(m[parent(c)].0 <= m[c].0);
    }
}

/// Exchanging the entry at `i` with the later entry above it leaves a heap
/// that is ordered but above the place of that entry.
proof fn lemma_step_above(m: Seq<DeadlineView>, i: int)
    requires
        0 < i < m.len(),
        ordered_but_above(m, i),
        m[i].0 < m[parent(i)].0,
    ensures
        ordered_but_above(m.update(i, m[parent(i)]).update(parent(i), m[i]), parent(i)),
{
    let above = parent(i);
    let m2 = m.update(i, m[above]).update(above, m[i]);
    assert forall|k: int| 0 < k < m2.len() && k != above implies m2[parent(k)].0 <= (
    #[trigger] m2[k]).0 by {
        if k == i {
        } else if parent(k) == above {
            assert(m[parent(k)].0 <= m[k].0);
        } else if parent(k) == i {
            assert(m[parent(i)].0 <= m[k].0);
        } else {
            assert(m[parent(k)].0 <= m[k].0);
        }
    }
    assert forall|c: int| 0 < above && 0 < c < m2.len() && parent(c) == above implies m2[parent(
        above,
    )].0 <= (#[trigger] m2[c]).0 by {
        assert(m[parent(above)].0 <= m[above].0);
        if c != i {
            assert(m[parent(c)].0 <= m[c].0);
        }
    }
}

/// An entry that stands for nothing, to fill a place for a moment: the time
/// zero, and the method without a name of the principal without bytes.
fn placeholder() -> (r: TimestampedRemoteCallEndpoint)
    ensures
        r@ == (0u64, (Seq::<u8>::empty(), Seq::<char>::empty())),
{
    TimestampedRemoteCallEndpoint {
        timestamp: 0,
        endpoint: RemoteCallEndpoint {
            canister_id: Principal::management_canister(),
            method_name: String::new(),
        },
    }
}

/// Exchanges the entries at `i` and `j`.
fn swap_entries(entries: &mut Vec<TimestampedRemoteCallEndpoint>, i: usize, j: usize)
    requires
        i < old(entries)@.len(),
        j < old(entries)@.len(),
        i != j,
    ensures
        final(entries)@ == old(entries)@.update(i as int, old(entries)@[j as int]).update(
            j as int,
            old(entries)@[i as int],
        ),
{
    let ghost s0 = entries@;
    let mut moved = placeholder();
    let ghost hole = moved;
    core::mem::swap(&mut moved, &mut entries[i]);
    assert(entries@ =~= s0.update(i as int, hole));
    core::mem::swap(&mut moved, &mut entries[j]);
    assert(entries@ =~= s0.update(i as int, hole).update(j as int, s0[i as int]));
    core::mem::swap(&mut moved, &mut entries[i]);
    assert(entries@ =~= s0.update(i as int, s0[j as int]).update(j as int, s0[i as int]));
}

/// The opening times of batches as a binary heap, of which the earliest
/// leaves first. An entry may be there more than once.
pub struct DeadlineQueue {
    entries: Vec<TimestampedRemoteCallEndpoint>,
}

impl View for DeadlineQueue {
    type V = Multiset<DeadlineView>;

    /// The entries of the queue with their multiplicities.
    closed spec fn view(&self) -> Multiset<DeadlineView> {
        Self::model_of(self.entries@).to_multiset()
    }
}

impl DeadlineQueue {
    spec fn model_of(entries: Seq<TimestampedRemoteCallEndpoint>) -> Seq<DeadlineView> {
        entries.map_values(|t: TimestampedRemoteCallEndpoint| t@)
    }

    /// The entries are ordered as a heap.
    #[verifier::type_invariant]
    pub closed spec fn wf(&self) -> bool {
        heap_ordered(Self::model_of(self.entries@))
    }

    /// The queue without entries.
    pub fn new() -> (r: DeadlineQueue)
        ensures
            r@ == Multiset::<DeadlineView>::empty(),
    {
        let r = DeadlineQueue { entries: Vec::new() };
        proof {
            assert(Self::model_of(r.entries@) =~= Seq::<DeadlineView>::empty());
            assert(r@ =~= Multiset::<DeadlineView>::empty());
        }
        r
    }

    /// The number of entries.
    pub fn len(&self) -> (n: usize)
        ensures
            n == self@.len(),
    {
        self.entries.len()
    }

    /// Moves the entry at `start` up until the entry above it is no later.
    fn sift_up(entries: &mut Vec<TimestampedRemoteCallEndpoint>, start: usize)
        requires
            start < old(entries)@.len(),
            ordered_but_above(Self::model_of(old(entries)@), start as int),
        ensures
            heap_ordered(Self::model_of(final(entries)@)),
            Self::model_of(final(entries)@).to_multiset() == Self::model_of(
                old(entries)@,
            ).to_multiset(),
            final(entries)@.len() == old(entries)@.len(),
    {
        let mut i = start;
        let mut settled = false;
        while i > 0 && !settled
            invariant
                i < entries@.len(),
                entries@.len() == old(entries)@.len(),
                ordered_but_above(Self::model_of(entries@), i as int),
                settled ==> heap_ordered(Self::model_of(entries@)),
                Self::model_of(entries@).to_multiset() == Self::model_of(
                    old(entries)@,
                ).to_multiset(),
            decreases i + (if settled { 0int } else { 1int }),
        {
            let above = (i - 1) / 2;
            let ghost m = Self::model_of(entries@);
            if entries[above].timestamp <= entries[i].timestamp {
                settled = true;
            } else {
                swap_entries(entries, i, above);
                proof {
                    let m2 = Self::model_of(entries@);
                    assert(m2 =~= m.update(i as int, m[above as int]).update(
                        above as int,
                        m[i as int],
                    ));
                    lemma_swap_keeps_entries(m, i as int, above as int);
                    lemma_step_above(m, i as int);
                }
                i = above;
            }
        }
    }

    /// Moves the entry at `start` down until the entries below it are no earlier.
    fn sift_down(entries: &mut Vec<TimestampedRemoteCallEndpoint>, start: usize)
        requires
            start < old(entries)@.len(),
            ordered_but_below(Self::model_of(old(entries)@), start as int),
        ensures
            heap_ordered(Self::model_of(final(entries)@)),
            Self::model_of(final(entries)@).to_multiset() == Self::model_of(
                old(entries)@,
            ).to_multiset(),
            final(entries)@.len() == old(entries)@.len(),
    {
        let mut i = start;
        let mut settled = false;
        let len = entries.len();
        while !settled
            invariant
                i < len,
                len == entries@.len(),
                entries@.len() == old(entries)@.len(),
                ordered_but_below(Self::model_of(entries@), i as int),
                settled ==> heap_ordered(Self::model_of(entries@)),
                Self::model_of(entries@).to_multiset() == Self::model_of(
                    old(entries)@,
                ).to_multiset(),
            decreases len - i + (if settled { 0int } else { 1int }),
        {
            let ghost m = Self::model_of(entries@);
            if i >= len / 2 {
                proof {
                    lemma_settled_below(m, i as int);
                }
                settled = true;
            } else {
                let left = 2 * i + 1;
                let right = left + 1;
                let mut least = i;
                if entries[left].timestamp < entries[least].timestamp {
                    least = left;
                }
                if right < len && entries[right].timestamp < entries[least].timestamp {
                    least = right;
                }
                if least == i {
                    proof {
                        lemma_settled_below(m, i as int);
                    }
                    settled = true;
                } else {
                    swap_entries(entries, i, least);
                    proof {
                        let m2 = Self::model_of(entries@);
                        assert(m2 =~= m.update(i as int, m[least as int]).update(
                            least as int,
                            m[i as int],
                        ));
                        lemma_swap_keeps_entries(m, i as int, least as int);
                        lemma_step_below(m, i as int, least as int);
                    }
                    i = least;
                }
            }
        }
    }

    /// Adds an entry.
    pub fn push(&mut self, entry: TimestampedRemoteCallEndpoint)
        ensures
            final(self)@ == old(self)@.insert(entry@),
    {
        proof {
            use_type_invariant(&*self);
        }
        let ghost m = Self::model_of(self.entries@);
        let mut entries: Vec<TimestampedRemoteCallEndpoint> = Vec::new();
        assert(Self::model_of(entries@) =~= Seq::<DeadlineView>::empty());
        core::mem::swap(&mut entries, &mut self.entries);
        entries.push(entry);
        proof {
            let m1 = Self::model_of(entries@);
            assert(m1 =~= m.push(entry@));
            assert forall|k: int| 0 < k < m1.len() && k != m1.len() - 1 implies m1[parent(k)].0
                <= (#[trigger] m1[k]).0 by {
                assert(m[parent(k)].0 <= m[k].0);
            }
        }
        let last = entries.len() - 1;
        Self::sift_up(&mut entries, last);
        self.entries = entries;
    }

    /// The earliest entry, unless the queue is empty.
    pub fn peek(&self) -> (r: Option<&TimestampedRemoteCallEndpoint>)
        ensures
            r.is_none() == (self@.len() == 0),
            r.is_some() ==> earliest_in(r.unwrap()@, self@),
    {
        proof {
            use_type_invariant(self);
        }
        if self.entries.len() == 0 {
            None
        } else {
            proof {
                let m = Self::model_of(self.entries@);
                assert(m.contains(m[0]));
                assert forall|x: DeadlineView| self@.count(x) > 0 implies m[0].0 <= x.0 by {
                    assert(m.contains(x));
                    let k = choose|k: int| 0 <= k < m.len() && m[k] == x;
                    lemma_first_is_earliest(m, k);
                }
            }
            Some(&self.entries[0])
        }
    }

    /// Takes the earliest entry out, unless the queue is empty.
    pub fn pop(&mut self) -> (r: Option<TimestampedRemoteCallEndpoint>)
        ensures
            r.is_none() == (old(self)@.len() == 0),
            r.is_none() ==> final(self)@ == old(self)@,
            r.is_some() ==> earliest_in(r.unwrap()@, old(self)@) && final(self)@ == old(
                self,
            )@.remove(r.unwrap()@) && final(self)@.len() == old(self)@.len() - 1,
    {
        proof {
            use_type_invariant(&*self);
        }
        if self.entries.len() == 0 {
            return None;
        }
        let ghost m = Self::model_of(self.entries@);
        proof {
            assert(m.contains(m[0]));
            assert forall|x: DeadlineView| self@.count(x) > 0 implies m[0].0 <= x.0 by {
                assert(m.contains(x));
                let k = choose|k: int| 0 <= k < m.len() && m[k] == x;
                lemma_first_is_earliest(m, k);
            }
        }
        let mut entries: Vec<TimestampedRemoteCallEndpoint> = Vec::new();
        assert(Self::model_of(entries@) =~= Seq::<DeadlineView>::empty());
        core::mem::swap(&mut entries, &mut self.entries);
        let entry = entries.swap_remove(0);
        proof {
            let m1 = Self::model_of(entries@);
            assert(m1 =~= m.update(0, m.last()).drop_last());
            if m.len() > 1 {
                let swapped = m.update(0, m.last()).update(m.len() - 1, m[0]);
                lemma_swap_keeps_entries(m, 0, m.len() - 1);
                assert(m1 =~= swapped.remove(m.len() - 1));
                assert(m1.to_multiset() == m.to_multiset().remove(m[0]));
                assert forall|k: int| 0 < k < m1.len() && parent(k) != 0 implies m1[parent(k)].0
                    <= (#[trigger] m1[k]).0 by {
                    assert(m[parent(k)].0 <= m[k].0);
                }
            } else {
                assert(m =~= seq![m[0]]);
                assert(m1 =~= m.remove(0));
                assert(m1.to_multiset() == m.to_multiset().remove(m[0]));
            }
        }
        if entries.len() > 0 {
            Self::sift_down(&mut entries, 0);
        }
        self.entries = entries;
        Some(entry)
    }
}

} // verus!
