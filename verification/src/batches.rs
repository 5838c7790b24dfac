//! The batches of the hub: the open one of each endpoint, and the sealed ones
//! that wait for dispatch.

use vstd::prelude::*;
use crate::assoc::{
    distinct_keys, has_key, lemma_to_map_empty, lemma_to_map_entry, lemma_to_map_push,
    lemma_to_map_remove, lemma_to_map_update, to_map,
};
use crate::endpoint::{
    compare_endpoints, endpoint_order, lemma_endpoint_order_equal, lemma_endpoint_order_flip,
    lemma_endpoint_order_trans,
    same_endpoint, EndpointView, RemoteCallEndpoint,
};
use crate::order::Order;
use crate::types::{BatchView, EncodedEventBatch};

verus! {

/// What [`PendingBatches`] stands for: the open batch of each endpoint that has one.
pub type PendingView = Map<EndpointView, BatchView>;

/// What [`ReadyBatches`] stands for: the sealed batches of each endpoint that
/// has any, the earliest sealed first.
pub type ReadyView = Map<EndpointView, Seq<BatchView>>;

/// An open batch holds an event, is no larger than `max`, and is smaller
/// while it holds a single event.
pub open spec fn pending_fits(batch: BatchView, max: usize) -> bool {
    &&& batch.events_count >= 1
    &&& batch.content.len() <= max
    &&& batch.events_count == 1 ==> batch.content.len() < max
}

/// A sealed batch holds an event and is no larger than `max`.
pub open spec fn sealed_fits(batch: BatchView, max: usize) -> bool {
    &&& batch.events_count >= 1
    &&& batch.content.len() <= max
}

/// Whether an open batch is within the limit `max`.
pub fn check_pending_fits(batch: &EncodedEventBatch, max: usize) -> (r: bool)
    ensures
        r == pending_fits(batch@, max),
{
    batch.events_count >= 1 && batch.content.len() <= max && (batch.events_count != 1
        || batch.content.len() < max)
}

/// Whether a sealed batch is within the limit `max`.
pub fn check_sealed_fits(batch: &EncodedEventBatch, max: usize) -> (r: bool)
    ensures
        r == sealed_fits(batch@, max),
{
    batch.events_count >= 1 && batch.content.len() <= max
}

/// The batches of a list, as they stand for themselves.
pub open spec fn batch_views(s: Seq<EncodedEventBatch>) -> Seq<BatchView> {
    s.map_values(|b: EncodedEventBatch| b@)
}

struct PendingEntry {
    endpoint: RemoteCallEndpoint,
    batch: EncodedEventBatch,
}

/// The open batch of each endpoint that has one.
pub struct PendingBatches {
    entries: Vec<PendingEntry>,
}

impl View for PendingBatches {
    type V = PendingView;

    /// The open batch of each endpoint that has one.
    closed spec fn view(&self) -> PendingView {
        to_map(Self::model_of(self.entries@))
    }
}

impl PendingBatches {
    spec fn model_of(entries: Seq<PendingEntry>) -> Seq<(EndpointView, BatchView)> {
        entries.map_values(|e: PendingEntry| (e.endpoint@, e.batch@))
    }

    /// No endpoint has two open batches.
    #[verifier::type_invariant]
    pub closed spec fn wf(&self) -> bool {
        distinct_keys(Self::model_of(self.entries@))
    }

    /// No endpoint has an open batch.
    pub fn new() -> (r: PendingBatches)
        ensures
            r@ == Map::<EndpointView, BatchView>::empty(),
    {
        let entries: Vec<PendingEntry> = Vec::new();
        proof {
            lemma_to_map_empty::<EndpointView, BatchView>();
            assert(Self::model_of(entries@) =~= Seq::empty());
        }
        PendingBatches { entries }
    }

    fn find(entries: &Vec<PendingEntry>, endpoint: &RemoteCallEndpoint) -> (r: Option<usize>)
        ensures
            r.is_some() == has_key(Self::model_of(entries@), endpoint@),
            r.is_some() ==> r.unwrap() < entries@.len() && entries@[r.unwrap() as int].endpoint@
                == endpoint@,
    {
        let mut i: usize = 0;
        while i < entries.len()
            invariant
                i <= entries.len(),
                forall|k: int| 0 <= k < i ==> (#[trigger] entries@[k]).endpoint@ != endpoint@,
            decreases entries.len() - i,
        {
            if same_endpoint(&entries[i].endpoint, endpoint) {
                assert(Self::model_of(entries@)[i as int].0 == endpoint@);
                return Some(i);
            }
            i += 1;
        }
        proof {
            let m = Self::model_of(entries@);
            if has_key(m, endpoint@) {
                let k = choose|k: int| 0 <= k < m.len() && (#[trigger] m[k]).0 == endpoint@;
                assert(entries@[k].endpoint@ == endpoint@);
            }
        }
        None
    }

    /// The open batch of `endpoint`, if it has one.
    pub fn get(&self, endpoint: &RemoteCallEndpoint) -> (r: Option<&EncodedEventBatch>)
        ensures
            r.is_some() == self@.dom().contains(endpoint@),
            r.is_some() ==> r.unwrap()@ == self@[endpoint@],
    {
        proof {
            use_type_invariant(self);
        }
        match Self::find(&self.entries, endpoint) {
            Some(i) => {
                proof {
                    lemma_to_map_entry(Self::model_of(self.entries@), i as int);
                }
                Some(&self.entries[i].batch)
            },
            None => None,
        }
    }

    /// Makes `batch` the open batch of `endpoint`. Returns the one that it had.
    pub fn insert(&mut self, endpoint: RemoteCallEndpoint, batch: EncodedEventBatch) -> (r: Option<
        EncodedEventBatch,
    >)
        ensures
            final(self)@ == old(self)@.insert(endpoint@, batch@),
            r.is_some() == old(self)@.dom().contains(endpoint@),
            r.is_some() ==> r.unwrap()@ == old(self)@[endpoint@],
    {
        proof {
            use_type_invariant(&*self);
        }
        let ghost m = Self::model_of(self.entries@);
        let mut entries: Vec<PendingEntry> = Vec::new();
        proof {
            lemma_to_map_empty::<EndpointView, BatchView>();
            assert(Self::model_of(entries@) =~= Seq::empty());
        }
        core::mem::swap(&mut entries, &mut self.entries);
        let r = match Self::find(&entries, &endpoint) {
            Some(i) => {
                proof {
                    lemma_to_map_entry(m, i as int);
                    lemma_to_map_update(m, i as int, batch@);
                }
                let previous = entries.remove(i);
                entries.insert(i, PendingEntry { endpoint, batch });
                proof {
                    assert(Self::model_of(entries@) =~= m.update(
                        i as int,
                        (endpoint@, batch@),
                    ));
                }
                Some(previous.batch)
            },
            None => {
                proof {
                    lemma_to_map_push(m, endpoint@, batch@);
                }
                entries.push(PendingEntry { endpoint, batch });
                proof {
                    assert(Self::model_of(entries@) =~= m.push((endpoint@, batch@)));
                }
                None
            },
        };
        self.entries = entries;
        r
    }

    /// Whether every open batch is within the limit `max`.
    pub fn all_fit(&self, max: usize) -> (r: bool)
        ensures
            r == forall|e: EndpointView| #[trigger]
                self@.dom().contains(e) ==> pending_fits(self@[e], max),
    {
        proof {
            use_type_invariant(self);
        }
        let ghost m = Self::model_of(self.entries@);
        let mut i: usize = 0;
        while i < self.entries.len()
            invariant
                i <= self.entries.len(),
                m == Self::model_of(self.entries@),
                distinct_keys(m),
                forall|k: int| 0 <= k < i ==> pending_fits((#[trigger] m[k]).1, max),
            decreases self.entries.len() - i,
        {
            if !check_pending_fits(&self.entries[i].batch, max) {
                proof {
                    lemma_to_map_entry(m, i as int);
                    assert(self@.dom().contains(m[i as int].0));
                }
                return false;
            }
            i += 1;
        }
        proof {
            assert forall|e: EndpointView| #[trigger] self@.dom().contains(e) implies pending_fits(
                self@[e],
                max,
            ) by {
                let k = choose|k: int| 0 <= k < m.len() && (#[trigger] m[k]).0 == e;
                lemma_to_map_entry(m, k);
            }
        }
        true
    }

    /// Takes the open batch of `endpoint` away, if it has one.
    pub fn remove(&mut self, endpoint: &RemoteCallEndpoint) -> (r: Option<EncodedEventBatch>)
        ensures
            final(self)@ == old(self)@.remove(endpoint@),
            r.is_some() == old(self)@.dom().contains(endpoint@),
            r.is_some() ==> r.unwrap()@ == old(self)@[endpoint@],
    {
        proof {
            use_type_invariant(&*self);
        }
        let ghost m = Self::model_of(self.entries@);
        match Self::find(&self.entries, endpoint) {
            Some(i) => {
                let mut entries: Vec<PendingEntry> = Vec::new();
                proof {
                    lemma_to_map_empty::<EndpointView, BatchView>();
                    assert(Self::model_of(entries@) =~= Seq::empty());
                    lemma_to_map_entry(m, i as int);
                    lemma_to_map_remove(m, i as int);
                }
                core::mem::swap(&mut entries, &mut self.entries);
                let previous = entries.remove(i);
                proof {
                    assert(Self::model_of(entries@) =~= m.remove(i as int));
                }
                self.entries = entries;
                Some(previous.batch)
            },
            None => {
                proof {
                    assert(self@ =~= self@.remove(endpoint@));
                }
                None
            },
        }
    }
}

struct ReadyEntry {
    endpoint: RemoteCallEndpoint,
    batches: Vec<EncodedEventBatch>,
}

/// The sealed batches of each endpoint that has any.
pub struct ReadyBatches {
    entries: Vec<ReadyEntry>,
}

impl View for ReadyBatches {
    type V = ReadyView;

    /// The sealed batches of each endpoint that has any, the earliest sealed first.
    closed spec fn view(&self) -> ReadyView {
        to_map(Self::model_of(self.entries@))
    }
}

/// The sealed batches of `endpoint`, none where it has no entry.
pub open spec fn ready_of(m: ReadyView, endpoint: EndpointView) -> Seq<BatchView> {
    if m.dom().contains(endpoint) {
        m[endpoint]
    } else {
        Seq::empty()
    }
}

/// `endpoint` has an entry in `m`, and no endpoint with an entry is greater.
pub open spec fn greatest_in(endpoint: EndpointView, m: ReadyView) -> bool {
    m.dom().contains(endpoint) && forall|k: EndpointView|
        m.dom().contains(k) ==> endpoint_order(k, endpoint) != Order::Greater
}

impl ReadyBatches {
    spec fn model_of(entries: Seq<ReadyEntry>) -> Seq<(EndpointView, Seq<BatchView>)> {
        entries.map_values(|e: ReadyEntry| (e.endpoint@, batch_views(e.batches@)))
    }

    /// No endpoint has two entries.
    #[verifier::type_invariant]
    pub closed spec fn wf(&self) -> bool {
        distinct_keys(Self::model_of(self.entries@))
    }

    /// The number of endpoints with an entry.
    pub closed spec fn count(&self) -> nat {
        self.entries@.len()
    }

    /// No endpoint has a sealed batch.
    pub fn new() -> (r: ReadyBatches)
        ensures
            r@ == Map::<EndpointView, Seq<BatchView>>::empty(),
            r.count() == 0,
    {
        let entries: Vec<ReadyEntry> = Vec::new();
        proof {
            lemma_to_map_empty::<EndpointView, Seq<BatchView>>();
            assert(Self::model_of(entries@) =~= Seq::empty());
        }
        ReadyBatches { entries }
    }

    /// Whether no endpoint has an entry.
    pub fn is_empty(&self) -> (r: bool)
        ensures
            r == (self@ == Map::<EndpointView, Seq<BatchView>>::empty()),
            r == (self.count() == 0),
    {
        proof {
            use_type_invariant(self);
            let m = Self::model_of(self.entries@);
            if self.entries@.len() == 0 {
                assert(m =~= Seq::empty());
                lemma_to_map_empty::<EndpointView, Seq<BatchView>>();
            } else {
                lemma_to_map_entry(m, 0);
            }
        }
        self.entries.len() == 0
    }

    /// Whether every sealed batch is within the limit `max`.
    pub fn all_fit(&self, max: usize) -> (r: bool)
        ensures
            r == forall|e: EndpointView, i: int|
                self@.dom().contains(e) && 0 <= i < self@[e].len() ==> sealed_fits(
                    #[trigger] self@[e][i],
                    max,
                ),
    {
        proof {
            use_type_invariant(self);
        }
        let ghost m = Self::model_of(self.entries@);
        let mut i: usize = 0;
        while i < self.entries.len()
            invariant
                i <= self.entries.len(),
                m == Self::model_of(self.entries@),
                distinct_keys(m),
                forall|k: int, j: int|
                    0 <= k < i && 0 <= j < m[k].1.len() ==> sealed_fits(#[trigger] m[k].1[j], max),
            decreases self.entries.len() - i,
        {
            let list = &self.entries[i].batches;
            let mut j: usize = 0;
            while j < list.len()
                invariant
                    i < self.entries.len(),
                    m == Self::model_of(self.entries@),
                    distinct_keys(m),
                    list@ == self.entries@[i as int].batches@,
                    j <= list.len(),
                    forall|k: int| 0 <= k < j ==> sealed_fits(#[trigger] m[i as int].1[k], max),
                decreases list.len() - j,
            {
                if !check_sealed_fits(&list[j], max) {
                    proof {
                        lemma_to_map_entry(m, i as int);
                        let e = m[i as int].0;
                        assert(self@.dom().contains(e) && 0 <= j < self@[e].len() && !sealed_fits(
                            self@[e][j as int],
                            max,
                        ));
                    }
                    return false;
                }
                j += 1;
            }
            i += 1;
        }
        proof {
            assert forall|e: EndpointView, j: int|
                self@.dom().contains(e) && 0 <= j < self@[e].len() implies sealed_fits(
                #[trigger] self@[e][j],
                max,
            ) by {
                let k = choose|k: int| 0 <= k < m.len() && (#[trigger] m[k]).0 == e;
                lemma_to_map_entry(m, k);
                assert(sealed_fits(m[k].1[j], max));
            }
        }
        true
    }

    /// Adds `batch` behind the sealed batches of `endpoint`.
    pub fn append(&mut self, endpoint: RemoteCallEndpoint, batch: EncodedEventBatch)
        ensures
            final(self)@ == old(self)@.insert(
                endpoint@,
                ready_of(old(self)@, endpoint@).push(batch@),
            ),
    {
        proof {
            use_type_invariant(&*self);
        }
        let ghost m = Self::model_of(self.entries@);
        let mut entries: Vec<ReadyEntry> = Vec::new();
        proof {
            lemma_to_map_empty::<EndpointView, Seq<BatchView>>();
            assert(Self::model_of(entries@) =~= Seq::empty());
        }
        core::mem::swap(&mut entries, &mut self.entries);
        let mut i: usize = 0;
        let mut at: Option<usize> = None;
        while i < entries.len() && at.is_none()
            invariant
                i <= entries.len(),
                forall|k: int| 0 <= k < i ==> (#[trigger] entries@[k]).endpoint@ != endpoint@,
                at.is_some() ==> at.unwrap() == i && i < entries.len() && entries@[i as int].endpoint@
                    == endpoint@,
            decreases entries.len() - i + (if at.is_some() { 0int } else { 1int }),
        {
            if same_endpoint(&entries[i].endpoint, &endpoint) {
                at = Some(i);
            } else {
                i += 1;
            }
        }
        match at {
            Some(i) => {
                proof {
                    assert(m[i as int].0 == endpoint@);
                    lemma_to_map_entry(m, i as int);
                    lemma_to_map_update(m, i as int, m[i as int].1.push(batch@));
                }
                let mut entry = entries.remove(i);
                let ghost before = entry.batches@;
                entry.batches.push(batch);
                proof {
                    assert(batch_views(entry.batches@) =~= batch_views(before).push(batch@));
                }
                entries.insert(i, entry);
                proof {
                    assert(Self::model_of(entries@) =~= m.update(
                        i as int,
                        (endpoint@, m[i as int].1.push(batch@)),
                    ));
                }
            },
            None => {
                proof {
                    if has_key(m, endpoint@) {
                        let k = choose|k: int| 0 <= k < m.len() && (#[trigger] m[k]).0 == endpoint@;
                        assert(entries@[k].endpoint@ == endpoint@);
                    }
                    lemma_to_map_push(m, endpoint@, Seq::<BatchView>::empty().push(batch@));
                }
                let mut batches: Vec<EncodedEventBatch> = Vec::new();
                batches.push(batch);
                proof {
                    assert(batch_views(batches@) =~= Seq::<BatchView>::empty().push(batch@));
                }
                entries.push(ReadyEntry { endpoint, batches });
                proof {
                    assert(Self::model_of(entries@) =~= m.push(
                        (endpoint@, Seq::<BatchView>::empty().push(batch@)),
                    ));
                }
            },
        }
        self.entries = entries;
    }

    /// Takes out the greatest endpoint that has an entry, with its sealed batches.
    pub fn pop_greatest(&mut self) -> (r: Option<(RemoteCallEndpoint, Vec<EncodedEventBatch>)>)
        ensures
            r.is_none() == (old(self)@ == Map::<EndpointView, Seq<BatchView>>::empty()),
            r.is_none() ==> final(self)@ == old(self)@ && final(self).count() == old(self).count(),
            r.is_some() ==> {
                let (endpoint, batches) = r.unwrap();
                &&& greatest_in(endpoint@, old(self)@)
                &&& batch_views(batches@) == old(self)@[endpoint@]
                &&& final(self)@ == old(self)@.remove(endpoint@)
                &&& final(self).count() == old(self).count() - 1
            },
    {
        proof {
            use_type_invariant(&*self);
        }
        if self.is_empty() {
            return None;
        }
        let ghost m = Self::model_of(self.entries@);
        proof {
            lemma_endpoint_order_equal(m[0].0, m[0].0);
        }
        let mut best: usize = 0;
        let mut i: usize = 1;
        while i < self.entries.len()
            invariant
                *self == *old(self),
                m == Self::model_of(self.entries@),
                1 <= i <= self.entries.len(),
                best < i,
                forall|k: int|
                    0 <= k < i ==> endpoint_order((#[trigger] m[k]).0, m[best as int].0)
                        != Order::Greater,
            decreases self.entries.len() - i,
        {
            let ghost top = m[best as int].0;
            let ghost cur = m[i as int].0;
            proof {
                lemma_endpoint_order_flip(cur, top);
            }
            match compare_endpoints(&self.entries[i].endpoint, &self.entries[best].endpoint) {
                Order::Greater => {
                    proof {
                        assert forall|k: int| 0 <= k < i + 1 implies endpoint_order(
                            (#[trigger] m[k]).0,
                            cur,
                        ) != Order::Greater by {
                            if k < i {
                                let x = m[k].0;
                                lemma_endpoint_order_flip(x, cur);
                                lemma_endpoint_order_flip(x, top);
                                if endpoint_order(x, cur) == Order::Greater {
                                    lemma_endpoint_order_trans(top, cur, x);
                                }
                            } else {
                                lemma_endpoint_order_equal(cur, cur);
                            }
                        }
                    }
                    best = i;
                },
                _ => {},
            }
            i += 1;
        }
        let mut entries: Vec<ReadyEntry> = Vec::new();
        proof {
            lemma_to_map_empty::<EndpointView, Seq<BatchView>>();
            assert(Self::model_of(entries@) =~= Seq::empty());
            lemma_to_map_entry(m, best as int);
            lemma_to_map_remove(m, best as int);
            assert forall|k: EndpointView| to_map(m).dom().contains(k) implies endpoint_order(
                k,
                m[best as int].0,
            ) != Order::Greater by {
                let j = choose|j: int| 0 <= j < m.len() && (#[trigger] m[j]).0 == k;
                assert(endpoint_order(m[j].0, m[best as int].0) != Order::Greater);
            }
        }
        core::mem::swap(&mut entries, &mut self.entries);
        let entry = entries.remove(best);
        proof {
            assert(Self::model_of(entries@) =~= m.remove(best as int));
        }
        self.entries = entries;
        Some((entry.endpoint, entry.batches))
    }
}

} // verus!
