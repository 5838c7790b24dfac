//! The event hub: the subscription index together with the batches that are
//! being filled and those that wait for dispatch.

use vstd::multiset::Multiset;
use vstd::prelude::*;
use crate::batches::{
    batch_views, greatest_in, pending_fits, ready_of, sealed_fits, PendingBatches, PendingView,
    ReadyBatches, ReadyView,
};
use crate::deadlines::{DeadlineQueue, DeadlineView, TimestampedRemoteCallEndpoint};
use crate::endpoint::{EndpointView, Principal, RemoteCallEndpoint};
use crate::field::FieldView;
use crate::index::{
    distinct_endpoints, endpoint_set, index_add, index_removal, index_remove, matching,
    FilterIndex, IndexView,
};
use crate::topics::TopicSet;
use crate::types::{
    BatchView, EncodedEventBatch, Event, EventFilter, EventHubError, ListenerError,
};

verus! {

broadcast use vstd::multiset::group_multiset_axioms;

/// What an [`EventHub`] stands for.
pub struct HubView {
    /// The longest time for which a batch stays open.
    pub batch_making_duration_nano: u64,
    /// The greatest size of a batch, in bytes.
    pub batch_max_size_bytes: usize,
    /// The endpoints that listen on each filter.
    pub listeners: IndexView,
    /// The open batch of each endpoint that has one.
    pub pending: PendingView,
    /// The times at which batches were opened, stale ones among them.
    pub deadlines: Multiset<DeadlineView>,
    /// The sealed batches of each endpoint that has any.
    pub ready: ReadyView,
}

/// Every batch is within the size limit `max`, and the opening time of every
/// open batch is in the queue of deadlines.
pub open spec fn batches_within(
    max: usize,
    pending: PendingView,
    deadlines: Multiset<DeadlineView>,
    ready: ReadyView,
) -> bool {
    &&& forall|e: EndpointView| #[trigger]
        pending.dom().contains(e) ==> pending_fits(pending[e], max) && deadlines.count(
            (pending[e].timestamp, e),
        ) > 0
    &&& forall|e: EndpointView| #[trigger]
        ready.dom().contains(e) ==> ready[e].len() > 0 && forall|i: int|
            0 <= i < ready[e].len() ==> sealed_fits(#[trigger] ready[e][i], max)
}

/// What holds of a hub at all times: every batch is within the size limit, and
/// the opening time of every open batch is in the queue of deadlines.
pub open spec fn hub_invariant(v: HubView) -> bool {
    batches_within(v.batch_max_size_bytes, v.pending, v.deadlines, v.ready)
}

/// The batch that holds the one event `event`, opened at `now`.
pub open spec fn fresh_batch(event: Seq<u8>, now: u64) -> BatchView {
    BatchView { content: event, events_count: 1, timestamp: now }
}

/// Whether `event` can be added to `batch`: the batch stays within `max`
/// bytes, and its counter can count one more.
pub open spec fn can_append(batch: BatchView, event: Seq<u8>, max: usize) -> bool {
    batch.content.len() + event.len() <= max && batch.events_count < u64::MAX
}

/// `batch` with `event` added at its end.
pub open spec fn appended(batch: BatchView, event: Seq<u8>) -> BatchView {
    BatchView {
        content: batch.content + event,
        events_count: (batch.events_count + 1) as u64,
        timestamp: batch.timestamp,
    }
}

/// Whether accepting `event` for `endpoint` opens a batch: it has none, or the
/// one that it has cannot take the event.
pub open spec fn opens(pending: PendingView, endpoint: EndpointView, event: Seq<u8>, max: usize)
    -> bool {
    !pending.dom().contains(endpoint) || !can_append(pending[endpoint], event, max)
}

/// Whether accepting `event` for `endpoint` seals its open batch.
pub open spec fn seals(pending: PendingView, endpoint: EndpointView, event: Seq<u8>, max: usize)
    -> bool {
    pending.dom().contains(endpoint) && !can_append(pending[endpoint], event, max)
}

/// The open batches after `event` was accepted at `now` for each of `targets`.
pub open spec fn pending_after_push(
    pending: PendingView,
    targets: Set<EndpointView>,
    event: Seq<u8>,
    now: u64,
    max: usize,
) -> PendingView {
    Map::new(
        |e: EndpointView| pending.dom().contains(e) || targets.contains(e),
        |e: EndpointView|
            if targets.contains(e) {
                if opens(pending, e, event, max) {
                    fresh_batch(event, now)
                } else {
                    appended(pending[e], event)
                }
            } else {
                pending[e]
            },
    )
}

/// The sealed batches after `event` was accepted for each of `targets`.
pub open spec fn ready_after_push(
    ready: ReadyView,
    pending: PendingView,
    targets: Set<EndpointView>,
    event: Seq<u8>,
    max: usize,
) -> ReadyView {
    Map::new(
        |e: EndpointView|
            ready.dom().contains(e) || (targets.contains(e) && seals(pending, e, event, max)),
        |e: EndpointView|
            if targets.contains(e) && seals(pending, e, event, max) {
                ready_of(ready, e).push(pending[e])
            } else {
                ready[e]
            },
    )
}

/// `after` is `before` with one deadline more, at `now`, for each of `targets`
/// for which a batch was opened.
pub open spec fn deadlines_after_push(
    before: Multiset<DeadlineView>,
    after: Multiset<DeadlineView>,
    pending: PendingView,
    targets: Set<EndpointView>,
    event: Seq<u8>,
    now: u64,
    max: usize,
) -> bool {
    forall|x: DeadlineView|
        #[trigger] after.count(x) == before.count(x) + (if x.0 == now && targets.contains(x.1)
            && opens(pending, x.1, event, max) {
            1nat
        } else {
            0nat
        })
}

/// `after` is the hub `before` in which `event` was accepted at `now` for
/// each of `targets`.
pub open spec fn pushed(
    before: HubView,
    after: HubView,
    targets: Set<EndpointView>,
    event: Seq<u8>,
    now: u64,
) -> bool {
    &&& after.batch_making_duration_nano == before.batch_making_duration_nano
    &&& after.batch_max_size_bytes == before.batch_max_size_bytes
    &&& after.listeners == before.listeners
    &&& after.pending == pending_after_push(
        before.pending,
        targets,
        event,
        now,
        before.batch_max_size_bytes,
    )
    &&& after.ready == ready_after_push(
        before.ready,
        before.pending,
        targets,
        event,
        before.batch_max_size_bytes,
    )
    &&& deadlines_after_push(
        before.deadlines,
        after.deadlines,
        before.pending,
        targets,
        event,
        now,
        before.batch_max_size_bytes,
    )
}

/// Whether an event with `topics` that encodes to `event` is accepted, and why not.
pub open spec fn push_outcome(v: HubView, topics: Set<FieldView>, event: Seq<u8>) -> Result<
    (),
    EventHubError,
> {
    if matching(v.listeners, topics) == Set::<EndpointView>::empty() {
        Err(EventHubError::EventHasNoActiveListeners)
    } else if event.len() >= v.batch_max_size_bytes {
        Err(EventHubError::EventIsTooBig)
    } else {
        Ok(())
    }
}

/// Accepting an event for no endpoint changes nothing.
pub proof fn lemma_pushed_none(v: HubView, event: Seq<u8>, now: u64)
    ensures
        pushed(v, v, Set::<EndpointView>::empty(), event, now),
{
    let none = Set::<EndpointView>::empty();
    let max = v.batch_max_size_bytes;
    assert(v.pending =~= pending_after_push(v.pending, none, event, now, max));
    assert(v.ready =~= ready_after_push(v.ready, v.pending, none, event, max));
}

/// Accepting an event for some endpoints and then for one more is accepting
/// it for all of them.
pub proof fn lemma_pushed_one_more(
    v0: HubView,
    v1: HubView,
    v2: HubView,
    targets: Set<EndpointView>,
    endpoint: EndpointView,
    event: Seq<u8>,
    now: u64,
)
    requires
        pushed(v0, v1, targets, event, now),
        pushed(v1, v2, set![endpoint], event, now),
        !targets.contains(endpoint),
    ensures
        pushed(v0, v2, targets.insert(endpoint), event, now),
{
    let max = v0.batch_max_size_bytes;
    let all = targets.insert(endpoint);
    assert(v2.pending =~= pending_after_push(v0.pending, all, event, now, max));
    assert(v2.ready =~= ready_after_push(v0.ready, v0.pending, all, event, max));
    assert forall|x: DeadlineView|
        #[trigger] v2.deadlines.count(x) == v0.deadlines.count(x) + (if x.0 == now
            && all.contains(x.1) && opens(v0.pending, x.1, event, max) {
            1nat
        } else {
            0nat
        }) by {
        assert(v1.deadlines.count(x) == v0.deadlines.count(x) + (if x.0 == now
            && targets.contains(x.1) && opens(v0.pending, x.1, event, max) {
            1nat
        } else {
            0nat
        }));
    }
}

/// Whether a batch opened at `opened` has been open for `max_age` at `now`.
pub open spec fn expired(opened: u64, max_age: u64, now: u64) -> bool {
    opened + max_age <= now
}

/// The open batches that stay open at `now`.
pub open spec fn pending_after_promotion(pending: PendingView, max_age: u64, now: u64)
    -> PendingView {
    Map::new(
        |e: EndpointView|
            pending.dom().contains(e) && !expired(pending[e].timestamp, max_age, now),
        |e: EndpointView| pending[e],
    )
}

/// The sealed batches after every open batch that is old enough at `now` was sealed.
pub open spec fn ready_after_promotion(
    ready: ReadyView,
    pending: PendingView,
    max_age: u64,
    now: u64,
) -> ReadyView {
    Map::new(
        |e: EndpointView|
            ready.dom().contains(e) || (pending.dom().contains(e) && expired(
                pending[e].timestamp,
                max_age,
                now,
            )),
        |e: EndpointView|
            if pending.dom().contains(e) && expired(pending[e].timestamp, max_age, now) {
                ready_of(ready, e).push(pending[e])
            } else {
                ready[e]
            },
    )
}

/// The deadlines that have not passed at `now`.
pub open spec fn deadlines_after_promotion(
    deadlines: Multiset<DeadlineView>,
    max_age: u64,
    now: u64,
) -> Multiset<DeadlineView> {
    deadlines.filter(|x: DeadlineView| !expired(x.0, max_age, now))
}

/// The hub after every open batch that is old enough at `now` was sealed.
pub open spec fn promoted(v: HubView, now: u64) -> HubView {
    HubView {
        pending: pending_after_promotion(v.pending, v.batch_making_duration_nano, now),
        deadlines: deadlines_after_promotion(v.deadlines, v.batch_making_duration_nano, now),
        ready: ready_after_promotion(v.ready, v.pending, v.batch_making_duration_nano, now),
        ..v
    }
}

/// The endpoints of a list from position `from` on, as a set.
pub open spec fn endpoints_from(s: Seq<RemoteCallEndpoint>, from: int) -> Set<EndpointView> {
    Set::new(|v: EndpointView| exists|k: int| from <= k < s.len() && (#[trigger] s[k])@ == v)
}

/// A publish/subscribe hub: listeners subscribe with filters, emitted events
/// are gathered into one batch per listener, and batches are sealed for
/// dispatch when they are full or old.
pub struct EventHub {
    batch_making_duration_nano: u64,
    batch_max_size_bytes: usize,
    listeners: FilterIndex,
    pending_batch: PendingBatches,
    pending_batch_queue: DeadlineQueue,
    ready_batches: ReadyBatches,
}

impl View for EventHub {
    type V = HubView;

    closed spec fn view(&self) -> HubView {
        HubView {
            batch_making_duration_nano: self.batch_making_duration_nano,
            batch_max_size_bytes: self.batch_max_size_bytes,
            listeners: self.listeners@,
            pending: self.pending_batch@,
            deadlines: self.pending_batch_queue@,
            ready: self.ready_batches@,
        }
    }
}

impl EventHub {
    /// The hub keeps [`hub_invariant`].
    #[verifier::type_invariant]
    pub closed spec fn wf(&self) -> bool {
        batches_within(
            self.batch_max_size_bytes,
            self.pending_batch@,
            self.pending_batch_queue@,
            self.ready_batches@,
        )
    }

    /// What holds of every hub.
    pub proof fn lemma_invariant(&self)
        requires
            self.wf(),
        ensures
            hub_invariant(self@),
    {
    }

    /// A hub without listeners and without batches.
    pub fn new(batch_making_duration_nano: u64, batch_max_size_bytes: usize) -> (r: EventHub)
        ensures
            r@ == (HubView {
                batch_making_duration_nano,
                batch_max_size_bytes,
                listeners: Map::empty(),
                pending: Map::empty(),
                deadlines: Multiset::empty(),
                ready: Map::empty(),
            }),
            hub_invariant(r@),
    {
        EventHub {
            batch_making_duration_nano,
            batch_max_size_bytes,
            listeners: FilterIndex::new(),
            pending_batch: PendingBatches::new(),
            pending_batch_queue: DeadlineQueue::new(),
            ready_batches: ReadyBatches::new(),
        }
    }

    /// Sets the longest time for which a batch stays open.
    pub fn set_batch_making_duration_nano(&mut self, new_duration: u64)
        ensures
            final(self)@ == (HubView { batch_making_duration_nano: new_duration, ..old(self)@ }),
            hub_invariant(final(self)@),
    {
        proof {
            use_type_invariant(&*self);
        }
        self.batch_making_duration_nano = new_duration;
    }

    /// Registers the method `event_listener_method_name` of `caller` as a
    /// listener on `filter`.
    pub fn add_event_listener(
        &mut self,
        filter: EventFilter,
        event_listener_method_name: String,
        caller: Principal,
    )
        ensures
            final(self)@ == (HubView {
                listeners: index_add(
                    old(self)@.listeners,
                    filter@,
                    (caller@, event_listener_method_name@),
                ),
                ..old(self)@
            }),
            hub_invariant(final(self)@),
    {
        proof {
            use_type_invariant(&*self);
        }
        let listener = RemoteCallEndpoint {
            canister_id: caller,
            method_name: event_listener_method_name,
        };
        let mut listeners = FilterIndex::new();
        core::mem::swap(&mut listeners, &mut self.listeners);
        listeners.add(filter, listener);
        self.listeners = listeners;
    }

    /// The endpoints that listen on a filter that `filter` includes, each once.
    pub fn match_event_listeners(&self, filter: &EventFilter) -> (r: Vec<RemoteCallEndpoint>)
        ensures
            endpoint_set(r@) == matching(self@.listeners, filter@),
            distinct_endpoints(r@),
    {
        self.match_event_listeners_by_topics(&filter.0)
    }

    /// The endpoints that listen on a filter whose topics are all among
    /// `topics`, each once.
    pub fn match_event_listeners_by_topics(&self, topics: &TopicSet) -> (r: Vec<
        RemoteCallEndpoint,
    >)
        ensures
            endpoint_set(r@) == matching(self@.listeners, topics@),
            distinct_endpoints(r@),
    {
        self.listeners.match_by_topics(topics)
    }

    /// Takes the method `event_listener_method_name` of `caller` from the
    /// listeners on `filter`.
    pub fn remove_event_listener(
        &mut self,
        filter: &EventFilter,
        event_listener_method_name: String,
        caller: Principal,
    ) -> (r: Result<(), ListenerError>)
        ensures
            r == index_removal(
                old(self)@.listeners,
                filter@,
                (caller@, event_listener_method_name@),
            ),
            r.is_ok() ==> final(self)@ == (HubView {
                listeners: index_remove(
                    old(self)@.listeners,
                    filter@,
                    (caller@, event_listener_method_name@),
                ),
                ..old(self)@
            }),
            r.is_err() ==> final(self)@ == old(self)@,
            hub_invariant(final(self)@),
    {
        proof {
            use_type_invariant(&*self);
        }
        let listener_to_remove = RemoteCallEndpoint {
            canister_id: caller,
            method_name: event_listener_method_name,
        };
        let mut listeners = FilterIndex::new();
        core::mem::swap(&mut listeners, &mut self.listeners);
        let r = listeners.remove(filter, &listener_to_remove);
        self.listeners = listeners;
        r
    }

    /// The subscription index.
    pub fn get_listeners(&self) -> (r: &FilterIndex)
        ensures
            r@ == self@.listeners,
    {
        &self.listeners
    }
    /// The number of endpoints that have sealed batches.
    pub closed spec fn ready_count(&self) -> nat {
        self.ready_batches.count()
    }

    fn take_batches(&mut self) -> (r: (PendingBatches, DeadlineQueue, ReadyBatches))
        ensures
            r.0@ == old(self)@.pending,
            r.1@ == old(self)@.deadlines,
            r.2@ == old(self)@.ready,
            r.2.count() == old(self).ready_count(),
            batches_within(old(self)@.batch_max_size_bytes, r.0@, r.1@, r.2@),
            final(self)@ == (HubView {
                pending: Map::empty(),
                deadlines: Multiset::empty(),
                ready: Map::empty(),
                ..old(self)@
            }),
    {
        proof {
            use_type_invariant(&*self);
        }
        let mut pending = PendingBatches::new();
        let mut deadlines = DeadlineQueue::new();
        let mut ready = ReadyBatches::new();
        core::mem::swap(&mut pending, &mut self.pending_batch);
        core::mem::swap(&mut deadlines, &mut self.pending_batch_queue);
        core::mem::swap(&mut ready, &mut self.ready_batches);
        (pending, deadlines, ready)
    }

    fn put_batches(
        &mut self,
        pending: PendingBatches,
        deadlines: DeadlineQueue,
        ready: ReadyBatches,
    )
        requires
            batches_within(old(self)@.batch_max_size_bytes, pending@, deadlines@, ready@),
        ensures
            final(self)@ == (HubView {
                pending: pending@,
                deadlines: deadlines@,
                ready: ready@,
                ..old(self)@
            }),
            final(self).ready_count() == ready.count(),
            hub_invariant(final(self)@),
    {
        proof {
            use_type_invariant(&*self);
        }
        self.pending_batch = PendingBatches::new();
        self.ready_batches = ready;
        self.pending_batch_queue = deadlines;
        self.pending_batch = pending;
    }

    /// Sets the greatest size of a batch, unless a batch of the hub is beyond
    /// the new limit: then nothing changes. Returns whether the limit was set.
    pub fn set_max_batch_size(&mut self, max: usize) -> (r: bool)
        ensures
            r == batches_within(max, old(self)@.pending, old(self)@.deadlines, old(self)@.ready),
            r ==> final(self)@ == (HubView { batch_max_size_bytes: max, ..old(self)@ }),
            !r ==> final(self)@ == old(self)@,
            hub_invariant(final(self)@),
    {
        proof {
            use_type_invariant(&*self);
        }
        if self.pending_batch.all_fit(max) && self.ready_batches.all_fit(max) {
            self.batch_max_size_bytes = max;
            true
        } else {
            false
        }
    }

    /// Takes out the greatest endpoint that has sealed batches, with these batches.
    pub fn pop_pending_events(&mut self) -> (r: Option<
        (RemoteCallEndpoint, Vec<EncodedEventBatch>),
    >)
        ensures
            r.is_none() == (old(self)@.ready == Map::<EndpointView, Seq<BatchView>>::empty()),
            r.is_none() ==> final(self)@ == old(self)@ && final(self).ready_count() == old(
                self,
            ).ready_count(),
            r.is_some() ==> {
                let (endpoint, batches) = r.unwrap();
                &&& greatest_in(endpoint@, old(self)@.ready)
                &&& batch_views(batches@) == old(self)@.ready[endpoint@]
                &&& final(self)@ == (HubView {
                    ready: old(self)@.ready.remove(endpoint@),
                    ..old(self)@
                })
                &&& final(self).ready_count() == old(self).ready_count() - 1
            },
            hub_invariant(final(self)@),
    {
        proof {
            use_type_invariant(&*self);
        }
        let mut ready = ReadyBatches::new();
        core::mem::swap(&mut ready, &mut self.ready_batches);
        let r = ready.pop_greatest();
        self.ready_batches = ready;
        r
    }

    /// Accepts the encoded event `encoded` for `endpoint`: adds it to the open
    /// batch of the endpoint, or opens one for it, sealing the one that is full.
    fn push_to(
        pending: &mut PendingBatches,
        deadlines: &mut DeadlineQueue,
        ready: &mut ReadyBatches,
        max: usize,
        endpoint: RemoteCallEndpoint,
        encoded: &[u8],
        timestamp: u64,
    )
        requires
            encoded@.len() < max,
            batches_within(max, old(pending)@, old(deadlines)@, old(ready)@),
        ensures
            batches_within(max, final(pending)@, final(deadlines)@, final(ready)@),
            final(pending)@ == pending_after_push(
                old(pending)@,
                set![endpoint@],
                encoded@,
                timestamp,
                max,
            ),
            final(ready)@ == ready_after_push(
                old(ready)@,
                old(pending)@,
                set![endpoint@],
                encoded@,
                max,
            ),
            deadlines_after_push(
                old(deadlines)@,
                final(deadlines)@,
                old(pending)@,
                set![endpoint@],
                encoded@,
                timestamp,
                max,
            ),
    {
        let ghost pending0 = pending@;
        let ghost ready0 = ready@;
        let ghost e = endpoint@;
        match pending.remove(&endpoint) {
            None => {
                deadlines.push(
                    TimestampedRemoteCallEndpoint { timestamp, endpoint: endpoint.clone() },
                );
                pending.insert(endpoint, EncodedEventBatch::new(encoded, timestamp));
            },
            Some(batch) => {
                let mut batch = batch;
                if batch.events_count < u64::MAX && encoded.len() <= max - batch.content.len() {
                    batch.add_event(encoded);
                    pending.insert(endpoint, batch);
                } else {
                    deadlines.push(
                        TimestampedRemoteCallEndpoint { timestamp, endpoint: endpoint.clone() },
                    );
                    pending.insert(endpoint.clone(), EncodedEventBatch::new(encoded, timestamp));
                    ready.append(endpoint, batch);
                }
            },
        }
        proof {
            assert(pending@ =~= pending_after_push(pending0, set![e], encoded@, timestamp, max));
            assert(ready@ =~= ready_after_push(ready0, pending0, set![e], encoded@, max));
        }
    }

    /// Accepts `pending_event`, whose values are encoded as `encoded_event`, at
    /// the time `timestamp`: for each endpoint that listens on a filter that
    /// the event matches, the encoded event is added to the open batch of the
    /// endpoint. Where it has none, one is opened with the event; where the one
    /// that it has cannot take the event, that one is sealed and a new one is
    /// opened. An event that no filter matches, or whose encoding is as large
    /// as a batch may be, is refused, and nothing changes.
    pub fn push_pending_event(
        &mut self,
        pending_event: &Event,
        encoded_event: &[u8],
        timestamp: u64,
    ) -> (r: Result<(), EventHubError>)
        ensures
            r == push_outcome(old(self)@, pending_event.topics@, encoded_event@),
            r.is_err() ==> final(self)@ == old(self)@,
            r.is_ok() ==> pushed(
                old(self)@,
                final(self)@,
                matching(old(self)@.listeners, pending_event.topics@),
                encoded_event@,
                timestamp,
            ),
            hub_invariant(final(self)@),
    {
        proof {
            use_type_invariant(&*self);
        }
        let mut listeners = self.match_event_listeners_by_topics(&pending_event.topics);
        let ghost all = listeners@;
        let ghost targets = matching(self@.listeners, pending_event.topics@);
        if listeners.len() == 0 {
            proof {
                assert(endpoint_set(all) =~= Set::<EndpointView>::empty());
            }
            return Err(EventHubError::EventHasNoActiveListeners);
        }
        proof {
            assert(endpoint_set(all).contains(all[0]@));
            assert(targets != Set::<EndpointView>::empty());
        }
        if encoded_event.len() >= self.batch_max_size_bytes {
            return Err(EventHubError::EventIsTooBig);
        }
        let max = self.batch_max_size_bytes;
        let ghost v0 = self@;
        let (mut pending, mut deadlines, mut ready) = self.take_batches();
        proof {
            lemma_pushed_none(v0, encoded_event@, timestamp);
            assert(endpoints_from(all, all.len() as int) =~= Set::<EndpointView>::empty());
        }
        while listeners.len() > 0
            invariant
                listeners@ == all.subrange(0, listeners@.len() as int),
                listeners@.len() <= all.len(),
                distinct_endpoints(all),
                encoded_event@.len() < max,
                max == v0.batch_max_size_bytes,
                batches_within(max, pending@, deadlines@, ready@),
                pushed(
                    v0,
                    HubView { pending: pending@, deadlines: deadlines@, ready: ready@, ..v0 },
                    endpoints_from(all, listeners@.len() as int),
                    encoded_event@,
                    timestamp,
                ),
            decreases listeners@.len(),
        {
            let ghost n = listeners@.len() as int;
            let ghost v1 = HubView {
                pending: pending@,
                deadlines: deadlines@,
                ready: ready@,
                ..v0
            };
            let listener = listeners.pop().unwrap();
            proof {
                assert(listener == all.subrange(0, n)[n - 1]);
                assert(listener@ == all[n - 1]@);
                assert(listeners@ =~= all.subrange(0, n - 1));
                if endpoints_from(all, n).contains(listener@) {
                    let k = choose|k: int| n <= k < all.len() && (#[trigger] all[k])@ == listener@;
                    assert(all[n - 1]@ != all[k]@);
                }
            }
            Self::push_to(
                &mut pending,
                &mut deadlines,
                &mut ready,
                max,
                listener,
                encoded_event,
                timestamp,
            );
            proof {
                let v2 = HubView {
                    pending: pending@,
                    deadlines: deadlines@,
                    ready: ready@,
                    ..v0
                };
                lemma_pushed_one_more(
                    v0,
                    v1,
                    v2,
                    endpoints_from(all, n),
                    listener@,
                    encoded_event@,
                    timestamp,
                );
                assert(endpoints_from(all, n - 1) =~= endpoints_from(all, n).insert(listener@))
                    by {
                    assert forall|x: EndpointView|
                        endpoints_from(all, n - 1).contains(x) == endpoints_from(all, n).insert(
                            listener@,
                        ).contains(x) by {
                        if endpoints_from(all, n - 1).contains(x) {
                            let k = choose|k: int|
                                n - 1 <= k < all.len() && (#[trigger] all[k])@ == x;
                            if k >= n {
                                assert(endpoints_from(all, n).contains(x));
                            }
                        }
                        if endpoints_from(all, n).contains(x) {
                            let k = choose|k: int| n <= k < all.len() && (#[trigger] all[k])@ == x;
                            assert(n - 1 <= k < all.len() && all[k]@ == x);
                        }
                        if x == listener@ {
                            assert(n - 1 <= n - 1 < all.len() && all[n - 1]@ == x);
                        }
                    }
                }
            }
        }
        proof {
            assert(endpoints_from(all, 0) =~= endpoint_set(all));
        }
        self.put_batches(pending, deadlines, ready);
        Ok(())
    }

    /// Seals every open batch that has been open for the longest time that a
    /// batch may stay open, and drops the deadlines that have passed.
    pub fn transform_pending_to_ready_by_time(&mut self, timestamp: u64)
        ensures
            final(self)@ == promoted(old(self)@, timestamp),
            hub_invariant(final(self)@),
    {
        proof {
            use_type_invariant(&*self);
        }
        let max = self.batch_max_size_bytes;
        let max_age = self.batch_making_duration_nano;
        let ghost v0 = self@;
        let (mut pending, mut deadlines, mut ready) = self.take_batches();
        let ghost pending0 = pending@;
        let ghost deadlines0 = deadlines@;
        let ghost ready0 = ready@;
        let mut done = false;
        while !done
            invariant
                batches_within(max, pending@, deadlines@, ready@),
                forall|x: DeadlineView|
                    #![trigger deadlines@.count(x)]
                    deadlines@.count(x) <= deadlines0.count(x) && (!expired(x.0, max_age, timestamp)
                        ==> deadlines@.count(x) == deadlines0.count(x)),
                forall|e: EndpointView|
                    #![trigger pending0.dom().contains(e)]
                    pending0.dom().contains(e) ==> (pending@.dom().contains(e) && pending@[e] == pending0[e]
                        && ready@.dom().contains(e) == ready0.dom().contains(e) && (ready0.dom().contains(
                        e,
                    ) ==> ready@[e] == ready0[e])) || (!pending@.dom().contains(e) && expired(
                        pending0[e].timestamp,
                        max_age,
                        timestamp,
                    ) && ready@.dom().contains(e) && ready@[e] == ready_of(ready0, e).push(pending0[e])),
                forall|e: EndpointView|
                    #![trigger pending0.dom().contains(e)]
                    !pending0.dom().contains(e) ==> !pending@.dom().contains(e) && ready@.dom().contains(
                        e,
                    ) == ready0.dom().contains(e) && (ready0.dom().contains(e) ==> ready@[e] == ready0[e]),
                done ==> forall|x: DeadlineView|
                    deadlines@.count(x) > 0 ==> !expired(x.0, max_age, timestamp),
            decreases deadlines@.len() + (if done { 0int } else { 1int }),
        {
            let due = match deadlines.peek() {
                None => false,
                Some(earliest) => match earliest.timestamp.checked_add(max_age) {
                    None => false,
                    Some(deadline) => deadline <= timestamp,
                },
            };
            if !due {
                done = true;
            } else {
                let ghost deadlines1 = deadlines@;
                let ghost pending1 = pending@;
                let ghost ready1 = ready@;
                let cur = deadlines.pop().unwrap();
                let ghost x = cur@;
                proof {
                    assert(expired(x.0, max_age, timestamp));
                    assert(pending1.dom().contains(x.1) ==> pending0.dom().contains(x.1));
                }
                let current = match pending.get(&cur.endpoint) {
                    None => false,
                    Some(batch) => batch.timestamp == cur.timestamp,
                };
                if current {
                    let batch = pending.remove(&cur.endpoint).unwrap();
                    ready.append(cur.endpoint, batch);
                    proof {
                        assert(pending0.dom().contains(x.1));
                        assert(ready_of(ready1, x.1) == ready_of(ready0, x.1));
                        assert forall|e: EndpointView| #[trigger]
                            pending@.dom().contains(e) implies pending_fits(pending@[e], max)
                            && deadlines@.count((pending@[e].timestamp, e)) > 0 by {
                            assert(pending1.dom().contains(e));
                            assert((pending1[e].timestamp, e) != x);
                        }
                        assert forall|e: EndpointView| #[trigger]
                            ready@.dom().contains(e) implies ready@[e].len() > 0 && forall|i: int|
                            0 <= i < ready@[e].len() ==> sealed_fits(
                                #[trigger] ready@[e][i],
                                max,
                            ) by {
                            if e == x.1 {
                                assert(pending1.dom().contains(e));
                                assert forall|i: int| 0 <= i < ready@[e].len() implies sealed_fits(
                                    #[trigger] ready@[e][i],
                                    max,
                                ) by {
                                    if i < ready_of(ready1, e).len() {
                                        assert(ready1.dom().contains(e));
                                        assert(ready@[e][i] == ready1[e][i]);
                                    }
                                }
                            } else {
                                assert(ready1.dom().contains(e));
                            }
                        }
                    }
                } else {
                    proof {
                        assert forall|e: EndpointView| #[trigger]
                            pending@.dom().contains(e) implies pending_fits(pending@[e], max)
                            && deadlines@.count((pending@[e].timestamp, e)) > 0 by {
                            assert((pending1[e].timestamp, e) != x);
                        }
                    }
                }
            }
        }
        proof {
            assert(pending@ =~= pending_after_promotion(pending0, max_age, timestamp)) by {
                assert forall|e: EndpointView|
                    pending@.dom().contains(e) == pending_after_promotion(
                        pending0,
                        max_age,
                        timestamp,
                    ).dom().contains(e) by {
                    if pending@.dom().contains(e) {
                        assert(pending0.dom().contains(e));
                        assert(deadlines@.count((pending@[e].timestamp, e)) > 0);
                    }
                    if pending0.dom().contains(e) {
                    }
                }
                assert forall|e: EndpointView| pending@.dom().contains(e) implies pending@[e]
                    == pending0[e] by {
                    assert(pending0.dom().contains(e));
                }
            }
            assert(ready@ =~= ready_after_promotion(ready0, pending0, max_age, timestamp)) by {
                assert forall|e: EndpointView|
                    ready@.dom().contains(e) == ready_after_promotion(
                        ready0,
                        pending0,
                        max_age,
                        timestamp,
                    ).dom().contains(e) by {
                    if pending0.dom().contains(e) {
                        if pending@.dom().contains(e) {
                            assert(deadlines@.count((pending@[e].timestamp, e)) > 0);
                        }
                    }
                }
                assert forall|e: EndpointView| ready@.dom().contains(e) implies ready@[e]
                    == ready_after_promotion(ready0, pending0, max_age, timestamp)[e] by {
                    if pending0.dom().contains(e) {
                        if pending@.dom().contains(e) {
                            assert(deadlines@.count((pending@[e].timestamp, e)) > 0);
                        }
                    }
                }
            }
            assert(deadlines@ =~= deadlines_after_promotion(deadlines0, max_age, timestamp)) by {
                assert forall|x: DeadlineView|
                    deadlines@.count(x) == deadlines_after_promotion(
                        deadlines0,
                        max_age,
                        timestamp,
                    ).count(x) by {
                    assert(deadlines@.count(x) <= deadlines0.count(x));
                }
            }
        }
        self.put_batches(pending, deadlines, ready);
    }
}

} // verus!
