//! What holds of the hub's operations, whatever the state they are applied to.

use vstd::prelude::*;
use crate::batches::{pending_fits, ready_of, sealed_fits, PendingView};
use crate::endpoint::EndpointView;
use crate::event_hub::{
    fresh_batch, hub_invariant, promoted, push_outcome, pushed, seals, HubView,
};
use crate::field::FieldView;
use crate::index::{index_add, index_removal, index_remove, matching, IndexView};
use crate::types::{BatchView, EventHubError};

verus! {

/// Under every registered filter stands at least one endpoint.
pub open spec fn index_valid(m: IndexView) -> bool {
    forall|f: Set<FieldView>| #[trigger]
        m.dom().contains(f) ==> m[f] != Set::<EndpointView>::empty()
}

/// Subscribing an endpoint on a filter a second time changes nothing.
pub proof fn lemma_add_is_idempotent(m: IndexView, filter: Set<FieldView>, endpoint: EndpointView)
    ensures
        index_add(index_add(m, filter, endpoint), filter, endpoint) == index_add(
            m,
            filter,
            endpoint,
        ),
{
    let once = index_add(m, filter, endpoint);
    assert(once[filter].insert(endpoint) =~= once[filter]);
    assert(index_add(once, filter, endpoint) =~= once);
}

/// Subscribing an endpoint that was not subscribed on a filter, and then
/// unsubscribing it, leaves the index as it was.
pub proof fn lemma_add_then_remove_restores(
    m: IndexView,
    filter: Set<FieldView>,
    endpoint: EndpointView,
)
    requires
        index_valid(m),
        !(m.dom().contains(filter) && m[filter].contains(endpoint)),
    ensures
        index_removal(index_add(m, filter, endpoint), filter, endpoint) == Ok::<
            (),
            crate::types::ListenerError,
        >(()),
        index_remove(index_add(m, filter, endpoint), filter, endpoint) == m,
{
    let added = index_add(m, filter, endpoint);
    if m.dom().contains(filter) {
        assert(added[filter].remove(endpoint) =~= m[filter]);
        assert(m.insert(filter, m[filter]) =~= m);
        assert(added.insert(filter, m[filter]) =~= m);
    } else {
        assert(added[filter].remove(endpoint) =~= Set::<EndpointView>::empty());
        assert(added.remove(filter) =~= m);
    }
}

/// Subscribing keeps the index valid.
pub proof fn lemma_add_keeps_valid(m: IndexView, filter: Set<FieldView>, endpoint: EndpointView)
    requires
        index_valid(m),
    ensures
        index_valid(index_add(m, filter, endpoint)),
{
    let added = index_add(m, filter, endpoint);
    assert(added[filter].contains(endpoint));
}

/// Unsubscribing keeps the index valid.
pub proof fn lemma_remove_keeps_valid(
    m: IndexView,
    filter: Set<FieldView>,
    endpoint: EndpointView,
)
    requires
        index_valid(m),
    ensures
        index_valid(index_remove(m, filter, endpoint)),
{
}

/// The filter without topics matches every event: whoever listens on it is
/// matched by every set of topics.
pub proof fn lemma_empty_filter_matches_all(
    m: IndexView,
    topics: Set<FieldView>,
    endpoint: EndpointView,
)
    requires
        m.dom().contains(Set::<FieldView>::empty()),
        m[Set::<FieldView>::empty()].contains(endpoint),
    ensures
        Set::<FieldView>::empty().subset_of(topics),
        matching(m, topics).contains(endpoint),
{
}

/// A filter of one topic matches exactly the events that have this topic.
pub proof fn lemma_single_topic_filter(topic: FieldView, topics: Set<FieldView>)
    ensures
        set![topic].subset_of(topics) == topics.contains(topic),
{
    if set![topic].subset_of(topics) {
        assert(set![topic].contains(topic));
    }
}

/// An endpoint is matched exactly when it listens on a filter whose topics
/// are all among those of the event.
pub proof fn lemma_matching_is_subset_matching(
    m: IndexView,
    topics: Set<FieldView>,
    endpoint: EndpointView,
)
    ensures
        matching(m, topics).contains(endpoint) <==> exists|f: Set<FieldView>|
            #![trigger m.dom().contains(f)]
            m.dom().contains(f) && f.subset_of(topics) && m[f].contains(endpoint),
{
}

/// In every hub each open batch is no larger than the limit, and smaller
/// while it holds a single event; each sealed batch is no larger than the
/// limit; and every batch holds at least one event.
pub proof fn lemma_batches_are_bounded(v: HubView)
    requires
        hub_invariant(v),
    ensures
        forall|e: EndpointView| #[trigger]
            v.pending.dom().contains(e) ==> pending_fits(v.pending[e], v.batch_max_size_bytes),
        forall|e: EndpointView, i: int|
            v.ready.dom().contains(e) && 0 <= i < v.ready[e].len() ==> sealed_fits(
                #[trigger] v.ready[e][i],
                v.batch_max_size_bytes,
            ),
{
}

/// An event that encodes to as many bytes as a batch may hold, or more, is
/// refused as too big wherever it has listeners.
pub proof fn lemma_event_at_limit_is_too_big(v: HubView, topics: Set<FieldView>, event: Seq<u8>)
    requires
        matching(v.listeners, topics) != Set::<EndpointView>::empty(),
        event.len() >= v.batch_max_size_bytes,
    ensures
        push_outcome(v, topics, event) == Err::<(), EventHubError>(EventHubError::EventIsTooBig),
{
}

/// An event one byte below the limit is accepted into a new batch for an
/// endpoint that has none, and the event that follows seals that batch
/// exactly when it has more than one byte.
pub proof fn lemma_event_below_limit_fills_batch(
    v: HubView,
    after: HubView,
    targets: Set<EndpointView>,
    endpoint: EndpointView,
    event: Seq<u8>,
    next: Seq<u8>,
    now: u64,
)
    requires
        pushed(v, after, targets, event, now),
        targets.contains(endpoint),
        !v.pending.dom().contains(endpoint),
        event.len() == v.batch_max_size_bytes - 1,
    ensures
        after.pending.dom().contains(endpoint),
        after.pending[endpoint] == fresh_batch(event, now),
        seals(after.pending, endpoint, next, after.batch_max_size_bytes) <==> next.len() > 1,
{
}

/// The bytes of the batches of a list, one batch after the other.
pub open spec fn contents_of(batches: Seq<BatchView>) -> Seq<u8>
    decreases batches.len(),
{
    if batches.len() == 0 {
        Seq::empty()
    } else {
        contents_of(batches.drop_last()) + batches.last().content
    }
}

/// The number of events in the batches of a list.
pub open spec fn events_in(batches: Seq<BatchView>) -> int
    decreases batches.len(),
{
    if batches.len() == 0 {
        0
    } else {
        events_in(batches.drop_last()) + batches.last().events_count
    }
}

/// The bytes of the open batch of `endpoint`, none where it has no open batch.
pub open spec fn open_content(pending: PendingView, endpoint: EndpointView) -> Seq<u8> {
    if pending.dom().contains(endpoint) {
        pending[endpoint].content
    } else {
        Seq::empty()
    }
}

/// The number of events in the open batch of `endpoint`.
pub open spec fn open_events(pending: PendingView, endpoint: EndpointView) -> int {
    if pending.dom().contains(endpoint) {
        pending[endpoint].events_count as int
    } else {
        0
    }
}

/// The bytes that the hub holds for `endpoint` and has not handed out: those
/// of its sealed batches in the order of sealing, then those of its open batch.
pub open spec fn backlog(v: HubView, endpoint: EndpointView) -> Seq<u8> {
    contents_of(ready_of(v.ready, endpoint)) + open_content(v.pending, endpoint)
}

/// The number of events that the hub holds for `endpoint`.
pub open spec fn backlog_events(v: HubView, endpoint: EndpointView) -> int {
    events_in(ready_of(v.ready, endpoint)) + open_events(v.pending, endpoint)
}

proof fn lemma_contents_push(batches: Seq<BatchView>, batch: BatchView)
    ensures
        contents_of(batches.push(batch)) == contents_of(batches) + batch.content,
        events_in(batches.push(batch)) == events_in(batches) + batch.events_count,
{
    assert(batches.push(batch).drop_last() =~= batches);
}

/// Accepting an event adds its bytes, once, at the end of what the hub holds
/// for each endpoint that it is accepted for, and changes nothing for the others.
pub proof fn lemma_push_extends_backlog(
    v: HubView,
    after: HubView,
    targets: Set<EndpointView>,
    event: Seq<u8>,
    now: u64,
    endpoint: EndpointView,
)
    requires
        pushed(v, after, targets, event, now),
    ensures
        backlog(after, endpoint) == backlog(v, endpoint) + (if targets.contains(endpoint) {
            event
        } else {
            Seq::<u8>::empty()
        }),
        backlog_events(after, endpoint) == backlog_events(v, endpoint) + (if targets.contains(
            endpoint,
        ) {
            1int
        } else {
            0int
        }),
{
    let max = v.batch_max_size_bytes;
    let e = endpoint;
    if targets.contains(e) {
        assert(after.pending.dom().contains(e));
        if seals(v.pending, e, event, max) {
            assert(after.ready.dom().contains(e));
            lemma_contents_push(ready_of(v.ready, e), v.pending[e]);
            assert(backlog(after, e) =~= backlog(v, e) + event);
        } else {
            assert(after.ready.dom().contains(e) == v.ready.dom().contains(e));
            assert(ready_of(after.ready, e) == ready_of(v.ready, e));
            assert(backlog(after, e) =~= backlog(v, e) + event);
        }
    } else {
        assert(after.pending.dom().contains(e) == v.pending.dom().contains(e));
        assert(after.ready.dom().contains(e) == v.ready.dom().contains(e));
        assert(ready_of(after.ready, e) == ready_of(v.ready, e));
        assert(backlog(after, e) =~= backlog(v, e) + Seq::<u8>::empty());
    }
}

/// Sealing the batches that are old enough neither loses nor repeats a byte
/// or an event: it only moves them from the open batch to the sealed ones.
pub proof fn lemma_promotion_keeps_backlog(v: HubView, now: u64, endpoint: EndpointView)
    ensures
        backlog(promoted(v, now), endpoint) == backlog(v, endpoint),
        backlog_events(promoted(v, now), endpoint) == backlog_events(v, endpoint),
{
    let after = promoted(v, now);
    let e = endpoint;
    if v.pending.dom().contains(e) && !after.pending.dom().contains(e) {
        assert(after.ready.dom().contains(e));
        lemma_contents_push(ready_of(v.ready, e), v.pending[e]);
        assert(backlog(after, e) =~= backlog(v, e));
    } else {
        assert(after.ready.dom().contains(e) == v.ready.dom().contains(e));
        assert(ready_of(after.ready, e) == ready_of(v.ready, e));
        assert(backlog(after, e) =~= backlog(v, e));
    }
}

/// What a dispatch hands out for an endpoint, followed by what the hub still
/// holds for it, is what the hub held for it before.
pub proof fn lemma_dispatch_splits_backlog(v: HubView, endpoint: EndpointView)
    ensures
        contents_of(ready_of(v.ready, endpoint)) + backlog(
            HubView { ready: Map::empty(), ..v },
            endpoint,
        ) == backlog(v, endpoint),
        events_in(ready_of(v.ready, endpoint)) + backlog_events(
            HubView { ready: Map::empty(), ..v },
            endpoint,
        ) == backlog_events(v, endpoint),
{
    let after = HubView { ready: Map::empty(), ..v };
    assert(ready_of(after.ready, endpoint) =~= Seq::<BatchView>::empty());
    assert(contents_of(ready_of(v.ready, endpoint)) + backlog(after, endpoint) =~= backlog(
        v,
        endpoint,
    ));
}

} // verus!
