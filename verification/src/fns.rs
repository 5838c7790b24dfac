//! The operations that a host actor offers to its listeners, and the dispatch
//! of sealed batches.

use vstd::prelude::*;
use crate::batches::batch_views;
use crate::decimal::{decimal, decimal_text};
use crate::endpoint::{
    endpoint_order, lemma_endpoint_order_equal, lemma_endpoint_order_flip, EndpointView,
    Principal, RemoteCallEndpoint,
};
use crate::event_hub::{hub_invariant, promoted, EventHub, HubView};
use crate::field::FieldView;
use crate::index::{
    distinct_endpoints, endpoint_set, index_add, index_removal, index_remove, matching, IndexView,
};
use crate::order::Order;
use crate::types::{
    message_text, BatchView, CallbackInfo, CallbackInfoExt, EncodedEventBatch, EventFilter,
    GetSubscribersRequest, GetSubscribersResponse, ListenerError, SubscribeRequest,
    UnsubscribeRequest,
};
use vstd::string::StringExecFns;
use crate::wire::{encode_envelope, envelope};

verus! {

/// A subscription: a filter and the endpoint that listens on it.
pub type Subscription = (Set<FieldView>, EndpointView);

/// The subscriptions of a list of callbacks with their endpoints.
pub open spec fn subscriptions_of(listeners: Seq<CallbackInfoExt>) -> Seq<Subscription> {
    listeners.map_values(|c: CallbackInfoExt| (c.filter@, c.endpoint@))
}

/// The subscriptions of a list of callbacks, each for a method of `caller`.
pub open spec fn subscriptions_by(callbacks: Seq<CallbackInfo>, caller: Seq<u8>) -> Seq<
    Subscription,
> {
    callbacks.map_values(|c: CallbackInfo| (c.filter@, (caller, c.method_name@)))
}

/// The index after each of `items` was added, in their order.
pub open spec fn add_all(m: IndexView, items: Seq<Subscription>) -> IndexView
    decreases items.len(),
{
    if items.len() == 0 {
        m
    } else {
        index_add(add_all(m, items.drop_last()), items.last().0, items.last().1)
    }
}

/// A removal that failed: the position of the subscription in the request, and why.
#[derive(Clone, Copy, Debug, PartialEq, Eq, Structural)]
pub struct RemovalFailure {
    pub index: usize,
    pub error: ListenerError,
}

impl RemovalFailure {
    /// The diagnostic text of the failure: it names the position of the
    /// subscription in the request, and the reason.
    pub fn message(&self) -> (r: String)
        ensures
            r@ == "Unable to remove listener #"@ + decimal(self.index as nat) + " - "@
                + message_text(self.error),
    {
        let mut text = "Unable to remove listener #".to_owned();
        text.append(decimal_text(self.index).as_str());
        text.append(" - ");
        text.append(self.error.message().as_str());
        text
    }
}

/// The index after the subscriptions of `items` were removed in their order,
/// up to the first that could not be, and the position and the reason of that
/// failure.
pub open spec fn remove_all(m: IndexView, items: Seq<Subscription>) -> (IndexView, Option<
    (int, ListenerError),
>)
    decreases items.len(),
{
    if items.len() == 0 {
        (m, None)
    } else {
        let (before, failed) = remove_all(m, items.drop_last());
        if failed.is_some() {
            (before, failed)
        } else {
            match index_removal(before, items.last().0, items.last().1) {
                Ok(_) => (index_remove(before, items.last().0, items.last().1), None),
                Err(e) => (before, Some((items.len() - 1, e))),
            }
        }
    }
}

/// Whether `r` reports the failure `failed`.
pub open spec fn reports(r: Result<(), RemovalFailure>, failed: Option<(int, ListenerError)>)
    -> bool {
    match failed {
        None => r.is_ok(),
        Some((index, error)) => r == Err::<(), RemovalFailure>(
            RemovalFailure { index: index as usize, error },
        ),
    }
}

/// Why filters and callbacks cannot be paired.
#[derive(Clone, Copy, Debug, PartialEq, Eq, Structural)]
pub enum PairingError {
    /// There are not as many filters as callbacks.
    LengthMismatch,
}

impl PairingError {
    /// The diagnostic text of the error.
    pub fn message(&self) -> (r: String)
        ensures
            r@ == "There are not as many filters as callbacks"@,
    {
        "There are not as many filters as callbacks".to_owned()
    }
}

/// The request that subscribes, for each of `filters`, the method of
/// `callback_names` at the same position. There must be as many of the one
/// as of the other.
pub fn pair_callbacks(filters: Vec<EventFilter>, callback_names: Vec<String>) -> (r: Result<
    SubscribeRequest,
    PairingError,
>)
    ensures
        r.is_ok() == (filters@.len() == callback_names@.len()),
        r.is_err() ==> r == Err::<SubscribeRequest, PairingError>(PairingError::LengthMismatch),
        r.is_ok() ==> r.unwrap().callbacks@.len() == filters@.len() && forall|i: int|
            0 <= i < filters@.len() ==> (#[trigger] r.unwrap().callbacks@[i]).filter@
                == filters@[i]@ && r.unwrap().callbacks@[i].method_name@ == callback_names@[i]@,
{
    if filters.len() != callback_names.len() {
        return Err(PairingError::LengthMismatch);
    }
    let mut callbacks: Vec<CallbackInfo> = Vec::new();
    let mut i: usize = 0;
    while i < filters.len()
        invariant
            i <= filters.len(),
            filters@.len() == callback_names@.len(),
            callbacks@.len() == i,
            forall|k: int|
                0 <= k < i ==> (#[trigger] callbacks@[k]).filter@ == filters@[k]@
                    && callbacks@[k].method_name@ == callback_names@[k]@,
        decreases filters.len() - i,
    {
        callbacks.push(
            CallbackInfo { filter: filters[i].clone(), method_name: callback_names[i].clone() },
        );
        i += 1;
    }
    Ok(SubscribeRequest { callbacks })
}

/// Subscribes each endpoint of `listeners` on its filter.
pub fn add_event_listeners_impl(listeners: Vec<CallbackInfoExt>, hub: &mut EventHub)
    ensures
        final(hub)@ == (HubView {
            listeners: add_all(old(hub)@.listeners, subscriptions_of(listeners@)),
            ..old(hub)@
        }),
        hub_invariant(final(hub)@),
{
    let ghost items = subscriptions_of(listeners@);
    let ghost v0 = hub@;
    let mut i: usize = 0;
    proof {
        use_type_invariant(&*hub);
        hub.lemma_invariant();
        assert(items.subrange(0, 0) =~= Seq::<Subscription>::empty());
    }
    while i < listeners.len()
        invariant
            i <= listeners.len(),
            items == subscriptions_of(listeners@),
            hub_invariant(hub@),
            hub@ == (HubView { listeners: add_all(v0.listeners, items.subrange(0, i as int)), ..v0 }),
        decreases listeners.len() - i,
    {
        let listener = &listeners[i];
        hub.add_event_listener(
            listener.filter.clone(),
            listener.endpoint.method_name.clone(),
            listener.endpoint.canister_id.clone(),
        );
        proof {
            assert(items.subrange(0, i + 1).drop_last() =~= items.subrange(0, i as int));
            assert(items.subrange(0, i + 1).last() == items[i as int]);
        }
        i += 1;
    }
    proof {
        assert(items.subrange(0, i as int) =~= items);
    }
}

/// The callbacks of `request` with their endpoints: the methods of `caller`.
pub fn callbacks_of(request: SubscribeRequest, caller: &Principal) -> (r: Vec<CallbackInfoExt>)
    ensures
        subscriptions_of(r@) == subscriptions_by(request.callbacks@, caller@),
{
    let mut listeners: Vec<CallbackInfoExt> = Vec::new();
    let mut i: usize = 0;
    while i < request.callbacks.len()
        invariant
            i <= request.callbacks.len(),
            listeners@.len() == i,
            forall|k: int|
                0 <= k < i ==> (#[trigger] listeners@[k]).filter@ == request.callbacks@[k].filter@
                    && listeners@[k].endpoint@ == (caller@, request.callbacks@[k].method_name@),
        decreases request.callbacks.len() - i,
    {
        let callback = &request.callbacks[i];
        listeners.push(
            CallbackInfoExt {
                filter: callback.filter.clone(),
                endpoint: RemoteCallEndpoint {
                    canister_id: caller.clone(),
                    method_name: callback.method_name.clone(),
                },
            },
        );
        i += 1;
    }
    assert(subscriptions_of(listeners@) =~= subscriptions_by(request.callbacks@, caller@));
    listeners
}

/// Subscribes a method of `caller` on each filter of `request`.
pub fn become_event_listener_impl(request: SubscribeRequest, caller: Principal, hub: &mut EventHub)
    ensures
        final(hub)@ == (HubView {
            listeners: add_all(
                old(hub)@.listeners,
                subscriptions_by(request.callbacks@, caller@),
            ),
            ..old(hub)@
        }),
        hub_invariant(final(hub)@),
{
    add_event_listeners_impl(callbacks_of(request, &caller), hub)
}

/// Unsubscribes each endpoint of `listeners` from its filter, in their order,
/// and stops at the first that is not subscribed: what was removed before
/// stays removed.
pub fn remove_event_listeners_impl(listeners: Vec<CallbackInfoExt>, hub: &mut EventHub) -> (r:
    Result<(), RemovalFailure>)
    ensures
        final(hub)@ == (HubView {
            listeners: remove_all(old(hub)@.listeners, subscriptions_of(listeners@)).0,
            ..old(hub)@
        }),
        reports(r, remove_all(old(hub)@.listeners, subscriptions_of(listeners@)).1),
        hub_invariant(final(hub)@),
{
    let ghost items = subscriptions_of(listeners@);
    let ghost v0 = hub@;
    let mut i: usize = 0;
    proof {
        use_type_invariant(&*hub);
        hub.lemma_invariant();
        assert(items.subrange(0, 0) =~= Seq::<Subscription>::empty());
    }
    while i < listeners.len()
        invariant
            i <= listeners.len(),
            items == subscriptions_of(listeners@),
            hub_invariant(hub@),
            v0 == old(hub)@,
            remove_all(v0.listeners, items.subrange(0, i as int)).1.is_none(),
            hub@ == (HubView {
                listeners: remove_all(v0.listeners, items.subrange(0, i as int)).0,
                ..v0
            }),
        decreases listeners.len() - i,
    {
        let listener = &listeners[i];
        let res = hub.remove_event_listener(
            &listener.filter,
            listener.endpoint.method_name.clone(),
            listener.endpoint.canister_id.clone(),
        );
        proof {
            assert(items.subrange(0, i + 1).drop_last() =~= items.subrange(0, i as int));
            assert(items.subrange(0, i + 1).last() == items[i as int]);
        }
        match res {
            Ok(_) => {},
            Err(error) => {
                proof {
                    let prefix = items.subrange(0, i + 1);
                    let before = remove_all(v0.listeners, prefix.drop_last());
                    assert(before.1.is_none());
                    assert(index_removal(before.0, prefix.last().0, prefix.last().1) == Err::<
                        (),
                        ListenerError,
                    >(error));
                    assert(remove_all(v0.listeners, prefix) == (
                        before.0,
                        Some((i as int, error)),
                    ));
                    lemma_remove_all_stops(v0.listeners, items, i + 1);
                }
                return Err(RemovalFailure { index: i, error });
            },
        }
        i += 1;
    }
    proof {
        assert(items.subrange(0, i as int) =~= items);
    }
    Ok(())
}

/// Unsubscribes a method of `caller` from each filter of `request`, in their
/// order, and stops at the first that is not subscribed: what was removed
/// before stays removed.
pub fn stop_being_event_listener_impl(
    request: UnsubscribeRequest,
    caller: Principal,
    hub: &mut EventHub,
) -> (r: Result<(), RemovalFailure>)
    ensures
        final(hub)@ == (HubView {
            listeners: remove_all(
                old(hub)@.listeners,
                subscriptions_by(request.callbacks@, caller@),
            ).0,
            ..old(hub)@
        }),
        reports(
            r,
            remove_all(old(hub)@.listeners, subscriptions_by(request.callbacks@, caller@)).1,
        ),
        hub_invariant(final(hub)@),
{
    remove_event_listeners_impl(callbacks_of(request, &caller), hub)
}

/// Removals stop at the first failure: what follows it changes nothing.
pub proof fn lemma_remove_all_stops(m: IndexView, items: Seq<Subscription>, n: int)
    requires
        0 <= n <= items.len(),
        remove_all(m, items.subrange(0, n)).1.is_some(),
    ensures
        remove_all(m, items) == remove_all(m, items.subrange(0, n)),
    decreases items.len() - n,
{
    if n == items.len() {
        assert(items.subrange(0, n) =~= items);
    } else {
        assert(items.subrange(0, n + 1).drop_last() =~= items.subrange(0, n));
        lemma_remove_all_stops(m, items, n + 1);
    }
}

/// For each filter of `request`, in its order, the endpoints that listen on a
/// filter that it includes, each once.
pub fn get_event_listeners_impl(request: GetSubscribersRequest, hub: &EventHub) -> (r:
    GetSubscribersResponse)
    ensures
        r.subscribers@.len() == request.filters@.len(),
        forall|i: int|
            0 <= i < request.filters@.len() ==> endpoint_set(#[trigger] r.subscribers@[i]@)
                == matching(hub@.listeners, request.filters@[i]@) && distinct_endpoints(
                r.subscribers@[i]@,
            ),
{
    let mut subscribers: Vec<Vec<RemoteCallEndpoint>> = Vec::new();
    let mut i: usize = 0;
    while i < request.filters.len()
        invariant
            i <= request.filters.len(),
            subscribers@.len() == i,
            forall|k: int|
                0 <= k < i ==> endpoint_set(#[trigger] subscribers@[k]@) == matching(
                    hub@.listeners,
                    request.filters@[k]@,
                ) && distinct_endpoints(subscribers@[k]@),
        decreases request.filters.len() - i,
    {
        subscribers.push(hub.match_event_listeners(&request.filters[i]));
        i += 1;
    }
    GetSubscribersResponse { subscribers }
}

/// The messages for one endpoint: one for each of its sealed batches.
#[derive(Debug)]
pub struct Dispatch {
    pub endpoint: RemoteCallEndpoint,
    pub messages: Vec<Vec<u8>>,
}

impl Dispatch {
    /// The messages in their order.
    pub open spec fn messages_view(&self) -> Seq<Seq<u8>> {
        self.messages@.map_values(|m: Vec<u8>| m@)
    }
}

/// The messages that carry `batches`, in their order.
pub open spec fn envelopes(type_table: Seq<u8>, batches: Seq<BatchView>) -> Seq<Seq<u8>> {
    batches.map_values(|b: BatchView| envelope(type_table, b))
}

/// `dispatches` holds the sealed batches of `ready`, framed with `type_table`:
/// one dispatch for each endpoint that has sealed batches, the greatest
/// endpoint first, with one message for each batch, in the order in which the
/// batches were sealed.
pub open spec fn dispatches_of(
    dispatches: Seq<Dispatch>,
    ready: Map<EndpointView, Seq<BatchView>>,
    type_table: Seq<u8>,
) -> bool {
    &&& forall|i: int|
        0 <= i < dispatches.len() ==> ready.dom().contains((#[trigger] dispatches[i]).endpoint@)
            && dispatches[i].messages_view() == envelopes(
            type_table,
            ready[dispatches[i].endpoint@],
        )
    &&& forall|i: int, j: int|
        0 <= i < j < dispatches.len() ==> endpoint_order(
            (#[trigger] dispatches[i]).endpoint@,
            (#[trigger] dispatches[j]).endpoint@,
        ) == Order::Greater
    &&& forall|e: EndpointView| #[trigger]
        ready.dom().contains(e) ==> exists|i: int|
            0 <= i < dispatches.len() && (#[trigger] dispatches[i]).endpoint@ == e
}

/// Frames each of `batches` as a message.
pub fn frame_batches(type_table: &[u8], batches: &Vec<EncodedEventBatch>) -> (r: Vec<Vec<u8>>)
    ensures
        r@.map_values(|m: Vec<u8>| m@) == envelopes(type_table@, batch_views(batches@)),
{
    let mut messages: Vec<Vec<u8>> = Vec::new();
    let mut i: usize = 0;
    while i < batches.len()
        invariant
            i <= batches.len(),
            messages@.len() == i,
            forall|k: int|
                0 <= k < i ==> (#[trigger] messages@[k])@ == envelope(type_table@, batches@[k]@),
        decreases batches.len() - i,
    {
        messages.push(encode_envelope(type_table, &batches[i]));
        i += 1;
    }
    assert(messages@.map_values(|m: Vec<u8>| m@) =~= envelopes(
        type_table@,
        batch_views(batches@),
    ));
    messages
}

/// What a heartbeat does at the time `now`: seals the open batches that are
/// old enough, takes every sealed batch out of the hub and frames it with the
/// type table `type_table`. Returns the messages to send, grouped by endpoint.
pub fn send_events_impl(hub: &mut EventHub, type_table: &[u8], now: u64) -> (r: Vec<Dispatch>)
    ensures
        final(hub)@ == (HubView { ready: Map::empty(), ..promoted(old(hub)@, now) }),
        dispatches_of(r@, promoted(old(hub)@, now).ready, type_table@),
        hub_invariant(final(hub)@),
{
    hub.transform_pending_to_ready_by_time(now);
    let ghost v1 = hub@;
    let ghost ready = v1.ready;
    let mut dispatches: Vec<Dispatch> = Vec::new();
    let mut done = false;
    while !done
        invariant
            hub_invariant(hub@),
            hub@ == (HubView { ready: hub@.ready, ..v1 }),
            ready == v1.ready,
            forall|e: EndpointView| #[trigger]
                hub@.ready.dom().contains(e) ==> ready.dom().contains(e) && hub@.ready[e]
                    == ready[e],
            forall|e: EndpointView| #[trigger]
                ready.dom().contains(e) ==> hub@.ready.dom().contains(e) || exists|i: int|
                    0 <= i < dispatches@.len() && (#[trigger] dispatches@[i]).endpoint@ == e,
            forall|i: int|
                0 <= i < dispatches@.len() ==> ready.dom().contains(
                    (#[trigger] dispatches@[i]).endpoint@,
                ) && dispatches@[i].messages_view() == envelopes(
                    type_table@,
                    ready[dispatches@[i].endpoint@],
                ),
            forall|i: int, j: int|
                0 <= i < j < dispatches@.len() ==> endpoint_order(
                    (#[trigger] dispatches@[i]).endpoint@,
                    (#[trigger] dispatches@[j]).endpoint@,
                ) == Order::Greater,
            forall|i: int, e: EndpointView|
                0 <= i < dispatches@.len() && #[trigger] hub@.ready.dom().contains(e)
                    ==> endpoint_order((#[trigger] dispatches@[i]).endpoint@, e) == Order::Greater,
            done ==> hub@.ready == Map::<EndpointView, Seq<BatchView>>::empty(),
        decreases hub.ready_count() + (if done { 0int } else { 1int }),
    {
        let ghost before = hub@.ready;
        let ghost sent = dispatches@;
        match hub.pop_pending_events() {
            None => {
                done = true;
            },
            Some((endpoint, batches)) => {
                let messages = frame_batches(type_table, &batches);
                let ghost e = endpoint@;
                dispatches.push(Dispatch { endpoint, messages });
                proof {
                    assert(before.dom().contains(e));
                    assert forall|i: int, j: int|
                        0 <= i < j < dispatches@.len() implies endpoint_order(
                        (#[trigger] dispatches@[i]).endpoint@,
                        (#[trigger] dispatches@[j]).endpoint@,
                    ) == Order::Greater by {
                        if j == sent.len() {
                            assert(dispatches@[i] == sent[i]);
                        } else {
                            assert(dispatches@[i] == sent[i]);
                            assert(dispatches@[j] == sent[j]);
                        }
                    }
                    assert forall|i: int, x: EndpointView|
                        0 <= i < dispatches@.len() && #[trigger] hub@.ready.dom().contains(
                            x,
                        ) implies endpoint_order((#[trigger] dispatches@[i]).endpoint@, x)
                        == Order::Greater by {
                        assert(before.dom().contains(x));
                        if i == sent.len() {
                            lemma_endpoint_order_flip(x, e);
                            lemma_endpoint_order_equal(x, e);
                        } else {
                            assert(dispatches@[i] == sent[i]);
                        }
                    }
                    assert forall|x: EndpointView| #[trigger] ready.dom().contains(x) implies hub@.ready.dom().contains(
                        x,
                    ) || exists|i: int|
                        0 <= i < dispatches@.len() && (#[trigger] dispatches@[i]).endpoint@
                            == x by {
                        if x == e {
                            assert(dispatches@[sent.len() as int].endpoint@ == x);
                        } else if before.dom().contains(x) {
                        } else {
                            let i = choose|i: int|
                                0 <= i < sent.len() && (#[trigger] sent[i]).endpoint@ == x;
                            assert(dispatches@[i] == sent[i]);
                        }
                    }
                    assert forall|i: int| 0 <= i < dispatches@.len() implies ready.dom().contains(
                        (#[trigger] dispatches@[i]).endpoint@,
                    ) && dispatches@[i].messages_view() == envelopes(
                        type_table@,
                        ready[dispatches@[i].endpoint@],
                    ) by {
                        if i < sent.len() {
                            assert(dispatches@[i] == sent[i]);
                        }
                    }
                }
            },
        }
    }
    proof {
        assert forall|e: EndpointView| #[trigger] ready.dom().contains(e) implies exists|i: int|
            0 <= i < dispatches@.len() && (#[trigger] dispatches@[i]).endpoint@ == e by {
            assert(!hub@.ready.dom().contains(e));
        }
    }
    dispatches
}

} // verus!
