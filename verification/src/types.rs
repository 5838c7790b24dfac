//! Events, filters, batches and the requests of the subscription surface.

use vstd::prelude::*;
use crate::endpoint::RemoteCallEndpoint;
use crate::field::{EventField, FieldView};
use crate::order::{compare_text, lemma_text_order_equal, Order};
use crate::topics::TopicSet;

verus! {

/// The name of the topic field that carries the encoded name of an event's type.
pub const EVENT_NAME_FIELD: &'static str = "__event_name";

/// Copies a list of fields.
pub fn clone_fields(fields: &Vec<EventField>) -> (r: Vec<EventField>)
    ensures
        r@.map_values(|f: EventField| f@) == fields@.map_values(|f: EventField| f@),
{
    let mut r: Vec<EventField> = Vec::new();
    let mut i: usize = 0;
    while i < fields.len()
        invariant
            i <= fields.len(),
            r@.len() == i,
            forall|k: int| 0 <= k < i ==> r@[k]@ == fields@[k]@,
        decreases fields.len() - i,
    {
        r.push(fields[i].clone());
        i += 1;
    }
    assert(r@.map_values(|f: EventField| f@) =~= fields@.map_values(|f: EventField| f@));
    r
}

/// An emitted event: the topics by which listeners are matched, and the values
/// that are only carried along.
#[derive(Debug)]
pub struct Event {
    pub topics: TopicSet,
    pub values: Vec<EventField>,
}

impl Event {
    /// The values in their order.
    pub open spec fn values_view(&self) -> Seq<FieldView> {
        self.values@.map_values(|f: EventField| f@)
    }
}

/// The position of the first of `entries` that is named `name`, if there is one.
pub open spec fn first_named(entries: Seq<FieldView>, name: Seq<char>) -> Option<int> {
    if exists|i: int| 0 <= i < entries.len() && (#[trigger] entries[i]).0 == name {
        Some(
            choose|i: int|
                0 <= i < entries.len() && (#[trigger] entries[i]).0 == name && forall|k: int|
                    0 <= k < i ==> (#[trigger] entries[k]).0 != name,
        )
    } else {
        None
    }
}

/// Exactly one of `entries` is named `name`.
pub open spec fn named_once(entries: Seq<FieldView>, name: Seq<char>) -> bool {
    exists|i: int|
        0 <= i < entries.len() && (#[trigger] entries[i]).0 == name && forall|j: int|
            0 <= j < entries.len() && (#[trigger] entries[j]).0 == name ==> j == i
}

/// The text that `candid::decode_one` reads from `bytes` as a `String`, where
/// it reads one.
pub uninterp spec fn decoded_text(bytes: Seq<u8>) -> Option<Seq<char>>;

/// `candid::Error`: the failure of a decoding, as the decoder reports it.
/// Nothing is read from it.
#[verifier::external_type_specification]
#[verifier::external_body]
pub struct ExCandidError(candid::Error);

/// Calls `candid::decode_one` for a `String` on `bytes`. Where the decoder
/// reads a text, it is the text that these bytes stand for, named
/// [`decoded_text`]. Nothing is said of a failure: the decoder also gives up
/// where the stack runs short, whatever the bytes are.
#[verifier::external_body]
fn decode_text(bytes: &[u8]) -> (r: Result<String, candid::Error>)
    ensures
        r.is_ok() ==> decoded_text(bytes@) == Some(r.unwrap()@),
{
    candid::decode_one::<String>(bytes)
}

/// Why an event has no name that can be read.
#[derive(Clone, Copy, Debug, PartialEq, Eq, Structural)]
pub enum EventNameError {
    /// No topic of the event is named [`EVENT_NAME_FIELD`].
    Missing,
    /// The value of that topic was not decoded to a text.
    Undecodable,
}

/// What the decoding of the value of a name topic gives for the name of the
/// event: the text that was read, or that none could be.
pub fn name_from_decoding(decoded: Result<String, candid::Error>) -> (r: Result<
    String,
    EventNameError,
>)
    ensures
        match decoded {
            Ok(name) => r == Ok::<String, EventNameError>(name),
            Err(_) => r == Err::<String, EventNameError>(EventNameError::Undecodable),
        },
{
    match decoded {
        Ok(name) => Ok(name),
        Err(_) => Err(EventNameError::Undecodable),
    }
}

impl Event {
    /// The topics of the event hold exactly one field named [`EVENT_NAME_FIELD`].
    pub open spec fn well_named(&self) -> bool {
        named_once(self.topics.entries(), EVENT_NAME_FIELD@)
    }

    /// Whether the topics of the event hold exactly one field named
    /// [`EVENT_NAME_FIELD`].
    pub fn has_one_name(&self) -> (r: bool)
        ensures
            r == self.well_named(),
    {
        let ghost entries = self.topics.entries();
        let mut found: Option<usize> = None;
        let mut i: usize = 0;
        while i < self.topics.len()
            invariant
                entries == self.topics.entries(),
                i <= entries.len(),
                found.is_none() ==> forall|k: int|
                    0 <= k < i ==> (#[trigger] entries[k]).0 != EVENT_NAME_FIELD@,
                found.is_some() ==> found.unwrap() < i && entries[found.unwrap() as int].0
                    == EVENT_NAME_FIELD@ && forall|k: int|
                    0 <= k < i && (#[trigger] entries[k]).0 == EVENT_NAME_FIELD@ ==> k
                        == found.unwrap(),
            decreases entries.len() - i,
        {
            let field = self.topics.get(i);
            proof {
                lemma_text_order_equal(field.name@, EVENT_NAME_FIELD@);
            }
            if let Order::Equal = compare_text(field.name.as_str(), EVENT_NAME_FIELD) {
                if found.is_some() {
                    proof {
                        let first = found.unwrap() as int;
                        assert(entries[first].0 == EVENT_NAME_FIELD@);
                        assert(entries[i as int].0 == EVENT_NAME_FIELD@);
                    }
                    return false;
                }
                found = Some(i);
            }
            i += 1;
        }
        proof {
            if found.is_some() {
                let first = found.unwrap() as int;
                assert(0 <= first < entries.len() && entries[first].0 == EVENT_NAME_FIELD@);
            }
        }
        found.is_some()
    }

    /// The first topic that is named [`EVENT_NAME_FIELD`], if there is one.
    pub fn name_field(&self) -> (r: Option<&EventField>)
        ensures
            r.is_some() == first_named(self.topics.entries(), EVENT_NAME_FIELD@).is_some(),
            r.is_some() ==> r.unwrap()@ == self.topics.entries()[first_named(
                self.topics.entries(),
                EVENT_NAME_FIELD@,
            ).unwrap()],
    {
        let ghost entries = self.topics.entries();
        let mut i: usize = 0;
        while i < self.topics.len()
            invariant
                entries == self.topics.entries(),
                i <= entries.len(),
                forall|k: int| 0 <= k < i ==> (#[trigger] entries[k]).0 != EVENT_NAME_FIELD@,
            decreases entries.len() - i,
        {
            let field = self.topics.get(i);
            proof {
                lemma_text_order_equal(field.name@, EVENT_NAME_FIELD@);
            }
            if let Order::Equal = compare_text(field.name.as_str(), EVENT_NAME_FIELD) {
                proof {
                    let j = first_named(entries, EVENT_NAME_FIELD@).unwrap();
                    assert(entries[i as int].0 == EVENT_NAME_FIELD@);
                    if j < i {
                        assert(entries[j].0 != EVENT_NAME_FIELD@);
                    } else if i < j {
                        assert(entries[i as int].0 != EVENT_NAME_FIELD@);
                    }
                }
                return Some(field);
            }
            i += 1;
        }
        None
    }

    /// The name of the type of the event: the text that the value of the first
    /// topic named [`EVENT_NAME_FIELD`] is decoded to. An event without such a
    /// topic has no name; one whose value was not decoded has none that can
    /// be read.
    pub fn get_name(&self) -> (r: Result<String, EventNameError>)
        ensures
            r == Err::<String, EventNameError>(EventNameError::Missing) <==> first_named(
                self.topics.entries(),
                EVENT_NAME_FIELD@,
            ).is_none(),
            r.is_ok() ==> decoded_text(
                self.topics.entries()[first_named(
                    self.topics.entries(),
                    EVENT_NAME_FIELD@,
                ).unwrap()].1,
            ) == Some(r.unwrap()@),
            r.is_err() && first_named(self.topics.entries(), EVENT_NAME_FIELD@).is_some() ==> r
                == Err::<String, EventNameError>(EventNameError::Undecodable),
    {
        match self.name_field() {
            None => Err(EventNameError::Missing),
            Some(encoded_name) => name_from_decoding(decode_text(encoded_name.value.as_slice())),
        }
    }
}

impl Clone for Event {
    fn clone(&self) -> (r: Self)
        ensures
            r.topics@ == self.topics@,
            r.topics.entries() == self.topics.entries(),
            r.values_view() == self.values_view(),
    {
        Event { topics: self.topics.clone(), values: clone_fields(&self.values) }
    }
}

/// A type of event that can be turned into an [`Event`] and read back from one.
pub trait IEvent: Sized {
    fn to_event(&self) -> Event;

    fn from_event(event: Event) -> Self;
}

/// The topics that a listener is interested in.
#[derive(Debug, PartialEq, Eq, PartialOrd, Ord, Hash)]
pub struct EventFilter(pub TopicSet);

impl View for EventFilter {
    type V = Set<FieldView>;

    open spec fn view(&self) -> Set<FieldView> {
        self.0@
    }
}

impl EventFilter {
    /// The filter without topics, which every event matches.
    pub fn empty() -> (r: EventFilter)
        ensures
            r@ == Set::<FieldView>::empty(),
    {
        EventFilter(TopicSet::new())
    }

    /// Whether an event with these topics matches the filter: whether each topic
    /// of the filter is among them.
    pub fn matches(&self, topics: &TopicSet) -> (r: bool)
        ensures
            r == self@.subset_of(topics@),
    {
        self.0.is_subset(topics)
    }
}

impl Clone for EventFilter {
    fn clone(&self) -> (r: Self)
        ensures
            r@ == self@,
    {
        EventFilter(self.0.clone())
    }
}

/// A type of filter that can be turned into an [`EventFilter`] and read back from one.
pub trait IEventFilter: Sized {
    fn to_event_filter(&self) -> EventFilter;

    fn from_event_filter(filter: EventFilter) -> Self;
}

/// A filter and the method of the caller that matching events are sent to.
#[derive(Debug)]
pub struct CallbackInfo {
    pub filter: EventFilter,
    pub method_name: String,
}

/// A filter and the endpoint that matching events are sent to.
#[derive(Debug)]
pub struct CallbackInfoExt {
    pub filter: EventFilter,
    pub endpoint: RemoteCallEndpoint,
}

/// Why an event was not accepted.
#[derive(Clone, Copy, Debug, PartialEq, Eq, Structural)]
pub enum EventHubError {
    /// No filter of the hub matches the event.
    EventHasNoActiveListeners,
    /// The encoded event does not fit into a batch.
    EventIsTooBig,
}

/// Why a listener was not removed.
#[derive(Clone, Copy, Debug, PartialEq, Eq, Structural)]
pub enum ListenerError {
    /// The hub has no such filter.
    UnknownFilter,
    /// The filter has no such listener.
    UnknownEndpoint,
}

/// The diagnostic text of a [`ListenerError`].
pub open spec fn message_text(error: ListenerError) -> Seq<char> {
    match error {
        ListenerError::UnknownFilter => "No such filter"@,
        ListenerError::UnknownEndpoint => "No such listener in that filter"@,
    }
}

impl ListenerError {
    /// The diagnostic text of the error.
    pub fn message(&self) -> (r: String)
        ensures
            r@ == message_text(*self),
    {
        match self {
            ListenerError::UnknownFilter => "No such filter".to_owned(),
            ListenerError::UnknownEndpoint => "No such listener in that filter".to_owned(),
        }
    }
}

/// What an [`EncodedEventBatch`] stands for.
pub struct BatchView {
    pub content: Seq<u8>,
    pub events_count: u64,
    pub timestamp: u64,
}

/// The encoded events for one endpoint, one after the other, with their number
/// and the time at which the batch was opened.
#[derive(Debug, PartialEq, Eq)]
pub struct EncodedEventBatch {
    pub content: Vec<u8>,
    pub events_count: u64,
    pub timestamp: u64,
}

impl View for EncodedEventBatch {
    type V = BatchView;

    open spec fn view(&self) -> BatchView {
        BatchView {
            content: self.content@,
            events_count: self.events_count,
            timestamp: self.timestamp,
        }
    }
}

impl EncodedEventBatch {
    /// A batch of the one event `content`, opened at `timestamp`.
    pub fn new(content: &[u8], timestamp: u64) -> (r: EncodedEventBatch)
        ensures
            r@ == (BatchView { content: content@, events_count: 1, timestamp }),
    {
        let mut bytes: Vec<u8> = Vec::new();
        bytes.extend_from_slice(content);
        assert(bytes@ =~= content@);
        EncodedEventBatch { content: bytes, events_count: 1, timestamp }
    }

    /// Appends the event `content` to the batch.
    pub fn add_event(&mut self, content: &[u8])
        requires
            old(self).events_count < u64::MAX,
            old(self).content@.len() + content@.len() <= usize::MAX,
        ensures
            final(self)@ == (BatchView {
                content: old(self).content@ + content@,
                events_count: (old(self).events_count + 1) as u64,
                timestamp: old(self).timestamp,
            }),
    {
        self.content.extend_from_slice(content);
        assert(self.content@ =~= old(self).content@ + content@);
        self.events_count += 1;
    }
}

/// The filters and callbacks of a request to subscribe or to unsubscribe.
#[derive(Debug)]
pub struct SubscribeRequest {
    pub callbacks: Vec<CallbackInfo>,
}

/// A request to unsubscribe has the shape of one to subscribe.
pub type UnsubscribeRequest = SubscribeRequest;

/// The filters whose subscribers are asked for.
#[derive(Debug)]
pub struct GetSubscribersRequest {
    pub filters: Vec<EventFilter>,
}

/// For each filter of the request, in its order, the endpoints that it matched.
#[derive(Debug)]
pub struct GetSubscribersResponse {
    pub subscribers: Vec<Vec<RemoteCallEndpoint>>,
}

} // verus!
