use candid::{decode_one, encode_one};
use ic_event_hub::field::EventField;
use ic_event_hub::topics::TopicSet;
use ic_event_hub::types::{Event, EventFilter, IEvent, IEventFilter, EVENT_NAME_FIELD};
use std::collections::HashMap;

fn fields_by_name(topics: &TopicSet, values: Vec<EventField>) -> HashMap<String, Vec<u8>> {
    let mut fields: HashMap<String, Vec<u8>> = HashMap::new();
    let mut i = 0;
    while i < topics.len() {
        let topic = topics.get(i);
        if topic.name != EVENT_NAME_FIELD {
            fields.insert(topic.name.clone(), topic.value.clone());
        }
        i += 1;
    }
    for field in values.into_iter() {
        fields.insert(field.name, field.value);
    }
    fields
}

#[derive(Debug, PartialEq, Eq)]
struct TestEvent {
    pub a: u8,
    pub b: String,
}

impl IEvent for TestEvent {
    fn to_event(&self) -> Event {
        let mut res = TopicSet::new();
        res.insert(EventField {
            name: String::from(EVENT_NAME_FIELD),
            value: encode_one("TestEvent").unwrap(),
        });
        res.insert(EventField {
            name: String::from("b"),
            value: encode_one(&self.b).unwrap(),
        });

        Event {
            topics: res,
            values: vec![EventField {
                name: String::from("a"),
                value: encode_one(&self.a).unwrap(),
            }],
        }
    }

    fn from_event(event: Event) -> Self {
        let fields = fields_by_name(&event.topics, event.values);

        Self {
            b: decode_one(fields.get("b").unwrap()).unwrap(),
            a: decode_one(fields.get("a").unwrap()).unwrap(),
        }
    }
}

#[derive(Debug, PartialEq, Eq)]
struct TestEventFilter {
    pub b: String,
}

impl IEventFilter for TestEventFilter {
    fn to_event_filter(&self) -> EventFilter {
        let mut res = TopicSet::new();
        res.insert(EventField {
            name: String::from(EVENT_NAME_FIELD),
            value: encode_one("TestEvent").unwrap(),
        });
        res.insert(EventField {
            name: String::from("b"),
            value: encode_one(&self.b).unwrap(),
        });

        EventFilter(res)
    }

    fn from_event_filter(filter: EventFilter) -> Self {
        let fields = fields_by_name(&filter.0, vec![]);

        Self {
            b: decode_one(fields.get("b").unwrap()).unwrap(),
        }
    }
}

#[test]
fn events_serialization_works_fine() {
    let event = TestEvent {
        a: 10,
        b: String::from("kek"),
    };

    let event_ser = event.to_event();
    let event_de = TestEvent::from_event(event_ser);

    assert_eq!(event, event_de);
}

#[test]
fn event_filters_serialization_works_fine() {
    let filter = TestEventFilter {
        b: String::from("kek"),
    };

    let filter_ser = filter.to_event_filter();
    let filter_de = TestEventFilter::from_event_filter(filter_ser);

    assert_eq!(filter, filter_de);
}

#[test]
fn filter_of_an_event_type_matches_the_events_of_that_type() {
    let event = TestEvent {
        a: 1,
        b: String::from("x"),
    }
    .to_event();
    let same = TestEventFilter {
        b: String::from("x"),
    }
    .to_event_filter();
    let other = TestEventFilter {
        b: String::from("y"),
    }
    .to_event_filter();

    assert!(same.matches(&event.topics));
    assert!(!other.matches(&event.topics));

    let mut only_name = TopicSet::new();
    only_name.insert(EventField {
        name: String::from(EVENT_NAME_FIELD),
        value: encode_one("TestEvent").unwrap(),
    });
    assert!(EventFilter(only_name).matches(&event.topics));
    assert!(EventFilter::empty().matches(&event.topics));
}
