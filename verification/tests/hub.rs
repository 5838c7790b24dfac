use ic_event_hub::endpoint::{compare_endpoints, Principal, RemoteCallEndpoint};
use ic_event_hub::order::Order;
use ic_event_hub::event_hub::EventHub;
use ic_event_hub::field::EventField;
use ic_event_hub::fns::{
    add_event_listeners_impl, become_event_listener_impl, callbacks_of,
    get_event_listeners_impl,
    pair_callbacks, remove_event_listeners_impl, send_events_impl, stop_being_event_listener_impl,
    Dispatch, PairingError,
    RemovalFailure,
};
use ic_event_hub::topics::TopicSet;
use ic_event_hub::types::{
    CallbackInfo, CallbackInfoExt, Event, EventFilter, EventHubError, GetSubscribersRequest,
    ListenerError, SubscribeRequest,
};

const SECOND: u64 = 1_000_000_000;
const MILLISECOND: u64 = 1_000_000;

fn principal(tag: u8) -> Principal {
    Principal::from_slice(&[tag; 29])
}

fn endpoint(tag: u8, method: &str) -> RemoteCallEndpoint {
    RemoteCallEndpoint {
        canister_id: principal(tag),
        method_name: String::from(method),
    }
}

fn field(name: &str, value: &[u8]) -> EventField {
    EventField {
        name: String::from(name),
        value: value.to_vec(),
    }
}

fn filter(fields: Vec<EventField>) -> EventFilter {
    EventFilter(TopicSet::from_vec(fields))
}

fn event(fields: Vec<EventField>) -> Event {
    Event {
        topics: TopicSet::from_vec(fields),
        values: vec![],
    }
}

fn f1() -> EventField {
    field("1", &[1])
}

fn f2() -> EventField {
    field("2", &[2])
}

fn f3() -> EventField {
    field("3", &[3])
}

fn hub() -> EventHub {
    EventHub::new(SECOND, 1024)
}

fn sorted(mut endpoints: Vec<RemoteCallEndpoint>) -> Vec<RemoteCallEndpoint> {
    endpoints.sort_by(|a, b| match compare_endpoints(a, b) {
        Order::Less => std::cmp::Ordering::Less,
        Order::Equal => std::cmp::Ordering::Equal,
        Order::Greater => std::cmp::Ordering::Greater,
    });
    endpoints
}

fn message(type_table: &[u8], count: u8, content: &[u8]) -> Vec<u8> {
    let mut bytes = b"DIDL".to_vec();
    bytes.extend_from_slice(type_table);
    bytes.push(count);
    bytes.extend_from_slice(content);
    bytes
}

fn total_messages(dispatches: &[Dispatch]) -> usize {
    dispatches.iter().map(|d| d.messages.len()).sum()
}

#[test]
fn subset_matching() {
    let mut hub = hub();
    hub.add_event_listener(filter(vec![f1()]), String::from("m1"), principal(1));
    hub.add_event_listener(filter(vec![f2()]), String::from("m2"), principal(2));
    hub.add_event_listener(filter(vec![f1(), f2(), f3()]), String::from("m3"), principal(3));

    let matched = hub.match_event_listeners_by_topics(&TopicSet::from_vec(vec![f1(), f2()]));
    assert_eq!(sorted(matched), vec![endpoint(1, "m1"), endpoint(2, "m2")]);

    let matched = hub.match_event_listeners_by_topics(&TopicSet::from_vec(vec![f1(), f2(), f3()]));
    assert_eq!(
        sorted(matched),
        vec![endpoint(1, "m1"), endpoint(2, "m2"), endpoint(3, "m3")]
    );
}

#[test]
fn endpoint_under_two_matching_filters_is_matched_once() {
    let mut hub = hub();
    hub.add_event_listener(filter(vec![f1()]), String::from("m"), principal(1));
    hub.add_event_listener(filter(vec![f2()]), String::from("m"), principal(1));

    let matched = hub.match_event_listeners_by_topics(&TopicSet::from_vec(vec![f1(), f2()]));
    assert_eq!(matched, vec![endpoint(1, "m")]);
}

#[test]
fn empty_filter_matches_every_event() {
    let mut hub = hub();
    hub.add_event_listener(EventFilter::empty(), String::from("all"), principal(7));

    assert_eq!(
        hub.match_event_listeners_by_topics(&TopicSet::new()),
        vec![endpoint(7, "all")]
    );
    assert_eq!(
        hub.match_event_listeners_by_topics(&TopicSet::from_vec(vec![f1(), f3()])),
        vec![endpoint(7, "all")]
    );
}

#[test]
fn event_of_one_topic_matches_only_filters_within_it() {
    let mut hub = hub();
    hub.add_event_listener(filter(vec![f1()]), String::from("one"), principal(1));
    hub.add_event_listener(filter(vec![f1(), f2()]), String::from("two"), principal(2));
    hub.add_event_listener(EventFilter::empty(), String::from("none"), principal(3));

    let matched = hub.match_event_listeners_by_topics(&TopicSet::from_vec(vec![f1()]));
    assert_eq!(sorted(matched), vec![endpoint(1, "one"), endpoint(3, "none")]);
}

#[test]
fn idempotent_subscribe() {
    let mut hub = hub();
    let request = SubscribeRequest {
        callbacks: vec![
            CallbackInfo {
                filter: filter(vec![f1()]),
                method_name: String::from("m"),
            },
            CallbackInfo {
                filter: filter(vec![f1()]),
                method_name: String::from("m"),
            },
        ],
    };
    become_event_listener_impl(request, principal(1), &mut hub);

    let response = get_event_listeners_impl(
        GetSubscribersRequest {
            filters: vec![filter(vec![f1()])],
        },
        &hub,
    );
    assert_eq!(response.subscribers, vec![vec![endpoint(1, "m")]]);
}

#[test]
fn subscribers_are_answered_by_position() {
    let mut hub = hub();
    add_event_listeners_impl(
        vec![
            CallbackInfoExt {
                filter: filter(vec![f1()]),
                endpoint: endpoint(1, "a"),
            },
            CallbackInfoExt {
                filter: filter(vec![f2()]),
                endpoint: endpoint(2, "b"),
            },
        ],
        &mut hub,
    );

    let response = get_event_listeners_impl(
        GetSubscribersRequest {
            filters: vec![filter(vec![f2()]), filter(vec![f3()]), filter(vec![f1()])],
        },
        &hub,
    );
    assert_eq!(
        response.subscribers,
        vec![vec![endpoint(2, "b")], vec![], vec![endpoint(1, "a")]]
    );
}

#[test]
fn remove_unknown() {
    let mut hub = hub();
    let f = filter(vec![f1()]);
    let g = filter(vec![f2()]);
    hub.add_event_listener(f.clone(), String::from("m"), principal(1));

    assert_eq!(
        hub.remove_event_listener(&g, String::from("m"), principal(1)),
        Err(ListenerError::UnknownFilter)
    );
    assert_eq!(
        hub.remove_event_listener(&f, String::from("m"), principal(2)),
        Err(ListenerError::UnknownEndpoint)
    );
    assert_eq!(
        hub.remove_event_listener(&f, String::from("other"), principal(1)),
        Err(ListenerError::UnknownEndpoint)
    );
    assert_eq!(hub.match_event_listeners(&f), vec![endpoint(1, "m")]);

    assert_eq!(
        hub.remove_event_listener(&f, String::from("m"), principal(1)),
        Ok(())
    );
    assert!(hub.match_event_listeners(&f).is_empty());
}

#[test]
fn filter_without_listeners_leaves_the_index() {
    let mut hub = hub();
    let f = filter(vec![f1()]);
    hub.add_event_listener(f.clone(), String::from("m"), principal(1));
    hub.add_event_listener(f.clone(), String::from("n"), principal(1));

    assert_eq!(
        hub.remove_event_listener(&f, String::from("m"), principal(1)),
        Ok(())
    );
    assert_eq!(
        hub.remove_event_listener(&f, String::from("m"), principal(1)),
        Err(ListenerError::UnknownEndpoint)
    );
    assert_eq!(
        hub.remove_event_listener(&f, String::from("n"), principal(1)),
        Ok(())
    );
    assert_eq!(
        hub.remove_event_listener(&f, String::from("n"), principal(1)),
        Err(ListenerError::UnknownFilter)
    );
}

#[test]
fn subscribe_then_unsubscribe_restores_the_index() {
    let mut hub = hub();
    let f = filter(vec![f1()]);
    hub.add_event_listener(f.clone(), String::from("kept"), principal(1));

    hub.add_event_listener(f.clone(), String::from("m"), principal(2));
    assert_eq!(
        hub.remove_event_listener(&f, String::from("m"), principal(2)),
        Ok(())
    );
    assert_eq!(hub.match_event_listeners(&f), vec![endpoint(1, "kept")]);

    let g = filter(vec![f2()]);
    hub.add_event_listener(g.clone(), String::from("m"), principal(2));
    assert_eq!(
        hub.remove_event_listener(&g, String::from("m"), principal(2)),
        Ok(())
    );
    assert_eq!(
        hub.remove_event_listener(&g, String::from("m"), principal(2)),
        Err(ListenerError::UnknownFilter)
    );
}

#[test]
fn unsubscribe_stops_at_the_first_failure_and_keeps_what_was_removed() {
    let mut hub = hub();
    hub.add_event_listener(filter(vec![f1()]), String::from("a"), principal(1));
    hub.add_event_listener(filter(vec![f3()]), String::from("c"), principal(1));

    let request = SubscribeRequest {
        callbacks: vec![
            CallbackInfo {
                filter: filter(vec![f1()]),
                method_name: String::from("a"),
            },
            CallbackInfo {
                filter: filter(vec![f2()]),
                method_name: String::from("b"),
            },
            CallbackInfo {
                filter: filter(vec![f3()]),
                method_name: String::from("c"),
            },
        ],
    };
    let failure = stop_being_event_listener_impl(request, principal(1), &mut hub).unwrap_err();
    assert_eq!(
        failure,
        RemovalFailure {
            index: 1,
            error: ListenerError::UnknownFilter
        }
    );
    assert_eq!(
        failure.message(),
        "Unable to remove listener #1 - No such filter"
    );
    assert!(hub.match_event_listeners(&filter(vec![f1()])).is_empty());
    assert_eq!(
        hub.match_event_listeners(&filter(vec![f3()])),
        vec![endpoint(1, "c")]
    );
}

#[test]
fn unsubscribe_with_endpoints_reports_an_unknown_endpoint() {
    let mut hub = hub();
    hub.add_event_listener(filter(vec![f1()]), String::from("a"), principal(1));

    let failure = remove_event_listeners_impl(
        vec![CallbackInfoExt {
            filter: filter(vec![f1()]),
            endpoint: endpoint(2, "a"),
        }],
        &mut hub,
    )
    .unwrap_err();
    assert_eq!(failure.index, 0);
    assert_eq!(failure.error, ListenerError::UnknownEndpoint);
    assert_eq!(
        failure.message(),
        "Unable to remove listener #0 - No such listener in that filter"
    );

    assert_eq!(
        remove_event_listeners_impl(
            vec![CallbackInfoExt {
                filter: filter(vec![f1()]),
                endpoint: endpoint(1, "a"),
            }],
            &mut hub,
        ),
        Ok(())
    );
    assert!(hub.match_event_listeners(&filter(vec![f1()])).is_empty());
}

#[test]
fn batching_by_size() {
    let mut hub = hub();
    hub.add_event_listener(filter(vec![f1()]), String::from("m"), principal(1));

    let mut expected: Vec<Vec<u8>> = vec![vec![], vec![], vec![]];
    for i in 0..12u8 {
        let encoded = vec![i; 200];
        expected[(i / 5) as usize].extend_from_slice(&encoded);
        assert_eq!(
            hub.push_pending_event(&event(vec![f1()]), &encoded, i as u64),
            Ok(())
        );
    }

    let dispatches = send_events_impl(&mut hub, &[0xaa], 11);
    assert_eq!(dispatches.len(), 1);
    assert_eq!(dispatches[0].endpoint, endpoint(1, "m"));
    assert_eq!(
        dispatches[0].messages,
        vec![
            message(&[0xaa], 5, &expected[0]),
            message(&[0xaa], 5, &expected[1])
        ]
    );

    let dispatches = send_events_impl(&mut hub, &[0xaa], 10 + SECOND);
    assert_eq!(dispatches.len(), 1);
    assert_eq!(
        dispatches[0].messages,
        vec![message(&[0xaa], 2, &expected[2])]
    );

    assert!(send_events_impl(&mut hub, &[0xaa], 100 * SECOND).is_empty());
}

#[test]
fn batching_by_size_dispatches_three_calls() {
    let mut hub = hub();
    hub.add_event_listener(filter(vec![f1()]), String::from("m"), principal(1));
    for _ in 0..12 {
        assert_eq!(
            hub.push_pending_event(&event(vec![f1()]), &[7; 200], 0),
            Ok(())
        );
    }

    let dispatches = send_events_impl(&mut hub, &[], SECOND);
    assert_eq!(dispatches.len(), 1);
    let counts: Vec<u8> = dispatches[0].messages.iter().map(|m| m[4]).collect();
    assert_eq!(counts, vec![5, 5, 2]);
    let sizes: Vec<usize> = dispatches[0].messages.iter().map(|m| m.len() - 5).collect();
    assert_eq!(sizes, vec![1000, 1000, 400]);
}

#[test]
fn batching_by_time() {
    let mut hub = hub();
    hub.add_event_listener(filter(vec![f1()]), String::from("m"), principal(1));
    assert_eq!(
        hub.push_pending_event(&event(vec![f1()]), &[3; 100], 0),
        Ok(())
    );

    assert!(send_events_impl(&mut hub, &[1], 999 * MILLISECOND).is_empty());

    let dispatches = send_events_impl(&mut hub, &[1], 1001 * MILLISECOND);
    assert_eq!(total_messages(&dispatches), 1);
    assert_eq!(dispatches[0].endpoint, endpoint(1, "m"));
    assert_eq!(dispatches[0].messages, vec![message(&[1], 1, &[3; 100])]);

    assert!(send_events_impl(&mut hub, &[1], 2000 * MILLISECOND).is_empty());
}

#[test]
fn batch_is_sealed_exactly_when_its_age_is_reached() {
    let mut hub = hub();
    hub.add_event_listener(filter(vec![f1()]), String::from("m"), principal(1));
    assert_eq!(hub.push_pending_event(&event(vec![f1()]), &[3; 10], 5), Ok(()));

    hub.transform_pending_to_ready_by_time(SECOND + 4);
    assert!(hub.pop_pending_events().is_none());

    hub.transform_pending_to_ready_by_time(SECOND + 5);
    let (to, batches) = hub.pop_pending_events().unwrap();
    assert_eq!(to, endpoint(1, "m"));
    assert_eq!(batches.len(), 1);
    assert_eq!(batches[0].content, vec![3; 10]);
    assert_eq!(batches[0].events_count, 1);
    assert_eq!(batches[0].timestamp, 5);
    assert!(hub.pop_pending_events().is_none());
}

#[test]
fn deadline_beyond_the_clock_never_passes() {
    let mut hub = EventHub::new(u64::MAX, 1024);
    hub.add_event_listener(filter(vec![f1()]), String::from("m"), principal(1));
    assert_eq!(hub.push_pending_event(&event(vec![f1()]), &[3; 10], 1), Ok(()));

    assert!(send_events_impl(&mut hub, &[], u64::MAX).is_empty());
}

#[test]
fn no_listeners() {
    let mut hub = hub();
    hub.add_event_listener(filter(vec![f1(), f2()]), String::from("m"), principal(1));

    assert_eq!(
        hub.push_pending_event(&event(vec![f1()]), &[3; 100], 0),
        Err(EventHubError::EventHasNoActiveListeners)
    );
    assert!(send_events_impl(&mut hub, &[], 10 * SECOND).is_empty());
    assert_eq!(
        hub.match_event_listeners(&filter(vec![f1(), f2()])),
        vec![endpoint(1, "m")]
    );
}

#[test]
fn event_without_listeners_is_refused_before_its_size_is_looked_at() {
    let mut hub = hub();
    assert_eq!(
        hub.push_pending_event(&event(vec![f1()]), &[0; 5000], 0),
        Err(EventHubError::EventHasNoActiveListeners)
    );
}

#[test]
fn event_as_large_as_a_batch_is_too_big() {
    let mut hub = hub();
    hub.add_event_listener(filter(vec![f1()]), String::from("m"), principal(1));

    assert_eq!(
        hub.push_pending_event(&event(vec![f1()]), &[0; 1024], 0),
        Err(EventHubError::EventIsTooBig)
    );
    assert_eq!(
        hub.push_pending_event(&event(vec![f1()]), &[0; 1025], 0),
        Err(EventHubError::EventIsTooBig)
    );
    assert!(send_events_impl(&mut hub, &[], 10 * SECOND).is_empty());
}

#[test]
fn hub_without_room_refuses_every_event() {
    let mut hub = EventHub::new(0, 0);
    hub.add_event_listener(EventFilter::empty(), String::from("m"), principal(1));
    assert_eq!(
        hub.push_pending_event(&event(vec![]), &[], 0),
        Err(EventHubError::EventIsTooBig)
    );
}

#[test]
fn event_one_byte_below_the_limit_is_accepted_and_the_next_seals() {
    let mut hub = hub();
    hub.add_event_listener(filter(vec![f1()]), String::from("m"), principal(1));

    assert_eq!(
        hub.push_pending_event(&event(vec![f1()]), &[1; 1023], 0),
        Ok(())
    );
    assert!(hub.pop_pending_events().is_none());

    assert_eq!(
        hub.push_pending_event(&event(vec![f1()]), &[2; 2], 1),
        Ok(())
    );
    let (to, batches) = hub.pop_pending_events().unwrap();
    assert_eq!(to, endpoint(1, "m"));
    assert_eq!(batches.len(), 1);
    assert_eq!(batches[0].content, vec![1; 1023]);
    assert_eq!(batches[0].events_count, 1);

    let dispatches = send_events_impl(&mut hub, &[], 1 + SECOND);
    assert_eq!(dispatches[0].messages, vec![message(&[], 1, &[2; 2])]);
}

#[test]
fn event_that_fills_a_batch_to_the_limit_is_added_to_it() {
    let mut hub = hub();
    hub.add_event_listener(filter(vec![f1()]), String::from("m"), principal(1));

    assert_eq!(
        hub.push_pending_event(&event(vec![f1()]), &[1; 1023], 0),
        Ok(())
    );
    assert_eq!(
        hub.push_pending_event(&event(vec![f1()]), &[2; 1], 1),
        Ok(())
    );
    assert!(hub.pop_pending_events().is_none());

    hub.transform_pending_to_ready_by_time(SECOND);
    let (_, batches) = hub.pop_pending_events().unwrap();
    assert_eq!(batches.len(), 1);
    assert_eq!(batches[0].content.len(), 1024);
    assert_eq!(batches[0].events_count, 2);
    assert_eq!(batches[0].timestamp, 0);
}

#[test]
fn batch_that_was_sealed_by_size_is_not_sealed_again_by_its_old_deadline() {
    let mut hub = hub();
    hub.add_event_listener(filter(vec![f1()]), String::from("m"), principal(1));

    assert_eq!(hub.push_pending_event(&event(vec![f1()]), &[1; 600], 0), Ok(()));
    assert_eq!(
        hub.push_pending_event(&event(vec![f1()]), &[2; 600], 500 * MILLISECOND),
        Ok(())
    );

    let dispatches = send_events_impl(&mut hub, &[], SECOND);
    assert_eq!(dispatches.len(), 1);
    assert_eq!(dispatches[0].messages, vec![message(&[], 1, &[1; 600])]);

    assert!(send_events_impl(&mut hub, &[], 1499 * MILLISECOND).is_empty());

    let dispatches = send_events_impl(&mut hub, &[], 1500 * MILLISECOND);
    assert_eq!(dispatches[0].messages, vec![message(&[], 1, &[2; 600])]);
}

#[test]
fn greatest_endpoint_is_dispatched_first() {
    let mut hub = hub();
    hub.add_event_listener(filter(vec![f1()]), String::from("b"), principal(1));
    hub.add_event_listener(filter(vec![f1()]), String::from("a"), principal(2));
    hub.add_event_listener(filter(vec![f1()]), String::from("a"), principal(1));
    hub.add_event_listener(
        filter(vec![f1()]),
        String::from("z"),
        Principal::from_slice(&[9; 3]),
    );

    assert_eq!(hub.push_pending_event(&event(vec![f1()]), &[5; 8], 0), Ok(()));

    let dispatches = send_events_impl(&mut hub, &[], SECOND);
    let order: Vec<RemoteCallEndpoint> = dispatches.into_iter().map(|d| d.endpoint).collect();
    assert_eq!(
        order,
        vec![
            endpoint(2, "a"),
            endpoint(1, "b"),
            endpoint(1, "a"),
            RemoteCallEndpoint {
                canister_id: Principal::from_slice(&[9; 3]),
                method_name: String::from("z"),
            },
        ]
    );
}

#[test]
fn every_accepted_event_is_delivered_once_to_each_listener() {
    let mut hub = hub();
    hub.add_event_listener(filter(vec![f1()]), String::from("one"), principal(1));
    hub.add_event_listener(filter(vec![f2()]), String::from("two"), principal(2));
    hub.add_event_listener(EventFilter::empty(), String::from("all"), principal(3));

    let mut for_one: Vec<u8> = vec![];
    let mut for_two: Vec<u8> = vec![];
    let mut for_all: Vec<u8> = vec![];
    let mut delivered_one: Vec<u8> = vec![];
    let mut delivered_two: Vec<u8> = vec![];
    let mut delivered_all: Vec<u8> = vec![];
    let mut now = 0u64;

    for i in 0..60u8 {
        let encoded = vec![i; 90 + (i as usize % 7) * 50];
        let topics = match i % 3 {
            0 => vec![f1()],
            1 => vec![f2()],
            _ => vec![f1(), f2()],
        };
        if i % 3 != 1 {
            for_one.extend_from_slice(&encoded);
        }
        if i % 3 != 0 {
            for_two.extend_from_slice(&encoded);
        }
        for_all.extend_from_slice(&encoded);
        assert_eq!(hub.push_pending_event(&event(topics), &encoded, now), Ok(()));
        now += 300 * MILLISECOND;

        if i % 4 == 3 {
            for dispatch in send_events_impl(&mut hub, &[], now) {
                let sink = match dispatch.endpoint.method_name.as_str() {
                    "one" => &mut delivered_one,
                    "two" => &mut delivered_two,
                    _ => &mut delivered_all,
                };
                for message in dispatch.messages {
                    sink.extend_from_slice(&message[5..]);
                }
            }
        }
    }
    for dispatch in send_events_impl(&mut hub, &[], now + SECOND) {
        let sink = match dispatch.endpoint.method_name.as_str() {
            "one" => &mut delivered_one,
            "two" => &mut delivered_two,
            _ => &mut delivered_all,
        };
        for message in dispatch.messages {
            sink.extend_from_slice(&message[5..]);
        }
    }

    assert_eq!(delivered_one, for_one);
    assert_eq!(delivered_two, for_two);
    assert_eq!(delivered_all, for_all);
    assert!(send_events_impl(&mut hub, &[], u64::MAX).is_empty());
}

#[test]
fn limit_is_not_set_below_a_batch_of_the_hub() {
    let mut hub = hub();
    hub.add_event_listener(filter(vec![f1()]), String::from("m"), principal(1));
    assert_eq!(hub.push_pending_event(&event(vec![f1()]), &[1; 600], 0), Ok(()));

    assert!(!hub.set_max_batch_size(600));
    assert_eq!(hub.push_pending_event(&event(vec![f1()]), &[1; 400], 0), Ok(()));
    assert!(hub.pop_pending_events().is_none());

    assert!(hub.set_max_batch_size(1000));
    assert_eq!(hub.push_pending_event(&event(vec![f1()]), &[1; 1], 0), Ok(()));
    let (_, batches) = hub.pop_pending_events().unwrap();
    assert_eq!(batches[0].content.len(), 1000);
    assert_eq!(batches[0].events_count, 2);

    assert!(hub.set_max_batch_size(2));
    assert!(!hub.set_max_batch_size(1));
}

#[test]
fn limit_is_not_set_below_a_sealed_batch() {
    let mut hub = hub();
    hub.add_event_listener(filter(vec![f1()]), String::from("m"), principal(1));
    assert_eq!(hub.push_pending_event(&event(vec![f1()]), &[1; 600], 0), Ok(()));
    hub.transform_pending_to_ready_by_time(SECOND);

    assert!(!hub.set_max_batch_size(599));
    assert!(hub.set_max_batch_size(600));
}

#[test]
fn shorter_age_seals_earlier() {
    let mut hub = hub();
    hub.add_event_listener(filter(vec![f1()]), String::from("m"), principal(1));
    assert_eq!(hub.push_pending_event(&event(vec![f1()]), &[1; 6], 0), Ok(()));

    hub.set_batch_making_duration_nano(10);
    assert!(send_events_impl(&mut hub, &[], 9).is_empty());
    assert_eq!(total_messages(&send_events_impl(&mut hub, &[], 10)), 1);
}

#[test]
fn index_of_the_hub_can_be_asked_directly() {
    let mut hub = hub();
    hub.add_event_listener(filter(vec![f1()]), String::from("m"), principal(1));
    let matched = hub
        .get_listeners()
        .match_by_topics(&TopicSet::from_vec(vec![f1(), f2()]));
    assert_eq!(matched, vec![endpoint(1, "m")]);
}

#[test]
fn filters_and_callbacks_are_paired_by_position() {
    let request = pair_callbacks(
        vec![filter(vec![f1()]), filter(vec![f2()])],
        vec![String::from("a"), String::from("b")],
    )
    .unwrap();
    assert_eq!(request.callbacks.len(), 2);
    assert_eq!(request.callbacks[0].filter, filter(vec![f1()]));
    assert_eq!(request.callbacks[0].method_name, "a");
    assert_eq!(request.callbacks[1].filter, filter(vec![f2()]));
    assert_eq!(request.callbacks[1].method_name, "b");

    let error = pair_callbacks(vec![filter(vec![f1()])], vec![]).unwrap_err();
    assert_eq!(error, PairingError::LengthMismatch);
    assert_eq!(error.message(), "There are not as many filters as callbacks");
    assert!(pair_callbacks(vec![], vec![]).unwrap().callbacks.is_empty());
}

#[test]
fn callbacks_of_a_caller_get_the_caller_as_their_principal() {
    let request = SubscribeRequest {
        callbacks: vec![
            CallbackInfo {
                filter: filter(vec![f1()]),
                method_name: String::from("a"),
            },
            CallbackInfo {
                filter: filter(vec![f2(), f3()]),
                method_name: String::from("b"),
            },
        ],
    };
    let listeners = callbacks_of(request, &principal(4));
    assert_eq!(listeners.len(), 2);
    assert_eq!(listeners[0].filter, filter(vec![f1()]));
    assert_eq!(listeners[0].endpoint, endpoint(4, "a"));
    assert_eq!(listeners[1].filter, filter(vec![f2(), f3()]));
    assert_eq!(listeners[1].endpoint, endpoint(4, "b"));
    assert!(callbacks_of(SubscribeRequest { callbacks: vec![] }, &principal(4)).is_empty());
}

#[test]
fn failure_far_into_a_request_names_its_position_in_decimal() {
    let mut hub = hub();
    let mut listeners = vec![];
    for i in 0..120u8 {
        let f = filter(vec![field("n", &[i])]);
        hub.add_event_listener(f.clone(), String::from("m"), principal(1));
        listeners.push(CallbackInfoExt {
            filter: f,
            endpoint: endpoint(1, "m"),
        });
    }
    listeners.push(CallbackInfoExt {
        filter: filter(vec![field("n", &[3])]),
        endpoint: endpoint(1, "m"),
    });
    let failure = remove_event_listeners_impl(listeners, &mut hub).unwrap_err();
    assert_eq!(failure.index, 120);
    assert_eq!(failure.error, ListenerError::UnknownFilter);
    assert_eq!(
        failure.message(),
        "Unable to remove listener #120 - No such filter"
    );
}
