use ic_event_hub::batches::{check_pending_fits, check_sealed_fits, PendingBatches, ReadyBatches};
use ic_event_hub::deadlines::{DeadlineQueue, TimestampedRemoteCallEndpoint};
use ic_event_hub::decimal::{decimal_text, digit_text};
use ic_event_hub::endpoint::{
    compare_endpoints, compare_principals, same_endpoint, Principal, RemoteCallEndpoint,
    MAX_PRINCIPAL_LENGTH,
};
use ic_event_hub::field::{compare_fields, EventField};
use ic_event_hub::index::{find_endpoint, FilterIndex};
use ic_event_hub::order::{compare_bytes, compare_text, Order};
use ic_event_hub::topics::TopicSet;
use ic_event_hub::types::{
    clone_fields, EncodedEventBatch, EventFilter, ListenerError, EVENT_NAME_FIELD,
};

fn field(name: &str, value: &[u8]) -> EventField {
    EventField {
        name: String::from(name),
        value: value.to_vec(),
    }
}

fn endpoint(bytes: &[u8], method: &str) -> RemoteCallEndpoint {
    RemoteCallEndpoint {
        canister_id: Principal::from_slice(bytes),
        method_name: String::from(method),
    }
}

#[test]
fn bytes_are_ordered_lexicographically() {
    assert_eq!(compare_bytes(&[], &[]), Order::Equal);
    assert_eq!(compare_bytes(&[], &[0]), Order::Less);
    assert_eq!(compare_bytes(&[1, 2], &[1, 2, 0]), Order::Less);
    assert_eq!(compare_bytes(&[1, 3], &[1, 2, 9]), Order::Greater);
    assert_eq!(compare_bytes(&[255], &[1, 1]), Order::Greater);
    assert_eq!(compare_bytes(&[4, 5, 6], &[4, 5, 6]), Order::Equal);
}

#[test]
fn text_is_ordered_as_std_orders_it() {
    let samples = ["", "a", "ab", "b", "B", "é", "z", "日本", "__event_name", "\u{10ffff}"];
    for a in samples {
        for b in samples {
            let expected = match a.cmp(b) {
                std::cmp::Ordering::Less => Order::Less,
                std::cmp::Ordering::Equal => Order::Equal,
                std::cmp::Ordering::Greater => Order::Greater,
            };
            assert_eq!(compare_text(a, b), expected);
        }
    }
}

#[test]
fn fields_are_ordered_by_name_then_value() {
    assert_eq!(
        compare_fields(&field("a", &[9]), &field("b", &[0])),
        Order::Less
    );
    assert_eq!(
        compare_fields(&field("a", &[9]), &field("a", &[0, 1])),
        Order::Greater
    );
    assert_eq!(
        compare_fields(&field("a", &[1]), &field("a", &[1])),
        Order::Equal
    );
}

#[test]
fn topic_set_keeps_its_fields_sorted_and_once() {
    let mut set = TopicSet::new();
    assert!(set.insert(field("b", &[1])));
    assert!(set.insert(field("a", &[2])));
    assert!(set.insert(field("a", &[1])));
    assert!(!set.insert(field("b", &[1])));
    assert!(set.insert(field("c", &[])));

    assert_eq!(set.len(), 4);
    assert_eq!(*set.get(0), field("a", &[1]));
    assert_eq!(*set.get(1), field("a", &[2]));
    assert_eq!(*set.get(2), field("b", &[1]));
    assert_eq!(*set.get(3), field("c", &[]));

    assert!(set.contains(&field("a", &[2])));
    assert!(!set.contains(&field("a", &[3])));
}

#[test]
fn topic_set_from_a_list_is_the_set_of_its_fields() {
    let set = TopicSet::from_vec(vec![
        field("z", &[1]),
        field("a", &[1]),
        field("z", &[1]),
        field("m", &[1]),
    ]);
    let mut expected = TopicSet::new();
    expected.insert(field("a", &[1]));
    expected.insert(field("m", &[1]));
    expected.insert(field("z", &[1]));

    assert!(set.same_as(&expected));
    assert_eq!(set, expected);
    assert_eq!(set.clone(), expected);
}

#[test]
fn subset_holds_when_every_field_is_in_the_other_set() {
    let small = TopicSet::from_vec(vec![field("a", &[1]), field("c", &[3])]);
    let large = TopicSet::from_vec(vec![field("a", &[1]), field("b", &[2]), field("c", &[3])]);
    let other = TopicSet::from_vec(vec![field("a", &[1]), field("c", &[4])]);
    let empty = TopicSet::new();

    assert!(small.is_subset(&large));
    assert!(!large.is_subset(&small));
    assert!(small.is_subset(&small));
    assert!(!small.is_subset(&other));
    assert!(empty.is_subset(&small));
    assert!(empty.is_subset(&empty));
    assert!(!small.is_subset(&empty));
    assert!(!small.same_as(&large));
}

#[test]
fn filter_matches_when_its_topics_are_among_those_of_the_event() {
    let topics = TopicSet::from_vec(vec![field(EVENT_NAME_FIELD, &[1]), field("to", &[7])]);
    let by_name = EventFilter(TopicSet::from_vec(vec![field(EVENT_NAME_FIELD, &[1])]));
    let by_other_name = EventFilter(TopicSet::from_vec(vec![field(EVENT_NAME_FIELD, &[2])]));
    let by_both = EventFilter(TopicSet::from_vec(vec![
        field("to", &[7]),
        field(EVENT_NAME_FIELD, &[1]),
    ]));
    let by_more = EventFilter(TopicSet::from_vec(vec![
        field("to", &[7]),
        field("from", &[7]),
    ]));

    assert!(EventFilter::empty().matches(&topics));
    assert!(by_name.matches(&topics));
    assert!(!by_other_name.matches(&topics));
    assert!(by_both.matches(&topics));
    assert!(!by_more.matches(&topics));
    assert!(by_both.clone().matches(&topics));
}

#[test]
fn principal_has_at_most_29_bytes() {
    assert_eq!(MAX_PRINCIPAL_LENGTH, 29);
    assert!(Principal::try_from_slice(&[1; 29]).is_some());
    assert!(Principal::try_from_slice(&[1; 30]).is_none());
    assert_eq!(Principal::try_from_slice(&[]).unwrap().as_slice(), &[] as &[u8]);
    assert_eq!(Principal::from_slice(&[4, 5]).as_slice(), &[4, 5]);
    assert!(Principal::management_canister().as_slice().is_empty());
    assert_eq!(Principal::management_canister(), Principal::from_slice(&[]));
    assert_eq!(
        Principal::from_slice(&[4, 5]).clone(),
        Principal::from_slice(&[4, 5])
    );
}

#[test]
fn principals_are_ordered_by_length_then_bytes() {
    let short = Principal::from_slice(&[9, 9]);
    let long = Principal::from_slice(&[1, 1, 1]);
    let longer = Principal::from_slice(&[1, 1, 2]);
    assert_eq!(compare_principals(&short, &long), Order::Less);
    assert_eq!(compare_principals(&long, &short), Order::Greater);
    assert_eq!(compare_principals(&long, &longer), Order::Less);
    assert_eq!(compare_principals(&long, &long), Order::Equal);
}

#[test]
fn principals_are_ordered_as_candid_orders_them() {
    let samples: Vec<Vec<u8>> = vec![
        vec![],
        vec![0],
        vec![1],
        vec![0, 0],
        vec![0, 1],
        vec![255],
        vec![1; 29],
        vec![2; 28],
        vec![0; 29],
    ];
    for a in &samples {
        for b in &samples {
            let expected = match candid::Principal::from_slice(a)
                .cmp(&candid::Principal::from_slice(b))
            {
                std::cmp::Ordering::Less => Order::Less,
                std::cmp::Ordering::Equal => Order::Equal,
                std::cmp::Ordering::Greater => Order::Greater,
            };
            assert_eq!(
                compare_principals(&Principal::from_slice(a), &Principal::from_slice(b)),
                expected
            );
        }
    }
}

#[test]
fn endpoints_are_ordered_by_principal_then_method() {
    assert_eq!(
        compare_endpoints(&endpoint(&[1], "z"), &endpoint(&[2], "a")),
        Order::Less
    );
    assert_eq!(
        compare_endpoints(&endpoint(&[1], "z"), &endpoint(&[1], "a")),
        Order::Greater
    );
    assert_eq!(
        compare_endpoints(&endpoint(&[1], "a"), &endpoint(&[1], "a")),
        Order::Equal
    );
    assert!(same_endpoint(&endpoint(&[1], "a"), &endpoint(&[1], "a")));
    assert!(!same_endpoint(&endpoint(&[1], "a"), &endpoint(&[1], "b")));
    assert!(!same_endpoint(&endpoint(&[1], "a"), &endpoint(&[1, 0], "a")));
}

#[test]
fn endpoint_is_found_at_its_position() {
    let list = vec![endpoint(&[1], "a"), endpoint(&[2], "b")];
    assert_eq!(find_endpoint(&list, &endpoint(&[2], "b")), Some(1));
    assert_eq!(find_endpoint(&list, &endpoint(&[2], "a")), None);
}

#[test]
fn batch_counts_its_events_and_keeps_its_opening_time() {
    let mut batch = EncodedEventBatch::new(&[1, 2], 77);
    assert_eq!(
        batch,
        EncodedEventBatch {
            content: vec![1, 2],
            events_count: 1,
            timestamp: 77
        }
    );
    batch.add_event(&[3]);
    batch.add_event(&[]);
    assert_eq!(
        batch,
        EncodedEventBatch {
            content: vec![1, 2, 3],
            events_count: 3,
            timestamp: 77
        }
    );
}

#[test]
fn open_batch_of_one_event_must_be_below_the_limit() {
    let one = EncodedEventBatch::new(&[0; 10], 0);
    assert!(check_pending_fits(&one, 11));
    assert!(!check_pending_fits(&one, 10));
    assert!(check_sealed_fits(&one, 10));
    assert!(!check_sealed_fits(&one, 9));

    let mut two = EncodedEventBatch::new(&[0; 6], 0);
    two.add_event(&[0; 4]);
    assert!(check_pending_fits(&two, 10));
    assert!(!check_pending_fits(&two, 9));

    let none = EncodedEventBatch {
        content: vec![],
        events_count: 0,
        timestamp: 0,
    };
    assert!(!check_pending_fits(&none, 10));
    assert!(!check_sealed_fits(&none, 10));
}

#[test]
fn pending_batches_hold_one_batch_for_each_endpoint() {
    let mut pending = PendingBatches::new();
    assert!(pending.get(&endpoint(&[1], "a")).is_none());
    assert!(pending
        .insert(endpoint(&[1], "a"), EncodedEventBatch::new(&[1], 1))
        .is_none());
    assert!(pending
        .insert(endpoint(&[2], "a"), EncodedEventBatch::new(&[2], 2))
        .is_none());
    let previous = pending
        .insert(endpoint(&[1], "a"), EncodedEventBatch::new(&[3], 3))
        .unwrap();
    assert_eq!(previous, EncodedEventBatch::new(&[1], 1));
    assert_eq!(
        *pending.get(&endpoint(&[1], "a")).unwrap(),
        EncodedEventBatch::new(&[3], 3)
    );
    assert!(pending.all_fit(2));
    assert!(!pending.all_fit(1));

    assert_eq!(
        pending.remove(&endpoint(&[2], "a")),
        Some(EncodedEventBatch::new(&[2], 2))
    );
    assert_eq!(pending.remove(&endpoint(&[2], "a")), None);
    assert!(pending.get(&endpoint(&[1], "a")).is_some());
}

#[test]
fn ready_batches_come_out_by_greatest_endpoint_in_order_of_sealing() {
    let mut ready = ReadyBatches::new();
    assert!(ready.is_empty());
    assert!(ready.pop_greatest().is_none());

    ready.append(endpoint(&[1], "a"), EncodedEventBatch::new(&[1], 1));
    ready.append(endpoint(&[3], "a"), EncodedEventBatch::new(&[2, 2], 2));
    ready.append(endpoint(&[1], "a"), EncodedEventBatch::new(&[3], 3));
    ready.append(endpoint(&[2], "a"), EncodedEventBatch::new(&[4], 4));
    assert!(!ready.is_empty());
    assert!(ready.all_fit(2));
    assert!(!ready.all_fit(1));

    let (to, batches) = ready.pop_greatest().unwrap();
    assert_eq!(to, endpoint(&[3], "a"));
    assert_eq!(batches, vec![EncodedEventBatch::new(&[2, 2], 2)]);

    let (to, _) = ready.pop_greatest().unwrap();
    assert_eq!(to, endpoint(&[2], "a"));

    let (to, batches) = ready.pop_greatest().unwrap();
    assert_eq!(to, endpoint(&[1], "a"));
    assert_eq!(
        batches,
        vec![
            EncodedEventBatch::new(&[1], 1),
            EncodedEventBatch::new(&[3], 3)
        ]
    );
    assert!(ready.pop_greatest().is_none());
    assert!(ready.is_empty());
}

#[test]
fn deadlines_come_out_earliest_first() {
    let mut queue = DeadlineQueue::new();
    assert!(queue.peek().is_none());
    assert!(queue.pop().is_none());

    for (timestamp, tag) in [(5u64, 1u8), (3, 2), (9, 3), (3, 4), (1, 5), (7, 6)] {
        queue.push(TimestampedRemoteCallEndpoint {
            timestamp,
            endpoint: endpoint(&[tag], "m"),
        });
    }
    assert_eq!(queue.len(), 6);
    assert_eq!(queue.peek().unwrap().timestamp, 1);

    let mut times = vec![];
    let mut tags = vec![];
    while let Some(entry) = queue.pop() {
        times.push(entry.timestamp);
        tags.push(entry.endpoint.canister_id.as_slice()[0]);
    }
    assert_eq!(times, vec![1, 3, 3, 5, 7, 9]);
    tags.sort();
    assert_eq!(tags, vec![1, 2, 3, 4, 5, 6]);
    assert_eq!(queue.len(), 0);
}

#[test]
fn filter_index_adds_matches_and_removes() {
    let mut index = FilterIndex::new();
    let f = EventFilter(TopicSet::from_vec(vec![field("a", &[1])]));
    index.add(f.clone(), endpoint(&[1], "m"));
    index.add(f.clone(), endpoint(&[1], "m"));
    index.add(f.clone(), endpoint(&[2], "m"));

    let topics = TopicSet::from_vec(vec![field("a", &[1]), field("b", &[1])]);
    let matched = index.match_by_topics(&topics);
    assert_eq!(matched.len(), 2);
    assert!(matched.contains(&endpoint(&[1], "m")));
    assert!(matched.contains(&endpoint(&[2], "m")));

    assert_eq!(index.remove(&f, &endpoint(&[1], "m")), Ok(()));
    assert_eq!(
        index.remove(&f, &endpoint(&[1], "m")),
        Err(ListenerError::UnknownEndpoint)
    );
    assert_eq!(index.remove(&f, &endpoint(&[2], "m")), Ok(()));
    assert_eq!(
        index.remove(&f, &endpoint(&[2], "m")),
        Err(ListenerError::UnknownFilter)
    );
    assert!(index.match_by_topics(&topics).is_empty());
}

#[test]
fn errors_have_their_diagnostic_texts() {
    assert_eq!(ListenerError::UnknownFilter.message(), "No such filter");
    assert_eq!(
        ListenerError::UnknownEndpoint.message(),
        "No such listener in that filter"
    );
}

#[test]
fn fields_are_copied_with_names_and_values() {
    let fields = vec![field("a", &[1, 2]), field("b", &[])];
    assert_eq!(clone_fields(&fields), fields);
    assert!(clone_fields(&vec![]).is_empty());
}

#[test]
fn deadlines_come_out_in_order_whatever_the_order_they_came_in() {
    let mut queue = DeadlineQueue::new();
    let mut expected = vec![];
    let mut seed: u64 = 12345;
    for round in 0..200u64 {
        seed = seed.wrapping_mul(6364136223846793005).wrapping_add(1442695040888963407);
        let timestamp = (seed >> 33) % 50;
        expected.push(timestamp);
        queue.push(TimestampedRemoteCallEndpoint {
            timestamp,
            endpoint: endpoint(&[(round % 7) as u8], "m"),
        });
        if round % 5 == 4 {
            expected.sort();
            let earliest = expected.remove(0);
            assert_eq!(queue.peek().unwrap().timestamp, earliest);
            assert_eq!(queue.pop().unwrap().timestamp, earliest);
        }
        assert_eq!(queue.len(), expected.len());
    }
    expected.sort();
    for earliest in expected {
        assert_eq!(queue.pop().unwrap().timestamp, earliest);
    }
    assert!(queue.pop().is_none());
}

#[test]
fn numbers_are_written_in_decimal() {
    assert_eq!(decimal_text(0), "0");
    assert_eq!(decimal_text(7), "7");
    assert_eq!(decimal_text(10), "10");
    assert_eq!(decimal_text(109), "109");
    assert_eq!(decimal_text(9_876_543_210), "9876543210");
    assert_eq!(decimal_text(usize::MAX), usize::MAX.to_string());
    for n in 0..1200usize {
        assert_eq!(decimal_text(n), n.to_string());
    }
    let digits: Vec<&str> = (0..10).map(digit_text).collect();
    assert_eq!(digits, vec!["0", "1", "2", "3", "4", "5", "6", "7", "8", "9"]);
}
