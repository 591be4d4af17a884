use message_brocker::message::StoredMessage;
use message_brocker::state::BrokerState;

fn message(message_id: &str, queue: &str, payload: &[u8], attempts: u32) -> StoredMessage {
    StoredMessage {
        message_id: message_id.to_owned(),
        queue: queue.to_owned(),
        payload: payload.to_vec(),
        attempts,
        created_at_unix_ms: 1,
    }
}

#[test]
fn requeues_all_expired_messages() {
    let now: u128 = 10_000;
    let mut state = BrokerState::default();
    state.insert_in_flight(
        "expired".to_owned(),
        message("message-1", "jobs", b"payload", 1),
        now - 1,
    );
    state.insert_in_flight(
        "live".to_owned(),
        message("message-2", "jobs", b"payload", 1),
        now + 1_000,
    );

    state.requeue_expired(now);

    assert_eq!(state.ready_len(&"jobs".to_owned()), 1);
    assert!(state.has_in_flight(&"live".to_owned()));
    assert!(!state.has_in_flight(&"expired".to_owned()));
}

#[test]
fn queue_stats_counts_ready_and_in_flight_by_queue() {
    let now: u128 = 10_000;
    let mut state = BrokerState::default();
    state.enqueue(message("ready", "jobs", b"", 0));
    state.insert_in_flight("delivery".to_owned(), message("flight", "jobs", b"", 1), now + 1_000);
    state.insert_in_flight(
        "other-delivery".to_owned(),
        message("other", "other", b"", 1),
        now + 1_000,
    );

    assert_eq!(state.queue_stats(&"jobs".to_owned()), (1, 1));
}

#[test]
fn requeue_reports_whether_anything_expired() {
    let mut state = BrokerState::default();
    state.insert_in_flight("d".to_owned(), message("m", "jobs", b"x", 1), 100);
    assert!(!state.requeue_expired(99));
    assert!(state.requeue_expired(100));
    assert!(!state.requeue_expired(100));
    assert_eq!(state.queue_stats(&"jobs".to_owned()), (1, 0));
}

#[test]
fn expired_deliveries_go_to_the_front_in_delivery_order() {
    let mut state = BrokerState::default();
    state.enqueue(message("waiting", "jobs", b"w", 0));
    state.insert_in_flight("d1".to_owned(), message("first", "jobs", b"1", 1), 5);
    state.insert_in_flight("d2".to_owned(), message("second", "jobs", b"2", 1), 6);
    state.insert_in_flight("d3".to_owned(), message("later", "jobs", b"3", 1), 50);
    assert!(state.requeue_expired(10));

    let ids = vec!["a".to_owned(), "b".to_owned(), "c".to_owned()];
    let delivered = state.deliver(&"jobs".to_owned(), ids, 100);
    let order: Vec<&str> = delivered.iter().map(|m| m.message_id.as_str()).collect();
    assert_eq!(order, vec!["first", "second", "waiting"]);
    assert_eq!(delivered[0].attempts, 2);
    assert_eq!(delivered[2].attempts, 1);
    assert_eq!(state.queue_stats(&"jobs".to_owned()), (0, 4));
}

#[test]
fn inserting_an_existing_delivery_id_replaces_it() {
    let mut state = BrokerState::default();
    state.insert_in_flight("d".to_owned(), message("one", "a", b"", 1), 10);
    state.insert_in_flight("d".to_owned(), message("two", "b", b"", 1), 10);
    assert_eq!(state.queue_stats(&"a".to_owned()), (0, 0));
    assert_eq!(state.queue_stats(&"b".to_owned()), (0, 1));
}

#[test]
fn deliver_saturates_attempts() {
    let mut state = BrokerState::default();
    state.enqueue(message("m", "jobs", b"", u32::MAX));
    let delivered = state.deliver(&"jobs".to_owned(), vec!["d".to_owned()], 10);
    assert_eq!(delivered[0].attempts, u32::MAX);
    assert_eq!(delivered[0].delivery_id, "d");
}

#[test]
fn take_delivery_and_return_message() {
    let mut state = BrokerState::default();
    state.enqueue(message("behind", "jobs", b"", 0));
    state.insert_in_flight("d".to_owned(), message("m", "jobs", b"p", 3), 10);
    let taken = state.take_delivery(&"d".to_owned()).unwrap();
    assert_eq!(taken.message.message_id, "m");
    assert!(state.take_delivery(&"d".to_owned()).is_none());
    state.return_message(taken.message);
    let delivered = state.deliver(&"jobs".to_owned(), vec!["x".to_owned()], 10);
    assert_eq!(delivered[0].message_id, "m");
    assert_eq!(delivered[0].attempts, 4);
}
