use message_brocker::message::StoredMessage;
use message_brocker::persist::{PersistedQueue, PersistentState};
use message_brocker::state::BrokerState;

fn message(message_id: &str, queue: &str) -> StoredMessage {
    StoredMessage {
        message_id: message_id.to_owned(),
        queue: queue.to_owned(),
        payload: message_id.as_bytes().to_vec(),
        attempts: 0,
        created_at_unix_ms: 7,
    }
}

#[test]
fn restart_makes_in_flight_messages_ready_behind_the_others() {
    let mut state = BrokerState::default();
    state.enqueue(message("a1", "alpha"));
    state.enqueue(message("a2", "alpha"));
    state.enqueue(message("b1", "beta"));
    let delivered = state.deliver(&"alpha".to_owned(), vec!["d1".to_owned()], 100);
    assert_eq!(delivered[0].message_id, "a1");

    let snapshot = state.to_persistent();
    assert_eq!(snapshot.in_flight.len(), 1);
    assert_eq!(snapshot.in_flight[0].attempts, 1);

    let mut restored = BrokerState::from_persistent(snapshot);
    assert_eq!(restored.queue_stats(&"alpha".to_owned()), (2, 0));
    assert_eq!(restored.queue_stats(&"beta".to_owned()), (1, 0));
    let ids = vec!["x".to_owned(), "y".to_owned()];
    let again = restored.deliver(&"alpha".to_owned(), ids, 100);
    assert_eq!(again[0].message_id, "a2");
    assert_eq!(again[1].message_id, "a1");
    assert_eq!(again[1].attempts, 2);
    assert_eq!(again[1].payload, b"a1");
}

#[test]
fn load_from_nothing_is_empty() {
    let mut state = BrokerState::load_from(None);
    assert_eq!(state.queue_stats(&"jobs".to_owned()), (0, 0));
    assert!(!state.requeue_expired(u128::MAX));
}

#[test]
fn load_from_snapshot_appends_in_flight_to_queues() {
    let snapshot = PersistentState {
        ready: vec![
            PersistedQueue { name: "jobs".to_owned(), messages: vec![message("r", "jobs")] },
            PersistedQueue { name: "empty".to_owned(), messages: vec![] },
        ],
        in_flight: vec![message("f", "jobs"), message("g", "new")],
    };
    let mut state = BrokerState::load_from(Some(snapshot));
    assert_eq!(state.queue_stats(&"jobs".to_owned()), (2, 0));
    assert_eq!(state.queue_stats(&"new".to_owned()), (1, 0));
    assert_eq!(state.queue_stats(&"empty".to_owned()), (0, 0));
    let out = state.deliver(&"jobs".to_owned(), vec!["1".to_owned(), "2".to_owned()], 5);
    assert_eq!(out[0].message_id, "r");
    assert_eq!(out[1].message_id, "f");
    let persisted = state.to_persistent();
    assert_eq!(persisted.ready.len(), 3);
}
