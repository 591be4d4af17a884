use std::time::Duration;

use message_brocker::message::DeliveredMessage;
use message_brocker::service::{
    DEFAULT_MAX_MESSAGES, MAX_BATCH_SIZE, PullStep, ack, nack, next_pull_step,
    normalize_max_messages, normalize_visibility_timeout, plan_pull, publish, pull_available,
    queue_stats,
};
use message_brocker::state::BrokerState;
use message_brocker::text::{BrokerError, normalize_delivery_id, normalize_queue};

/// Nanoseconds in `n` milliseconds.
fn ms(n: u128) -> u128 {
    n * 1_000_000
}

fn publish_to(state: &mut BrokerState, queue: &str, payload: &[u8]) -> String {
    publish(state, queue.to_owned(), payload.to_vec()).unwrap().message_id
}

fn pull(
    state: &mut BrokerState,
    queue: &str,
    max_messages: u32,
    visibility_timeout_ms: u64,
    now_ms: u128,
) -> Vec<DeliveredMessage> {
    let plan = plan_pull(queue.to_owned(), max_messages, visibility_timeout_ms, 0, ms(now_ms)).unwrap();
    pull_available(state, &plan.queue, plan.max_messages, plan.visibility_timeout_ms, ms(now_ms))
        .messages
}

fn pull_once(state: &mut BrokerState, queue: &str, now_ms: u128) -> Vec<DeliveredMessage> {
    pull(state, queue, 10, 50, now_ms)
}

fn stats(state: &mut BrokerState, queue: &str, now_ms: u128) -> (String, u64, u64) {
    let o = queue_stats(state, queue.to_owned(), ms(now_ms)).unwrap();
    (o.queue, o.ready, o.in_flight)
}

#[test]
fn publish_pull_and_ack_removes_message() {
    let mut state = BrokerState::default();
    let message_id = publish_to(&mut state, "jobs", b"hello");

    let pulled = pull_once(&mut state, "jobs", 0);
    assert_eq!(pulled.len(), 1);
    assert_eq!(pulled[0].message_id, message_id);
    assert_eq!(pulled[0].payload, b"hello");
    assert_eq!(pulled[0].attempts, 1);

    let acked = ack(&mut state, pulled[0].delivery_id.clone(), ms(0)).unwrap();
    assert!(acked.acknowledged);

    let (_, ready, in_flight) = stats(&mut state, "jobs", 0);
    assert_eq!(ready, 0);
    assert_eq!(in_flight, 0);
}

#[test]
fn queue_names_are_trimmed_on_publish_pull_and_stats() {
    let mut state = BrokerState::default();
    publish_to(&mut state, "  jobs  ", b"trimmed");

    let (queue, ready, in_flight) = stats(&mut state, " jobs ", 0);
    assert_eq!(queue, "jobs");
    assert_eq!(ready, 1);
    assert_eq!(in_flight, 0);

    let pulled = pull_once(&mut state, " jobs ", 0);
    assert_eq!(pulled.len(), 1);
    assert_eq!(pulled[0].queue, "jobs");
    assert_eq!(pulled[0].payload, b"trimmed");
}

#[test]
fn queues_are_isolated() {
    let mut state = BrokerState::default();
    publish_to(&mut state, "alpha", b"a");
    publish_to(&mut state, "beta", b"b");

    let alpha = pull_once(&mut state, "alpha", 0);
    assert_eq!(alpha.len(), 1);
    assert_eq!(alpha[0].payload, b"a");

    let (_, ready, in_flight) = stats(&mut state, "beta", 0);
    assert_eq!(ready, 1);
    assert_eq!(in_flight, 0);
}

#[test]
fn pull_moves_messages_to_in_flight_and_respects_batch_size() {
    let mut state = BrokerState::default();
    publish_to(&mut state, "jobs", b"one");
    publish_to(&mut state, "jobs", b"two");
    publish_to(&mut state, "jobs", b"three");

    let pulled = pull(&mut state, "jobs", 2, 1_000, 0);
    let payloads = pulled.iter().map(|message| message.payload.as_slice()).collect::<Vec<_>>();
    assert_eq!(payloads, vec![b"one".as_slice(), b"two".as_slice()]);

    let (_, ready, in_flight) = stats(&mut state, "jobs", 0);
    assert_eq!(ready, 1);
    assert_eq!(in_flight, 2);
}

#[test]
fn zero_max_messages_defaults_to_one() {
    let mut state = BrokerState::default();
    publish_to(&mut state, "jobs", b"one");
    publish_to(&mut state, "jobs", b"two");

    let pulled = pull(&mut state, "jobs", 0, 1_000, 0);

    assert_eq!(pulled.len(), 1);
    let (_, ready, in_flight) = stats(&mut state, "jobs", 0);
    assert_eq!(ready, 1);
    assert_eq!(in_flight, 1);
}

#[test]
fn max_messages_is_capped() {
    let mut state = BrokerState::default();
    for i in 0..101 {
        publish_to(&mut state, "jobs", format!("message-{i}").as_bytes());
    }

    let pulled = pull(&mut state, "jobs", 101, 1_000, 0);

    assert_eq!(pulled.len(), MAX_BATCH_SIZE);
    let (_, ready, in_flight) = stats(&mut state, "jobs", 0);
    assert_eq!(ready, 1);
    assert_eq!(in_flight, MAX_BATCH_SIZE as u64);
}

#[test]
fn empty_pull_answers_at_once_when_wait_timeout_is_zero() {
    let mut state = BrokerState::default();
    let plan = plan_pull("jobs".to_owned(), 10, 50, 0, ms(500)).unwrap();
    let pulled = pull_available(&mut state, &plan.queue, plan.max_messages, 50, ms(500));
    assert!(pulled.messages.is_empty());
    assert!(!pulled.persist);
    assert!(matches!(next_pull_step(0, ms(500), plan.wait_deadline_ns), PullStep::Respond));
}

#[test]
fn empty_pull_waits_until_its_deadline() {
    let plan = plan_pull("jobs".to_owned(), 10, 50, 30, ms(1_000)).unwrap();
    assert_eq!(plan.wait_deadline_ns, ms(1_030));
    assert!(matches!(
        next_pull_step(0, ms(1_000), plan.wait_deadline_ns),
        PullStep::Wait { remaining_ns } if remaining_ns == ms(30)
    ));
    assert!(matches!(
        next_pull_step(0, ms(1_025), plan.wait_deadline_ns),
        PullStep::Wait { remaining_ns } if remaining_ns == ms(5)
    ));
    assert!(matches!(next_pull_step(0, ms(1_030), plan.wait_deadline_ns), PullStep::Respond));
    assert!(matches!(next_pull_step(1, ms(1_000), plan.wait_deadline_ns), PullStep::Respond));
}

#[test]
fn waiting_pull_receives_a_later_publication() {
    let mut state = BrokerState::default();
    let plan = plan_pull("jobs".to_owned(), 10, 1_000, 500, ms(0)).unwrap();
    let first = pull_available(&mut state, &plan.queue, plan.max_messages, 1_000, ms(0));
    assert!(matches!(
        next_pull_step(first.messages.len(), ms(0), plan.wait_deadline_ns),
        PullStep::Wait { remaining_ns } if remaining_ns == ms(500)
    ));
    publish_to(&mut state, "jobs", b"eventual");
    let second = pull_available(&mut state, &plan.queue, plan.max_messages, 1_000, ms(25));
    assert_eq!(second.messages.len(), 1);
    assert_eq!(second.messages[0].payload, b"eventual");
    assert!(matches!(
        next_pull_step(second.messages.len(), ms(25), plan.wait_deadline_ns),
        PullStep::Respond
    ));
}

#[test]
fn nack_requeues_message() {
    let mut state = BrokerState::default();
    let message_id = publish_to(&mut state, "jobs", b"retry");
    let first_pull = pull_once(&mut state, "jobs", 0);

    let rejected = nack(&mut state, first_pull[0].delivery_id.clone(), true, ms(0)).unwrap();
    assert!(rejected.accepted);
    assert!(rejected.notify);

    let second_pull = pull_once(&mut state, "jobs", 0);
    assert_eq!(second_pull.len(), 1);
    assert_eq!(second_pull[0].message_id, message_id);
    assert_eq!(second_pull[0].attempts, 2);
}

#[test]
fn nack_without_requeue_drops_message() {
    let mut state = BrokerState::default();
    publish_to(&mut state, "jobs", b"drop");
    let pulled = pull_once(&mut state, "jobs", 0);

    let rejected = nack(&mut state, pulled[0].delivery_id.clone(), false, ms(0)).unwrap();
    assert!(rejected.accepted);
    assert!(!rejected.notify);

    let (_, ready, in_flight) = stats(&mut state, "jobs", 0);
    assert_eq!(ready, 0);
    assert_eq!(in_flight, 0);
    assert!(pull_once(&mut state, "jobs", 0).is_empty());
}

#[test]
fn ack_and_nack_unknown_delivery_id_return_false() {
    let mut state = BrokerState::default();

    let unknown = uuid::Uuid::new_v4().to_string();
    let acked = ack(&mut state, unknown, ms(0)).unwrap();
    assert!(!acked.acknowledged);
    assert!(!acked.persist);
    let rejected = nack(&mut state, uuid::Uuid::new_v4().to_string(), true, ms(0)).unwrap();
    assert!(!rejected.accepted);
    assert!(!rejected.persist);
}

#[test]
fn ack_and_nack_reject_empty_delivery_id() {
    let mut state = BrokerState::default();

    let ack_error = ack(&mut state, " ".to_owned(), ms(0)).err().unwrap();
    assert_eq!(ack_error, BrokerError::EmptyDeliveryId);

    let nack_error = nack(&mut state, " ".to_owned(), true, ms(0)).err().unwrap();
    assert_eq!(nack_error, BrokerError::EmptyDeliveryId);
    assert_eq!(nack_error.message(), "delivery_id must not be empty");
}

#[test]
fn expired_delivery_is_visible_again() {
    let mut state = BrokerState::default();
    publish_to(&mut state, "jobs", b"slow");
    let first_pull = pull_once(&mut state, "jobs", 1_000);
    assert_eq!(first_pull.len(), 1);

    let second_pull = pull_once(&mut state, "jobs", 1_070);
    assert_eq!(second_pull.len(), 1);
    assert_eq!(second_pull[0].attempts, 2);
    assert_ne!(second_pull[0].delivery_id, first_pull[0].delivery_id);
}

#[test]
fn queue_stats_requeues_expired_deliveries_before_counting() {
    let mut state = BrokerState::default();
    publish_to(&mut state, "jobs", b"slow");
    let pulled = pull(&mut state, "jobs", 1, 20, 1_000);
    assert_eq!(pulled.len(), 1);

    let outcome = queue_stats(&mut state, "jobs".to_owned(), ms(1_030)).unwrap();
    assert_eq!(outcome.ready, 1);
    assert_eq!(outcome.in_flight, 0);
    assert!(outcome.persist);
}

#[test]
fn all_queue_based_rpcs_reject_empty_queue() {
    let mut state = BrokerState::default();
    let publish_error = publish(&mut state, "   ".to_owned(), Vec::new()).err().unwrap();
    assert_eq!(publish_error, BrokerError::EmptyQueue);

    let pull_error = plan_pull("   ".to_owned(), 1, 1, 0, ms(0)).err().unwrap();
    assert_eq!(pull_error, BrokerError::EmptyQueue);

    let stats_error = queue_stats(&mut state, "   ".to_owned(), ms(0)).err().unwrap();
    assert_eq!(stats_error, BrokerError::EmptyQueue);
    assert_eq!(stats_error.message(), "queue must not be empty");
}

#[test]
fn normalization_helpers_apply_defaults_and_limits() {
    assert_eq!(normalize_queue("  jobs  ".to_owned()).unwrap(), "jobs");
    assert_eq!(normalize_delivery_id("  delivery  ".to_owned()).unwrap(), "delivery");
    assert_eq!(normalize_max_messages(0), DEFAULT_MAX_MESSAGES);
    assert_eq!(normalize_max_messages(1), 1);
    assert_eq!(normalize_max_messages((MAX_BATCH_SIZE + 1) as u32), MAX_BATCH_SIZE);
    assert_eq!(
        Duration::from_millis(normalize_visibility_timeout(0)),
        Duration::from_secs(30)
    );
    assert_eq!(Duration::from_millis(normalize_visibility_timeout(42)), Duration::from_millis(42));
}

#[test]
fn unicode_whitespace_is_trimmed() {
    assert_eq!(normalize_queue("\u{3000}\tjobs\u{a0}\n".to_owned()).unwrap(), "jobs");
    assert_eq!(normalize_queue(" a b ".to_owned()).unwrap(), "a b");
    assert_eq!(normalize_queue("\u{2003}\u{85}".to_owned()), Err(BrokerError::EmptyQueue));
    assert_eq!(normalize_delivery_id("".to_owned()), Err(BrokerError::EmptyDeliveryId));
}

#[test]
fn publish_reports_message_and_persist_decisions() {
    let mut state = BrokerState::default();
    let published = publish(&mut state, " q ".to_owned(), vec![1, 2, 3]).unwrap();
    assert_eq!(published.queue, "q");
    assert_eq!(published.payload_len, 3);
    assert_eq!(published.message_id.len(), 36);
    assert!(published.created_at_unix_ms > 1_600_000_000_000);

    let pulled = pull_available(&mut state, &"q".to_owned(), 5, 10, ms(100));
    assert!(pulled.persist);
    assert_eq!(pulled.messages[0].created_at_unix_ms, published.created_at_unix_ms);
    let nothing = pull_available(&mut state, &"q".to_owned(), 5, 10, ms(105));
    assert!(!nothing.persist);
    let after_expiry = pull_available(&mut state, &"other".to_owned(), 5, 10, ms(110));
    assert!(after_expiry.messages.is_empty());
    assert!(after_expiry.persist);
}

#[test]
fn ack_after_expiry_finds_nothing_but_persists() {
    let mut state = BrokerState::default();
    publish_to(&mut state, "jobs", b"x");
    let pulled = pull(&mut state, "jobs", 1, 10, 0);
    let outcome = ack(&mut state, pulled[0].delivery_id.clone(), ms(10)).unwrap();
    assert!(!outcome.acknowledged);
    assert!(outcome.persist);
    let (_, ready, in_flight) = stats(&mut state, "jobs", 10);
    assert_eq!((ready, in_flight), (1, 0));
}

#[test]
fn ack_trims_the_delivery_id() {
    let mut state = BrokerState::default();
    publish_to(&mut state, "jobs", b"x");
    let pulled = pull(&mut state, "jobs", 1, 10, 0);
    let padded = format!("  {}\t", pulled[0].delivery_id);
    assert!(ack(&mut state, padded, ms(1)).unwrap().acknowledged);
}

#[test]
fn normalized_names_normalize_to_themselves() {
    for raw in ["  jobs ", "\tx y\u{2029}", "plain"] {
        let once = normalize_queue(raw.to_owned()).unwrap();
        let twice = normalize_queue(once.clone()).unwrap();
        assert_eq!(once, twice);
    }
}

#[test]
fn messages_are_neither_lost_nor_duplicated() {
    let mut state = BrokerState::default();
    for payload in [b"1", b"2", b"3"] {
        publish_to(&mut state, "jobs", payload);
    }
    let pulled = pull(&mut state, "jobs", 2, 100, 0);
    assert_eq!(pulled.len(), 2);
    let (_, ready, in_flight) = stats(&mut state, "jobs", 50);
    assert_eq!(ready + in_flight, 3);
    let (_, ready, in_flight) = stats(&mut state, "jobs", 100);
    assert_eq!((ready, in_flight), (3, 0));
    let again = pull(&mut state, "jobs", 3, 100, 100);
    let payloads: Vec<&[u8]> = again.iter().map(|m| m.payload.as_slice()).collect();
    assert_eq!(payloads, vec![b"1".as_slice(), b"2".as_slice(), b"3".as_slice()]);
    assert!(ack(&mut state, again[0].delivery_id.clone(), ms(150)).unwrap().acknowledged);
    let (_, ready, in_flight) = stats(&mut state, "jobs", 150);
    assert_eq!(ready + in_flight, 2);
}

#[test]
fn visibility_timeout_keeps_sub_millisecond_precision() {
    let mut state = BrokerState::default();
    publish_to(&mut state, "jobs", b"x");
    let pulled = pull_available(&mut state, &"jobs".to_owned(), 1, 1, 900_000);
    assert_eq!(pulled.messages.len(), 1);
    let (_, ready, in_flight) = {
        let o = queue_stats(&mut state, "jobs".to_owned(), 1_500_000).unwrap();
        (o.queue, o.ready, o.in_flight)
    };
    assert_eq!((ready, in_flight), (0, 1));
    let o = queue_stats(&mut state, "jobs".to_owned(), 1_899_999).unwrap();
    assert_eq!((o.ready, o.in_flight), (0, 1));
    let o = queue_stats(&mut state, "jobs".to_owned(), 1_900_000).unwrap();
    assert_eq!((o.ready, o.in_flight), (1, 0));
}

#[test]
fn wait_deadline_keeps_sub_millisecond_precision() {
    let plan = plan_pull("jobs".to_owned(), 1, 0, 1, 900_000).unwrap();
    assert_eq!(plan.wait_deadline_ns, 1_900_000);
    assert!(matches!(
        next_pull_step(0, 1_500_000, plan.wait_deadline_ns),
        PullStep::Wait { remaining_ns: 400_000 }
    ));
}

#[test]
fn huge_timeouts_saturate() {
    let plan = plan_pull("jobs".to_owned(), 1, u64::MAX, u64::MAX, u128::MAX - 5).unwrap();
    assert_eq!(plan.wait_deadline_ns, u128::MAX);
    assert_eq!(plan.visibility_timeout_ms, u64::MAX);
}

#[test]
fn a_delivery_is_settled_at_most_once() {
    let mut state = BrokerState::default();
    publish_to(&mut state, "jobs", b"x");
    publish_to(&mut state, "jobs", b"y");
    let pulled = pull(&mut state, "jobs", 2, 100, 0);
    let first = pulled[0].delivery_id.clone();
    let second = pulled[1].delivery_id.clone();
    assert!(ack(&mut state, first.clone(), ms(1)).unwrap().acknowledged);
    assert!(!ack(&mut state, first.clone(), ms(2)).unwrap().acknowledged);
    assert!(!nack(&mut state, first, true, ms(3)).unwrap().accepted);
    assert!(nack(&mut state, second.clone(), false, ms(4)).unwrap().accepted);
    assert!(!ack(&mut state, second, ms(5)).unwrap().acknowledged);
    let (_, ready, in_flight) = stats(&mut state, "jobs", 6);
    assert_eq!((ready, in_flight), (0, 0));
}
