//! The decisions behind each broker request: what a request does to the
//! broker state, what it answers, and whether the state must be persisted
//! or waiting consumers woken afterwards. Locking, persistence, waiting and
//! the wire protocol stand around these functions.

use vstd::prelude::*;

use crate::clock::unix_time_ms;
use crate::flights::{has_delivery, has_expired, ids_distinct, new_deliveries};
use crate::laws::{
    consistent, fresh_ids, lemma_deliver_keeps_totals, lemma_new_deliveries_fresh,
    lemma_requeue_consistent, lemma_requeue_keeps_totals, total,
};
use crate::ids::{is_v4_uuid_text, new_id, new_ids};
use crate::message::{DeliveredMessage, DeliveredView, StoredMessage, published_view};
use crate::state::{BrokerState, delivered_views, strings_view};
use crate::text::{BrokerError, normalize_delivery_id, normalize_queue, normalized};

verus! {

/// How long a delivery stays in flight when the request names no timeout.
pub const DEFAULT_VISIBILITY_TIMEOUT_MS: u64 = 30_000;

/// How many messages a pull hands out when the request names no number.
pub const DEFAULT_MAX_MESSAGES: usize = 1;

/// The most messages one pull hands out.
pub const MAX_BATCH_SIZE: usize = 100;

/// The batch size of a pull: the default for 0, at most `MAX_BATCH_SIZE`.
pub fn normalize_max_messages(max_messages: u32) -> (r: usize)
    ensures
        r == if max_messages == 0 {
            DEFAULT_MAX_MESSAGES as int
        } else if max_messages > MAX_BATCH_SIZE {
            MAX_BATCH_SIZE as int
        } else {
            max_messages as int
        },
        1 <= r <= MAX_BATCH_SIZE,
{
    if max_messages == 0 {
        DEFAULT_MAX_MESSAGES
    } else if max_messages > 100 {
        MAX_BATCH_SIZE
    } else {
        max_messages as usize
    }
}

/// The visibility timeout of a pull in milliseconds: the default for 0.
pub fn normalize_visibility_timeout(visibility_timeout_ms: u64) -> (r: u64)
    ensures
        r == if visibility_timeout_ms == 0 {
            DEFAULT_VISIBILITY_TIMEOUT_MS
        } else {
            visibility_timeout_ms
        },
{
    if visibility_timeout_ms == 0 {
        DEFAULT_VISIBILITY_TIMEOUT_MS
    } else {
        visibility_timeout_ms
    }
}

/// The time `timeout_ms` milliseconds after `now_ns`, in nanoseconds, or
/// `u128::MAX` where that does not fit.
pub open spec fn deadline_after(now_ns: u128, timeout_ms: u64) -> u128 {
    if now_ns + timeout_ms * 1_000_000 > u128::MAX {
        u128::MAX
    } else {
        (now_ns + timeout_ms * 1_000_000) as u128
    }
}

/// The time `timeout_ms` milliseconds after `now_ns`, in nanoseconds.
fn add_millis(now_ns: u128, timeout_ms: u64) -> (r: u128)
    ensures
        r == deadline_after(now_ns, timeout_ms),
{
    assert(timeout_ms as u128 * 1_000_000 <= 18_446_744_073_709_551_615u128 * 1_000_000) by (nonlinear_arith)
        requires
            timeout_ms <= 18_446_744_073_709_551_615u64,
    ;
    let span: u128 = timeout_ms as u128 * 1_000_000;
    now_ns.saturating_add(span)
}

/// A published message: its new id, the queue it went to, the size of its
/// payload and its timestamp. The state must be persisted and waiting
/// consumers woken.
pub struct PublishOutcome {
    pub message_id: String,
    pub queue: String,
    pub payload_len: usize,
    pub created_at_unix_ms: i64,
}

/// Appends a new message with `payload` to the back of queue `queue` (once
/// trimmed), under a new random id, with no attempts yet and the current
/// wall-clock time.
pub fn publish(state: &mut BrokerState, queue: String, payload: Vec<u8>) -> (r: Result<
    PublishOutcome,
    BrokerError,
>)
    ensures
        match r {
            Ok(o) => {
                &&& ids_distinct(final(state)@.in_flight)
                &&& normalized(queue@) == Some(o.queue@)
                &&& is_v4_uuid_text(o.message_id@)
                &&& o.payload_len == payload@.len()
                &&& final(state)@ == old(state)@.enqueue(
                    published_view(o.message_id@, o.queue@, payload@, o.created_at_unix_ms),
                )
            },
            Err(e) => {
                &&& normalized(queue@) is None
                &&& e == BrokerError::EmptyQueue
                &&& final(state)@ == old(state)@
            },
        },
{
    let queue = match normalize_queue(queue) {
        Ok(q) => q,
        Err(e) => return Err(e),
    };
    let message_id = new_id();
    let payload_len = payload.len();
    let created_at_unix_ms = unix_time_ms();
    let message = StoredMessage {
        message_id: message_id.clone(),
        queue: queue.clone(),
        payload,
        attempts: 0,
        created_at_unix_ms,
    };
    state.enqueue(message);
    Ok(PublishOutcome { message_id, queue, payload_len, created_at_unix_ms })
}

/// The delivery ids of delivered messages.
pub open spec fn delivery_ids_of(messages: Seq<DeliveredView>) -> Seq<Seq<char>> {
    messages.map_values(|m: DeliveredView| m.delivery_id)
}

/// The messages a pull handed out, and whether the state must be persisted.
pub struct PullOutcome {
    pub messages: Vec<DeliveredMessage>,
    pub persist: bool,
}

/// Puts expired deliveries back, then hands out up to `max_messages` messages
/// from the front of queue `queue`, each under a new random delivery id and
/// in flight until `visibility_timeout_ms` after `now_ns`. The state must be
/// persisted when a delivery expired or a message went out.
pub fn pull_available(
    state: &mut BrokerState,
    queue: &String,
    max_messages: usize,
    visibility_timeout_ms: u64,
    now_ns: u128,
) -> (r: PullOutcome)
    ensures
        ids_distinct(final(state)@.in_flight),
        ({
            let mid = old(state)@.requeued(now_ns);
            let ids = delivery_ids_of(delivered_views(r.messages@));
            &&& ids.len() == if max_messages < mid.queue(queue@).len() {
                max_messages as int
            } else {
                mid.queue(queue@).len() as int
            }
            &&& forall|i: int| 0 <= i < ids.len() ==> #[trigger] is_v4_uuid_text(ids[i])
            &&& final(state)@ == mid.deliver(
                queue@,
                ids,
                deadline_after(now_ns, visibility_timeout_ms),
            )
            &&& delivered_views(r.messages@) == mid.delivered(queue@, ids)
            &&& r.persist == (has_expired(old(state)@.in_flight, now_ns) || r.messages@.len() > 0)
            &&& fresh_ids(mid.in_flight, ids) ==> final(state)@.in_flight == mid.in_flight
                + new_deliveries(
                mid.queue(queue@),
                ids,
                deadline_after(now_ns, visibility_timeout_ms),
            )
            &&& consistent(old(state)@) && fresh_ids(mid.in_flight, ids) ==> {
                &&& consistent(final(state)@)
                &&& forall|q: Seq<char>| #[trigger] total(final(state)@, q) == total(old(state)@, q)
            }
        }),
{
    let ghost start = state@;
    let expired = state.requeue_expired(now_ns);
    let available = state.ready_len(queue);
    let count = if max_messages < available {
        max_messages
    } else {
        available
    };
    let ids = new_ids(count);
    let ghost ids_view = strings_view(ids@);
    let deadline = add_millis(now_ns, visibility_timeout_ms);
    let ghost mid = state@;
    let messages = state.deliver(queue, ids, deadline);
    proof {
        let got = delivery_ids_of(delivered_views(messages@));
        assert(got =~= ids_view);
        if fresh_ids(mid.in_flight, got) {
            lemma_new_deliveries_fresh(mid, queue@, got, deadline);
            if consistent(start) {
                lemma_requeue_consistent(start, now_ns);
                lemma_deliver_keeps_totals(mid, queue@, got, deadline, queue@);
                assert forall|q: Seq<char>| #[trigger] total(state@, q) == total(start, q) by {
                    lemma_requeue_keeps_totals(start, now_ns, q);
                    lemma_deliver_keeps_totals(mid, queue@, got, deadline, q);
                }
            }
        }
    }
    let persist = expired || messages.len() > 0;
    PullOutcome { messages, persist }
}

/// A validated pull request: the trimmed queue name, the batch size, the
/// visibility timeout and the time until which the pull may wait.
pub struct PullPlan {
    pub queue: String,
    pub max_messages: usize,
    pub visibility_timeout_ms: u64,
    pub wait_deadline_ns: u128,
}

/// Validates a pull request received at `now_ns`.
pub fn plan_pull(
    queue: String,
    max_messages: u32,
    visibility_timeout_ms: u64,
    wait_timeout_ms: u64,
    now_ns: u128,
) -> (r: Result<PullPlan, BrokerError>)
    ensures
        match r {
            Ok(p) => {
                &&& normalized(queue@) == Some(p.queue@)
                &&& p.max_messages == if max_messages == 0 {
                    DEFAULT_MAX_MESSAGES as int
                } else if max_messages > MAX_BATCH_SIZE {
                    MAX_BATCH_SIZE as int
                } else {
                    max_messages as int
                }
                &&& p.visibility_timeout_ms == if visibility_timeout_ms == 0 {
                    DEFAULT_VISIBILITY_TIMEOUT_MS
                } else {
                    visibility_timeout_ms
                }
                &&& p.wait_deadline_ns == deadline_after(now_ns, wait_timeout_ms)
            },
            Err(e) => normalized(queue@) is None && e == BrokerError::EmptyQueue,
        },
{
    let queue = match normalize_queue(queue) {
        Ok(q) => q,
        Err(e) => return Err(e),
    };
    Ok(PullPlan {
        queue,
        max_messages: normalize_max_messages(max_messages),
        visibility_timeout_ms: normalize_visibility_timeout(visibility_timeout_ms),
        wait_deadline_ns: add_millis(now_ns, wait_timeout_ms),
    })
}

/// What a waiting pull does next.
pub enum PullStep {
    /// Answer with the messages handed out.
    Respond,
    /// Wait for a publication, at most this many nanoseconds, then try again.
    Wait { remaining_ns: u128 },
}

/// A pull answers once it has messages or its wait deadline has come;
/// otherwise it waits for the rest of the time.
pub fn next_pull_step(received: usize, now_ns: u128, wait_deadline_ns: u128) -> (r: PullStep)
    ensures
        received > 0 || now_ns >= wait_deadline_ns ==> r == PullStep::Respond,
        received == 0 && now_ns < wait_deadline_ns ==> r == (PullStep::Wait {
            remaining_ns: (wait_deadline_ns - now_ns) as u128,
        }),
{
    if received > 0 || now_ns >= wait_deadline_ns {
        PullStep::Respond
    } else {
        PullStep::Wait { remaining_ns: wait_deadline_ns - now_ns }
    }
}

/// Whether an acknowledgement was accepted, and whether the state must be
/// persisted.
pub struct AckOutcome {
    pub acknowledged: bool,
    pub persist: bool,
}

/// Puts expired deliveries back, then settles delivery `delivery_id` (once
/// trimmed) if it is still in flight.
pub fn ack(state: &mut BrokerState, delivery_id: String, now_ns: u128) -> (r: Result<
    AckOutcome,
    BrokerError,
>)
    ensures
        match r {
            Ok(o) => {
                let id = normalized(delivery_id@)->Some_0;
                let mid = old(state)@.requeued(now_ns);
                &&& normalized(delivery_id@) is Some
                &&& ids_distinct(final(state)@.in_flight)
                &&& o.acknowledged == has_delivery(mid.in_flight, id)
                &&& final(state)@ == mid.settle(id)
                &&& !has_delivery(final(state)@.in_flight, id)
                &&& o.persist == (has_expired(old(state)@.in_flight, now_ns) || o.acknowledged)
            },
            Err(e) => {
                &&& normalized(delivery_id@) is None
                &&& e == BrokerError::EmptyDeliveryId
                &&& final(state)@ == old(state)@
            },
        },
{
    let id = match normalize_delivery_id(delivery_id) {
        Ok(d) => d,
        Err(e) => return Err(e),
    };
    let expired = state.requeue_expired(now_ns);
    let ghost mid = state@;
    let acknowledged = match state.take_delivery(&id) {
        Some(_) => true,
        None => false,
    };
    proof {
        crate::flights::lemma_without_shape(mid.in_flight, id@);
    }
    Ok(AckOutcome { acknowledged, persist: expired || acknowledged })
}

/// Whether a rejection was accepted, whether the state must be persisted,
/// and whether waiting consumers must be woken.
pub struct NackOutcome {
    pub accepted: bool,
    pub persist: bool,
    pub notify: bool,
}

/// Puts expired deliveries back, then takes delivery `delivery_id` (once
/// trimmed) out of flight if it is there; with `requeue` its message goes
/// back to the front of its queue, otherwise it is dropped.
pub fn nack(state: &mut BrokerState, delivery_id: String, requeue: bool, now_ns: u128) -> (r:
    Result<NackOutcome, BrokerError>)
    ensures
        match r {
            Ok(o) => {
                let id = normalized(delivery_id@)->Some_0;
                let mid = old(state)@.requeued(now_ns);
                &&& normalized(delivery_id@) is Some
                &&& ids_distinct(final(state)@.in_flight)
                &&& o.accepted == has_delivery(mid.in_flight, id)
                &&& !has_delivery(final(state)@.in_flight, id)
                &&& final(state)@ == if o.accepted && requeue {
                    mid.return_to_queue(id)
                } else {
                    mid.settle(id)
                }
                &&& o.persist == (o.accepted || has_expired(old(state)@.in_flight, now_ns))
                &&& o.notify == (o.accepted && requeue)
            },
            Err(e) => {
                &&& normalized(delivery_id@) is None
                &&& e == BrokerError::EmptyDeliveryId
                &&& final(state)@ == old(state)@
            },
        },
{
    let id = match normalize_delivery_id(delivery_id) {
        Ok(d) => d,
        Err(e) => return Err(e),
    };
    let expired = state.requeue_expired(now_ns);
    let ghost mid = state@;
    proof {
        crate::flights::lemma_without_shape(mid.in_flight, id@);
    }
    match state.take_delivery(&id) {
        Some(delivery) => {
            if requeue {
                state.return_message(delivery.message);
            }
            Ok(NackOutcome { accepted: true, persist: true, notify: requeue })
        },
        None => Ok(NackOutcome { accepted: false, persist: expired, notify: false }),
    }
}

/// The counts of a queue, and whether the state must be persisted.
pub struct QueueStatsOutcome {
    pub queue: String,
    pub ready: u64,
    pub in_flight: u64,
    pub persist: bool,
}

/// Puts expired deliveries back, then counts the messages of queue `queue`
/// (once trimmed) that are ready and that are in flight.
pub fn queue_stats(state: &mut BrokerState, queue: String, now_ns: u128) -> (r: Result<
    QueueStatsOutcome,
    BrokerError,
>)
    ensures
        match r {
            Ok(o) => {
                &&& ids_distinct(final(state)@.in_flight)
                &&& normalized(queue@) == Some(o.queue@)
                &&& final(state)@ == old(state)@.requeued(now_ns)
                &&& o.ready == final(state)@.queue(o.queue@).len()
                &&& o.in_flight == final(state)@.in_flight_count(o.queue@)
                &&& o.persist == has_expired(old(state)@.in_flight, now_ns)
            },
            Err(e) => {
                &&& normalized(queue@) is None
                &&& e == BrokerError::EmptyQueue
                &&& final(state)@ == old(state)@
            },
        },
{
    let queue = match normalize_queue(queue) {
        Ok(q) => q,
        Err(e) => return Err(e),
    };
    let persist = state.requeue_expired(now_ns);
    let (ready, in_flight) = state.queue_stats(&queue);
    Ok(QueueStatsOutcome { queue, ready, in_flight, persist })
}

} // verus!
