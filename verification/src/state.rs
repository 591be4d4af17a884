//! The broker's state: the ready queues and the deliveries in flight, with
//! the operations that move messages between them.

use std::collections::VecDeque;
use vstd::prelude::*;

use crate::flights::{
    DeliveryView, InFlightMessage, count_for_queue, count_in_queue, deliveries_view,
    carried, delivery_with, expired_for, expired_messages, live_at, has_delivery, has_expired, ids_distinct, insert_deliveries,
    insert_delivery,
    lemma_live_shape, live_deliveries, new_deliveries, record_delivery, remove_delivery,
    requeue_ready, without_delivery,
};
use crate::message::{
    DeliveredMessage, DeliveredView, MessageView, StoredMessage, copy_bytes, delivered_view,
};
use crate::queues::{
    ReadyQueue, ensure_queue, names_distinct, pop_front_message, push_back_message,
    push_front_message, queue_len, queue_of, ready_map,
};

verus! {

/// The values of a sequence of strings.
pub open spec fn strings_view(v: Seq<String>) -> Seq<Seq<char>> {
    v.map_values(|s: String| s@)
}

/// The values of a sequence of delivered messages.
pub open spec fn delivered_views(v: Seq<DeliveredMessage>) -> Seq<DeliveredView> {
    v.map_values(|m: DeliveredMessage| m@)
}

/// The value of the broker state: the ready queues by name, and the deliveries
/// in flight in the order in which they were handed out.
pub struct BrokerModel {
    pub ready: Map<Seq<char>, Seq<MessageView>>,
    pub in_flight: Seq<DeliveryView>,
}

impl BrokerModel {
    /// The messages waiting in queue `q`.
    pub open spec fn queue(self, q: Seq<char>) -> Seq<MessageView> {
        queue_of(self.ready, q)
    }

    /// The state after `m` is appended to the back of its queue.
    pub open spec fn enqueue(self, m: MessageView) -> BrokerModel {
        BrokerModel { ready: self.ready.insert(m.queue, self.queue(m.queue).push(m)), ..self }
    }

    /// The state after every delivery whose deadline has passed at `now` is
    /// put back at the front of its queue.
    pub open spec fn requeued(self, now: u128) -> BrokerModel {
        BrokerModel {
            ready: requeue_ready(self.ready, self.in_flight, now),
            in_flight: live_deliveries(self.in_flight, now),
        }
    }

    /// The number of messages of queue `q` in flight.
    pub open spec fn in_flight_count(self, q: Seq<char>) -> nat {
        count_in_queue(self.in_flight, q)
    }

    /// The state after the first `ids.len()` messages of queue `q` go out
    /// under `ids`, one attempt more each, with deadline `deadline`; the
    /// queue is added empty if it was missing.
    pub open spec fn deliver(self, q: Seq<char>, ids: Seq<Seq<char>>, deadline: u128) -> BrokerModel {
        BrokerModel {
            ready: self.ready.insert(q, self.queue(q).skip(ids.len() as int)),
            in_flight: insert_deliveries(
                self.in_flight,
                new_deliveries(self.queue(q), ids, deadline),
            ),
        }
    }

    /// What consumers receive when the first `ids.len()` messages of queue
    /// `q` go out under `ids`.
    pub open spec fn delivered(self, q: Seq<char>, ids: Seq<Seq<char>>) -> Seq<DeliveredView> {
        Seq::new(ids.len(), |k: int| delivered_view(self.queue(q)[k].bumped(), ids[k]))
    }

    /// The state after delivery `id` leaves the in-flight set.
    pub open spec fn settle(self, id: Seq<char>) -> BrokerModel {
        BrokerModel { in_flight: without_delivery(self.in_flight, id), ..self }
    }

    /// The state after delivery `id` leaves the in-flight set and its message
    /// goes back to the front of its queue.
    pub open spec fn return_to_queue(self, id: Seq<char>) -> BrokerModel {
        let m = delivery_with(self.in_flight, id).message;
        BrokerModel {
            ready: self.ready.insert(m.queue, seq![m] + self.queue(m.queue)),
            in_flight: without_delivery(self.in_flight, id),
        }
    }
}

/// Puts every delivery of `flights` whose deadline has passed at `now` back
/// at the front of its queue, in delivery order; says whether there was one.
fn requeue_expired_in(
    ready: &mut Vec<ReadyQueue>,
    flights: &mut VecDeque<InFlightMessage>,
    now: u128,
) -> (r: bool)
    requires
        names_distinct(old(ready)@),
        ids_distinct(deliveries_view(old(flights)@)),
    ensures
        names_distinct(final(ready)@),
        ids_distinct(deliveries_view(final(flights)@)),
        ready_map(final(ready)@) == requeue_ready(
            ready_map(old(ready)@),
            deliveries_view(old(flights)@),
            now,
        ),
        deliveries_view(final(flights)@) == live_deliveries(deliveries_view(old(flights)@), now),
        r == has_expired(deliveries_view(old(flights)@), now),
{
    let ghost all = deliveries_view(flights@);
    let ghost ready0 = ready_map(ready@);
    let mut pending: VecDeque<InFlightMessage> = VecDeque::new();
    std::mem::swap(&mut pending, flights);
    let mut kept: VecDeque<InFlightMessage> = VecDeque::new();
    let mut any = false;
    proof {
        let tail = all.subrange(all.len() as int, all.len() as int);
        assert(tail =~= Seq::<DeliveryView>::empty());
        assert(deliveries_view(pending@) =~= all.subrange(0, all.len() as int));
        assert(requeue_ready(ready0, tail, now) =~= ready0);
        assert(deliveries_view(kept@) =~= live_deliveries(tail, now));
    }
    while pending.len() > 0
        invariant
            names_distinct(ready@),
            pending@.len() <= all.len(),
            deliveries_view(pending@) == all.subrange(0, pending@.len() as int),
            deliveries_view(kept@) == live_deliveries(
                all.subrange(pending@.len() as int, all.len() as int),
                now,
            ),
            ready_map(ready@) == requeue_ready(
                ready0,
                all.subrange(pending@.len() as int, all.len() as int),
                now,
            ),
            any == has_expired(all.subrange(pending@.len() as int, all.len() as int), now),
        decreases pending@.len(),
    {
        let ghost i = pending@.len() as int;
        let ghost tail = all.subrange(i, all.len() as int);
        let ghost longer = all.subrange(i - 1, all.len() as int);
        let ghost before = ready_map(ready@);
        let ghost pending_before = pending@;
        let d = pending.pop_back().unwrap();
        proof {
            assert(deliveries_view(pending_before)[i - 1] == pending_before[i - 1]@);
            assert(all.subrange(0, i)[i - 1] == all[i - 1]);
            assert(deliveries_view(pending@) =~= all.subrange(0, i - 1));
            assert(d@ == all[i - 1]);
            assert(longer[0] == d@);
            assert(longer.drop_first() =~= tail);
            assert(has_expired(longer, now) == (d.deadline_ns <= now || has_expired(tail, now))) by {
                if has_expired(tail, now) {
                    let j = choose|j: int| 0 <= j < tail.len() && #[trigger] tail[j].deadline_ns <= now;
                    assert(longer[j + 1] == tail[j]);
                }
                if has_expired(longer, now) {
                    let j = choose|j: int| 0 <= j < longer.len() && #[trigger] longer[j].deadline_ns <= now;
                    if j > 0 {
                        assert(tail[j - 1] == longer[j]);
                    }
                }
                if d.deadline_ns <= now {
                    assert(longer[0].deadline_ns <= now);
                }
            }
        }
        if d.deadline_ns <= now {
            any = true;
            let name = d.message.queue.clone();
            let ghost m = d.message@;
            push_front_message(ready, &name, d.message);
            proof {
                let target = requeue_ready(ready0, longer, now);
                assert(ready_map(ready@) =~= target) by {
                    assert forall|q: Seq<char>| #[trigger] target.contains_key(q) <==> ready_map(
                        ready@,
                    ).contains_key(q) by {}
                    assert forall|q: Seq<char>| target.contains_key(q) implies #[trigger] target[q]
                        == ready_map(ready@)[q] by {
                        if q == m.queue {
                            assert(expired_messages(longer, now, q) == seq![m]
                                + expired_messages(tail, now, q));
                            assert(seq![m] + (expired_messages(tail, now, q) + queue_of(ready0, q))
                                =~= (seq![m] + expired_messages(tail, now, q)) + queue_of(
                                ready0,
                                q,
                            ));
                        }
                    }
                }
            }
        } else {
            let ghost kept_before = deliveries_view(kept@);
            kept.push_front(d);
            proof {
                assert(deliveries_view(kept@) =~= seq![d@] + kept_before);
                assert(requeue_ready(ready0, longer, now) =~= before) by {
                    assert forall|q: Seq<char>| #[trigger] expired_messages(longer, now, q)
                        == expired_messages(tail, now, q) by {}
                }
            }
        }
    }
    proof {
        assert(all.subrange(0, all.len() as int) =~= all);
        lemma_live_shape(all, now);
    }
    *flights = kept;
    any
}

/// The ready queues and the in-flight deliveries of the broker.
#[derive(Debug)]
pub struct BrokerState {
    ready: Vec<ReadyQueue>,
    in_flight: VecDeque<InFlightMessage>,
}

impl View for BrokerState {
    type V = BrokerModel;

    closed spec fn view(&self) -> BrokerModel {
        BrokerModel {
            ready: ready_map(self.ready@),
            in_flight: deliveries_view(self.in_flight@),
        }
    }
}

impl BrokerState {
    #[verifier::type_invariant]
    closed spec fn well_formed(self) -> bool {
        &&& names_distinct(self.ready@)
        &&& ids_distinct(deliveries_view(self.in_flight@))
    }

    /// An empty broker state.
    pub fn new() -> (s: BrokerState)
        ensures
            s@.ready == Map::<Seq<char>, Seq<MessageView>>::empty(),
            s@.in_flight == Seq::<DeliveryView>::empty(),
    {
        let s = BrokerState { ready: Vec::new(), in_flight: VecDeque::new() };
        proof {
            assert(ready_map(s.ready@) =~= Map::<Seq<char>, Seq<MessageView>>::empty());
            assert(deliveries_view(s.in_flight@) =~= Seq::<DeliveryView>::empty());
        }
        s
    }

    /// Appends `message` to the back of the queue that its `queue` field names.
    pub fn enqueue(&mut self, message: StoredMessage)
        ensures
            ids_distinct(final(self)@.in_flight),
            final(self)@ == old(self)@.enqueue(message@),
    {
        proof {
            use_type_invariant(&*self);
        }
        let mut ready: Vec<ReadyQueue> = Vec::new();
        std::mem::swap(&mut ready, &mut self.ready);
        let name = message.queue.clone();
        push_back_message(&mut ready, &name, message);
        self.ready = ready;
        proof {
            use_type_invariant(&*self);
        }
    }

    /// Puts every in-flight delivery whose deadline has passed at `now` back at
    /// the front of its queue, in the order of delivery; says whether there
    /// was one.
    pub fn requeue_expired(&mut self, now: u128) -> (r: bool)
        ensures
            forall|q: Seq<char>|
                #[trigger] final(self)@.queue(q) == old(self)@.in_flight.filter(
                    expired_for(now, q),
                ).map_values(carried()) + old(self)@.queue(q),
            final(self)@.in_flight == old(self)@.in_flight.filter(live_at(now)),
            ids_distinct(final(self)@.in_flight),
            final(self)@ == old(self)@.requeued(now),
            r == has_expired(old(self)@.in_flight, now),
    {
        proof {
            use_type_invariant(&*self);
        }
        let ghost before = self@;
        let mut ready: Vec<ReadyQueue> = Vec::new();
        let mut flights: VecDeque<InFlightMessage> = VecDeque::new();
        std::mem::swap(&mut ready, &mut self.ready);
        std::mem::swap(&mut flights, &mut self.in_flight);
        let r = requeue_expired_in(&mut ready, &mut flights, now);
        self.ready = ready;
        self.in_flight = flights;
        proof {
            use_type_invariant(&*self);
            assert forall|q: Seq<char>| #[trigger] self@.queue(q) == before.in_flight.filter(
                expired_for(now, q),
            ).map_values(carried()) + before.queue(q) by {
                crate::laws::lemma_requeue_returns_carried(before, now, q);
            }
            crate::laws::lemma_requeue_returns_carried(before, now, Seq::empty());
        }
        r
    }

    /// The number of messages ready in queue `queue` and the number in flight.
    pub fn queue_stats(&self, queue: &String) -> (r: (u64, u64))
        ensures
            ids_distinct(self@.in_flight),
            r.0 == self@.queue(queue@).len(),
            r.1 == self@.in_flight_count(queue@),
    {
        proof {
            use_type_invariant(self);
        }
        let ready = queue_len(&self.ready, queue);
        let in_flight = count_for_queue(&self.in_flight, queue);
        (ready as u64, in_flight as u64)
    }

    /// The number of messages ready in queue `queue`.
    pub fn ready_len(&self, queue: &String) -> (r: usize)
        ensures
            ids_distinct(self@.in_flight),
            r == self@.queue(queue@).len(),
    {
        proof {
            use_type_invariant(self);
        }
        queue_len(&self.ready, queue)
    }

    /// Records `message` as in flight under `delivery_id` until `deadline_ns`;
    /// a delivery with the same id is replaced, as a map insert does.
    pub fn insert_in_flight(&mut self, delivery_id: String, message: StoredMessage, deadline_ns: u128)
        ensures
            ids_distinct(final(self)@.in_flight),
            final(self)@.ready == old(self)@.ready,
            final(self)@.in_flight == insert_delivery(
                old(self)@.in_flight,
                DeliveryView { delivery_id: delivery_id@, message: message@, deadline_ns },
            ),
    {
        proof {
            use_type_invariant(&*self);
        }
        let mut flights: VecDeque<InFlightMessage> = VecDeque::new();
        std::mem::swap(&mut flights, &mut self.in_flight);
        record_delivery(&mut flights, InFlightMessage { delivery_id, message, deadline_ns });
        self.in_flight = flights;
        proof {
            use_type_invariant(&*self);
        }
    }

    /// Hands out the first `delivery_ids.len()` messages of queue `queue`, in
    /// order: each gets one attempt more, goes in flight under the matching
    /// delivery id until `deadline_ns`, and is returned as the consumer sees it.
    pub fn deliver(&mut self, queue: &String, delivery_ids: Vec<String>, deadline_ns: u128) -> (r:
        Vec<DeliveredMessage>)
        requires
            delivery_ids.len() <= old(self)@.queue(queue@).len(),
        ensures
            ids_distinct(final(self)@.in_flight),
            final(self)@ == old(self)@.deliver(queue@, strings_view(delivery_ids@), deadline_ns),
            delivered_views(r@) == old(self)@.delivered(queue@, strings_view(delivery_ids@)),
    {
        proof {
            use_type_invariant(&*self);
        }
        let ghost start = self@;
        let ghost q = queue@;
        let ghost orig = self@.queue(queue@);
        let ghost ids = strings_view(delivery_ids@);
        let ghost fresh = new_deliveries(orig, ids, deadline_ns);
        let ghost out_all = start.delivered(q, ids);
        let mut ready: Vec<ReadyQueue> = Vec::new();
        let mut flights: VecDeque<InFlightMessage> = VecDeque::new();
        std::mem::swap(&mut ready, &mut self.ready);
        std::mem::swap(&mut flights, &mut self.in_flight);
        let _ = ensure_queue(&mut ready, queue);
        let mut out: Vec<DeliveredMessage> = Vec::new();
        let mut k: usize = 0;
        proof {
            assert(orig.skip(0) =~= orig);
            assert(fresh.take(0) =~= Seq::<DeliveryView>::empty());
            assert(delivered_views(out@) =~= out_all.take(0));
        }
        while k < delivery_ids.len()
            invariant
                names_distinct(ready@),
                ids_distinct(deliveries_view(flights@)),
                k <= delivery_ids@.len(),
                delivery_ids@.len() <= orig.len(),
                ids == strings_view(delivery_ids@),
                fresh == new_deliveries(orig, ids, deadline_ns),
                out_all == start.delivered(q, ids),
                orig == start.queue(q),
                q == queue@,
                ready_map(ready@) == start.ready.insert(q, orig.skip(k as int)),
                deliveries_view(flights@) == insert_deliveries(start.in_flight, fresh.take(k as int)),
                delivered_views(out@) == out_all.take(k as int),
            decreases delivery_ids@.len() - k,
        {
            let ghost ready_before = ready_map(ready@);
            let ghost flights_before = deliveries_view(flights@);
            let ghost out_before = out@;
            proof {
                assert(queue_of(ready_before, q) == orig.skip(k as int));
            }
            let m = pop_front_message(&mut ready, queue).unwrap();
            let attempts = m.attempts.saturating_add(1);
            let id = delivery_ids[k].clone();
            let message = StoredMessage {
                message_id: m.message_id,
                queue: m.queue,
                payload: m.payload,
                attempts,
                created_at_unix_ms: m.created_at_unix_ms,
            };
            let delivered = DeliveredMessage {
                message_id: message.message_id.clone(),
                delivery_id: id.clone(),
                queue: message.queue.clone(),
                payload: copy_bytes(&message.payload),
                attempts,
                created_at_unix_ms: message.created_at_unix_ms,
            };
            proof {
                assert(m@ == orig[k as int]);
                assert(ids[k as int] == delivery_ids@[k as int]@);
                assert(message@ == orig[k as int].bumped());
                assert(fresh[k as int] == DeliveryView {
                    delivery_id: id@,
                    message: message@,
                    deadline_ns,
                });
            }
            record_delivery(
                &mut flights,
                InFlightMessage { delivery_id: id, message, deadline_ns },
            );
            out.push(delivered);
            proof {
                assert(orig.skip(k as int).drop_first() =~= orig.skip(k + 1));
                assert(ready_map(ready@) =~= start.ready.insert(q, orig.skip(k + 1)));
                assert(fresh.take(k + 1).drop_last() =~= fresh.take(k as int));
                assert(fresh.take(k + 1).last() == fresh[k as int]);
                assert(delivered@ == out_all[k as int]);
                assert(out@ == out_before.push(delivered));
                assert(delivered_views(out@) =~= delivered_views(out_before).push(delivered@));
                assert(out_all.take(k + 1) =~= out_all.take(k as int).push(out_all[k as int]));
            }
            k = k + 1;
        }
        proof {
            assert(fresh.take(k as int) =~= fresh);
            assert(out_all.take(k as int) =~= out_all);
        }
        self.ready = ready;
        self.in_flight = flights;
        proof {
            use_type_invariant(&*self);
        }
        out
    }

    /// Takes delivery `delivery_id` out of the in-flight set, if it is there.
    pub fn take_delivery(&mut self, delivery_id: &String) -> (r: Option<InFlightMessage>)
        ensures
            ids_distinct(final(self)@.in_flight),
            final(self)@ == old(self)@.settle(delivery_id@),
            match r {
                Some(d) => {
                    &&& has_delivery(old(self)@.in_flight, delivery_id@)
                    &&& d@ == delivery_with(old(self)@.in_flight, delivery_id@)
                },
                None => !has_delivery(old(self)@.in_flight, delivery_id@),
            },
    {
        proof {
            use_type_invariant(&*self);
        }
        let mut flights: VecDeque<InFlightMessage> = VecDeque::new();
        std::mem::swap(&mut flights, &mut self.in_flight);
        let r = remove_delivery(&mut flights, delivery_id);
        self.in_flight = flights;
        proof {
            use_type_invariant(&*self);
        }
        r
    }

    /// Puts `message` back at the front of the queue that its `queue` field
    /// names.
    pub fn return_message(&mut self, message: StoredMessage)
        ensures
            ids_distinct(final(self)@.in_flight),
            final(self)@ == (BrokerModel {
                ready: old(self)@.ready.insert(
                    message@.queue,
                    seq![message@] + old(self)@.queue(message@.queue),
                ),
                ..old(self)@
            }),
    {
        proof {
            use_type_invariant(&*self);
        }
        let mut ready: Vec<ReadyQueue> = Vec::new();
        std::mem::swap(&mut ready, &mut self.ready);
        let name = message.queue.clone();
        push_front_message(&mut ready, &name, message);
        self.ready = ready;
        proof {
            use_type_invariant(&*self);
        }
    }

    /// A state made of a table of ready queues and a set of deliveries.
    pub(crate) fn from_parts(ready: Vec<ReadyQueue>, in_flight: VecDeque<InFlightMessage>) -> (s:
        BrokerState)
        requires
            names_distinct(ready@),
            ids_distinct(deliveries_view(in_flight@)),
        ensures
            s@ == (BrokerModel {
                ready: ready_map(ready@),
                in_flight: deliveries_view(in_flight@),
            }),
    {
        BrokerState { ready, in_flight }
    }

    /// The table of ready queues.
    pub(crate) fn ready_table(&self) -> (r: &Vec<ReadyQueue>)
        ensures
            names_distinct(r@),
            ready_map(r@) == self@.ready,
    {
        proof {
            use_type_invariant(self);
        }
        &self.ready
    }

    /// The deliveries in flight.
    pub(crate) fn in_flight_table(&self) -> (r: &VecDeque<InFlightMessage>)
        ensures
            deliveries_view(r@) == self@.in_flight,
    {
        &self.in_flight
    }

    /// Whether delivery `delivery_id` is in flight.
    pub fn has_in_flight(&self, delivery_id: &String) -> (r: bool)
        ensures
            ids_distinct(self@.in_flight),
            r == has_delivery(self@.in_flight, delivery_id@),
    {
        proof {
            use_type_invariant(self);
        }
        match crate::flights::find_delivery(&self.in_flight, delivery_id) {
            Some(i) => {
                proof {
                    assert(deliveries_view(self.in_flight@)[i as int] == self.in_flight@[i as int]@);
                    assert(deliveries_view(self.in_flight@)[i as int].delivery_id == delivery_id@);
                }
                true
            },
            None => false,
        }
    }
}

impl Default for BrokerState {
    /// An empty broker state.
    fn default() -> (s: BrokerState)
        ensures
            s@.ready == Map::<Seq<char>, Seq<MessageView>>::empty(),
            s@.in_flight == Seq::<DeliveryView>::empty(),
    {
        BrokerState::new()
    }
}

} // verus!
