//! Properties of the broker that span several operations: no message is lost
//! or duplicated when it moves between the ready queues and the in-flight
//! set, queues do not affect each other, and a restart makes every message
//! ready again.

use vstd::prelude::*;

use crate::flights::{
    DeliveryView, count_in_queue, delivery_with, expired_messages, has_delivery, ids_distinct,
    insert_deliveries, lemma_live_shape, without_delivery, lemma_without_absent, lemma_without_at,
    live_deliveries, new_deliveries, requeue_ready, expired_for, live_at, carried, in_queue,
    lemma_expired_are_carried,
};
use crate::message::MessageView;
use crate::persist::{
    PersistentView, append_each, in_flight_messages, load_ready, restored,
};
use crate::queues::queue_of;
use crate::state::BrokerModel;

verus! {

/// The number of messages of queue `q` that the broker holds, ready or in
/// flight.
pub open spec fn total(s: BrokerModel, q: Seq<char>) -> nat {
    s.queue(q).len() + s.in_flight_count(q)
}

/// Every ready message sits in the queue that its `queue` field names.
pub open spec fn consistent(s: BrokerModel) -> bool {
    forall|q: Seq<char>, i: int|
        s.ready.contains_key(q) && 0 <= i < s.ready[q].len() ==> #[trigger] s.ready[q][i].queue == q
}

proof fn lemma_requeue_counts(flights: Seq<DeliveryView>, now: u128, q: Seq<char>)
    ensures
        expired_messages(flights, now, q).len() + count_in_queue(live_deliveries(flights, now), q)
            == count_in_queue(flights, q),
    decreases flights.len(),
{
    if flights.len() > 0 {
        let rest = flights.drop_first();
        lemma_requeue_counts(rest, now, q);
        if now < flights[0].deadline_ns {
            let l = seq![flights[0]] + live_deliveries(rest, now);
            assert(l.drop_first() =~= live_deliveries(rest, now));
        }
    }
}

/// Deliveries whose deadline has passed go back to the front of their queue,
/// in the order in which they were handed out, ahead of the messages that
/// were waiting there.
pub proof fn lemma_requeued_queue(s: BrokerModel, now: u128, q: Seq<char>)
    ensures
        s.requeued(now).queue(q) == expired_messages(s.in_flight, now, q) + s.queue(q),
{
    let r = requeue_ready(s.ready, s.in_flight, now);
    if !r.contains_key(q) {
        assert(expired_messages(s.in_flight, now, q) + s.queue(q) =~= Seq::<MessageView>::empty());
    }
}

/// Putting expired deliveries back neither loses nor duplicates a message:
/// each queue holds as many messages, ready or in flight, as before.
pub proof fn lemma_requeue_keeps_totals(s: BrokerModel, now: u128, q: Seq<char>)
    ensures
        total(s.requeued(now), q) == total(s, q),
{
    lemma_requeued_queue(s, now, q);
    lemma_requeue_counts(s.in_flight, now, q);
}

/// After expired deliveries are put back, no delivery in flight has a
/// deadline at or before `now`, and putting them back again changes nothing.
pub proof fn lemma_requeue_leaves_only_live(s: BrokerModel, now: u128)
    ensures
        forall|i: int|
            0 <= i < s.requeued(now).in_flight.len() ==> now
                < #[trigger] s.requeued(now).in_flight[i].deadline_ns,
        s.requeued(now).requeued(now) == s.requeued(now),
{
    lemma_live_shape(s.in_flight, now);
    let t = s.requeued(now);
    lemma_live_all(t.in_flight, now);
    assert forall|q: Seq<char>| #[trigger] expired_messages(t.in_flight, now, q) == Seq::<
        MessageView,
    >::empty() by {
        lemma_no_expired(t.in_flight, now, q);
    }
    assert(t.requeued(now).ready =~= t.ready) by {
        assert forall|q: Seq<char>| t.ready.contains_key(q) implies #[trigger] t.requeued(now).ready[q]
            == t.ready[q] by {
            assert(expired_messages(t.in_flight, now, q) + queue_of(t.ready, q) =~= t.ready[q]);
        }
    }
}

proof fn lemma_live_all(flights: Seq<DeliveryView>, now: u128)
    requires
        forall|i: int| 0 <= i < flights.len() ==> now < #[trigger] flights[i].deadline_ns,
    ensures
        live_deliveries(flights, now) == flights,
    decreases flights.len(),
{
    if flights.len() > 0 {
        let rest = flights.drop_first();
        assert forall|i: int| 0 <= i < rest.len() implies now < #[trigger] rest[i].deadline_ns by {
            assert(rest[i] == flights[i + 1]);
        }
        lemma_live_all(rest, now);
        assert(seq![flights[0]] + rest =~= flights);
    }
}

proof fn lemma_no_expired(flights: Seq<DeliveryView>, now: u128, q: Seq<char>)
    requires
        forall|i: int| 0 <= i < flights.len() ==> now < #[trigger] flights[i].deadline_ns,
    ensures
        expired_messages(flights, now, q) == Seq::<MessageView>::empty(),
    decreases flights.len(),
{
    if flights.len() > 0 {
        let rest = flights.drop_first();
        assert forall|i: int| 0 <= i < rest.len() implies now < #[trigger] rest[i].deadline_ns by {
            assert(rest[i] == flights[i + 1]);
        }
        lemma_no_expired(rest, now, q);
    }
}

proof fn lemma_count_append(a: Seq<DeliveryView>, b: Seq<DeliveryView>, q: Seq<char>)
    ensures
        count_in_queue(a + b, q) == count_in_queue(a, q) + count_in_queue(b, q),
    decreases a.len(),
{
    if a.len() > 0 {
        lemma_count_append(a.drop_first(), b, q);
        assert((a + b).drop_first() =~= a.drop_first() + b);
        assert((a + b)[0] == a[0]);
    } else {
        assert(a + b =~= b);
    }
}

proof fn lemma_count_uniform(ds: Seq<DeliveryView>, q0: Seq<char>, q: Seq<char>)
    requires
        forall|k: int| 0 <= k < ds.len() ==> #[trigger] ds[k].message.queue == q0,
    ensures
        count_in_queue(ds, q) == if q == q0 {
            ds.len()
        } else {
            0
        },
    decreases ds.len(),
{
    if ds.len() > 0 {
        let rest = ds.drop_first();
        assert forall|k: int| 0 <= k < rest.len() implies #[trigger] rest[k].message.queue == q0 by {
            assert(rest[k] == ds[k + 1]);
        }
        lemma_count_uniform(rest, q0, q);
    }
}

/// Delivery ids `ids` are new: none is in flight in `flights`, and none
/// occurs twice.
pub open spec fn fresh_ids(flights: Seq<DeliveryView>, ids: Seq<Seq<char>>) -> bool {
    &&& forall|k: int| 0 <= k < ids.len() ==> !has_delivery(flights, #[trigger] ids[k])
    &&& forall|a: int, b: int| 0 <= a < b < ids.len() ==> #[trigger] ids[a] != #[trigger] ids[b]
}

proof fn lemma_insert_fresh(flights: Seq<DeliveryView>, ds: Seq<DeliveryView>)
    requires
        forall|k: int| 0 <= k < ds.len() ==> !has_delivery(flights, #[trigger] ds[k].delivery_id),
        forall|a: int, b: int|
            0 <= a < b < ds.len() ==> #[trigger] ds[a].delivery_id != #[trigger] ds[b].delivery_id,
    ensures
        insert_deliveries(flights, ds) == flights + ds,
    decreases ds.len(),
{
    if ds.len() > 0 {
        let prefix = ds.drop_last();
        let d = ds.last();
        assert forall|k: int| 0 <= k < prefix.len() implies !has_delivery(
            flights,
            #[trigger] prefix[k].delivery_id,
        ) by {
            assert(prefix[k] == ds[k]);
        }
        assert forall|a: int, b: int| 0 <= a < b < prefix.len() implies #[trigger] prefix[a].delivery_id
            != #[trigger] prefix[b].delivery_id by {
            assert(prefix[a] == ds[a] && prefix[b] == ds[b]);
        }
        lemma_insert_fresh(flights, prefix);
        let joined = flights + prefix;
        assert(!has_delivery(joined, d.delivery_id)) by {
            assert(!has_delivery(flights, ds[ds.len() - 1].delivery_id));
            assert forall|j: int| 0 <= j < joined.len() implies #[trigger] joined[j].delivery_id
                != d.delivery_id by {
                if j < flights.len() {
                    assert(joined[j] == flights[j]);
                } else {
                    assert(joined[j] == ds[j - flights.len()]);
                    assert(ds[j - flights.len()].delivery_id != ds[ds.len() - 1].delivery_id);
                }
            }
        }
        lemma_without_absent(joined, d.delivery_id);
        assert(joined.push(d) =~= flights + ds);
    } else {
        assert(flights + ds =~= flights);
    }
}

/// Messages handed out under new delivery ids join the in-flight set after
/// the deliveries already there, in order; none of those is replaced.
pub proof fn lemma_new_deliveries_fresh(s: BrokerModel, q: Seq<char>, ids: Seq<Seq<char>>, deadline: u128)
    requires
        ids.len() <= s.queue(q).len(),
        fresh_ids(s.in_flight, ids),
    ensures
        s.deliver(q, ids, deadline).in_flight == s.in_flight + new_deliveries(
            s.queue(q),
            ids,
            deadline,
        ),
{
    let ds = new_deliveries(s.queue(q), ids, deadline);
    assert forall|k: int| 0 <= k < ds.len() implies !has_delivery(
        s.in_flight,
        #[trigger] ds[k].delivery_id,
    ) by {
        assert(ds[k].delivery_id == ids[k]);
    }
    assert forall|a: int, b: int| 0 <= a < b < ds.len() implies #[trigger] ds[a].delivery_id
        != #[trigger] ds[b].delivery_id by {
        assert(ids[a] != ids[b]);
    }
    lemma_insert_fresh(s.in_flight, ds);
}

/// Handing out messages under new delivery ids neither loses nor duplicates
/// a message: each queue holds as many messages, ready or in flight, as
/// before, and every ready message stays in the queue it names.
pub proof fn lemma_deliver_keeps_totals(
    s: BrokerModel,
    q: Seq<char>,
    ids: Seq<Seq<char>>,
    deadline: u128,
    r: Seq<char>,
)
    requires
        consistent(s),
        ids.len() <= s.queue(q).len(),
        fresh_ids(s.in_flight, ids),
    ensures
        total(s.deliver(q, ids, deadline), r) == total(s, r),
        consistent(s.deliver(q, ids, deadline)),
{
    let t = s.deliver(q, ids, deadline);
    let ds = new_deliveries(s.queue(q), ids, deadline);
    lemma_new_deliveries_fresh(s, q, ids, deadline);
    lemma_count_append(s.in_flight, ds, r);
    if ids.len() > 0 {
        assert forall|k: int| 0 <= k < ds.len() implies #[trigger] ds[k].message.queue == q by {
            assert(s.ready[q][k].queue == q);
        }
        lemma_count_uniform(ds, q, r);
    } else {
        assert(ds =~= Seq::<DeliveryView>::empty());
    }
    assert forall|x: Seq<char>, i: int|
        t.ready.contains_key(x) && 0 <= i < t.ready[x].len() implies #[trigger] t.ready[x][i].queue
        == x by {
        if x == q {
            assert(t.ready[x][i] == s.ready[q][i + ids.len()]);
        }
    }
}

/// Appending a message to its queue adds one to that queue and leaves the
/// others as they were; every ready message stays in the queue it names.
pub proof fn lemma_enqueue_totals(s: BrokerModel, m: MessageView, r: Seq<char>)
    ensures
        total(s.enqueue(m), r) == total(s, r) + if r == m.queue {
            1nat
        } else {
            0nat
        },
        s.enqueue(m).queue(m.queue) == s.queue(m.queue).push(m),
        r != m.queue ==> s.enqueue(m).queue(r) == s.queue(r),
        consistent(s) ==> consistent(s.enqueue(m)),
{
    let t = s.enqueue(m);
    if consistent(s) {
        assert forall|x: Seq<char>, i: int|
            t.ready.contains_key(x) && 0 <= i < t.ready[x].len() implies #[trigger] t.ready[x][i].queue
            == x by {
            if x == m.queue && i < s.queue(x).len() {
                assert(t.ready[x][i] == s.ready[x][i]);
            }
        }
    }
}

proof fn lemma_count_remove(flights: Seq<DeliveryView>, i: int, q: Seq<char>)
    requires
        0 <= i < flights.len(),
    ensures
        count_in_queue(flights.remove(i), q) + (if flights[i].message.queue == q {
            1nat
        } else {
            0nat
        }) == count_in_queue(flights, q),
{
    let a = flights.take(i);
    let b = flights.skip(i + 1);
    assert(flights.remove(i) =~= a + b);
    assert(flights =~= a + (seq![flights[i]] + b));
    lemma_count_append(a, b, q);
    lemma_count_append(a, seq![flights[i]] + b, q);
    lemma_count_append(seq![flights[i]], b, q);
    assert(seq![flights[i]].drop_first() =~= Seq::<DeliveryView>::empty());
    assert(count_in_queue(Seq::<DeliveryView>::empty(), q) == 0);
    assert(count_in_queue(seq![flights[i]], q) == count_in_queue(seq![flights[i]].drop_first(), q) + (
    if flights[i].message.queue == q {
        1nat
    } else {
        0nat
    }));
}

/// Settling a delivery (an acknowledgement, or a rejection without requeue)
/// removes exactly its message: the queue it names holds one message fewer,
/// the others as many as before; the delivery cannot be settled a second
/// time. Settling an unknown delivery changes nothing.
pub proof fn lemma_settle_totals(s: BrokerModel, id: Seq<char>, r: Seq<char>)
    requires
        ids_distinct(s.in_flight),
    ensures
        !has_delivery(s.settle(id).in_flight, id),
        has_delivery(s.in_flight, id) ==> total(s.settle(id), r) + (if delivery_with(
            s.in_flight,
            id,
        ).message.queue == r {
            1nat
        } else {
            0nat
        }) == total(s, r),
        !has_delivery(s.in_flight, id) ==> s.settle(id) == s,
{
    crate::flights::lemma_without_shape(s.in_flight, id);
    if has_delivery(s.in_flight, id) {
        let i = choose|i: int| 0 <= i < s.in_flight.len() && #[trigger] s.in_flight[i].delivery_id == id;
        lemma_without_at(s.in_flight, id, i);
        lemma_count_remove(s.in_flight, i, r);
    } else {
        lemma_without_absent(s.in_flight, id);
    }
}

/// Returning a delivery to its queue neither loses nor duplicates a message,
/// and the message stands first in its queue.
pub proof fn lemma_return_keeps_totals(s: BrokerModel, id: Seq<char>, r: Seq<char>)
    requires
        ids_distinct(s.in_flight),
        has_delivery(s.in_flight, id),
    ensures
        total(s.return_to_queue(id), r) == total(s, r),
        s.return_to_queue(id).queue(delivery_with(s.in_flight, id).message.queue)[0] == delivery_with(
            s.in_flight,
            id,
        ).message,
        consistent(s) ==> consistent(s.return_to_queue(id)),
{
    let i = choose|i: int| 0 <= i < s.in_flight.len() && #[trigger] s.in_flight[i].delivery_id == id;
    lemma_without_at(s.in_flight, id, i);
    lemma_count_remove(s.in_flight, i, r);
    let m = delivery_with(s.in_flight, id).message;
    let t = s.return_to_queue(id);
    if consistent(s) {
        assert forall|x: Seq<char>, k: int|
            t.ready.contains_key(x) && 0 <= k < t.ready[x].len() implies #[trigger] t.ready[x][k].queue
            == x by {
            if x == m.queue && k > 0 {
                assert(t.ready[x][k] == s.ready[x][k - 1]);
            }
        }
    }
}

proof fn lemma_expired_in_queue(flights: Seq<DeliveryView>, now: u128, q: Seq<char>)
    ensures
        forall|i: int|
            0 <= i < expired_messages(flights, now, q).len() ==> #[trigger] expired_messages(
                flights,
                now,
                q,
            )[i].queue == q,
    decreases flights.len(),
{
    if flights.len() > 0 {
        lemma_expired_in_queue(flights.drop_first(), now, q);
        let rest = expired_messages(flights.drop_first(), now, q);
        let e = expired_messages(flights, now, q);
        if flights[0].deadline_ns <= now && flights[0].message.queue == q {
            assert forall|i: int| 0 <= i < e.len() implies #[trigger] e[i].queue == q by {
                if i > 0 {
                    assert(e[i] == rest[i - 1]);
                }
            }
        }
    }
}

/// Putting expired deliveries back keeps every ready message in the queue
/// it names.
pub proof fn lemma_requeue_consistent(s: BrokerModel, now: u128)
    requires
        consistent(s),
    ensures
        consistent(s.requeued(now)),
{
    let t = s.requeued(now);
    assert forall|x: Seq<char>, i: int|
        t.ready.contains_key(x) && 0 <= i < t.ready[x].len() implies #[trigger] t.ready[x][i].queue
        == x by {
        lemma_expired_in_queue(s.in_flight, now, x);
        let e = expired_messages(s.in_flight, now, x);
        if i < e.len() {
            assert(t.ready[x][i] == e[i]);
        } else {
            assert(t.ready[x][i] == s.ready[x][i - e.len()]);
        }
    }
}

/// The messages handed out under new ids are in flight under those ids, one
/// attempt more each, and ids stay distinct: each one can be acknowledged
/// or rejected.
pub proof fn lemma_delivered_in_flight(s: BrokerModel, q: Seq<char>, ids: Seq<Seq<char>>, deadline: u128)
    requires
        ids_distinct(s.in_flight),
        ids.len() <= s.queue(q).len(),
        fresh_ids(s.in_flight, ids),
    ensures
        ids_distinct(s.deliver(q, ids, deadline).in_flight),
        forall|k: int|
            0 <= k < ids.len() ==> {
                &&& has_delivery(s.deliver(q, ids, deadline).in_flight, #[trigger] ids[k])
                &&& delivery_with(s.deliver(q, ids, deadline).in_flight, ids[k]) == (DeliveryView {
                    delivery_id: ids[k],
                    message: s.queue(q)[k].bumped(),
                    deadline_ns: deadline,
                })
            },
{
    lemma_new_deliveries_fresh(s, q, ids, deadline);
    let f = s.in_flight;
    let t = s.deliver(q, ids, deadline).in_flight;
    let n = f.len();
    assert forall|a: int, b: int| 0 <= a < b < t.len() implies #[trigger] t[a].delivery_id
        != #[trigger] t[b].delivery_id by {
        if b < n {
            assert(f[a].delivery_id != f[b].delivery_id);
        } else if a < n {
            assert(!has_delivery(f, ids[b - n]));
            assert(t[a] == f[a]);
        } else {
            assert(ids[a - n] != ids[b - n]);
        }
    }
    assert forall|k: int| 0 <= k < ids.len() implies {
        &&& has_delivery(t, #[trigger] ids[k])
        &&& delivery_with(t, ids[k]) == (DeliveryView {
            delivery_id: ids[k],
            message: s.queue(q)[k].bumped(),
            deadline_ns: deadline,
        })
    } by {
        assert(t[n + k].delivery_id == ids[k]);
        lemma_without_at(t, ids[k], n + k);
    }
}

/// A message pulled and then acknowledged leaves the broker: the queue is
/// as it was without its first message, and the in-flight set as it was.
/// Pulled and then rejected with requeue, it is back at the front of its
/// queue with one attempt more, and the in-flight set is as it was.
pub proof fn lemma_pull_then_settle(s: BrokerModel, q: Seq<char>, id: Seq<char>, deadline: u128)
    requires
        consistent(s),
        ids_distinct(s.in_flight),
        s.queue(q).len() > 0,
        !has_delivery(s.in_flight, id),
    ensures
        s.deliver(q, seq![id], deadline).settle(id) == (BrokerModel {
            ready: s.ready.insert(q, s.queue(q).drop_first()),
            in_flight: s.in_flight,
        }),
        s.deliver(q, seq![id], deadline).return_to_queue(id) == (BrokerModel {
            ready: s.ready.insert(q, seq![s.queue(q)[0].bumped()] + s.queue(q).drop_first()),
            in_flight: s.in_flight,
        }),
{
    let ids = seq![id];
    let t = s.deliver(q, ids, deadline);
    lemma_delivered_in_flight(s, q, ids, deadline);
    lemma_new_deliveries_fresh(s, q, ids, deadline);
    let n = s.in_flight.len() as int;
    assert(t.in_flight[n].delivery_id == id);
    lemma_without_at(t.in_flight, id, n);
    assert(t.in_flight.remove(n) =~= s.in_flight);
    assert(s.queue(q).skip(1) =~= s.queue(q).drop_first());
    assert(s.ready[q][0].queue == q);
    assert(t.queue(q) == s.queue(q).drop_first());
    assert(t.return_to_queue(id).ready =~= s.ready.insert(
        q,
        seq![s.queue(q)[0].bumped()] + s.queue(q).drop_first(),
    ));
    assert(t.settle(id).ready =~= s.ready.insert(q, s.queue(q).drop_first()));
}

/// A published message goes behind every message already waiting in its
/// queue: pulls hand those out first, exactly as they would have, and the
/// new message is next after them. Other queues are not touched.
pub proof fn lemma_publish_fifo(
    s: BrokerModel,
    m: MessageView,
    ids: Seq<Seq<char>>,
    deadline: u128,
    r: Seq<char>,
)
    requires
        ids.len() <= s.queue(m.queue).len(),
    ensures
        s.enqueue(m).delivered(m.queue, ids) == s.delivered(m.queue, ids),
        ids.len() == s.queue(m.queue).len() ==> s.enqueue(m).deliver(m.queue, ids, deadline).queue(
            m.queue,
        ) == seq![m],
        r != m.queue ==> s.enqueue(m).queue(r) == s.queue(r),
{
    let t = s.enqueue(m);
    assert(t.queue(m.queue) == s.queue(m.queue).push(m));
    assert(t.delivered(m.queue, ids) =~= s.delivered(m.queue, ids));
    if ids.len() == s.queue(m.queue).len() {
        assert(s.queue(m.queue).push(m).skip(ids.len() as int) =~= seq![m]);
    }
}

/// Handing out messages of queue `q` does not touch any other queue.
pub proof fn lemma_deliver_isolated(
    s: BrokerModel,
    q: Seq<char>,
    ids: Seq<Seq<char>>,
    deadline: u128,
    r: Seq<char>,
)
    requires
        r != q,
    ensures
        s.deliver(q, ids, deadline).queue(r) == s.queue(r),
{
}

/// The messages of `msgs` that belong to queue `q`, in order.
pub open spec fn messages_of(msgs: Seq<MessageView>, q: Seq<char>) -> Seq<MessageView>
    decreases msgs.len(),
{
    if msgs.len() == 0 {
        Seq::empty()
    } else {
        let rest = messages_of(msgs.drop_first(), q);
        if msgs[0].queue == q {
            seq![msgs[0]] + rest
        } else {
            rest
        }
    }
}

proof fn lemma_messages_of_push(msgs: Seq<MessageView>, x: MessageView, q: Seq<char>)
    ensures
        messages_of(msgs.push(x), q) == messages_of(msgs, q) + if x.queue == q {
            seq![x]
        } else {
            Seq::empty()
        },
    decreases msgs.len(),
{
    if msgs.len() == 0 {
        assert(msgs.push(x).drop_first() =~= Seq::<MessageView>::empty());
        assert(messages_of(Seq::<MessageView>::empty(), q) == Seq::<MessageView>::empty());
        assert(seq![x] + Seq::<MessageView>::empty() =~= seq![x]);
        assert(Seq::<MessageView>::empty() + seq![x] =~= seq![x]);
        assert(Seq::<MessageView>::empty() + Seq::<MessageView>::empty() =~= Seq::<MessageView>::empty());
    } else {
        lemma_messages_of_push(msgs.drop_first(), x, q);
        assert(msgs.push(x).drop_first() =~= msgs.drop_first().push(x));
        assert(msgs.push(x)[0] == msgs[0]);
        let tail = if x.queue == q {
            seq![x]
        } else {
            Seq::<MessageView>::empty()
        };
        assert(seq![msgs[0]] + (messages_of(msgs.drop_first(), q) + tail) =~= (seq![msgs[0]]
            + messages_of(msgs.drop_first(), q)) + tail);
    }
}

proof fn lemma_in_queue_of_messages(msgs: Seq<MessageView>, q: Seq<char>)
    ensures
        forall|i: int| 0 <= i < messages_of(msgs, q).len() ==> #[trigger] messages_of(msgs, q)[i].queue == q,
    decreases msgs.len(),
{
    if msgs.len() > 0 {
        lemma_in_queue_of_messages(msgs.drop_first(), q);
        let rest = messages_of(msgs.drop_first(), q);
        let all = messages_of(msgs, q);
        if msgs[0].queue == q {
            assert forall|i: int| 0 <= i < all.len() implies #[trigger] all[i].queue == q by {
                if i > 0 {
                    assert(all[i] == rest[i - 1]);
                }
            }
        }
    }
}

proof fn lemma_append_each(
    ready: Map<Seq<char>, Seq<MessageView>>,
    msgs: Seq<MessageView>,
    q: Seq<char>,
)
    ensures
        queue_of(append_each(ready, msgs), q) == queue_of(ready, q) + messages_of(msgs, q),
        append_each(ready, msgs).contains_key(q) <==> (ready.contains_key(q) || messages_of(
            msgs,
            q,
        ).len() > 0),
    decreases msgs.len(),
{
    if msgs.len() == 0 {
        assert(queue_of(ready, q) + Seq::<MessageView>::empty() =~= queue_of(ready, q));
    } else {
        let prefix = msgs.drop_last();
        let x = msgs.last();
        lemma_append_each(ready, prefix, q);
        lemma_messages_of_push(prefix, x, q);
        assert(prefix.push(x) =~= msgs);
        if x.queue == q {
            assert((queue_of(ready, q) + messages_of(prefix, q)).push(x) =~= queue_of(ready, q) + (
            messages_of(prefix, q) + seq![x]));
        } else {
            assert(messages_of(prefix, q) + Seq::<MessageView>::empty() =~= messages_of(prefix, q));
        }
    }
}

proof fn lemma_count_is_messages(flights: Seq<DeliveryView>, q: Seq<char>)
    ensures
        count_in_queue(flights, q) == messages_of(in_flight_messages(flights), q).len(),
    decreases flights.len(),
{
    if flights.len() > 0 {
        lemma_count_is_messages(flights.drop_first(), q);
        assert(in_flight_messages(flights).drop_first() =~= in_flight_messages(flights.drop_first()));
        assert(in_flight_messages(flights)[0] == flights[0].message);
    }
}

proof fn lemma_messages_of_carried(flights: Seq<DeliveryView>, q: Seq<char>)
    ensures
        messages_of(in_flight_messages(flights), q) == flights.filter(in_queue(q)).map_values(
            carried(),
        ),
    decreases flights.len(),
{
    if flights.len() == 0 {
        reveal(Seq::filter);
        assert(flights.filter(in_queue(q)).map_values(carried()) =~= Seq::<MessageView>::empty());
    } else {
        let rest = flights.drop_first();
        lemma_messages_of_carried(rest, q);
        assert(seq![flights[0]] + rest =~= flights);
        rest.lemma_filter_prepend(flights[0], in_queue(q));
        assert(in_flight_messages(flights).drop_first() =~= in_flight_messages(rest));
        assert(in_flight_messages(flights)[0] == flights[0].message);
        let fr = rest.filter(in_queue(q));
        if flights[0].message.queue == q {
            assert((seq![flights[0]] + fr).map_values(carried()) =~= seq![flights[0].message]
                + fr.map_values(carried()));
        } else {
            assert(Seq::<DeliveryView>::empty() + fr =~= fr);
        }
    }
}

/// A restart from the stored snapshot of a state loses no message: nothing
/// is in flight any more, and each queue holds its ready messages followed
/// by those of its messages that were in flight, in delivery order. A state
/// with nothing in flight comes back exactly as it was.
pub proof fn lemma_restart(s: BrokerModel, p: PersistentView, q: Seq<char>)
    requires
        load_ready(p.ready) == s.ready,
        p.in_flight.len() == s.in_flight.len(),
        forall|i: int| 0 <= i < p.in_flight.len() ==> #[trigger] p.in_flight[i] == s.in_flight[i].message,
    ensures
        restored(p).in_flight.len() == 0,
        restored(p).queue(q) == s.queue(q) + messages_of(in_flight_messages(s.in_flight), q),
        restored(p).queue(q) == s.queue(q) + s.in_flight.filter(in_queue(q)).map_values(carried()),
        total(restored(p), q) == total(s, q),
        consistent(s) ==> consistent(restored(p)),
        s.in_flight.len() == 0 ==> restored(p) == s,
{
    assert(p.in_flight =~= in_flight_messages(s.in_flight));
    lemma_messages_of_carried(s.in_flight, q);
    lemma_append_each(s.ready, p.in_flight, q);
    lemma_count_is_messages(s.in_flight, q);
    let t = restored(p);
    if consistent(s) {
        assert forall|x: Seq<char>, i: int|
            t.ready.contains_key(x) && 0 <= i < t.ready[x].len() implies #[trigger] t.ready[x][i].queue
            == x by {
            lemma_append_each(s.ready, p.in_flight, x);
            lemma_in_queue_of_messages(p.in_flight, x);
            let a = queue_of(s.ready, x);
            if i < a.len() {
                assert(t.ready[x][i] == s.ready[x][i]);
            } else {
                assert(t.ready[x][i] == messages_of(p.in_flight, x)[i - a.len()]);
            }
        }
    }
    if s.in_flight.len() == 0 {
        assert(p.in_flight =~= Seq::<MessageView>::empty());
        assert(t.in_flight =~= s.in_flight);
    }
}

/// A delivery whose deadline has passed is no longer in flight once expired
/// deliveries are put back, so it can no longer be acknowledged or
/// rejected.
pub proof fn lemma_expired_cannot_settle(s: BrokerModel, now: u128, i: int)
    requires
        ids_distinct(s.in_flight),
        0 <= i < s.in_flight.len(),
        s.in_flight[i].deadline_ns <= now,
    ensures
        !has_delivery(s.requeued(now).in_flight, s.in_flight[i].delivery_id),
{
    lemma_live_shape(s.in_flight, now);
    let f = s.in_flight;
    let l = s.requeued(now).in_flight;
    assert forall|j: int| 0 <= j < l.len() implies #[trigger] l[j].delivery_id != f[i].delivery_id by {
        let k = choose|k: int| 0 <= k < f.len() && l[j] == f[k];
        assert(now < l[j].deadline_ns);
        if k != i && l[j].delivery_id == f[i].delivery_id {
            if k < i {
                assert(f[k].delivery_id != f[i].delivery_id);
            } else {
                assert(f[i].delivery_id != f[k].delivery_id);
            }
        }
    }
}

proof fn lemma_absent_from_members(flights: Seq<DeliveryView>, w: Seq<DeliveryView>, id: Seq<char>)
    requires
        !has_delivery(flights, id),
        forall|j: int|
            0 <= j < w.len() ==> exists|k: int| 0 <= k < flights.len() && #[trigger] w[j] == flights[k],
    ensures
        !has_delivery(w, id),
{
    assert forall|j: int| 0 <= j < w.len() implies #[trigger] w[j].delivery_id != id by {
        let k = choose|k: int| 0 <= k < flights.len() && w[j] == flights[k];
        assert(flights[k].delivery_id != id);
    }
}

proof fn lemma_insert_absent(flights: Seq<DeliveryView>, ds: Seq<DeliveryView>, id: Seq<char>)
    requires
        !has_delivery(flights, id),
        forall|k: int| 0 <= k < ds.len() ==> #[trigger] ds[k].delivery_id != id,
    ensures
        !has_delivery(insert_deliveries(flights, ds), id),
    decreases ds.len(),
{
    if ds.len() > 0 {
        let prefix = ds.drop_last();
        assert forall|k: int| 0 <= k < prefix.len() implies #[trigger] prefix[k].delivery_id != id by {
            assert(prefix[k] == ds[k]);
        }
        lemma_insert_absent(flights, prefix, id);
        let before = insert_deliveries(flights, prefix);
        let d = ds.last();
        crate::flights::lemma_without_shape(before, d.delivery_id);
        let w = without_delivery(before, d.delivery_id);
        lemma_absent_from_members(before, w, id);
        assert(d.delivery_id != id);
        let r = w.push(d);
        assert forall|j: int| 0 <= j < r.len() implies #[trigger] r[j].delivery_id != id by {
            if j < w.len() {
                assert(r[j] == w[j]);
            }
        }
    }
}

/// Once a delivery id is out of flight it stays out: putting expired
/// deliveries back, publishing, and settling or returning other deliveries
/// do not bring it back, and settling it again changes nothing. Only a pull
/// that hands a message out under that very id brings it back.
pub proof fn lemma_settled_stays_settled(
    s: BrokerModel,
    id: Seq<char>,
    now: u128,
    m: MessageView,
    other: Seq<char>,
    q: Seq<char>,
    ids: Seq<Seq<char>>,
    deadline: u128,
)
    requires
        !has_delivery(s.in_flight, id),
    ensures
        s.settle(id) == s,
        !has_delivery(s.requeued(now).in_flight, id),
        !has_delivery(s.enqueue(m).in_flight, id),
        !has_delivery(s.settle(other).in_flight, id),
        !has_delivery(s.return_to_queue(other).in_flight, id),
        (forall|k: int| 0 <= k < ids.len() ==> #[trigger] ids[k] != id) ==> !has_delivery(
            s.deliver(q, ids, deadline).in_flight,
            id,
        ),
{
    lemma_without_absent(s.in_flight, id);
    assert(s.settle(id).in_flight == s.in_flight);
    assert(s.settle(id) == s);
    lemma_live_shape(s.in_flight, now);
    lemma_absent_from_members(s.in_flight, live_deliveries(s.in_flight, now), id);
    crate::flights::lemma_without_shape(s.in_flight, other);
    lemma_absent_from_members(s.in_flight, without_delivery(s.in_flight, other), id);
    if forall|k: int| 0 <= k < ids.len() ==> #[trigger] ids[k] != id {
        let ds = new_deliveries(s.queue(q), ids, deadline);
        assert forall|k: int| 0 <= k < ds.len() implies #[trigger] ds[k].delivery_id != id by {
            assert(ds[k].delivery_id == ids[k]);
        }
        lemma_insert_absent(s.in_flight, ds, id);
    }
}

/// Putting expired deliveries back returns to each queue, at its front and
/// in delivery order, exactly the messages of that queue's deliveries whose
/// deadline has passed, each unchanged; exactly the deliveries whose deadline
/// is still ahead stay in flight.
pub proof fn lemma_requeue_returns_carried(s: BrokerModel, now: u128, q: Seq<char>)
    ensures
        s.requeued(now).queue(q) == s.in_flight.filter(expired_for(now, q)).map_values(carried()) + s.queue(q),
        s.requeued(now).in_flight == s.in_flight.filter(live_at(now)),
        s.requeued(now).queue(q).len() == s.in_flight.filter(expired_for(now, q)).len() + s.queue(
            q,
        ).len(),
        forall|i: int|
            0 <= i < s.in_flight.filter(expired_for(now, q)).len() ==> #[trigger] s.requeued(
                now,
            ).queue(q)[i] == s.in_flight.filter(expired_for(now, q))[i].message,
        forall|i: int|
            0 <= i < s.queue(q).len() ==> s.requeued(now).queue(q)[s.in_flight.filter(
                expired_for(now, q),
            ).len() + i] == #[trigger] s.queue(q)[i],
{
    lemma_requeued_queue(s, now, q);
    lemma_expired_are_carried(s.in_flight, now, q);
    let e = s.in_flight.filter(expired_for(now, q));
    let r = s.requeued(now).queue(q);
    assert(r == e.map_values(carried()) + s.queue(q));
    assert forall|i: int| 0 <= i < e.len() implies #[trigger] r[i] == e[i].message by {
        assert(r[i] == e.map_values(carried())[i]);
    }
    assert forall|i: int| 0 <= i < s.queue(q).len() implies r[e.len() + i] == #[trigger] s.queue(
        q,
    )[i] by {}
}

} // verus!
