//! Deliveries in flight: messages handed to a consumer under a delivery id,
//! waiting for an acknowledgement until a deadline. Times are nanoseconds on
//! the broker's monotonic clock. The deliveries are kept in
//! the order in which they were handed out, and no delivery id occurs twice.

use std::collections::VecDeque;
use vstd::prelude::*;

use crate::message::{MessageView, StoredMessage};
use crate::queues::queue_of;

verus! {

/// A delivered message that waits for an acknowledgement until its deadline,
/// in nanoseconds on the broker's monotonic clock.
#[derive(Debug)]
pub struct InFlightMessage {
    pub delivery_id: String,
    pub message: StoredMessage,
    pub deadline_ns: u128,
}

/// The value of an in-flight delivery.
pub struct DeliveryView {
    pub delivery_id: Seq<char>,
    pub message: MessageView,
    pub deadline_ns: u128,
}

impl View for InFlightMessage {
    type V = DeliveryView;

    open spec fn view(&self) -> DeliveryView {
        DeliveryView {
            delivery_id: self.delivery_id@,
            message: self.message@,
            deadline_ns: self.deadline_ns,
        }
    }
}

/// The values of a sequence of in-flight deliveries.
pub open spec fn deliveries_view(s: Seq<InFlightMessage>) -> Seq<DeliveryView> {
    s.map_values(|d: InFlightMessage| d@)
}

/// No delivery id occurs twice.
pub open spec fn ids_distinct(flights: Seq<DeliveryView>) -> bool {
    forall|i: int, j: int|
        0 <= i < j < flights.len() ==> #[trigger] flights[i].delivery_id
            != #[trigger] flights[j].delivery_id
}

/// The deliveries of `flights` that have no delivery id `id`.
pub open spec fn without_delivery(flights: Seq<DeliveryView>, id: Seq<char>) -> Seq<DeliveryView>
    decreases flights.len(),
{
    if flights.len() == 0 {
        flights
    } else {
        let rest = without_delivery(flights.drop_first(), id);
        if flights[0].delivery_id == id {
            rest
        } else {
            seq![flights[0]] + rest
        }
    }
}

/// Some delivery of `flights` has delivery id `id`.
pub open spec fn has_delivery(flights: Seq<DeliveryView>, id: Seq<char>) -> bool {
    exists|i: int| 0 <= i < flights.len() && #[trigger] flights[i].delivery_id == id
}

/// The delivery of `flights` with delivery id `id` (meaningful when there is one).
pub open spec fn delivery_with(flights: Seq<DeliveryView>, id: Seq<char>) -> DeliveryView {
    flights[choose|i: int| 0 <= i < flights.len() && #[trigger] flights[i].delivery_id == id]
}

/// `flights` after `d` is recorded: a delivery with the same id is replaced,
/// and `d` goes last.
pub open spec fn insert_delivery(flights: Seq<DeliveryView>, d: DeliveryView) -> Seq<DeliveryView> {
    without_delivery(flights, d.delivery_id).push(d)
}

/// `flights` after each of `ds` is recorded in turn.
pub open spec fn insert_deliveries(flights: Seq<DeliveryView>, ds: Seq<DeliveryView>) -> Seq<
    DeliveryView,
>
    decreases ds.len(),
{
    if ds.len() == 0 {
        flights
    } else {
        insert_delivery(insert_deliveries(flights, ds.drop_last()), ds.last())
    }
}

/// The deliveries of `flights` whose deadline is still ahead at `now`.
pub open spec fn live_deliveries(flights: Seq<DeliveryView>, now: u128) -> Seq<DeliveryView>
    decreases flights.len(),
{
    if flights.len() == 0 {
        flights
    } else {
        let rest = live_deliveries(flights.drop_first(), now);
        if now < flights[0].deadline_ns {
            seq![flights[0]] + rest
        } else {
            rest
        }
    }
}

/// The messages of queue `q` among the deliveries of `flights` whose
/// deadline has passed at `now`, in delivery order.
pub open spec fn expired_messages(flights: Seq<DeliveryView>, now: u128, q: Seq<char>) -> Seq<
    MessageView,
>
    decreases flights.len(),
{
    if flights.len() == 0 {
        Seq::empty()
    } else {
        let rest = expired_messages(flights.drop_first(), now, q);
        if flights[0].deadline_ns <= now && flights[0].message.queue == q {
            seq![flights[0].message] + rest
        } else {
            rest
        }
    }
}

/// Some delivery of `flights` has a deadline that has passed at `now`.
pub open spec fn has_expired(flights: Seq<DeliveryView>, now: u128) -> bool {
    exists|i: int| 0 <= i < flights.len() && #[trigger] flights[i].deadline_ns <= now
}

/// The ready queues after the expired deliveries of `flights` are put back,
/// each at the front of its queue and in delivery order.
pub open spec fn requeue_ready(
    ready: Map<Seq<char>, Seq<MessageView>>,
    flights: Seq<DeliveryView>,
    now: u128,
) -> Map<Seq<char>, Seq<MessageView>> {
    Map::new(
        |q: Seq<char>| ready.contains_key(q) || expired_messages(flights, now, q).len() > 0,
        |q: Seq<char>| expired_messages(flights, now, q) + queue_of(ready, q),
    )
}

/// The number of deliveries of `flights` that carry a message of queue `q`.
pub open spec fn count_in_queue(flights: Seq<DeliveryView>, q: Seq<char>) -> nat
    decreases flights.len(),
{
    if flights.len() == 0 {
        0
    } else {
        count_in_queue(flights.drop_first(), q) + if flights[0].message.queue == q {
            1nat
        } else {
            0nat
        }
    }
}

/// The deliveries made when `msgs` go out under `ids` with deadline `deadline`.
pub open spec fn new_deliveries(msgs: Seq<MessageView>, ids: Seq<Seq<char>>, deadline: u128) -> Seq<
    DeliveryView,
> {
    Seq::new(
        ids.len(),
        |k: int| DeliveryView { delivery_id: ids[k], message: msgs[k].bumped(), deadline_ns: deadline },
    )
}

/// Without any delivery `id`, `flights` is left as it is.
pub proof fn lemma_without_absent(flights: Seq<DeliveryView>, id: Seq<char>)
    requires
        !has_delivery(flights, id),
    ensures
        without_delivery(flights, id) == flights,
    decreases flights.len(),
{
    if flights.len() > 0 {
        let rest = flights.drop_first();
        assert(flights[0].delivery_id != id);
        assert forall|i: int| 0 <= i < rest.len() implies #[trigger] rest[i].delivery_id != id by {
            assert(rest[i] == flights[i + 1]);
        }
        lemma_without_absent(rest, id);
        assert(seq![flights[0]] + rest =~= flights);
    }
}

/// With distinct ids, removing delivery `id` removes exactly position `i`,
/// where it stands.
pub proof fn lemma_without_at(flights: Seq<DeliveryView>, id: Seq<char>, i: int)
    requires
        ids_distinct(flights),
        0 <= i < flights.len(),
        flights[i].delivery_id == id,
    ensures
        without_delivery(flights, id) == flights.remove(i),
        delivery_with(flights, id) == flights[i],
    decreases flights.len(),
{
    let rest = flights.drop_first();
    assert forall|a: int, b: int| 0 <= a < b < rest.len() implies #[trigger] rest[a].delivery_id
        != #[trigger] rest[b].delivery_id by {
        assert(flights[a + 1].delivery_id != flights[b + 1].delivery_id);
    }
    if i == 0 {
        assert forall|j: int| 0 <= j < rest.len() implies #[trigger] rest[j].delivery_id != id by {
            assert(flights[0].delivery_id != flights[j + 1].delivery_id);
        }
        lemma_without_absent(rest, id);
        assert(flights.remove(0) =~= rest);
    } else {
        assert(flights[0].delivery_id != flights[i].delivery_id);
        assert(rest[i - 1] == flights[i]);
        lemma_without_at(rest, id, i - 1);
        assert(seq![flights[0]] + rest.remove(i - 1) =~= flights.remove(i));
    }
    let j = choose|j: int| 0 <= j < flights.len() && #[trigger] flights[j].delivery_id == id;
    if j != i {
        if j < i {
            assert(flights[j].delivery_id != flights[i].delivery_id);
        } else {
            assert(flights[i].delivery_id != flights[j].delivery_id);
        }
    }
}

/// The first delivery of `flights`, put in front of deliveries taken from
/// the rest of `flights`, keeps delivery ids distinct.
proof fn lemma_prepend_first_distinct(flights: Seq<DeliveryView>, w: Seq<DeliveryView>)
    requires
        flights.len() > 0,
        ids_distinct(flights),
        ids_distinct(flights.drop_first()) ==> ids_distinct(w),
        forall|j: int|
            0 <= j < w.len() ==> exists|k: int|
                0 <= k < flights.drop_first().len() && #[trigger] w[j] == flights.drop_first()[k],
    ensures
        ids_distinct(seq![flights[0]] + w),
{
    let rest = flights.drop_first();
    assert forall|a: int, b: int| 0 <= a < b < rest.len() implies #[trigger] rest[a].delivery_id
        != #[trigger] rest[b].delivery_id by {
        assert(flights[a + 1].delivery_id != flights[b + 1].delivery_id);
    }
    let r = seq![flights[0]] + w;
    assert forall|a: int, b: int| 0 <= a < b < r.len() implies #[trigger] r[a].delivery_id
        != #[trigger] r[b].delivery_id by {
        assert(r[b] == w[b - 1]);
        let kb = choose|k: int| 0 <= k < rest.len() && w[b - 1] == rest[k];
        if a == 0 {
            assert(flights[0].delivery_id != flights[kb + 1].delivery_id);
        } else {
            assert(r[a] == w[a - 1]);
        }
    }
}

/// Removing delivery `id` keeps the other deliveries, in order, and leaves
/// no delivery `id`.
pub proof fn lemma_without_shape(flights: Seq<DeliveryView>, id: Seq<char>)
    ensures
        forall|j: int|
            0 <= j < without_delivery(flights, id).len() ==> exists|k: int|
                0 <= k < flights.len() && #[trigger] without_delivery(flights, id)[j]
                    == flights[k],
        forall|j: int|
            0 <= j < without_delivery(flights, id).len()
                ==> #[trigger] without_delivery(flights, id)[j].delivery_id != id,
        ids_distinct(flights) ==> ids_distinct(without_delivery(flights, id)),
        without_delivery(flights, id).len() <= flights.len(),
    decreases flights.len(),
{
    if flights.len() > 0 {
        let rest = flights.drop_first();
        lemma_without_shape(rest, id);
        let w = without_delivery(rest, id);
        assert forall|j: int| 0 <= j < w.len() implies exists|k: int|
            0 <= k < flights.len() && #[trigger] w[j] == flights[k] by {
            let k = choose|k: int| 0 <= k < rest.len() && w[j] == rest[k];
            assert(w[j] == flights[k + 1]);
        }
        if flights[0].delivery_id != id {
            let r = seq![flights[0]] + w;
            assert forall|j: int| 0 <= j < r.len() implies exists|k: int|
                0 <= k < flights.len() && #[trigger] r[j] == flights[k] by {
                if j == 0 {
                    assert(r[0] == flights[0]);
                } else {
                    assert(r[j] == w[j - 1]);
                }
            }
            assert forall|j: int| 0 <= j < r.len() implies #[trigger] r[j].delivery_id != id by {
                if j > 0 {
                    assert(r[j] == w[j - 1]);
                }
            }
            if ids_distinct(flights) {
                lemma_prepend_first_distinct(flights, w);
            }
        }
    }
}

/// Dropping expired deliveries keeps the live ones, in order.
pub proof fn lemma_live_shape(flights: Seq<DeliveryView>, now: u128)
    ensures
        forall|j: int|
            0 <= j < live_deliveries(flights, now).len() ==> exists|k: int|
                0 <= k < flights.len() && #[trigger] live_deliveries(flights, now)[j]
                    == flights[k],
        forall|j: int|
            0 <= j < live_deliveries(flights, now).len() ==> now < #[trigger] live_deliveries(
                flights,
                now,
            )[j].deadline_ns,
        ids_distinct(flights) ==> ids_distinct(live_deliveries(flights, now)),
    decreases flights.len(),
{
    if flights.len() > 0 {
        let rest = flights.drop_first();
        lemma_live_shape(rest, now);
        let w = live_deliveries(rest, now);
        assert forall|j: int| 0 <= j < w.len() implies exists|k: int|
            0 <= k < flights.len() && #[trigger] w[j] == flights[k] by {
            let k = choose|k: int| 0 <= k < rest.len() && w[j] == rest[k];
            assert(w[j] == flights[k + 1]);
        }
        if now < flights[0].deadline_ns {
            let r = seq![flights[0]] + w;
            assert forall|j: int| 0 <= j < r.len() implies exists|k: int|
                0 <= k < flights.len() && #[trigger] r[j] == flights[k] by {
                if j == 0 {
                    assert(r[0] == flights[0]);
                } else {
                    assert(r[j] == w[j - 1]);
                }
            }
            assert forall|j: int| 0 <= j < r.len() implies now < #[trigger] r[j].deadline_ns by {
                if j > 0 {
                    assert(r[j] == w[j - 1]);
                }
            }
            if ids_distinct(flights) {
                lemma_prepend_first_distinct(flights, w);
            }
        }
    }
}

/// Recording a delivery keeps delivery ids distinct.
pub proof fn lemma_insert_distinct(flights: Seq<DeliveryView>, d: DeliveryView)
    requires
        ids_distinct(flights),
    ensures
        ids_distinct(insert_delivery(flights, d)),
{
    lemma_without_shape(flights, d.delivery_id);
    let w = without_delivery(flights, d.delivery_id);
    let r = w.push(d);
    assert forall|a: int, b: int| 0 <= a < b < r.len() implies #[trigger] r[a].delivery_id
        != #[trigger] r[b].delivery_id by {
        if b == w.len() {
            assert(r[a] == w[a]);
        } else {
            assert(w[a].delivery_id != w[b].delivery_id);
        }
    }
}

/// The position of delivery `id`, if it is in flight.
pub fn find_delivery(flights: &VecDeque<InFlightMessage>, id: &String) -> (r: Option<usize>)
    ensures
        match r {
            Some(i) => i < flights@.len() && flights@[i as int].delivery_id@ == id@,
            None => !has_delivery(deliveries_view(flights@), id@),
        },
{
    let mut i: usize = 0;
    while i < flights.len()
        invariant
            i <= flights@.len(),
            forall|j: int| 0 <= j < i ==> #[trigger] flights@[j].delivery_id@ != id@,
        decreases flights.len() - i,
    {
        if flights[i].delivery_id == *id {
            return Some(i);
        }
        i = i + 1;
    }
    proof {
        let v = deliveries_view(flights@);
        assert forall|j: int| 0 <= j < v.len() implies #[trigger] v[j].delivery_id != id@ by {
            assert(v[j] == flights@[j]@);
        }
    }
    None
}

/// Takes delivery `id` out of the in-flight set, if it is there.
pub fn remove_delivery(flights: &mut VecDeque<InFlightMessage>, id: &String) -> (r: Option<
    InFlightMessage,
>)
    requires
        ids_distinct(deliveries_view(old(flights)@)),
    ensures
        ids_distinct(deliveries_view(final(flights)@)),
        deliveries_view(final(flights)@) == without_delivery(deliveries_view(old(flights)@), id@),
        match r {
            Some(d) => {
                &&& has_delivery(deliveries_view(old(flights)@), id@)
                &&& d@ == delivery_with(deliveries_view(old(flights)@), id@)
            },
            None => !has_delivery(deliveries_view(old(flights)@), id@),
        },
{
    let ghost before = deliveries_view(flights@);
    match find_delivery(flights, id) {
        Some(i) => {
            proof {
                assert(before[i as int] == flights@[i as int]@);
                lemma_without_at(before, id@, i as int);
                lemma_without_shape(before, id@);
            }
            let d = flights.remove(i).unwrap();
            proof {
                assert(deliveries_view(flights@) =~= before.remove(i as int));
            }
            Some(d)
        },
        None => {
            proof {
                lemma_without_absent(before, id@);
            }
            None
        },
    }
}

/// Records delivery `d`, replacing one with the same id.
pub fn record_delivery(flights: &mut VecDeque<InFlightMessage>, d: InFlightMessage)
    requires
        ids_distinct(deliveries_view(old(flights)@)),
    ensures
        ids_distinct(deliveries_view(final(flights)@)),
        deliveries_view(final(flights)@) == insert_delivery(deliveries_view(old(flights)@), d@),
{
    let ghost before = deliveries_view(flights@);
    let _ = remove_delivery(flights, &d.delivery_id);
    let ghost mid = flights@;
    flights.push_back(d);
    proof {
        assert(deliveries_view(flights@) =~= deliveries_view(mid).push(d@));
        lemma_insert_distinct(before, d@);
    }
}

/// The number of deliveries in flight that carry a message of queue `q`.
pub fn count_for_queue(flights: &VecDeque<InFlightMessage>, q: &String) -> (r: usize)
    ensures
        r == count_in_queue(deliveries_view(flights@), q@),
{
    let ghost all = deliveries_view(flights@);
    let mut count: usize = 0;
    let mut i: usize = 0;
    assert(all.subrange(0, all.len() as int) =~= all);
    while i < flights.len()
        invariant
            i <= flights@.len(),
            all == deliveries_view(flights@),
            count + count_in_queue(all.subrange(i as int, all.len() as int), q@) == count_in_queue(all, q@),
            count <= i,
        decreases flights.len() - i,
    {
        let ghost tail = all.subrange(i as int, all.len() as int);
        assert(tail.drop_first() =~= all.subrange(i + 1, all.len() as int));
        assert(tail[0] == flights@[i as int]@);
        if flights[i].message.queue == *q {
            count = count + 1;
        }
        i = i + 1;
    }
    proof {
        assert(all.subrange(i as int, all.len() as int) =~= Seq::<DeliveryView>::empty());
    }
    count
}

/// A delivery of a message of queue `q` whose deadline has passed at `now`.
pub open spec fn expired_for(now: u128, q: Seq<char>) -> spec_fn(DeliveryView) -> bool {
    |d: DeliveryView| d.deadline_ns <= now && d.message.queue == q
}

/// A delivery whose deadline is still ahead at `now`.
pub open spec fn live_at(now: u128) -> spec_fn(DeliveryView) -> bool {
    |d: DeliveryView| now < d.deadline_ns
}

/// A delivery that carries a message of queue `q`.
pub open spec fn in_queue(q: Seq<char>) -> spec_fn(DeliveryView) -> bool {
    |d: DeliveryView| d.message.queue == q
}

/// The message a delivery carries.
pub open spec fn carried() -> spec_fn(DeliveryView) -> MessageView {
    |d: DeliveryView| d.message
}

/// The messages put back for queue `q` are exactly, in delivery order and
/// unchanged, the messages of the deliveries of queue `q` whose deadline has
/// passed; the deliveries kept are exactly those whose deadline is ahead.
pub proof fn lemma_expired_are_carried(flights: Seq<DeliveryView>, now: u128, q: Seq<char>)
    ensures
        expired_messages(flights, now, q) == flights.filter(expired_for(now, q)).map_values(carried()),
        live_deliveries(flights, now) == flights.filter(live_at(now)),
    decreases flights.len(),
{
    if flights.len() == 0 {
        reveal(Seq::filter);
        assert(flights.filter(expired_for(now, q)).map_values(carried())
            =~= Seq::<MessageView>::empty());
    } else {
        let rest = flights.drop_first();
        lemma_expired_are_carried(rest, now, q);
        assert(seq![flights[0]] + rest =~= flights);
        rest.lemma_filter_prepend(flights[0], expired_for(now, q));
        rest.lemma_filter_prepend(flights[0], live_at(now));
        let fr = rest.filter(expired_for(now, q));
        if flights[0].deadline_ns <= now && flights[0].message.queue == q {
            assert((seq![flights[0]] + fr).map_values(carried()) =~= seq![
                flights[0].message,
            ] + fr.map_values(carried()));
        } else {
            assert(Seq::<DeliveryView>::empty() + fr =~= fr);
        }
        if now < flights[0].deadline_ns {
        } else {
            assert(Seq::<DeliveryView>::empty() + rest.filter(live_at(now)) =~= rest.filter(
                live_at(now),
            ));
        }
    }
}

} // verus!
