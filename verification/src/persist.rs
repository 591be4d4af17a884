//! The snapshot of the broker state that is written to durable storage, and
//! the state rebuilt from a snapshot after a restart: deliveries that were in
//! flight become ready again, behind the messages that were ready.

use std::collections::VecDeque;
use vstd::prelude::*;

use crate::message::{MessageView, StoredMessage};
use crate::queues::{ReadyQueue, messages_view, names_distinct, queue_of, ready_map};
use crate::flights::{DeliveryView, InFlightMessage, deliveries_view};
use crate::state::{BrokerModel, BrokerState};

verus! {

/// A ready queue as it is stored.
#[derive(Debug)]
pub struct PersistedQueue {
    pub name: String,
    pub messages: Vec<StoredMessage>,
}

/// The stored form of the broker state: the ready queues, and the messages
/// that were in flight.
#[derive(Debug)]
pub struct PersistentState {
    pub ready: Vec<PersistedQueue>,
    pub in_flight: Vec<StoredMessage>,
}

/// The value of a stored snapshot.
pub struct PersistentView {
    pub ready: Seq<(Seq<char>, Seq<MessageView>)>,
    pub in_flight: Seq<MessageView>,
}

/// The value of a stored queue.
pub open spec fn persisted_queue_view(q: PersistedQueue) -> (Seq<char>, Seq<MessageView>) {
    (q.name@, messages_view(q.messages@))
}

impl View for PersistentState {
    type V = PersistentView;

    open spec fn view(&self) -> PersistentView {
        PersistentView {
            ready: self.ready@.map_values(|q: PersistedQueue| persisted_queue_view(q)),
            in_flight: messages_view(self.in_flight@),
        }
    }
}

/// The ready queues rebuilt from stored queues, in order; a name that
/// occurs twice gets the messages of both.
pub open spec fn load_ready(entries: Seq<(Seq<char>, Seq<MessageView>)>) -> Map<
    Seq<char>,
    Seq<MessageView>,
>
    decreases entries.len(),
{
    if entries.len() == 0 {
        Map::empty()
    } else {
        let m = load_ready(entries.drop_last());
        let e = entries.last();
        m.insert(e.0, queue_of(m, e.0) + e.1)
    }
}

/// `ready` after each of `messages` is appended to the back of its queue.
pub open spec fn append_each(ready: Map<Seq<char>, Seq<MessageView>>, messages: Seq<MessageView>) -> Map<
    Seq<char>,
    Seq<MessageView>,
>
    decreases messages.len(),
{
    if messages.len() == 0 {
        ready
    } else {
        let m = append_each(ready, messages.drop_last());
        let x = messages.last();
        m.insert(x.queue, queue_of(m, x.queue).push(x))
    }
}

/// The broker state rebuilt from a snapshot: nothing in flight, the stored
/// queues, and behind them the messages that were in flight.
pub open spec fn restored(p: PersistentView) -> BrokerModel {
    BrokerModel { ready: append_each(load_ready(p.ready), p.in_flight), in_flight: Seq::empty() }
}

/// The messages that are in flight, in delivery order.
pub open spec fn in_flight_messages(flights: Seq<DeliveryView>) -> Seq<MessageView> {
    flights.map_values(|d: DeliveryView| d.message)
}

/// The names of the stored queues are distinct.
pub open spec fn stored_names_distinct(entries: Seq<(Seq<char>, Seq<MessageView>)>) -> bool {
    forall|i: int, j: int| 0 <= i < j < entries.len() ==> #[trigger] entries[i].0 != #[trigger] entries[j].0
}

/// `v` as a double-ended queue, in the same order.
fn into_deque<T>(v: Vec<T>) -> (d: VecDeque<T>)
    ensures
        d@ == v@,
{
    let ghost all = v@;
    let mut v = v;
    let mut d: VecDeque<T> = VecDeque::new();
    while v.len() > 0
        invariant
            v@.len() <= all.len(),
            v@ == all.subrange(0, v@.len() as int),
            d@ == all.subrange(v@.len() as int, all.len() as int),
        decreases v@.len(),
    {
        let ghost n = v@.len() as int;
        let x = v.pop().unwrap();
        d.push_front(x);
        proof {
            assert(v@ =~= all.subrange(0, n - 1));
            assert(d@ =~= all.subrange(n - 1, all.len() as int));
        }
    }
    proof {
        assert(d@ =~= all);
    }
    d
}

/// Appends each of `messages` to the back of queue `name`.
fn append_all(ready: &mut Vec<ReadyQueue>, name: &String, messages: Vec<StoredMessage>)
    requires
        names_distinct(old(ready)@),
    ensures
        names_distinct(final(ready)@),
        ready_map(final(ready)@) == ready_map(old(ready)@).insert(
            name@,
            queue_of(ready_map(old(ready)@), name@) + messages_view(messages@),
        ),
{
    let ghost start = ready_map(ready@);
    let ghost all = messages_view(messages@);
    let mut pending = into_deque(messages);
    let _ = crate::queues::ensure_queue(ready, name);
    proof {
        assert(queue_of(start, name@) + all.take(0) =~= queue_of(start, name@));
        assert(messages_view(pending@) =~= all.skip(0));
    }
    while pending.len() > 0
        invariant
            names_distinct(ready@),
            pending@.len() <= all.len(),
            messages_view(pending@) == all.skip(all.len() - pending@.len()),
            ready_map(ready@) == start.insert(
                name@,
                queue_of(start, name@) + all.take(all.len() - pending@.len()),
            ),
        decreases pending@.len(),
    {
        let ghost k = all.len() - pending@.len();
        let ghost before = pending@;
        let m = pending.pop_front().unwrap();
        proof {
            assert(messages_view(before)[0] == m@);
            assert(messages_view(pending@) =~= messages_view(before).subrange(1, before.len() as int));
            assert(all.skip(k).subrange(1, before.len() as int) =~= all.skip(k + 1));
        }
        crate::queues::push_back_message(ready, name, m);
        proof {
            assert(all.take(k + 1) =~= all.take(k).push(m@));
            assert(ready_map(ready@) =~= start.insert(
                name@,
                queue_of(start, name@) + all.take(k + 1),
            ));
        }
    }
    proof {
        assert(all.take(all.len() as int) =~= all);
    }
}

/// The stored form of a table of ready queues.
pub open spec fn table_view(entries: Seq<ReadyQueue>) -> Seq<(Seq<char>, Seq<MessageView>)> {
    entries.map_values(|q: ReadyQueue| (q.name@, messages_view(q.messages@)))
}

/// Stored queues with distinct names load back as the table they were taken
/// from.
pub proof fn lemma_load_table(entries: Seq<ReadyQueue>)
    requires
        names_distinct(entries),
    ensures
        load_ready(table_view(entries)) == ready_map(entries),
    decreases entries.len(),
{
    if entries.len() == 0 {
        assert(ready_map(entries) =~= Map::<Seq<char>, Seq<MessageView>>::empty());
    } else {
        let prefix = entries.drop_last();
        let e = entries.last();
        assert(names_distinct(prefix)) by {
            assert forall|a: int, b: int| 0 <= a < b < prefix.len() implies #[trigger] prefix[a].name@
                != #[trigger] prefix[b].name@ by {
                assert(entries[a].name@ != entries[b].name@);
            }
        }
        lemma_load_table(prefix);
        assert(table_view(entries).drop_last() =~= table_view(prefix));
        assert(!crate::queues::has_queue(prefix, e.name@)) by {
            assert forall|j: int| 0 <= j < prefix.len() implies #[trigger] prefix[j].name@ != e.name@ by {
                assert(entries[j].name@ != entries[entries.len() - 1].name@);
            }
        }
        crate::queues::lemma_ready_map_push(prefix, e);
        assert(prefix.push(e) =~= entries);
        assert(queue_of(ready_map(prefix), e.name@) + messages_view(e.messages@)
            =~= messages_view(e.messages@));
    }
}

/// A copy of the messages of a queue.
fn copy_messages(messages: &VecDeque<StoredMessage>) -> (r: Vec<StoredMessage>)
    ensures
        messages_view(r@) == messages_view(messages@),
{
    let mut out: Vec<StoredMessage> = Vec::new();
    let mut i: usize = 0;
    while i < messages.len()
        invariant
            i <= messages@.len(),
            messages_view(out@) == messages_view(messages@).take(i as int),
        decreases messages@.len() - i,
    {
        let ghost before = out@;
        out.push(messages[i].duplicate());
        proof {
            assert(messages_view(out@) =~= messages_view(before).push(messages@[i as int]@));
            assert(messages_view(messages@).take(i + 1) =~= messages_view(messages@).take(
                i as int,
            ).push(messages@[i as int]@));
        }
        i = i + 1;
    }
    proof {
        assert(messages_view(messages@).take(i as int) =~= messages_view(messages@));
    }
    out
}

impl BrokerState {
    /// The snapshot to store: every ready queue with its messages, and the
    /// messages in flight in delivery order. Deadlines and delivery ids are
    /// not stored.
    pub fn to_persistent(&self) -> (p: PersistentState)
        ensures
            stored_names_distinct(p@.ready),
            load_ready(p@.ready) == self@.ready,
            p@.in_flight == in_flight_messages(self@.in_flight),
            p@.in_flight.len() == self@.in_flight.len(),
            forall|i: int|
                0 <= i < p@.in_flight.len() ==> #[trigger] p@.in_flight[i]
                    == self@.in_flight[i].message,
    {
        let table = self.ready_table();
        let mut ready: Vec<PersistedQueue> = Vec::new();
        let mut i: usize = 0;
        while i < table.len()
            invariant
                i <= table@.len(),
                ready@.map_values(|q: PersistedQueue| persisted_queue_view(q)) == table_view(
                    table@,
                ).take(i as int),
            decreases table@.len() - i,
        {
            let ghost before = ready@;
            let q = PersistedQueue {
                name: table[i].name.clone(),
                messages: copy_messages(&table[i].messages),
            };
            ready.push(q);
            proof {
                assert(ready@.map_values(|q: PersistedQueue| persisted_queue_view(q)) =~= before.map_values(
                    |q: PersistedQueue| persisted_queue_view(q),
                ).push(persisted_queue_view(q)));
                assert(table_view(table@).take(i + 1) =~= table_view(table@).take(i as int).push(
                    table_view(table@)[i as int],
                ));
            }
            i = i + 1;
        }
        let flights = self.in_flight_table();
        let mut in_flight: Vec<StoredMessage> = Vec::new();
        let mut j: usize = 0;
        while j < flights.len()
            invariant
                j <= flights@.len(),
                deliveries_view_messages(flights@, j as int) == messages_view(in_flight@),
            decreases flights@.len() - j,
        {
            let ghost before = in_flight@;
            in_flight.push(flights[j].message.duplicate());
            proof {
                assert(messages_view(in_flight@) =~= messages_view(before).push(flights@[j as int].message@));
                assert(deliveries_view_messages(flights@, j + 1) =~= deliveries_view_messages(
                    flights@,
                    j as int,
                ).push(flights@[j as int].message@));
            }
            j = j + 1;
        }
        let p = PersistentState { ready, in_flight };
        proof {
            assert(table_view(table@).take(i as int) =~= table_view(table@));
            lemma_load_table(table@);
            assert(p@.ready == table_view(table@));
            assert forall|a: int, b: int| 0 <= a < b < p@.ready.len() implies #[trigger] p@.ready[a].0
                != #[trigger] p@.ready[b].0 by {
                assert(table@[a].name@ != table@[b].name@);
            }
            assert(deliveries_view_messages(flights@, j as int) =~= in_flight_messages(self@.in_flight));
        }
        p
    }

    /// The state rebuilt from a stored snapshot: the stored queues, each
    /// followed by the messages of that queue that were in flight, and
    /// nothing in flight.
    pub fn from_persistent(persistent: PersistentState) -> (s: BrokerState)
        ensures
            s@ == restored(persistent@),
    {
        let ghost p = persistent@;
        let mut ready: Vec<ReadyQueue> = Vec::new();
        let mut stored = into_deque(persistent.ready);
        let ghost all = p.ready;
        proof {
            assert(all.take(0) =~= Seq::<(Seq<char>, Seq<MessageView>)>::empty());
            assert(ready_map(ready@) =~= Map::<Seq<char>, Seq<MessageView>>::empty());
            assert(stored@.map_values(|q: PersistedQueue| persisted_queue_view(q)) =~= all.skip(0));
        }
        while stored.len() > 0
            invariant
                names_distinct(ready@),
                stored@.len() <= all.len(),
                stored@.map_values(|q: PersistedQueue| persisted_queue_view(q)) == all.skip(
                    all.len() - stored@.len(),
                ),
                ready_map(ready@) == load_ready(all.take(all.len() - stored@.len())),
            decreases stored@.len(),
        {
            let ghost k = all.len() - stored@.len();
            let ghost before = stored@;
            let q = stored.pop_front().unwrap();
            proof {
                assert(before.map_values(|q: PersistedQueue| persisted_queue_view(q))[0]
                    == persisted_queue_view(q));
                assert(stored@.map_values(|q: PersistedQueue| persisted_queue_view(q))
                    =~= before.map_values(|q: PersistedQueue| persisted_queue_view(q)).subrange(
                    1,
                    before.len() as int,
                ));
                assert(all.skip(k).subrange(1, before.len() as int) =~= all.skip(k + 1));
                assert(all.take(k + 1).drop_last() =~= all.take(k));
                assert(all[k] == persisted_queue_view(q));
            }
            append_all(&mut ready, &q.name, q.messages);
        }
        proof {
            assert(all.take(all.len() as int) =~= all);
        }
        let ghost loaded = ready_map(ready@);
        let ghost moved = p.in_flight;
        let mut pending = into_deque(persistent.in_flight);
        proof {
            assert(moved.take(0) =~= Seq::<MessageView>::empty());
            assert(messages_view(pending@) =~= moved.skip(0));
        }
        while pending.len() > 0
            invariant
                names_distinct(ready@),
                pending@.len() <= moved.len(),
                messages_view(pending@) == moved.skip(moved.len() - pending@.len()),
                ready_map(ready@) == append_each(loaded, moved.take(moved.len() - pending@.len())),
            decreases pending@.len(),
        {
            let ghost k = moved.len() - pending@.len();
            let ghost before = pending@;
            let m = pending.pop_front().unwrap();
            proof {
                assert(messages_view(before)[0] == m@);
                assert(messages_view(pending@) =~= messages_view(before).subrange(1, before.len() as int));
                assert(moved.skip(k).subrange(1, before.len() as int) =~= moved.skip(k + 1));
                assert(moved.take(k + 1).drop_last() =~= moved.take(k));
                assert(moved[k] == m@);
            }
            let name = m.queue.clone();
            crate::queues::push_back_message(&mut ready, &name, m);
        }
        proof {
            assert(moved.take(moved.len() as int) =~= moved);
        }
        let flights: VecDeque<InFlightMessage> = VecDeque::new();
        proof {
            assert(deliveries_view(flights@) =~= Seq::<DeliveryView>::empty());
        }
        BrokerState::from_parts(ready, flights)
    }
}

/// The messages of the first `n` deliveries.
pub open spec fn deliveries_view_messages(flights: Seq<InFlightMessage>, n: int) -> Seq<MessageView> {
    flights.take(n).map_values(|d: InFlightMessage| d.message@)
}

impl BrokerState {
    /// The state to start from: the one rebuilt from the stored snapshot if
    /// there is one, else an empty state.
    pub fn load_from(stored: Option<PersistentState>) -> (s: BrokerState)
        ensures
            match stored {
                Some(p) => s@ == restored(p@),
                None => {
                    &&& s@.ready == Map::<Seq<char>, Seq<MessageView>>::empty()
                    &&& s@.in_flight == Seq::<DeliveryView>::empty()
                },
            },
    {
        match stored {
            Some(p) => BrokerState::from_persistent(p),
            None => BrokerState::new(),
        }
    }
}

} // verus!
