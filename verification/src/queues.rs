//! The table of ready queues: for each queue name, the messages waiting to be
//! delivered, oldest first. Each name occurs at most once in the table; its
//! value is a map from queue names to message sequences.

use std::collections::VecDeque;
use vstd::prelude::*;

use crate::message::{MessageView, StoredMessage};

verus! {

/// The messages waiting in one named queue, the next to deliver first.
#[derive(Debug)]
pub struct ReadyQueue {
    pub name: String,
    pub messages: VecDeque<StoredMessage>,
}

/// The values of a sequence of stored messages.
pub open spec fn messages_view(s: Seq<StoredMessage>) -> Seq<MessageView> {
    s.map_values(|m: StoredMessage| m@)
}

/// No queue name occurs twice in the table.
pub open spec fn names_distinct(entries: Seq<ReadyQueue>) -> bool {
    forall|i: int, j: int|
        0 <= i < j < entries.len() ==> #[trigger] entries[i].name@ != #[trigger] entries[j].name@
}

/// The table has a queue named `q`.
pub open spec fn has_queue(entries: Seq<ReadyQueue>, q: Seq<char>) -> bool {
    exists|i: int| 0 <= i < entries.len() && #[trigger] entries[i].name@ == q
}

/// The value of the table: each queue name mapped to its messages.
pub open spec fn ready_map(entries: Seq<ReadyQueue>) -> Map<Seq<char>, Seq<MessageView>> {
    Map::new(
        |q: Seq<char>| has_queue(entries, q),
        |q: Seq<char>|
            messages_view(
                entries[choose|i: int| 0 <= i < entries.len() && #[trigger] entries[i].name@ == q].messages@,
            ),
    )
}

/// The messages of queue `q` in `ready`; a queue that is absent has none.
pub open spec fn queue_of(ready: Map<Seq<char>, Seq<MessageView>>, q: Seq<char>) -> Seq<MessageView> {
    if ready.contains_key(q) {
        ready[q]
    } else {
        Seq::empty()
    }
}

pub proof fn lemma_ready_map_at(entries: Seq<ReadyQueue>, i: int)
    requires
        names_distinct(entries),
        0 <= i < entries.len(),
    ensures
        ready_map(entries).contains_key(entries[i].name@),
        ready_map(entries)[entries[i].name@] == messages_view(entries[i].messages@),
{
    let q = entries[i].name@;
    assert(has_queue(entries, q));
    let j = choose|j: int| 0 <= j < entries.len() && #[trigger] entries[j].name@ == q;
    if j != i {
        if j < i {
            assert(entries[j].name@ != entries[i].name@);
        } else {
            assert(entries[i].name@ != entries[j].name@);
        }
    }
}

pub proof fn lemma_ready_map_update(entries: Seq<ReadyQueue>, i: int, e: ReadyQueue)
    requires
        names_distinct(entries),
        0 <= i < entries.len(),
        e.name@ == entries[i].name@,
    ensures
        names_distinct(entries.update(i, e)),
        ready_map(entries.update(i, e)) == ready_map(entries).insert(
            e.name@,
            messages_view(e.messages@),
        ),
{
    let s2 = entries.update(i, e);
    assert forall|a: int| 0 <= a < s2.len() implies #[trigger] s2[a].name@ == entries[a].name@ by {}
    assert forall|a: int, b: int| 0 <= a < b < s2.len() implies #[trigger] s2[a].name@
        != #[trigger] s2[b].name@ by {
        assert(entries[a].name@ != entries[b].name@);
    }
    let m1 = ready_map(s2);
    let m2 = ready_map(entries).insert(e.name@, messages_view(e.messages@));
    assert forall|k: Seq<char>| m1.contains_key(k) <==> m2.contains_key(k) by {
        if has_queue(s2, k) {
            let j = choose|j: int| 0 <= j < s2.len() && #[trigger] s2[j].name@ == k;
            assert(entries[j].name@ == k);
        }
        if has_queue(entries, k) {
            let j = choose|j: int| 0 <= j < entries.len() && #[trigger] entries[j].name@ == k;
            assert(s2[j].name@ == k);
        }
    }
    assert forall|k: Seq<char>| m1.contains_key(k) implies m1[k] == m2[k] by {
        let j = choose|j: int| 0 <= j < s2.len() && #[trigger] s2[j].name@ == k;
        lemma_ready_map_at(s2, j);
        if j != i {
            lemma_ready_map_at(entries, j);
        }
    }
    assert(m1 =~= m2);
}

pub proof fn lemma_ready_map_push(entries: Seq<ReadyQueue>, e: ReadyQueue)
    requires
        names_distinct(entries),
        !has_queue(entries, e.name@),
    ensures
        names_distinct(entries.push(e)),
        ready_map(entries.push(e)) == ready_map(entries).insert(
            e.name@,
            messages_view(e.messages@),
        ),
{
    let s2 = entries.push(e);
    let n = entries.len() as int;
    assert forall|a: int, b: int| 0 <= a < b < s2.len() implies #[trigger] s2[a].name@
        != #[trigger] s2[b].name@ by {
        if b == n {
            assert(entries[a].name@ != e.name@);
        } else {
            assert(entries[a].name@ != entries[b].name@);
        }
    }
    let m1 = ready_map(s2);
    let m2 = ready_map(entries).insert(e.name@, messages_view(e.messages@));
    assert forall|k: Seq<char>| m1.contains_key(k) <==> m2.contains_key(k) by {
        if has_queue(s2, k) {
            let j = choose|j: int| 0 <= j < s2.len() && #[trigger] s2[j].name@ == k;
            if j < n {
                assert(entries[j].name@ == k);
            }
        }
        if has_queue(entries, k) {
            let j = choose|j: int| 0 <= j < entries.len() && #[trigger] entries[j].name@ == k;
            assert(s2[j].name@ == k);
        }
        if k == e.name@ {
            assert(s2[n].name@ == k);
        }
    }
    assert forall|k: Seq<char>| m1.contains_key(k) implies m1[k] == m2[k] by {
        let j = choose|j: int| 0 <= j < s2.len() && #[trigger] s2[j].name@ == k;
        lemma_ready_map_at(s2, j);
        if j < n {
            lemma_ready_map_at(entries, j);
        }
    }
    assert(m1 =~= m2);
}

/// The position of queue `name` in the table, if it has one.
pub fn find_queue(entries: &Vec<ReadyQueue>, name: &String) -> (r: Option<usize>)
    ensures
        match r {
            Some(i) => i < entries@.len() && entries@[i as int].name@ == name@,
            None => !has_queue(entries@, name@),
        },
{
    let mut i: usize = 0;
    while i < entries.len()
        invariant
            i <= entries@.len(),
            forall|j: int| 0 <= j < i ==> #[trigger] entries@[j].name@ != name@,
        decreases entries.len() - i,
    {
        if entries[i].name == *name {
            return Some(i);
        }
        i = i + 1;
    }
    None
}

/// The position of queue `name`, after adding it empty if it was missing.
pub fn ensure_queue(entries: &mut Vec<ReadyQueue>, name: &String) -> (r: usize)
    requires
        names_distinct(old(entries)@),
    ensures
        names_distinct(final(entries)@),
        r < final(entries)@.len(),
        final(entries)@[r as int].name@ == name@,
        ready_map(final(entries)@) == ready_map(old(entries)@).insert(
            name@,
            queue_of(ready_map(old(entries)@), name@),
        ),
{
    match find_queue(entries, name) {
        Some(i) => {
            proof {
                lemma_ready_map_at(entries@, i as int);
                assert(ready_map(entries@).insert(name@, queue_of(ready_map(entries@), name@))
                    =~= ready_map(entries@));
            }
            i
        },
        None => {
            let e = ReadyQueue { name: name.clone(), messages: VecDeque::new() };
            proof {
                lemma_ready_map_push(entries@, e);
                assert(messages_view(e.messages@) =~= Seq::<MessageView>::empty());
            }
            entries.push(e);
            entries.len() - 1
        },
    }
}

/// Appends `message` to the back of queue `name`, adding the queue if missing.
pub fn push_back_message(entries: &mut Vec<ReadyQueue>, name: &String, message: StoredMessage)
    requires
        names_distinct(old(entries)@),
    ensures
        names_distinct(final(entries)@),
        ready_map(final(entries)@) == ready_map(old(entries)@).insert(
            name@,
            queue_of(ready_map(old(entries)@), name@).push(message@),
        ),
{
    let i = ensure_queue(entries, name);
    let ghost mid = entries@;
    proof {
        lemma_ready_map_at(mid, i as int);
    }
    let mut e = entries.remove(i);
    let ghost old_messages = e.messages@;
    e.messages.push_back(message);
    proof {
        assert(messages_view(e.messages@) =~= messages_view(old_messages).push(message@));
        lemma_ready_map_update(mid, i as int, e);
    }
    entries.insert(i, e);
    proof {
        assert(entries@ =~= mid.update(i as int, e));
    }
}

/// Puts `message` at the front of queue `name`, adding the queue if missing.
pub fn push_front_message(entries: &mut Vec<ReadyQueue>, name: &String, message: StoredMessage)
    requires
        names_distinct(old(entries)@),
    ensures
        names_distinct(final(entries)@),
        ready_map(final(entries)@) == ready_map(old(entries)@).insert(
            name@,
            seq![message@] + queue_of(ready_map(old(entries)@), name@),
        ),
{
    let i = ensure_queue(entries, name);
    let ghost mid = entries@;
    proof {
        lemma_ready_map_at(mid, i as int);
    }
    let mut e = entries.remove(i);
    let ghost old_messages = e.messages@;
    e.messages.push_front(message);
    proof {
        assert(messages_view(e.messages@) =~= seq![message@] + messages_view(old_messages));
        lemma_ready_map_update(mid, i as int, e);
    }
    entries.insert(i, e);
    proof {
        assert(entries@ =~= mid.update(i as int, e));
    }
}

/// Takes the message at the front of queue `name`, adding the queue empty if
/// it was missing.
pub fn pop_front_message(entries: &mut Vec<ReadyQueue>, name: &String) -> (r: Option<StoredMessage>)
    requires
        names_distinct(old(entries)@),
    ensures
        names_distinct(final(entries)@),
        ({
            let q = queue_of(ready_map(old(entries)@), name@);
            match r {
                Some(m) => {
                    &&& q.len() > 0
                    &&& m@ == q[0]
                    &&& ready_map(final(entries)@) == ready_map(old(entries)@).insert(name@, q.drop_first())
                },
                None => {
                    &&& q.len() == 0
                    &&& ready_map(final(entries)@) == ready_map(old(entries)@).insert(name@, q)
                },
            }
        }),
{
    let i = ensure_queue(entries, name);
    let ghost mid = entries@;
    proof {
        lemma_ready_map_at(mid, i as int);
    }
    let mut e = entries.remove(i);
    let ghost old_messages = e.messages@;
    let r = e.messages.pop_front();
    proof {
        if r is Some {
            assert(messages_view(e.messages@) =~= messages_view(old_messages).drop_first());
        }
        lemma_ready_map_update(mid, i as int, e);
    }
    entries.insert(i, e);
    proof {
        assert(entries@ =~= mid.update(i as int, e));
    }
    r
}

/// The number of messages waiting in queue `name`.
pub fn queue_len(entries: &Vec<ReadyQueue>, name: &String) -> (r: usize)
    requires
        names_distinct(entries@),
    ensures
        r == queue_of(ready_map(entries@), name@).len(),
{
    match find_queue(entries, name) {
        Some(i) => {
            proof {
                lemma_ready_map_at(entries@, i as int);
            }
            entries[i].messages.len()
        },
        None => 0,
    }
}

} // verus!
