//! The messages that the broker stores and the ones it hands to consumers.

use vstd::prelude::*;

verus! {

/// A message as the broker keeps it, in a ready queue or in flight.
#[derive(Debug)]
pub struct StoredMessage {
    pub message_id: String,
    pub queue: String,
    pub payload: Vec<u8>,
    pub attempts: u32,
    pub created_at_unix_ms: i64,
}

/// The value of a stored message.
pub struct MessageView {
    pub message_id: Seq<char>,
    pub queue: Seq<char>,
    pub payload: Seq<u8>,
    pub attempts: u32,
    pub created_at_unix_ms: i64,
}

impl View for StoredMessage {
    type V = MessageView;

    open spec fn view(&self) -> MessageView {
        MessageView {
            message_id: self.message_id@,
            queue: self.queue@,
            payload: self.payload@,
            attempts: self.attempts,
            created_at_unix_ms: self.created_at_unix_ms,
        }
    }
}

/// The number of delivery attempts after one more, stopping at `u32::MAX`.
pub open spec fn next_attempts(attempts: u32) -> u32 {
    if attempts == u32::MAX {
        u32::MAX
    } else {
        (attempts + 1) as u32
    }
}

impl MessageView {
    /// The message as it is after one more delivery attempt.
    pub open spec fn bumped(self) -> MessageView {
        MessageView { attempts: next_attempts(self.attempts), ..self }
    }
}

/// A message as it is published: no delivery attempts yet.
pub open spec fn published_view(
    message_id: Seq<char>,
    queue: Seq<char>,
    payload: Seq<u8>,
    created_at_unix_ms: i64,
) -> MessageView {
    MessageView { message_id, queue, payload, attempts: 0, created_at_unix_ms }
}

/// A copy of `bytes`.
pub fn copy_bytes(bytes: &Vec<u8>) -> (r: Vec<u8>)
    ensures
        r@ == bytes@,
{
    let mut out: Vec<u8> = Vec::with_capacity(bytes.len());
    let mut i: usize = 0;
    while i < bytes.len()
        invariant
            i <= bytes.len(),
            out@ == bytes@.subrange(0, i as int),
        decreases bytes.len() - i,
    {
        out.push(bytes[i]);
        i = i + 1;
        assert(out@ =~= bytes@.subrange(0, i as int));
    }
    assert(bytes@.subrange(0, bytes.len() as int) =~= bytes@);
    out
}

impl StoredMessage {
    /// A copy of the message.
    pub fn duplicate(&self) -> (r: StoredMessage)
        ensures
            r@ == self@,
    {
        StoredMessage {
            message_id: self.message_id.clone(),
            queue: self.queue.clone(),
            payload: copy_bytes(&self.payload),
            attempts: self.attempts,
            created_at_unix_ms: self.created_at_unix_ms,
        }
    }
}

/// A message as a consumer receives it: the stored message, the id of this
/// delivery, and the attempt count that includes this delivery.
#[derive(Debug)]
pub struct DeliveredMessage {
    pub message_id: String,
    pub delivery_id: String,
    pub queue: String,
    pub payload: Vec<u8>,
    pub attempts: u32,
    pub created_at_unix_ms: i64,
}

/// The value of a delivered message.
pub struct DeliveredView {
    pub message_id: Seq<char>,
    pub delivery_id: Seq<char>,
    pub queue: Seq<char>,
    pub payload: Seq<u8>,
    pub attempts: u32,
    pub created_at_unix_ms: i64,
}

impl View for DeliveredMessage {
    type V = DeliveredView;

    open spec fn view(&self) -> DeliveredView {
        DeliveredView {
            message_id: self.message_id@,
            delivery_id: self.delivery_id@,
            queue: self.queue@,
            payload: self.payload@,
            attempts: self.attempts,
            created_at_unix_ms: self.created_at_unix_ms,
        }
    }
}

/// What a consumer receives for `message` handed out under `delivery_id`.
pub open spec fn delivered_view(message: MessageView, delivery_id: Seq<char>) -> DeliveredView {
    DeliveredView {
        message_id: message.message_id,
        delivery_id,
        queue: message.queue,
        payload: message.payload,
        attempts: message.attempts,
        created_at_unix_ms: message.created_at_unix_ms,
    }
}

} // verus!
