//! Verified core of a small message broker: named queues of messages,
//! deliveries that stay in flight until they are acknowledged, rejected or
//! their visibility timeout expires, and the snapshot used to persist state.

pub mod clock;
pub mod flights;
pub mod ids;
pub mod laws;
pub mod message;
pub mod persist;
pub mod queues;
pub mod service;
pub mod state;
pub mod text;
