//! A small gossip node: topics, message ids, de-duplication caches and the
//! decisions a node takes when peers talk to it.

pub mod cache;
pub mod gossip;
pub mod message;
pub mod node;
pub mod seen;

pub use message::{Ack, MsgId, Payload, TopicId, WireMsg};
pub use seen::SeenCache;
