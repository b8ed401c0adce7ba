//! Messages between a board and its host over a serial line: their encoding,
//! the framed link that carries them, and the bounded queue that holds them
//! between an interrupt and the main loop.

pub mod board;
pub mod cbor;
pub mod framing;
pub mod link;
pub mod message;
pub mod message_queue;
pub mod slip;
pub mod usb;

pub use link::Link;
pub use message::Message;
pub use message_queue::MessageQueue;
