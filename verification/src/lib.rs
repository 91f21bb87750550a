//! A multi-client text-chat relay library.
//!
//! The verified core of a chat relay: the wire codec that turns a
//! [`msg::Message`] into a self-delimiting byte frame and back, the
//! incremental frame decoder that copes with split and coalesced reads,
//! and the broadcast hub that fans a published message out to every
//! current subscriber with a bounded, drop-oldest delivery buffer.
//! Socket handling and the terminal user interface live outside this
//! library and exchange plain values with it.

pub mod cli;
pub mod codec;
pub mod decoder;
pub mod hub;
pub mod msg;
pub mod relay;
