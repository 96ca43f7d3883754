//! Hole punching between two clients through a rendezvous server: the wire
//! frame that both sides exchange, the table of frame handlers, and the
//! small decisions that the client and the server make around them.

pub mod chat_protocol;
pub mod session;
pub mod codec;
pub mod protocol_factory;
pub mod server;
