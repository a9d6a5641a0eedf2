//! A peer-presence and message-relay protocol.
//!
//! A node keeps track of the peers it can reach, tells every new session
//! which peers those are, tells all sessions when a peer is lost, and hands
//! one waiting message to the first session that opens.
//!
//! The transport that carries the sessions is not part of this crate. It
//! reports when a session opens, closes or delivers bytes; the protocol
//! answers with the frames to send and says where they go.
//!
//! * [`identity`]: peers and sessions.
//! * [`payload`]: the two kinds of message.
//! * [`wire`]: the bytes that stand for a payload.
//! * [`parsing`]: how those bytes are read back.
//! * [`codec`]: encoding and decoding.
//! * [`presence`]: the table of reachable peers.
//! * [`protocol`]: the node's answers to the events of the transport.
//! * [`args`]: the arguments a node is started with.

pub mod args;
pub mod codec;
pub mod identity;
pub mod parsing;
pub mod payload;
pub mod presence;
pub mod protocol;
pub mod wire;
