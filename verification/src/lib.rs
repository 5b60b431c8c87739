//! Codec for the discovery-v4 wire messages.
//!
//! The crate encodes and decodes the four node-discovery datagram bodies
//! (Ping, Pong, FindNode, Neighbours) and the network endpoint record they
//! carry, using the recursive length-prefixed binary encoding of that
//! protocol.  Every encoder and decoder is specified against a mathematical
//! model of the byte format, and the round-trip and compatibility laws of the
//! protocol are proved in `message`.

pub mod endpoint;
pub mod message;
pub mod wire;
