//! A small WebSocket chat service: the frame codec, the opening handshake and
//! the chat room that tracks users and fans messages out to them.
pub mod frame;
pub mod handshake;
pub mod chat;
