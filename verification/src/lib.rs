//! A small chat-server core: a newline-delimited JSON wire codec for the chat
//! protocol, a session registry with unique user names, a broadcast fan-out
//! channel with per-subscriber cursors, the per-connection protocol state
//! machine, and a DNS message codec used by the accompanying stub resolver.

pub mod channel;
pub mod client;
pub mod dns;
pub mod protocol;
pub mod server;
pub mod text;
pub mod wire;
