//! A point-to-point text relay: the wire codec, the message model, the
//! unread-message cache, the connection registry with its router, and the
//! decisions of the readiness-driven event loop.
//!
//! Sockets and the readiness wait live with the caller. The library is handed
//! what was read or accepted and answers with what to write, register or close.

pub mod cache;
pub mod codec;
pub mod message;
pub mod reactor;
pub mod server;
pub mod timeline;

pub use codec::newline_strip;
pub use cache::UnreadCache;
pub use message::Message;
pub use server::{Client, Connection, ConnectionError, Receive, Send, Server};
