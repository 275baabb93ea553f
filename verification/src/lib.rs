//! A minimal line-oriented chat relay core: a verified codec for
//! IRC-style protocol messages, the per-connection command state
//! machine, and the broadcast relay's registry and fan-out rule.
//! Sockets, threads and channels live outside; they hand decoded
//! lines in and carry the decided replies and copies out.

pub mod handler;
pub mod message;
pub mod relay;
pub mod text;

pub use handler::ConnState;
pub use message::IrcMessage;
pub use message::ParseError;
pub use relay::BroadcastRelay;
