//! A protocol-aware IMAP proxy core: frame decoding, command and response
//! parsing, a TTL-bounded body cache, and the interception policy that decides
//! per command whether to serve from cache, relay and capture, or purely relay.
//!
//! All logic here is pure: it maps bytes and timestamps to decisions, frames
//! and cache updates. The surrounding binary owns the sockets and the clock
//! and feeds both in as plain values.

pub mod bytes;
pub mod cache;
pub mod command;
pub mod frame;
pub mod policy;
pub mod response;
