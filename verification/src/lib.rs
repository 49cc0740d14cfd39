//! A verified protocol engine for a QMP-style control channel: a
//! line-delimited JSON request/reply/event protocol spoken with a supervised
//! child process over its standard input and output.
//!
//! The crate contains the pure core of such a supervisor:
//! - [`msg`]: the message tree exchanged in both directions, with its
//!   mathematical model;
//! - [`codec`]: serialization and parsing of one wire line, with a proved
//!   round-trip law, and the classification of inbound lines into greeting,
//!   reply and event;
//! - [`engine`]: the multiplex worker's decision logic as a state machine
//!   with a single in-flight command slot and a bounded event queue;
//! - [`lifecycle`]: the handshake and shutdown controller, and the
//!   classification of the child's exit status.
//!
//! All I/O, process handling and task plumbing live outside this crate; the
//! functions here take plain values (lines as bytes, submitted commands,
//! observed exit statuses) and return decisions.

pub mod codec;
pub mod engine;
pub mod lifecycle;
pub mod msg;
pub mod policy;
