//! Byte-level scanning primitives for Internet messages: a cursor over a
//! message buffer, the message-identifier scanner for folded header fields,
//! and a splitter for mailbox files with `>From ` quoting.

pub mod id;
pub mod mbox;
pub mod stream;
