//! A verified DNS wire-format codec and single-hop forwarding resolver core.
//!
//! The library decodes raw DNS datagrams into structured messages, builds
//! response messages (echoing questions and attaching one answer per
//! question), and re-encodes them into wire bytes.  Every encoder and
//! decoder carries a contract relating the executable code to a
//! mathematical description of the RFC 1035 message format.

pub mod answer;
pub mod error;
pub mod header;
pub mod packet;
pub mod question;
pub mod name;
pub mod record;
pub mod util;
