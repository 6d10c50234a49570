//! A DNS message codec and a forwarding correlation engine.
//!
//! The crate decodes raw UDP payloads into a structured DNS message
//! (RFC 1035 layout: a 12-byte header, a question section and an answer
//! section, with compressed-name pointers accepted on decode), re-encodes
//! structured messages back to wire bytes, and tracks in-flight client
//! queries so that answers returned by an upstream resolver can be matched
//! back to the original client.  A query carrying several questions is split
//! into single-question upstream requests; the single-answer upstream
//! responses are reassembled into one reply before it is sent back.

pub mod bytes;
pub mod codes;
pub mod engine;
pub mod header;
pub mod message;
pub mod name;
