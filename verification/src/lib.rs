//! A minimal DNS message codec together with the pure decision logic of a
//! single-hop forwarding resolver.
//!
//! The crate covers the wire format end to end: the fixed 12-byte header with
//! its packed flag bits, domain names as length-prefixed label sequences with
//! backward-pointer compression, question and answer record framing, and the
//! assembly of whole messages.  On top of the codec it provides the pure parts
//! of a forwarding resolver: splitting a multi-question query into
//! single-question sub-queries, decoding upstream replies, synthesising stub
//! answers, and merging everything into a response.  All I/O (sockets,
//! argument handling) is left to the embedding program.

pub mod error;
pub mod header;
pub mod answer;
pub mod body;
pub mod compression;
pub mod label;
pub mod question;
pub mod resolver;
