//! Parsing, policy and chunk handling for OpenPGP messages.
//!
//! The crate is organised bottom-up:
//! - `types`: hash algorithm and signature class identifiers, and the
//!   signature record;
//! - `policy`: whether a signature's hash algorithm is still trusted at a
//!   reference time;
//! - `source`: the byte stream under the parser, with its hashing switch;
//! - `packet`: body length encodings;
//! - `partial_body`: a reader that reassembles a chunked packet body;
//! - `parser`: packet headers, and a parser that walks a packet stream depth
//!   first, descending into containers on request;
//! - `pile`: a whole packet stream in memory;
//! - `verification`: signature levels and outcomes;
//! - `decryption`: the decisions around session-key recovery.
pub mod types;
pub mod policy;
pub mod source;
pub mod packet;
pub mod partial_body;
pub mod parser;
pub mod pile;
pub mod verification;
pub mod decryption;
