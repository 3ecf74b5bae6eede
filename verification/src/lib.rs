//! Command-ingestion and line-protocol core for a G-code device.
//!
//! The crate turns a raw serial byte stream into validated G-code lines:
//! bytes are buffered in a fixed ring, tokenized into words, grouped into
//! bounded lines, checked against a monotonically advancing line-number
//! protocol, and answered with the `ok` / `error:<msg>` / `rs N:<n>`
//! handshake that host software expects.  Every stage is a wait-free state
//! machine; the surrounding program only performs the serial I/O.

pub mod num;
pub mod ring;
pub mod token;
pub mod tokenizer;
pub mod wordbuf;
pub mod assembler;
pub mod responder;
pub mod processor;
pub mod laws;
pub mod serial;
pub mod roundtrip;
