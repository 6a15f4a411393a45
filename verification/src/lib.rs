//! Verified core of a controller for Sony WH-1000XM series headphones.
//!
//! The library holds the wire protocol (framing, escaping, checksums),
//! the decisions of the command/acknowledgement exchange, the command
//! payloads and the decoding of the headphones' replies. The program that
//! talks to the RFCOMM socket lives beside it and hands it plain values.

pub mod protocol;
pub mod frame;
pub mod exchange;
pub mod text;
pub mod headphones;
pub mod replies;
pub mod requests;
pub mod mac;
pub mod discover;
pub mod display;
