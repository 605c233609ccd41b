//! Synchronise key-value secret collections between named backends.
//!
//! The crate centres on two pieces: a line-oriented text codec for secret
//! collections (`KEY="VALUE"` lines with JSON-style escaping), and a
//! scheme-based dispatch that turns a URI into the configuration of a
//! concrete backend. A sync job reads one collection from an origin and
//! writes it, unchanged, to a target.

pub mod byteseq;
pub mod codec;
pub mod config;
pub mod errors;
pub mod job;
pub mod roundtrip;
pub mod secrets;
pub mod sources;
