//! Turns an nginx-style access-log stream into metric updates.
//!
//! The pieces, bottom up: `log_parser` compiles a `log_format` description
//! into a token grammar and replays it against single log lines;
//! `processor` applies filters and extractors to a parsed line and drives
//! the incremental file-tailing state machine; `collector` assembles the
//! pipeline from field names and user declarations.  File watching, the
//! metrics registry and the scrape endpoint live outside this crate and
//! talk to it through plain values.

pub mod collector;
pub mod log_parser;
pub mod processor;
pub mod text;
