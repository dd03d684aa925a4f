//! Adapters that bridge the host's stream-writing and formatted-text
//! conventions onto the fixed-width string types: unit-stream sinks in
//! `io`, string-valued sinks in `fmt`.

pub mod fmt;
pub mod io;
