//! Core of a log-viewing tool: a multi-line log-entry parser, an
//! incremental tail consumer, a search engine over parsed entries, and
//! the filter logic that selects the visible subset.
//!
//! Everything here is verified; the surrounding process (file reading,
//! OS file-watch events, rendering) lives outside and talks to this
//! crate through plain values.

pub mod config;
pub mod filter;
pub mod parser;
pub mod pattern;
pub mod search;
pub mod tail;
pub mod text;
