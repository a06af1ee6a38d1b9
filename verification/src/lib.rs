//! Verified core of a cache-backed catalog search tool.
//!
//! The library covers the logic of the tool: the snapshot cache format and
//! its staleness rules, the serve-from-cache-or-fetch decision, and the
//! case-insensitive multi-term matching engine with content-type
//! normalization.  All I/O (HTTP, files, terminal) lives outside the
//! library and hands it plain values.

pub mod cache;
pub mod codec;
pub mod fetcher;
pub mod item;
pub mod matcher;
pub mod text;
