//! Watches a federation of collaborative markdown-pad servers: canonical link
//! identity, breadth-first discovery of linked pads from a seed set, content
//! fingerprinting, and the quiescence state machine that decides when a change
//! has settled long enough to report.

pub mod config;
pub mod fingerprint;
pub mod frontier;
pub mod link;
pub mod pads;
pub mod repo;
pub mod tracker;
