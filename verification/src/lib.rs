//! Verified core of a file-cataloguing pipeline: a path filter driven by
//! compiled glob patterns, walk and hashing decision logic, a collector that
//! orders records deterministically, and the binary catalog codec.

pub mod catalog;
pub mod codec;
pub mod filter;
pub mod hashing;
pub mod listing;
pub mod collector;
pub mod record;
pub mod walk;
