//! A local directory-visitation tracker: a persistent store of
//! (path, rank, last-access) entries ranked by frecency, with an aging
//! policy that keeps ranks bounded, a binary codec that round-trips the
//! store exactly, and a query stream that filters and orders candidates.

pub mod atomic;
pub mod codec;
pub mod db;
pub mod entry;
pub mod matching;
pub mod policy;
pub mod stream;
