//! Reclocking: re-expressing an update record of one time domain in a partially ordered
//! target domain, visible at every time of a frontier and retracted once at their join, and
//! deduplicating the copies this fan-out makes so that the record is never over-counted.
pub mod altneu;
pub mod dedup;
pub mod order;
pub mod reclock;
