//! Chord detection and per-application chord frequency tables.
pub mod counts;
pub mod store;
pub mod tracker;
pub mod report;
pub mod snapshot;
pub mod focus;
