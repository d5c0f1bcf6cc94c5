//! A single-node, segmented append-only log store: one partition of a topic,
//! in message-broker terms.
//!
//! The partition persists an ordered, immutable sequence of records, assigns
//! each record a monotonically increasing logical offset, and supports lookup
//! by offset and by timestamp.  A partition owns an ordered list of segments;
//! each segment owns one log file plus two fixed-record-size index files, all
//! modelled here as byte strings with a fully specified binary layout.

pub mod bus;
pub mod error;
pub mod message;
pub mod partition;
pub mod storage;
