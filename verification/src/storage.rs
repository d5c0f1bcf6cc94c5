//! The storage engine: a partition made of segments, each backed by a log
//! byte file plus an offset index and a timestamp index.

pub mod offset_index;
pub mod partition;
pub mod segment;
pub mod timestamp_index;
