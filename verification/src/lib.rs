//! Planning, argument handling and report text of a WAV read/write benchmark
//! that compares two audio I/O libraries.

pub mod kind;
pub mod text;
pub mod table;
pub mod lexical;
pub mod args;
pub mod plan;
pub mod report;
pub mod formats;
pub mod samples;
pub mod schedule;
