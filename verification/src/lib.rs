//! Redundancy analysis of raw byte streams.
//!
//! A buffer, typically a log file, is run through an LZ77-style match
//! finder. The back-references that the finder reports are grouped into a
//! dictionary of repeated patterns, ranked by frequency; the buffer is split
//! into delimited records, and each record is charged with the bytes that
//! back-references cover and the dictionary entries they repeat. Records are
//! then selected by score, highest first.
//!
//! - [`scanner`]: the operations of a buffer, with [`matcher`] as its match
//!   finder;
//! - [`dictionary`]: the ranked dictionary of the patterns;
//! - [`scorer`]: the records and what the scan found in each;
//! - [`anomaly`]: selection of records by score, with [`ranking`] for the
//!   order;
//! - [`pipeline`]: the stages in turn, and the fact that their result is
//!   determined by the input;
//! - [`json_records`]: records that hold one JSON text each.
//!
//! All of it works on integers and bytes. Scores that are measured in real
//! numbers are mapped by the caller to integers that keep their order.

pub mod anomaly;
mod buckets;
pub mod dictionary;
pub mod json_records;
pub mod matcher;
pub mod pipeline;
pub mod ranking;
pub mod scanner;
pub mod scorer;
