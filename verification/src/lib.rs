//! Summary statistics over benchmark measurements.
//!
//! The crate reads the textual output of benchmark runs one line at a time,
//! turns each benchmark line into a record, groups the records by benchmark
//! name and summarises every metric of a group: count, minimum, maximum, sum,
//! median and the 90th, 95th and 99th percentiles.
//!
//! All arithmetic is exact integer arithmetic; every function carries a
//! contract that is checked by Verus.

pub mod analysis;
pub mod grouping;
pub mod matcher;
pub mod text;
