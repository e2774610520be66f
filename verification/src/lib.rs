//! A log of network speed measurements: reading what the probe prints, writing and
//! reading the log, and summing it up.

pub mod aggregate;
pub mod chars;
pub mod command;
pub mod cycle;
pub mod decimal;
pub mod laws;
pub mod log;
pub mod metric;
pub mod probe;
pub mod setting;
