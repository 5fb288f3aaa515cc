//! The path from a serial byte stream to a series of samples.
//!
//! A device sends lines of text, each with the position of a measurement and
//! its value. The stream is cut into records ([`framing`]), each record is
//! read as a pair of numbers ([`record`], [`number`]), the samples found are
//! kept in arrival order ([`series`]) and written out as a table on request
//! ([`export`]). [`pipeline`] puts these together, [`connection`] decides what
//! to do with the port, and [`session`] ties the two to each other.
//!
//! Nothing here touches a device, a file or a window: the caller reads and
//! writes, and hands over plain bytes.

pub mod connection;
pub mod export;
pub mod framing;
pub mod number;
pub mod pipeline;
pub mod record;
pub mod series;
pub mod session;
