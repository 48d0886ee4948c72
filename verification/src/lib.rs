//! Exports geospatial and simulation-result data into a compact,
//! alignment-friendly binary container: a fixed-size header of little-endian
//! `(offset, length)` pairs followed by the raw data chunks, each padded with
//! zero bytes to an 8-byte boundary.
//!
//! Two exporters populate the container: a transit-route shape exporter
//! (polylines with per-route colour and an anti-overlap height offset) and an
//! agent-transfer exporter (passenger movement segments with timestamps).
//! Coordinates, heights and timestamps are stored as 32-bit IEEE-754 floats in
//! little-endian byte order; this crate handles them as their bit patterns
//! (`u32` words), so the buffer layout is fully specified and verified.

pub mod container;
pub mod errors;
pub mod float_bits;
pub mod params;
pub mod shapes;
pub mod transfers;
