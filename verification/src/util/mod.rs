//! Word arithmetic, checksums, encodings and searches.
pub mod codec;
pub mod log;
pub mod net;
pub mod scan;
pub mod tables;
pub mod words;
