//! Reader for PSS/E raw (`.RAW`) power flow exchange files.
//!
//! [`scan`] handles the file-level mechanics (decoding, field splitting, section tracking)
//! and [`raw`] turns the resulting records into typed data.

pub mod raw;
pub mod scan;
