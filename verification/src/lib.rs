//! A streaming PNG encoder.
pub mod batching;
pub mod chunk;
pub mod closing;
pub mod crc_laws;
pub mod driver;
pub mod encoder;
pub mod filter;
pub mod filter_laws;
pub mod header;
pub mod header_laws;
pub mod header_results;
pub mod last_error;
pub mod opening;
pub mod options;
pub mod plan;
pub mod png_file;
pub mod progress;
pub mod scanlines;
pub mod session;
pub mod text;
pub mod text_laws;
pub mod unfilter;
