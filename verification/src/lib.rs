//! Embeds files in the chunk stream of a PNG image and gets them back by key.
//!
//! A [`Png`] is parsed from a whole buffer, changed in memory by key, and
//! written back to a buffer. Every chunk that is not a file chunk keeps its
//! bytes and its place.

pub mod checksum;
pub mod chunk;
pub mod deflate;
pub mod endian;
pub mod error;
pub mod format;
pub mod laws;
pub mod png;
pub mod record;
pub mod text;

pub use error::PngFilesError;
pub use png::Png;
