use vstd::prelude::*;

verus! {

/// Why a buffer was not accepted as a PNG, or why a change to one was refused.
#[derive(Debug, Clone, Copy, PartialEq, Eq, Structural)]
pub enum PngFilesError {
    /// The buffer does not start with the PNG signature, or a chunk's type
    /// is not text.
    Format,
    /// A chunk's stored checksum is not the checksum of its type and data.
    Integrity,
    /// A chunk says it is longer than what is left of the buffer.
    OutOfBounds,
    /// The data of a file chunk is not a key and a payload, each with its length.
    Encoding,
    /// Deflate gave up on the payload.
    Compression,
    /// The key is taken and the caller did not ask to replace it.
    DuplicateKey,
    /// The encoded file does not fit in one chunk.
    SizeLimit,
}

impl PngFilesError {
    /// The words for each error.
    pub open spec fn describe(self) -> Seq<char> {
        match self {
            PngFilesError::Format => "Input file is not PNG format"@,
            PngFilesError::Integrity => "Crc check failed; PNG file is corrupted"@,
            PngFilesError::OutOfBounds => "Invalid chunk (length, type, data or crc missing)"@,
            PngFilesError::Encoding => "File chunk does not hold a key and its data"@,
            PngFilesError::Compression => "Deflate stream is broken"@,
            PngFilesError::DuplicateKey => "Key already in use"@,
            PngFilesError::SizeLimit => "Data cannot be bigger than u32::MAX bytes"@,
        }
    }

    /// The error in words.
    pub fn message(&self) -> (text: &'static str)
        ensures
            text@ == self.describe(),
    {
        match self {
            PngFilesError::Format => "Input file is not PNG format",
            PngFilesError::Integrity => "Crc check failed; PNG file is corrupted",
            PngFilesError::OutOfBounds => "Invalid chunk (length, type, data or crc missing)",
            PngFilesError::Encoding => "File chunk does not hold a key and its data",
            PngFilesError::Compression => "Deflate stream is broken",
            PngFilesError::DuplicateKey => "Key already in use",
            PngFilesError::SizeLimit => "Data cannot be bigger than u32::MAX bytes",
        }
    }
}

} // verus!
