use crate::checksum::crc32;
use crate::endian::{be_bytes, write_be_u32};
use crate::record::record_header;
use std::rc::Rc;
use vstd::prelude::*;
use vstd::utf8::{encode_utf8, valid_utf8};

verus! {

/// The type of the chunks that hold a file. The case of its letters says:
/// ancillary, private, not reserved, safe to copy.
pub const CHUNK_TYPE: &'static str = "fiLe";

/// The bytes of [`CHUNK_TYPE`].
pub open spec fn file_tag() -> Seq<u8> {
    seq![0x66u8, 0x69u8, 0x4cu8, 0x65u8]
}

/// The text of [`CHUNK_TYPE`] is encoded as [`file_tag`].
pub proof fn lemma_file_tag()
    ensures
        encode_utf8(CHUNK_TYPE@) == file_tag(),
        valid_utf8(file_tag()),
{
    reveal_strlit("fiLe");
    let text = CHUNK_TYPE@;
    assert(vstd::utf8::is_ascii_chars(text));
    vstd::utf8::is_ascii_chars_encode_utf8(text);
    assert(encode_utf8(text) =~= file_tag());
    vstd::utf8::encode_utf8_valid_utf8(text);
}

/// A chunk as the format knows it: four bytes of type, the data, and the
/// checksum that is stored with them.
pub struct ChunkView {
    pub tag: Seq<u8>,
    pub data: Seq<u8>,
    pub crc: u32,
}

/// The key of a chunk, if it is a file chunk whose data starts with a record.
pub open spec fn chunk_key(chunk: ChunkView) -> Option<Seq<char>> {
    if chunk.tag == file_tag() {
        match record_header(chunk.data) {
            Some((key, _)) => Some(key),
            None => None,
        }
    } else {
        None
    }
}

/// What the reader accepts as one chunk: a type of four bytes that is text,
/// data whose length fits in four bytes, the checksum of type and data, and
/// in a file chunk data that starts with a record.
pub open spec fn valid_chunk(chunk: ChunkView) -> bool {
    &&& chunk.tag.len() == 4
    &&& valid_utf8(chunk.tag)
    &&& chunk.data.len() <= u32::MAX
    &&& chunk.crc == crc32(chunk.tag + chunk.data)
    &&& chunk.tag == file_tag() ==> record_header(chunk.data) is Some
}

/// The bytes of one chunk in a PNG: length, type, data, checksum.
pub open spec fn chunk_bytes(chunk: ChunkView) -> Seq<u8> {
    be_bytes(chunk.data.len() as int) + chunk.tag + chunk.data + be_bytes(chunk.crc as int)
}

/// Where the data of a chunk lies: in a part of the buffer that was parsed,
/// which all chunks share and none changes, or in a buffer of its own.
pub enum DataSource {
    Range { data: Rc<Vec<u8>>, start: usize, end: usize },
    Data(Vec<u8>),
}

impl DataSource {
    /// A range lies inside its buffer.
    pub open spec fn wf(&self) -> bool {
        match self {
            DataSource::Range { data, start, end } => *start <= *end <= data@.len(),
            DataSource::Data(_) => true,
        }
    }

    /// The bytes that the source stands for.
    pub open spec fn view(&self) -> Seq<u8> {
        match self {
            DataSource::Range { data, start, end } => data@.subrange(*start as int, *end as int),
            DataSource::Data(data) => data@,
        }
    }

    /// Whether the source is a range of a buffer that holds `buffer`.
    pub open spec fn shares(&self, buffer: Seq<u8>) -> bool {
        match self {
            DataSource::Range { data, start, end } => data@ == buffer,
            DataSource::Data(_) => false,
        }
    }

    /// Whether the source is a buffer of its own.
    pub open spec fn owned(&self) -> bool {
        self is Data
    }
}

/// The type of a chunk: of a file chunk only the key is kept, since its type
/// is always [`CHUNK_TYPE`].
#[derive(Debug, PartialEq, Eq)]
pub enum ChunkType {
    Png(String),
    File { key: String },
}

impl ChunkType {
    /// The four bytes of the type.
    pub open spec fn tag(&self) -> Seq<u8> {
        match self {
            ChunkType::Png(text) => encode_utf8(text@),
            ChunkType::File { .. } => file_tag(),
        }
    }

    /// The key of a file chunk.
    pub fn get_key(&self) -> (key: Option<&str>)
        ensures
            match *self {
                ChunkType::Png(_) => key is None,
                ChunkType::File { key: k } => key matches Some(s) && s@ == k@,
            },
    {
        match self {
            ChunkType::File { key } => Some(key.as_str()),
            _ => None,
        }
    }

    /// The type as text.
    pub fn as_ref(&self) -> (text: &str)
        ensures
            match *self {
                ChunkType::Png(t) => text@ == t@,
                ChunkType::File { .. } => text@ == CHUNK_TYPE@,
            },
            encode_utf8(text@) == self.tag(),
    {
        proof {
            lemma_file_tag();
        }
        match self {
            ChunkType::Png(text) => text.as_str(),
            ChunkType::File { .. } => CHUNK_TYPE,
        }
    }

    /// The type as bytes.
    pub fn as_bytes(&self) -> (bytes: &[u8])
        ensures
            bytes@ == self.tag(),
    {
        self.as_ref().as_bytes()
    }
}

/// One chunk of a PNG that was parsed or put in.
pub struct PngChunk {
    pub source: DataSource,
    pub chunk_type: ChunkType,
    pub crc: u32,
    pub len: u32,
}

impl PngChunk {
    /// The chunk as the format knows it. The length is not part of it: in a
    /// chunk that [`holds_data`](Self::holds_data) it is the length of the data.
    pub open spec fn view(&self) -> ChunkView {
        ChunkView { tag: self.chunk_type.tag(), data: self.source@, crc: self.crc }
    }

    /// The data can be had, and `len` is its length.
    pub open spec fn holds_data(&self) -> bool {
        self.source.wf() && self.len == self.source@.len()
    }

    /// The chunk is one that the reader accepts, its length is that of its
    /// data, and the key that it keeps is the key in its data.
    pub open spec fn wf(&self) -> bool {
        &&& self.holds_data()
        &&& valid_chunk(self@)
        &&& match self.chunk_type {
            ChunkType::Png(_) => self@.tag != file_tag(),
            ChunkType::File { key } => chunk_key(self@) == Some(key@),
        }
    }

    /// The data of the chunk, without copying it.
    pub fn as_data(&self) -> (data: &[u8])
        requires
            self.source.wf(),
        ensures
            data@ == self.source@,
    {
        match &self.source {
            DataSource::Range { data, start, end } => vstd::slice::slice_subrange(
                data.as_slice(),
                *start,
                *end,
            ),
            DataSource::Data(data) => data.as_slice(),
        }
    }

    /// The bytes of the chunk as they stand in a PNG: the length of the
    /// data, the type, the data, and the checksum as it is stored, which is
    /// not looked at.
    pub fn into_bytes(self) -> (bytes: Vec<u8>)
        requires
            self.holds_data(),
        ensures
            bytes@ == be_bytes(self.len as int) + self.chunk_type.tag() + self.source@ + be_bytes(
                self.crc as int,
            ),
            bytes@ == chunk_bytes(self@),
    {
        let data = self.as_data();
        let mut chunk: Vec<u8> = Vec::with_capacity(data.len());
        write_be_u32(&mut chunk, self.len);
        chunk.extend_from_slice(self.chunk_type.as_bytes());
        chunk.extend_from_slice(data);
        write_be_u32(&mut chunk, self.crc);
        chunk
    }
}

} // verus!
