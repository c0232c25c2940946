use crate::checksum::crc32;
use crate::chunk::{chunk_bytes, file_tag, valid_chunk, ChunkView};
use crate::endian::{be_bytes, be_u32, lemma_be_bytes_of_be_u32, lemma_be_u32_of_be_bytes};
use crate::error::PngFilesError;
use crate::record::record_header;
use vstd::prelude::*;
use vstd::utf8::valid_utf8;

verus! {

/// The eight bytes that every PNG starts with.
pub const PNG_HEADER: [u8; 8] = [0x89, 0x50, 0x4e, 0x47, 0x0d, 0x0a, 0x1a, 0x0a];

/// The bytes of [`PNG_HEADER`].
pub open spec fn signature() -> Seq<u8> {
    seq![0x89u8, 0x50u8, 0x4eu8, 0x47u8, 0x0du8, 0x0au8, 0x1au8, 0x0au8]
}

/// The bytes of some chunks, one behind the other.
pub open spec fn chunks_bytes(chunks: Seq<ChunkView>) -> Seq<u8>
    decreases chunks.len(),
{
    if chunks.len() == 0 {
        Seq::empty()
    } else {
        chunk_bytes(chunks[0]) + chunks_bytes(chunks.drop_first())
    }
}

/// The PNG that holds the given chunks: the signature, then the chunks.
pub open spec fn serialize(chunks: Seq<ChunkView>) -> Seq<u8> {
    signature() + chunks_bytes(chunks)
}

/// The chunk that `bytes` starts with and the number of bytes that it takes,
/// or why there is none. The checks come in the order in which the bytes
/// are read: the length, the type, the checksum, and for a file chunk its key.
#[verifier::opaque]
pub open spec fn parse_chunk(bytes: Seq<u8>) -> Result<(ChunkView, int), PngFilesError> {
    if bytes.len() < 4 {
        Err(PngFilesError::OutOfBounds)
    } else {
        let len = be_u32(bytes.subrange(0, 4));
        if bytes.len() < 8 + len {
            Err(PngFilesError::OutOfBounds)
        } else {
            let tag = bytes.subrange(4, 8);
            let data = bytes.subrange(8, 8 + len);
            if !valid_utf8(tag) {
                Err(PngFilesError::Format)
            } else if bytes.len() < 12 + len {
                Err(PngFilesError::OutOfBounds)
            } else {
                let crc = be_u32(bytes.subrange(8 + len, 12 + len)) as u32;
                if crc != crc32(tag + data) {
                    Err(PngFilesError::Integrity)
                } else if tag == file_tag() && record_header(data) is None {
                    Err(PngFilesError::Encoding)
                } else {
                    Ok((ChunkView { tag, data, crc }, 12 + len))
                }
            }
        }
    }
}

/// The chunks that `bytes` is made of, or what is wrong with the first chunk
/// that is not accepted.
pub open spec fn parse_chunks(bytes: Seq<u8>) -> Result<Seq<ChunkView>, PngFilesError>
    decreases bytes.len(),
    via parse_chunks_decreases
{
    if bytes.len() == 0 {
        Ok(Seq::empty())
    } else {
        match parse_chunk(bytes) {
            Err(e) => Err(e),
            Ok((chunk, used)) => match parse_chunks(bytes.skip(used)) {
                Err(e) => Err(e),
                Ok(rest) => Ok(seq![chunk] + rest),
            },
        }
    }
}

/// The chunks that were read from the front of a buffer, before what
/// reading the rest gives.
pub open spec fn after(done: Seq<ChunkView>, rest: Result<Seq<ChunkView>, PngFilesError>) -> Result<
    Seq<ChunkView>,
    PngFilesError,
> {
    match rest {
        Ok(chunks) => Ok(done + chunks),
        Err(e) => Err(e),
    }
}

/// A chunk that was read takes at least one byte and no more than there are.
#[via_fn]
proof fn parse_chunks_decreases(bytes: Seq<u8>) {
    reveal(parse_chunk);
}

/// The chunks of a PNG: the bytes behind the signature, chunk by chunk.
pub open spec fn parse(bytes: Seq<u8>) -> Result<Seq<ChunkView>, PngFilesError> {
    if bytes.len() < 8 || bytes.subrange(0, 8) != signature() {
        Err(PngFilesError::Format)
    } else {
        parse_chunks(bytes.skip(8))
    }
}

/// One more chunk at the end adds its bytes at the end.
pub proof fn lemma_chunks_bytes_push(chunks: Seq<ChunkView>, last: ChunkView)
    ensures
        chunks_bytes(chunks.push(last)) == chunks_bytes(chunks) + chunk_bytes(last),
    decreases chunks.len(),
{
    if chunks.len() == 0 {
        assert(chunks.push(last).drop_first() =~= Seq::<ChunkView>::empty());
        assert(chunks_bytes(Seq::<ChunkView>::empty()) =~= Seq::<u8>::empty());
        assert(chunks_bytes(chunks.push(last)) =~= chunk_bytes(last));
    } else {
        lemma_chunks_bytes_push(chunks.drop_first(), last);
        assert(chunks.push(last).drop_first() =~= chunks.drop_first().push(last));
        assert(chunks_bytes(chunks.push(last)) =~= chunks_bytes(chunks) + chunk_bytes(last));
    }
}

/// Whether every one of the chunks is one that the reader accepts.
pub open spec fn valid_chunks(chunks: Seq<ChunkView>) -> bool {
    forall|i: int| 0 <= i < chunks.len() ==> valid_chunk(#[trigger] chunks[i])
}

/// A chunk that was read is one that the reader accepts, and the bytes that
/// it was read from are the bytes that it is written as.
pub proof fn lemma_parse_chunk_ok(bytes: Seq<u8>)
    requires
        parse_chunk(bytes) is Ok,
    ensures
        ({
            let (chunk, used) = parse_chunk(bytes)->Ok_0;
            &&& valid_chunk(chunk)
            &&& used == 12 + chunk.data.len()
            &&& used <= bytes.len()
            &&& bytes.subrange(0, used) == chunk_bytes(chunk)
        }),
{
    reveal(parse_chunk);
    let (chunk, used) = parse_chunk(bytes)->Ok_0;
    let len = be_u32(bytes.subrange(0, 4));
    lemma_be_bytes_of_be_u32(bytes.subrange(0, 4));
    lemma_be_bytes_of_be_u32(bytes.subrange(8 + len, 12 + len));
    assert(chunk.data.len() == len);
    assert(bytes.subrange(0, used) =~= chunk_bytes(chunk));
}

/// A chunk that the reader accepts is read back from the bytes that it is
/// written as, whatever comes behind them.
pub proof fn lemma_parse_chunk_of_chunk_bytes(chunk: ChunkView, tail: Seq<u8>)
    requires
        valid_chunk(chunk),
    ensures
        parse_chunk(chunk_bytes(chunk) + tail) == Ok::<(ChunkView, int), PngFilesError>(
            (chunk, 12 + chunk.data.len() as int),
        ),
        (chunk_bytes(chunk) + tail).skip(12 + chunk.data.len() as int) == tail,
{
    reveal(parse_chunk);
    let bytes = chunk_bytes(chunk) + tail;
    let len = chunk.data.len() as int;
    lemma_be_u32_of_be_bytes(len);
    lemma_be_u32_of_be_bytes(chunk.crc as int);
    assert(bytes.subrange(0, 4) =~= be_bytes(len));
    assert(bytes.subrange(4, 8) =~= chunk.tag);
    assert(bytes.subrange(8, 8 + len) =~= chunk.data);
    assert(bytes.subrange(8 + len, 12 + len) =~= be_bytes(chunk.crc as int));
    assert(bytes.skip(12 + len) =~= tail);
}

/// A chunk whose stored checksum is not that of its type and data is
/// refused for that, whatever comes behind it.
pub proof fn lemma_parse_chunk_bad_checksum(chunk: ChunkView, tail: Seq<u8>)
    requires
        chunk.tag.len() == 4,
        valid_utf8(chunk.tag),
        chunk.data.len() <= u32::MAX,
        chunk.crc != crc32(chunk.tag + chunk.data),
    ensures
        parse_chunk(chunk_bytes(chunk) + tail) == Err::<(ChunkView, int), PngFilesError>(
            PngFilesError::Integrity,
        ),
{
    reveal(parse_chunk);
    let bytes = chunk_bytes(chunk) + tail;
    let len = chunk.data.len() as int;
    lemma_be_u32_of_be_bytes(len);
    lemma_be_u32_of_be_bytes(chunk.crc as int);
    assert(bytes.subrange(0, 4) =~= be_bytes(len));
    assert(bytes.subrange(4, 8) =~= chunk.tag);
    assert(bytes.subrange(8, 8 + len) =~= chunk.data);
    assert(bytes.subrange(8 + len, 12 + len) =~= be_bytes(chunk.crc as int));
}

/// Reading chunks is reading one chunk and then the chunks behind it.
pub proof fn lemma_parse_chunks_step(bytes: Seq<u8>, chunk: ChunkView, used: int)
    requires
        bytes.len() > 0,
        parse_chunk(bytes) == Ok::<(ChunkView, int), PngFilesError>((chunk, used)),
    ensures
        parse_chunks(bytes) == after(seq![chunk], parse_chunks(bytes.skip(used))),
{
}

/// Chunks that were read are chunks that the reader accepts, and writing
/// them gives the bytes that they were read from.
pub proof fn lemma_parse_chunks_ok(bytes: Seq<u8>)
    requires
        parse_chunks(bytes) is Ok,
    ensures
        valid_chunks(parse_chunks(bytes)->Ok_0),
        chunks_bytes(parse_chunks(bytes)->Ok_0) == bytes,
    decreases bytes.len(),
{
    let chunks = parse_chunks(bytes)->Ok_0;
    if bytes.len() == 0 {
        assert(chunks_bytes(chunks) =~= bytes);
    } else {
        let (chunk, used) = parse_chunk(bytes)->Ok_0;
        let behind = bytes.skip(used);
        lemma_parse_chunk_ok(bytes);
        lemma_parse_chunks_step(bytes, chunk, used);
        let rest = parse_chunks(behind)->Ok_0;
        lemma_parse_chunks_ok(behind);
        assert(chunks == seq![chunk] + rest);
        assert(chunks[0] == chunk && chunks.drop_first() =~= rest);
        assert(valid_chunks(chunks)) by {
            assert forall|i: int| 0 <= i < chunks.len() implies valid_chunk(
                #[trigger] chunks[i],
            ) by {
                if i > 0 {
                    assert(chunks[i] == rest[i - 1]);
                }
            }
        }
        assert(chunks_bytes(chunks) == chunk_bytes(chunk) + chunks_bytes(rest));
        assert(bytes.subrange(0, used) + behind =~= bytes);
    }
}

/// Chunks that the reader accepts are read back from the bytes that they
/// are written as; what comes behind them is read as it would be alone.
pub proof fn lemma_parse_chunks_of_chunks_bytes(chunks: Seq<ChunkView>, tail: Seq<u8>)
    requires
        valid_chunks(chunks),
    ensures
        parse_chunks(chunks_bytes(chunks) + tail) == after(chunks, parse_chunks(tail)),
    decreases chunks.len(),
{
    if chunks.len() == 0 {
        assert(chunks_bytes(chunks) + tail =~= tail);
        match parse_chunks(tail) {
            Ok(more) => {
                assert(chunks + more =~= more);
            },
            Err(_) => {},
        }
    } else {
        let first = chunks[0];
        let rest = chunks.drop_first();
        let behind = chunks_bytes(rest) + tail;
        let bytes = chunks_bytes(chunks) + tail;
        let used = 12 + first.data.len() as int;
        assert(valid_chunks(rest)) by {
            assert forall|i: int| 0 <= i < rest.len() implies valid_chunk(#[trigger] rest[i]) by {
                assert(rest[i] == chunks[i + 1]);
            }
        }
        assert(bytes == chunk_bytes(first) + behind) by {
            assert(bytes =~= chunk_bytes(first) + behind);
        }
        lemma_parse_chunk_of_chunk_bytes(first, behind);
        assert(bytes.len() > 0) by {
            lemma_be_u32_of_be_bytes(first.data.len() as int);
        }
        lemma_parse_chunks_step(bytes, first, used);
        lemma_parse_chunks_of_chunks_bytes(rest, tail);
        match parse_chunks(tail) {
            Ok(more) => {
                assert(seq![first] + (rest + more) =~= chunks + more);
            },
            Err(_) => {},
        }
    }
}

} // verus!
