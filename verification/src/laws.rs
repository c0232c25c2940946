//! What holds of reading, changing and writing a PNG, whatever the bytes,
//! keys and files are.

use crate::checksum::crc32;
use crate::chunk::{chunk_bytes, chunk_key, file_tag, lemma_file_tag, valid_chunk, ChunkView};
use crate::deflate::{deflated, inflated};
use crate::endian::lemma_be_u32_of_be_bytes;
use crate::error::PngFilesError;
use crate::format::{
    chunks_bytes, lemma_parse_chunk_bad_checksum, lemma_parse_chunks_of_chunks_bytes,
    lemma_parse_chunks_ok, parse, serialize, signature, valid_chunks,
};
use crate::png::{
    file_chunk, first_with_key, get_result, insert_result, is_first_with_key,
    lemma_first_with_key_is, lemma_first_with_key_none, remove_result,
};
use crate::record::{
    encode_result, lemma_record_header_of_record_bytes, lengths_fit, record_bytes, record_fits,
    record_header,
};
use vstd::prelude::*;
use vstd::utf8::valid_utf8;

verus! {

/// Round trip: a buffer that is read as a PNG is what its chunks are written
/// as, byte for byte, and each of its chunks is one that the reader accepts.
pub proof fn parse_then_serialize(bytes: Seq<u8>)
    requires
        parse(bytes) is Ok,
    ensures
        serialize(parse(bytes)->Ok_0) == bytes,
        valid_chunks(parse(bytes)->Ok_0),
{
    lemma_parse_chunks_ok(bytes.skip(8));
    assert(bytes.subrange(0, 8) + bytes.skip(8) =~= bytes);
}

/// Round trip, the other way: chunks that the reader accepts are read back
/// from what they are written as.
pub proof fn serialize_then_parse(chunks: Seq<ChunkView>)
    requires
        valid_chunks(chunks),
    ensures
        parse(serialize(chunks)) == Ok::<Seq<ChunkView>, PngFilesError>(chunks),
{
    let bytes = serialize(chunks);
    let none = Seq::<u8>::empty();
    assert(bytes.subrange(0, 8) =~= signature());
    assert(bytes.skip(8) =~= chunks_bytes(chunks) + none);
    lemma_parse_chunks_of_chunks_bytes(chunks, none);
    assert(chunks + Seq::<ChunkView>::empty() =~= chunks);
}

/// A buffer that holds the signature and nothing else is a PNG without chunks.
pub proof fn signature_alone_is_empty()
    ensures
        parse(signature()) == Ok::<Seq<ChunkView>, PngFilesError>(Seq::empty()),
{
    assert(signature().subrange(0, 8) =~= signature());
}

/// Corruption is found: where a chunk's stored checksum is not the checksum
/// of its type and data, and the chunks before it are in order, the buffer is
/// refused with `Integrity`, whatever comes behind that chunk.
pub proof fn wrong_checksum_is_refused(before: Seq<ChunkView>, chunk: ChunkView, tail: Seq<u8>)
    requires
        valid_chunks(before),
        chunk.tag.len() == 4,
        valid_utf8(chunk.tag),
        chunk.data.len() <= u32::MAX,
        chunk.crc != crc32(chunk.tag + chunk.data),
    ensures
        parse(serialize(before) + chunk_bytes(chunk) + tail) == Err::<
            Seq<ChunkView>,
            PngFilesError,
        >(PngFilesError::Integrity),
{
    let bytes = serialize(before) + chunk_bytes(chunk) + tail;
    let rest = chunk_bytes(chunk) + tail;
    assert(bytes.subrange(0, 8) =~= signature());
    assert(bytes.skip(8) =~= chunks_bytes(before) + rest);
    lemma_parse_chunks_of_chunks_bytes(before, rest);
    lemma_parse_chunk_bad_checksum(chunk, tail);
    assert(rest.len() > 0) by {
        lemma_be_u32_of_be_bytes(chunk.data.len() as int);
    }
}

/// The file chunk that is made for a key holds that key, and the reader
/// accepts it.
pub proof fn lemma_file_chunk(key: Seq<char>, stream: Seq<u8>)
    requires
        record_fits(key, stream),
    ensures
        valid_chunk(file_chunk(record_bytes(key, stream))),
        chunk_key(file_chunk(record_bytes(key, stream))) == Some(key),
        record_header(record_bytes(key, stream)) == Some((key, stream)),
{
    lemma_file_tag();
    lemma_record_header_of_record_bytes(key, stream);
    lemma_be_u32_of_be_bytes(vstd::utf8::encode_utf8(key).len() as int);
    lemma_be_u32_of_be_bytes(stream.len() as int);
}

/// Insert, then get: a file that was put in under a key is what asking for
/// the key gives, as far as deflate gives back what it was given.
/// [`crate::png::Png::insert_file`] promises the same of each call, since the
/// stream that it has from deflate does inflate to the file.
pub proof fn insert_then_get(chunks: Seq<ChunkView>, key: Seq<char>, raw: Seq<u8>, replace: bool)
    requires
        insert_result(chunks, key, raw, replace) is Ok,
        deflated(raw) matches Some(stream) && inflated(stream) == Some(raw),
    ensures
        get_result(insert_result(chunks, key, raw, replace)->Ok_0, key) == Some(raw),
{
    let put = insert_result(chunks, key, raw, replace)->Ok_0;
    let stream = deflated(raw)->0;
    lemma_file_chunk(key, stream);
    lemma_place_after_insert(chunks, key, raw, replace);
}

/// Where the file that was put in stands: in the place of the first chunk
/// that had the key, or behind all chunks.
pub proof fn lemma_place_after_insert(
    chunks: Seq<ChunkView>,
    key: Seq<char>,
    raw: Seq<u8>,
    replace: bool,
)
    requires
        insert_result(chunks, key, raw, replace) is Ok,
    ensures
        ({
            let put = insert_result(chunks, key, raw, replace)->Ok_0;
            let place = match first_with_key(chunks, key) {
                Some(i) => i,
                None => chunks.len() as int,
            };
            &&& 0 <= place < put.len()
            &&& first_with_key(put, key) == Some(place)
            &&& put[place] == file_chunk(encode_result(key, raw)->Ok_0)
            &&& forall|j: int| 0 <= j < chunks.len() && j != place ==> put[j] == chunks[j]
        }),
{
    let put = insert_result(chunks, key, raw, replace)->Ok_0;
    let stream = deflated(raw)->0;
    lemma_file_chunk(key, stream);
    match first_with_key(chunks, key) {
        Some(i) => {
            assert(is_first_with_key(chunks, key, i));
            assert forall|j: int| 0 <= j < i implies chunk_key(#[trigger] put[j]) != Some(key) by {
                assert(put[j] == chunks[j]);
            }
            lemma_first_with_key_is(put, key, i);
        },
        None => {
            lemma_first_with_key_none(chunks, key);
            assert forall|j: int| 0 <= j < chunks.len() implies chunk_key(#[trigger] put[j])
                != Some(key) by {
                assert(put[j] == chunks[j]);
            }
            lemma_first_with_key_is(put, key, chunks.len() as int);
        },
    }
}

/// Whether at most one chunk holds a file under `key`.
pub open spec fn key_at_most_once(chunks: Seq<ChunkView>, key: Seq<char>) -> bool {
    forall|i: int, j: int|
        0 <= i < chunks.len() && 0 <= j < chunks.len() && chunk_key(#[trigger] chunks[i]) == Some(
            key,
        ) && chunk_key(#[trigger] chunks[j]) == Some(key) ==> i == j
}

/// Insert, then remove: where no two chunks held the key, putting a file in
/// under it and taking the key out again leaves nothing to get under it. (A
/// buffer may be read that holds a key twice; then the second is left.)
pub proof fn insert_then_remove(chunks: Seq<ChunkView>, key: Seq<char>, raw: Seq<u8>, replace: bool)
    requires
        key_at_most_once(chunks, key),
        insert_result(chunks, key, raw, replace) is Ok,
    ensures
        first_with_key(insert_result(chunks, key, raw, replace)->Ok_0, key) is Some,
        get_result(remove_result(insert_result(chunks, key, raw, replace)->Ok_0, key), key) is None,
{
    let put = insert_result(chunks, key, raw, replace)->Ok_0;
    lemma_place_after_insert(chunks, key, raw, replace);
    let place = first_with_key(put, key)->0;
    let left = remove_result(put, key);
    assert(left == put.remove(place));
    assert forall|j: int| 0 <= j < left.len() implies chunk_key(#[trigger] left[j]) != Some(
        key,
    ) by {
        let k = if j < place {
            j
        } else {
            j + 1
        };
        assert(left[j] == put[k]);
        if k < chunks.len() {
            assert(put[k] == chunks[k]);
            if chunk_key(chunks[k]) == Some(key) {
                match first_with_key(chunks, key) {
                    Some(i) => {
                        assert(is_first_with_key(chunks, key, i));
                        assert(chunk_key(chunks[i]) == Some(key));
                    },
                    None => {
                        lemma_first_with_key_none(chunks, key);
                    },
                }
            }
        }
    }
    lemma_first_with_key_none(left, key);
}

/// A key that is taken: without `replace` the file is refused as a
/// duplicate. With `replace` it is put in exactly when deflate has a stream
/// for it whose record fits in a chunk, and then it stands where the first
/// chunk with the key stood, and every other chunk is as it was.
pub proof fn insert_taken_key(chunks: Seq<ChunkView>, key: Seq<char>, raw: Seq<u8>)
    requires
        first_with_key(chunks, key) is Some,
    ensures
        insert_result(chunks, key, raw, false) == Err::<Seq<ChunkView>, PngFilesError>(
            PngFilesError::DuplicateKey,
        ),
        insert_result(chunks, key, raw, true) is Ok <==> (deflated(raw) matches Some(stream)
            && record_fits(key, stream)),
        insert_result(chunks, key, raw, true) matches Ok(put) ==> {
            let place = first_with_key(chunks, key)->0;
            &&& put.len() == chunks.len()
            &&& first_with_key(put, key) == Some(place)
            &&& forall|j: int| 0 <= j < chunks.len() && j != place ==> put[j] == chunks[j]
        },
{
    lemma_record_len(key, raw);
    if insert_result(chunks, key, raw, true) is Ok {
        lemma_place_after_insert(chunks, key, raw, true);
    }
}

/// A key that is new: the file is put in exactly when deflate has a stream
/// for it whose record fits in a chunk, and then it stands behind all
/// chunks, which are as they were.
pub proof fn insert_new_key(chunks: Seq<ChunkView>, key: Seq<char>, raw: Seq<u8>, replace: bool)
    requires
        first_with_key(chunks, key) is None,
    ensures
        insert_result(chunks, key, raw, replace) is Ok <==> (deflated(raw) matches Some(stream)
            && record_fits(key, stream)),
        insert_result(chunks, key, raw, replace) matches Ok(put) ==> put.len() == chunks.len() + 1
            && put.subrange(0, chunks.len() as int) == chunks,
{
    lemma_record_len(key, raw);
    if insert_result(chunks, key, raw, replace) is Ok {
        let put = insert_result(chunks, key, raw, replace)->Ok_0;
        assert(put.subrange(0, chunks.len() as int) =~= chunks);
    }
}

/// The record that is written for a file is eight bytes longer than the
/// key and the deflated stream together.
pub proof fn lemma_record_len(key: Seq<char>, raw: Seq<u8>)
    ensures
        encode_result(key, raw) matches Ok(data) ==> data.len() == 8 + vstd::utf8::encode_utf8(
            key,
        ).len() + deflated(raw)->0.len(),
        encode_result(key, raw) is Ok <==> (deflated(raw) matches Some(stream) && lengths_fit(
            key,
            stream,
        )),
{
    if encode_result(key, raw) is Ok {
        lemma_record_header_of_record_bytes(key, deflated(raw)->0);
    }
}

/// The size boundary: a file whose record is too long for one chunk is
/// refused with `SizeLimit`, unless it was already refused as a duplicate.
pub proof fn insert_too_long(chunks: Seq<ChunkView>, key: Seq<char>, raw: Seq<u8>, replace: bool)
    requires
        deflated(raw) matches Some(stream) && !record_fits(key, stream),
        replace || first_with_key(chunks, key) is None,
    ensures
        insert_result(chunks, key, raw, replace) == Err::<Seq<ChunkView>, PngFilesError>(
            PngFilesError::SizeLimit,
        ),
{
    lemma_record_len(key, raw);
}

/// Putting a file in leaves chunks that the reader accepts.
pub proof fn insert_keeps_valid(chunks: Seq<ChunkView>, key: Seq<char>, raw: Seq<u8>, replace: bool)
    requires
        valid_chunks(chunks),
        insert_result(chunks, key, raw, replace) is Ok,
    ensures
        valid_chunks(insert_result(chunks, key, raw, replace)->Ok_0),
{
    let put = insert_result(chunks, key, raw, replace)->Ok_0;
    lemma_place_after_insert(chunks, key, raw, replace);
    lemma_file_chunk(key, deflated(raw)->0);
    let place = first_with_key(put, key)->0;
    assert forall|j: int| 0 <= j < put.len() implies valid_chunk(#[trigger] put[j]) by {
        if j != place {
            assert(put[j] == chunks[j]);
        }
    }
}

/// Taking a key out leaves chunks that the reader accepts.
pub proof fn remove_keeps_valid(chunks: Seq<ChunkView>, key: Seq<char>)
    requires
        valid_chunks(chunks),
    ensures
        valid_chunks(remove_result(chunks, key)),
{
    let left = remove_result(chunks, key);
    match first_with_key(chunks, key) {
        Some(i) => {
            assert(is_first_with_key(chunks, key, i));
            assert forall|j: int| 0 <= j < left.len() implies valid_chunk(#[trigger] left[j]) by {
                let k = if j < i {
                    j
                } else {
                    j + 1
                };
                assert(left[j] == chunks[k]);
            }
        },
        None => {},
    }
}

/// Putting a file in never makes a key stand twice: a key that at most one
/// chunk held is held by at most one chunk afterwards.
pub proof fn insert_keeps_keys_apart(
    chunks: Seq<ChunkView>,
    key: Seq<char>,
    raw: Seq<u8>,
    replace: bool,
    other: Seq<char>,
)
    requires
        key_at_most_once(chunks, other),
        insert_result(chunks, key, raw, replace) is Ok,
    ensures
        key_at_most_once(insert_result(chunks, key, raw, replace)->Ok_0, other),
{
    let put = insert_result(chunks, key, raw, replace)->Ok_0;
    lemma_place_after_insert(chunks, key, raw, replace);
    lemma_file_chunk(key, deflated(raw)->0);
    let place = first_with_key(put, key)->0;
    assert(chunk_key(put[place]) == Some(key));
    if first_with_key(chunks, key) is Some {
        assert(is_first_with_key(chunks, key, place));
    } else {
        lemma_first_with_key_none(chunks, key);
    }
    assert forall|i: int, j: int|
        0 <= i < put.len() && 0 <= j < put.len() && chunk_key(#[trigger] put[i]) == Some(other)
            && chunk_key(#[trigger] put[j]) == Some(other) implies i == j by {
        if i != place {
            assert(put[i] == chunks[i]);
        }
        if j != place {
            assert(put[j] == chunks[j]);
        }
        if i != j {
            if place < chunks.len() {
                assert(chunk_key(chunks[place]) == Some(key));
                assert(chunk_key(chunks[i]) == Some(other));
                assert(chunk_key(chunks[j]) == Some(other));
            } else {
                if i == place {
                    assert(chunk_key(chunks[j]) != Some(key));
                } else if j == place {
                    assert(chunk_key(chunks[i]) != Some(key));
                } else {
                    assert(chunk_key(chunks[i]) == Some(other));
                    assert(chunk_key(chunks[j]) == Some(other));
                }
            }
        }
    }
}

/// The chunks that hold no file, in their order.
pub open spec fn other_chunks(chunks: Seq<ChunkView>) -> Seq<ChunkView> {
    chunks.filter(|chunk: ChunkView| chunk.tag != file_tag())
}

/// A file chunk between two runs of chunks adds nothing to the chunks that
/// hold no file.
proof fn lemma_other_chunks_around(front: Seq<ChunkView>, file: ChunkView, back: Seq<ChunkView>)
    requires
        file.tag == file_tag(),
    ensures
        other_chunks(front + seq![file] + back) == other_chunks(front) + other_chunks(back),
        other_chunks(front + back) == other_chunks(front) + other_chunks(back),
{
    let others = |chunk: ChunkView| chunk.tag != file_tag();
    let one = seq![file];
    Seq::filter_distributes_over_add(front, one, others);
    Seq::filter_distributes_over_add(front + one, back, others);
    Seq::filter_distributes_over_add(front, back, others);
    assert(one.filter(others) =~= Seq::<ChunkView>::empty()) by {
        reveal_with_fuel(Seq::filter, 2);
        assert(one.drop_last() =~= Seq::<ChunkView>::empty());
    }
    assert(other_chunks(front) + Seq::<ChunkView>::empty() =~= other_chunks(front));
}

/// Putting a file in leaves the chunks that hold no file as they were, each
/// in its place among them.
pub proof fn insert_keeps_other_chunks(
    chunks: Seq<ChunkView>,
    key: Seq<char>,
    raw: Seq<u8>,
    replace: bool,
)
    requires
        insert_result(chunks, key, raw, replace) is Ok,
    ensures
        other_chunks(insert_result(chunks, key, raw, replace)->Ok_0) == other_chunks(chunks),
{
    let put = insert_result(chunks, key, raw, replace)->Ok_0;
    let file = file_chunk(encode_result(key, raw)->Ok_0);
    let none = Seq::<ChunkView>::empty();
    match first_with_key(chunks, key) {
        Some(i) => {
            assert(is_first_with_key(chunks, key, i));
            let front = chunks.subrange(0, i);
            let back = chunks.subrange(i + 1, chunks.len() as int);
            assert(chunks =~= front + seq![chunks[i]] + back);
            assert(put =~= front + seq![file] + back);
            lemma_other_chunks_around(front, chunks[i], back);
            lemma_other_chunks_around(front, file, back);
        },
        None => {
            assert(put =~= chunks + seq![file] + none);
            assert(chunks + none =~= chunks);
            lemma_other_chunks_around(chunks, file, none);
        },
    }
}

/// Taking a key out leaves the chunks that hold no file as they were, each
/// in its place among them.
pub proof fn remove_keeps_other_chunks(chunks: Seq<ChunkView>, key: Seq<char>)
    ensures
        other_chunks(remove_result(chunks, key)) == other_chunks(chunks),
{
    match first_with_key(chunks, key) {
        Some(i) => {
            assert(is_first_with_key(chunks, key, i));
            let front = chunks.subrange(0, i);
            let back = chunks.subrange(i + 1, chunks.len() as int);
            assert(chunks =~= front + seq![chunks[i]] + back);
            assert(chunks.remove(i) =~= front + back);
            lemma_other_chunks_around(front, chunks[i], back);
        },
        None => {},
    }
}

} // verus!
