use crate::checksum::{checksum, crc32};
use crate::chunk::{
    chunk_key, file_tag, lemma_file_tag, valid_chunk, ChunkType, ChunkView, DataSource, PngChunk,
    CHUNK_TYPE,
};
use crate::deflate::{deflate, inflated};
use crate::endian::{length_field, read_be_u32};
use crate::error::PngFilesError;
use crate::format::{
    after, chunks_bytes, lemma_chunks_bytes_push, parse, parse_chunk, parse_chunks, serialize,
    signature, valid_chunks, PNG_HEADER,
};
use crate::record::{
    encode_result, lemma_record_header_of_record_bytes, lengths_fit, record_header, File,
};
use crate::text::{lemma_encode_utf8_injective, same_bytes, same_text, text_of};
use std::rc::Rc;
use vstd::prelude::*;
use vstd::slice::slice_subrange;

verus! {

/// Whether chunk `i` is the first that holds a file under `key`.
pub open spec fn is_first_with_key(chunks: Seq<ChunkView>, key: Seq<char>, i: int) -> bool {
    &&& 0 <= i < chunks.len()
    &&& chunk_key(chunks[i]) == Some(key)
    &&& forall|j: int| 0 <= j < i ==> chunk_key(#[trigger] chunks[j]) != Some(key)
}

/// The place of the first chunk that holds a file under `key`.
pub open spec fn first_with_key(chunks: Seq<ChunkView>, key: Seq<char>) -> Option<int> {
    if exists|i: int| is_first_with_key(chunks, key, i) {
        Some(choose|i: int| is_first_with_key(chunks, key, i))
    } else {
        None
    }
}

/// A chunk that is the first with its key is the one that
/// [`first_with_key`] names.
pub proof fn lemma_first_with_key_is(chunks: Seq<ChunkView>, key: Seq<char>, i: int)
    requires
        is_first_with_key(chunks, key, i),
    ensures
        first_with_key(chunks, key) == Some(i),
{
    let k = choose|k: int| is_first_with_key(chunks, key, k);
    assert(k == i) by {
        if k < i {
            assert(chunk_key(chunks[k]) != Some(key));
        }
        if i < k {
            assert(chunk_key(chunks[i]) != Some(key));
        }
    }
}

/// [`first_with_key`] names nothing only where no chunk holds the key.
pub proof fn lemma_first_with_key_none(chunks: Seq<ChunkView>, key: Seq<char>)
    ensures
        first_with_key(chunks, key) is None <==> forall|j: int|
            0 <= j < chunks.len() ==> chunk_key(#[trigger] chunks[j]) != Some(key),
    decreases chunks.len(),
{
    if exists|j: int| 0 <= j < chunks.len() && chunk_key(#[trigger] chunks[j]) == Some(key) {
        let j = choose|j: int| 0 <= j < chunks.len() && chunk_key(#[trigger] chunks[j]) == Some(key);
        lemma_least_with_key(chunks, key, j);
    }
}

/// Where some chunk at or before `j` holds the key, one of them is the first.
proof fn lemma_least_with_key(chunks: Seq<ChunkView>, key: Seq<char>, j: int)
    requires
        0 <= j < chunks.len(),
        chunk_key(chunks[j]) == Some(key),
    ensures
        exists|i: int| is_first_with_key(chunks, key, i),
    decreases j,
{
    if exists|k: int| 0 <= k < j && chunk_key(#[trigger] chunks[k]) == Some(key) {
        let k = choose|k: int| 0 <= k < j && chunk_key(#[trigger] chunks[k]) == Some(key);
        lemma_least_with_key(chunks, key, k);
    } else {
        assert(is_first_with_key(chunks, key, j));
    }
}

/// What asking for `key` gives: the inflated payload of the first chunk that
/// holds the key, and nothing where there is no such chunk or its payload
/// does not inflate.
pub open spec fn get_result(chunks: Seq<ChunkView>, key: Seq<char>) -> Option<Seq<u8>> {
    match first_with_key(chunks, key) {
        Some(i) => match record_header(chunks[i].data) {
            Some((_, payload)) => inflated(payload),
            None => None,
        },
        None => None,
    }
}

/// The chunks without the first that holds `key`.
pub open spec fn remove_result(chunks: Seq<ChunkView>, key: Seq<char>) -> Seq<ChunkView> {
    match first_with_key(chunks, key) {
        Some(i) => chunks.remove(i),
        None => chunks,
    }
}

/// The file chunk with the given data.
pub open spec fn file_chunk(data: Seq<u8>) -> ChunkView {
    ChunkView { tag: file_tag(), data, crc: crc32(file_tag() + data) }
}

/// Where a file goes that is put in under `key`: the place of the first
/// chunk with the key, or behind all chunks.
pub open spec fn place_of(chunks: Seq<ChunkView>, key: Seq<char>) -> int {
    match first_with_key(chunks, key) {
        Some(i) => i,
        None => chunks.len() as int,
    }
}

/// What putting a file in under `key` gives. A key that is taken is an error
/// unless `replace` is set; then the new chunk takes the place of the first
/// chunk with the key. A new key goes behind all chunks. A record that is
/// too long to be the data of a chunk is an error.
pub open spec fn insert_result(
    chunks: Seq<ChunkView>,
    key: Seq<char>,
    raw: Seq<u8>,
    replace: bool,
) -> Result<Seq<ChunkView>, PngFilesError> {
    let place = first_with_key(chunks, key);
    if place is Some && !replace {
        Err(PngFilesError::DuplicateKey)
    } else {
        match encode_result(key, raw) {
            Err(e) => Err(e),
            Ok(data) => if data.len() > u32::MAX {
                Err(PngFilesError::SizeLimit)
            } else {
                match place {
                    Some(i) => Ok(chunks.update(i, file_chunk(data))),
                    None => Ok(chunks.push(file_chunk(data))),
                }
            },
        }
    }
}

/// A PNG in memory: its chunks in their order.
pub struct Png {
    chunks: Vec<PngChunk>,
    capacity: usize,
}

impl Png {
    /// The chunks of the PNG, in their order.
    pub closed spec fn view(&self) -> Seq<ChunkView> {
        Seq::new(self.chunks@.len(), |i: int| self.chunks@[i]@)
    }

    /// Where each chunk has its data: in a range of the buffer that was
    /// read, or in a buffer of its own.
    pub closed spec fn sources(&self) -> Seq<DataSource> {
        Seq::new(self.chunks@.len(), |i: int| self.chunks@[i].source)
    }

    /// Every chunk is well-formed.
    pub closed spec fn wf(&self) -> bool {
        forall|i: int| 0 <= i < self.chunks@.len() ==> (#[trigger] self.chunks@[i]).wf()
    }

    /// Each chunk has a source, and its data is what the source stands for.
    pub proof fn lemma_sources(&self)
        requires
            self.wf(),
        ensures
            self.sources().len() == self@.len(),
            forall|i: int|
                0 <= i < self@.len() ==> (#[trigger] self.sources()[i]).wf() && self.sources()[i]@
                    == self@[i].data,
    {
    }

    /// The chunks of a well-formed PNG are chunks that the reader accepts.
    pub proof fn lemma_wf_valid(&self)
        requires
            self.wf(),
        ensures
            valid_chunks(self@),
    {
        assert forall|i: int| 0 <= i < self@.len() implies valid_chunk(#[trigger] self@[i]) by {
            assert(self.chunks@[i].wf());
        }
    }

    /// Reads the chunk that starts at `pos` in the buffer, and says where the
    /// next one starts. The chunk keeps its data in the buffer.
    fn read_chunk(data: &Rc<Vec<u8>>, pos: usize) -> (read: Result<(PngChunk, usize), PngFilesError>)
        requires
            pos < data@.len(),
        ensures
            match read {
                Ok((chunk, next)) => {
                    &&& chunk.wf()
                    &&& chunk.source.shares(data@)
                    &&& pos < next <= data@.len()
                    &&& parse_chunk(data@.skip(pos as int)) == Ok::<
                        (ChunkView, int),
                        PngFilesError,
                    >((chunk@, next - pos))
                },
                Err(e) => parse_chunk(data@.skip(pos as int)) == Err::<
                    (ChunkView, int),
                    PngFilesError,
                >(e),
            },
    {
        proof {
            reveal(parse_chunk);
        }
        let bytes: &[u8] = data.as_slice();
        let ghost rest = bytes@.skip(pos as int);
        let left = bytes.len() - pos;
        if left < 4 {
            return Err(PngFilesError::OutOfBounds);
        }
        let len_bytes = slice_subrange(bytes, pos, pos + 4);
        assert(len_bytes@.subrange(0, 4) =~= rest.subrange(0, 4));
        let len = read_be_u32(len_bytes) as usize;
        if left < 8 || left - 8 < len {
            return Err(PngFilesError::OutOfBounds);
        }
        let range_pos = pos + 8;
        let crc_data = slice_subrange(bytes, pos + 4, range_pos + len);
        let data_crc = checksum(crc_data);
        let tag_bytes = slice_subrange(bytes, pos + 4, range_pos);
        let ghost tag = rest.subrange(4, 8);
        let ghost payload = rest.subrange(8, 8 + len);
        assert(tag_bytes@ =~= tag);
        assert(crc_data@ =~= tag + payload);
        let chunk_type = match text_of(tag_bytes) {
            Some(text) => text,
            None => {
                return Err(PngFilesError::Format);
            },
        };
        if left - 8 - len < 4 {
            return Err(PngFilesError::OutOfBounds);
        }
        let crc_bytes = slice_subrange(bytes, range_pos + len, range_pos + len + 4);
        assert(crc_bytes@.subrange(0, 4) =~= rest.subrange(8 + len, 12 + len));
        let crc = read_be_u32(crc_bytes);
        if data_crc != crc {
            return Err(PngFilesError::Integrity);
        }
        let chunk_data = slice_subrange(bytes, range_pos, range_pos + len);
        assert(chunk_data@ =~= payload);
        proof {
            lemma_file_tag();
            lemma_encode_utf8_injective(chunk_type@, CHUNK_TYPE@);
            vstd::utf8::decode_utf8_encode_utf8(tag);
        }
        let chunk_type = if same_text(chunk_type, CHUNK_TYPE) {
            match Png::decode_file(chunk_data) {
                Ok(file) => ChunkType::File { key: file.key.to_owned() },
                Err(e) => {
                    return Err(e);
                },
            }
        } else {
            ChunkType::Png(chunk_type.to_owned())
        };
        assert(chunk_type.tag() == tag);
        let source = DataSource::Range { data: data.clone(), start: range_pos, end: range_pos + len };
        assert(source@ =~= payload);
        Ok((PngChunk { source, chunk_type, crc, len: len as u32 }, range_pos + len + 4))
    }

    /// Reads a PNG: checks the signature and then each chunk, its checksum
    /// too. The chunks keep their data in the buffer that was handed in:
    /// none is copied.
    pub fn new(data: Vec<u8>) -> (png: Result<Png, PngFilesError>)
        ensures
            match png {
                Ok(p) => {
                    &&& p.wf()
                    &&& parse(data@) == Ok::<Seq<ChunkView>, PngFilesError>(p@)
                    &&& p.sources().len() == p@.len()
                    &&& forall|i: int|
                        0 <= i < p@.len() ==> (#[trigger] p.sources()[i]).shares(data@)
                },
                Err(e) => parse(data@) == Err::<Seq<ChunkView>, PngFilesError>(e),
            },
    {
        let ghost input = data@;
        let file_len = data.len();
        let shared = Rc::new(data);
        if file_len < 8 || !same_bytes(slice_subrange(shared.as_slice(), 0, 8), &PNG_HEADER) {
            return Err(PngFilesError::Format);
        }
        let mut chunks: Vec<PngChunk> = Vec::new();
        let mut pos: usize = 8;
        while pos < file_len
            invariant
                8 <= pos <= file_len,
                file_len == input.len(),
                data@ == input,
                shared@ == input,
                input.subrange(0, 8) == signature(),
                forall|i: int|
                    0 <= i < chunks@.len() ==> (#[trigger] chunks@[i]).wf() && chunks@[i].source.shares(
                        input,
                    ),
                parse_chunks(input.skip(8)) == after(
                    Seq::new(chunks@.len(), |i: int| chunks@[i]@),
                    parse_chunks(input.skip(pos as int)),
                ),
            decreases file_len - pos,
        {
            let ghost done = Seq::new(chunks@.len(), |i: int| chunks@[i]@);
            let ghost rest = input.skip(pos as int);
            match Png::read_chunk(&shared, pos) {
                Ok((chunk, next)) => {
                    chunks.push(chunk);
                    pos = next;
                    proof {
                        let now = Seq::new(chunks@.len(), |i: int| chunks@[i]@);
                        assert(rest.skip(parse_chunk(rest)->Ok_0.1) =~= input.skip(pos as int));
                        assert(now =~= done.push(chunk@));
                        match parse_chunks(input.skip(pos as int)) {
                            Ok(more) => {
                                assert(done + (seq![chunk@] + more) =~= now + more);
                            },
                            Err(_) => {},
                        }
                    }
                },
                Err(e) => {
                    assert(rest.len() > 0);
                    assert(parse_chunks(rest) == Err::<Seq<ChunkView>, PngFilesError>(e));
                    return Err(e);
                },
            }
        }
        let png = Png { chunks, capacity: file_len };
        assert(png@ =~= png@ + Seq::<ChunkView>::empty());
        Ok(png)
    }

    /// Reads the key and finds the payload in the data of a file chunk. The
    /// payload is not inflated.
    pub fn decode_file<'a>(bytes: &'a [u8]) -> (file: Result<File<'a>, PngFilesError>)
        ensures
            match file {
                Ok(f) => record_header(bytes@) == Some((f.key@, f.data@)),
                Err(e) => e == PngFilesError::Encoding && record_header(bytes@) is None,
            },
    {
        let n = bytes.len();
        if n < 4 {
            return Err(PngFilesError::Encoding);
        }
        let klen = read_be_u32(bytes) as usize;
        if n - 4 < klen || n - 4 - klen < 4 {
            return Err(PngFilesError::Encoding);
        }
        let key = match text_of(slice_subrange(bytes, 4, 4 + klen)) {
            Some(key) => key,
            None => {
                return Err(PngFilesError::Encoding);
            },
        };
        let dlen_bytes = slice_subrange(bytes, 4 + klen, 8 + klen);
        assert(dlen_bytes@.subrange(0, 4) =~= dlen_bytes@);
        let dlen = read_be_u32(dlen_bytes) as usize;
        if n - 8 - klen < dlen {
            return Err(PngFilesError::Encoding);
        }
        Ok(File { key, data: slice_subrange(bytes, 8 + klen, 8 + klen + dlen) })
    }

    /// Deflates the payload of `file` and writes the record out: the data of
    /// a file chunk.
    pub fn encode_file(file: File<'_>) -> (bytes: Result<Vec<u8>, PngFilesError>)
        ensures
            match bytes {
                Ok(b) => encode_result(file.key@, file.data@) == Ok::<Seq<u8>, PngFilesError>(b@),
                Err(e) => encode_result(file.key@, file.data@) == Err::<Seq<u8>, PngFilesError>(e),
            },
            bytes matches Ok(b) ==> record_header(b@) matches Some((key, payload)) && key
                == file.key@ && inflated(payload) == Some(file.data@),
    {
        match deflate(file.data) {
            Some(stream) => {
                proof {
                    if lengths_fit(file.key@, stream@) {
                        lemma_record_header_of_record_bytes(file.key@, stream@);
                    }
                }
                (File { key: file.key, data: stream.as_slice() }).into_bytes()
            },
            None => Err(PngFilesError::Compression),
        }
    }

    /// The place of the first chunk that holds a file under `key`.
    pub fn position(&self, key: &str) -> (place: Option<usize>)
        requires
            self.wf(),
        ensures
            match place {
                Some(i) => first_with_key(self@, key@) == Some(i as int),
                None => first_with_key(self@, key@) is None,
            },
    {
        let mut i: usize = 0;
        while i < self.chunks.len()
            invariant
                self.wf(),
                i <= self.chunks@.len(),
                forall|j: int| 0 <= j < i ==> chunk_key(#[trigger] self@[j]) != Some(key@),
            decreases self.chunks@.len() - i,
        {
            match self.chunks[i].chunk_type.get_key() {
                Some(k) => {
                    if same_text(k, key) {
                        proof {
                            lemma_first_with_key_is(self@, key@, i as int);
                        }
                        return Some(i);
                    }
                },
                None => {},
            }
            i += 1;
        }
        proof {
            lemma_first_with_key_none(self@, key@);
        }
        None
    }

    /// The file that is kept under `key`, inflated. `None` where no chunk
    /// holds the key, and also where the first that does cannot be inflated.
    pub fn get_file(&self, key: &str) -> (file: Option<Vec<u8>>)
        requires
            self.wf(),
        ensures
            match file {
                Some(f) => get_result(self@, key@) == Some(f@),
                None => get_result(self@, key@) is None,
            },
    {
        match self.position(key) {
            Some(i) => match Png::decode_file(self.chunks[i].as_data()) {
                Ok(file) => match file.decode_data() {
                    Ok(raw) => Some(raw),
                    Err(_) => None,
                },
                Err(_) => None,
            },
            None => None,
        }
    }

    /// Takes out the first chunk that holds a file under `key`, and says
    /// whether there was one.
    pub fn remove_file(&mut self, key: &str) -> (removed: bool)
        requires
            old(self).wf(),
        ensures
            final(self).wf(),
            removed == first_with_key(old(self)@, key@) is Some,
            final(self)@ == remove_result(old(self)@, key@),
            final(self).sources() == match first_with_key(old(self)@, key@) {
                Some(i) => old(self).sources().remove(i),
                None => old(self).sources(),
            },
    {
        match self.position(key) {
            Some(idx) => {
                self.chunks.remove(idx);
                assert(self@ =~= old(self)@.remove(idx as int));
                assert(self.sources() =~= old(self).sources().remove(idx as int));
                true
            },
            None => false,
        }
    }

    /// The file chunk for a record that was written out, with its checksum.
    fn file_chunk(key: &str, data: Vec<u8>, len: u32) -> (chunk: PngChunk)
        requires
            data@.len() == len,
            record_header(data@) matches Some((k, _)) && k == key@,
        ensures
            chunk.wf(),
            chunk.source.owned(),
            chunk@ == file_chunk(data@),
    {
        let mut checked: Vec<u8> = Vec::with_capacity(data.len());
        checked.extend_from_slice(CHUNK_TYPE.as_bytes());
        checked.extend_from_slice(data.as_slice());
        proof {
            lemma_file_tag();
            assert(checked@ =~= file_tag() + data@);
        }
        let crc = checksum(checked.as_slice());
        PngChunk {
            source: DataSource::Data(data),
            chunk_type: ChunkType::File { key: key.to_owned() },
            crc,
            len,
        }
    }

    /// Puts a file chunk in the place of the first chunk with its key, or
    /// behind all chunks where the key is new.
    fn put(&mut self, place: Option<usize>, chunk: PngChunk, Ghost(key): Ghost<Seq<char>>)
        requires
            old(self).wf(),
            chunk.wf(),
            chunk_key(chunk@) == Some(key),
            match place {
                Some(i) => first_with_key(old(self)@, key) == Some(i as int),
                None => first_with_key(old(self)@, key) is None,
            },
        ensures
            final(self).wf(),
            final(self)@ == match place {
                Some(i) => old(self)@.update(i as int, chunk@),
                None => old(self)@.push(chunk@),
            },
            first_with_key(final(self)@, key) == Some(place_of(old(self)@, key)),
            final(self).sources() == match place {
                Some(i) => old(self).sources().update(i as int, chunk.source),
                None => old(self).sources().push(chunk.source),
            },
    {
        match place {
            None => {
                self.chunks.push(chunk);
                proof {
                    assert(self@ =~= old(self)@.push(chunk@));
                    assert(self.sources() =~= old(self).sources().push(chunk.source));
                    lemma_first_with_key_none(old(self)@, key);
                    assert forall|j: int| 0 <= j < old(self)@.len() implies chunk_key(
                        #[trigger] self@[j],
                    ) != Some(key) by {
                        assert(self@[j] == old(self)@[j]);
                    }
                    lemma_first_with_key_is(self@, key, old(self)@.len() as int);
                }
            },
            Some(i) => {
                self.chunks.set(i, chunk);
                proof {
                    assert(self@ =~= old(self)@.update(i as int, chunk@));
                    assert(self.sources() =~= old(self).sources().update(i as int, chunk.source));
                    assert forall|j: int| 0 <= j < i implies chunk_key(#[trigger] self@[j])
                        != Some(key) by {
                        assert(self@[j] == old(self)@[j]);
                    }
                    lemma_first_with_key_is(self@, key, i as int);
                }
            },
        }
    }

    /// Puts a file in under `key`, deflated. Where the key is taken, the
    /// file takes the place of the one that has it if `replace` is set, and
    /// is refused if not. A new key goes behind all chunks. A file whose
    /// record is too long to be the data of a chunk is refused. Where the
    /// file is refused, nothing changes. The new chunk has a buffer of its
    /// own, and every other chunk has its data where it had it.
    pub fn insert_file(&mut self, key: &str, data: Vec<u8>, replace: bool) -> (done: Result<
        (),
        PngFilesError,
    >)
        requires
            old(self).wf(),
        ensures
            final(self).wf(),
            match done {
                Ok(()) => {
                    &&& insert_result(old(self)@, key@, data@, replace) == Ok::<
                        Seq<ChunkView>,
                        PngFilesError,
                    >(final(self)@)
                    &&& get_result(final(self)@, key@) == Some(data@)
                    &&& final(self).sources().len() == final(self)@.len()
                    &&& final(self).sources()[place_of(old(self)@, key@)].owned()
                    &&& forall|j: int|
                        0 <= j < old(self)@.len() && j != place_of(old(self)@, key@) ==> (
                        #[trigger] final(self).sources()[j]) == old(self).sources()[j]
                },
                Err(e) => {
                    &&& insert_result(old(self)@, key@, data@, replace) == Err::<
                        Seq<ChunkView>,
                        PngFilesError,
                    >(e)
                    &&& final(self)@ == old(self)@
                    &&& final(self).sources() == old(self).sources()
                },
            },
    {
        let idx = self.position(key);
        if !replace && idx.is_some() {
            return Err(PngFilesError::DuplicateKey);
        }
        let file = File { key, data: data.as_slice() };
        match Png::encode_file(file) {
            Ok(encoded) => {
                let len = match length_field(encoded.len()) {
                    Some(len) => len,
                    None => {
                        return Err(PngFilesError::SizeLimit);
                    },
                };
                let chunk = Png::file_chunk(key, encoded, len);
                self.put(idx, chunk, Ghost(key@));
                Ok(())
            },
            Err(e) => Err(e),
        }
    }

    /// The bytes of the PNG: the signature, then each chunk in its place.
    pub fn into_bytes(self) -> (bytes: Vec<u8>)
        requires
            self.wf(),
        ensures
            bytes@ == serialize(self@),
    {
        let ghost chunks = self@;
        let ghost all = self.chunks@;
        let mut bytes: Vec<u8> = Vec::with_capacity(self.capacity);
        bytes.extend_from_slice(&PNG_HEADER);
        for chunk in iter: self.chunks
            invariant
                iter.seq() == all,
                chunks.len() == all.len(),
                forall|i: int| 0 <= i < all.len() ==> (#[trigger] all[i]).wf() && all[i]@ == chunks[i],
                bytes@ == signature() + chunks_bytes(chunks.subrange(0, iter.index() as int)),
        {
            let ghost done = chunks.subrange(0, iter.index() as int);
            let mut chunk_bytes = chunk.into_bytes();
            bytes.append(&mut chunk_bytes);
            proof {
                lemma_chunks_bytes_push(done, chunks[iter.index() as int]);
                assert(chunks.subrange(0, iter.index() + 1) =~= done.push(chunks[iter.index() as int]));
            }
        }
        assert(chunks.subrange(0, chunks.len() as int) =~= chunks);
        bytes
    }

}

} // verus!
