use crate::deflate::{deflated, inflate, inflated};
use crate::endian::{be_bytes, be_u32, lemma_be_u32_of_be_bytes, length_field, write_be_u32};
use crate::error::PngFilesError;
use vstd::prelude::*;
use vstd::utf8::{decode_utf8, encode_utf8, valid_utf8};

verus! {

/// A file as it lies in a file chunk: its key, and its contents still deflated.
#[derive(Debug, Clone, Copy)]
pub struct File<'a> {
    pub key: &'a str,
    pub data: &'a [u8],
}

/// The data of a file chunk: the length of the key in four bytes, the key in
/// UTF-8, the length of the payload in four bytes, the payload.
pub open spec fn record_bytes(key: Seq<char>, data: Seq<u8>) -> Seq<u8> {
    be_bytes(encode_utf8(key).len() as int) + encode_utf8(key) + be_bytes(data.len() as int) + data
}

/// Whether the key and the payload can be written as a record: each of the
/// two lengths fits in its four bytes.
pub open spec fn lengths_fit(key: Seq<char>, data: Seq<u8>) -> bool {
    encode_utf8(key).len() <= u32::MAX && data.len() <= u32::MAX
}

/// Whether the record of a key and a payload is short enough to be the data
/// of one chunk.
pub open spec fn record_fits(key: Seq<char>, data: Seq<u8>) -> bool {
    8 + encode_utf8(key).len() + data.len() <= u32::MAX
}

/// The key and the payload that a chunk's data starts with, if it does start
/// with a record. Bytes behind the payload are not looked at.
pub open spec fn record_header(bytes: Seq<u8>) -> Option<(Seq<char>, Seq<u8>)> {
    if bytes.len() < 4 {
        None
    } else {
        let klen = be_u32(bytes.subrange(0, 4));
        if bytes.len() < 8 + klen {
            None
        } else {
            let key = bytes.subrange(4, 4 + klen);
            let dlen = be_u32(bytes.subrange(4 + klen, 8 + klen));
            if !valid_utf8(key) || bytes.len() < 8 + klen + dlen {
                None
            } else {
                Some((decode_utf8(key), bytes.subrange(8 + klen, 8 + klen + dlen)))
            }
        }
    }
}

/// The record for a file that is not deflated yet: the key and the deflated
/// contents, each with its length. Deflate may give up, and a length may be
/// too much for its four bytes.
pub open spec fn encode_result(key: Seq<char>, raw: Seq<u8>) -> Result<Seq<u8>, PngFilesError> {
    match deflated(raw) {
        None => Err(PngFilesError::Compression),
        Some(stream) => if lengths_fit(key, stream) {
            Ok(record_bytes(key, stream))
        } else {
            Err(PngFilesError::SizeLimit)
        },
    }
}

/// A record is read back as it was written, and it is eight bytes longer
/// than the key and the payload together.
pub proof fn lemma_record_header_of_record_bytes(key: Seq<char>, data: Seq<u8>)
    requires
        lengths_fit(key, data),
    ensures
        record_header(record_bytes(key, data)) == Some((key, data)),
        record_bytes(key, data).len() == 8 + encode_utf8(key).len() + data.len(),
{
    let k = encode_utf8(key);
    let bytes = record_bytes(key, data);
    let klen = k.len() as int;
    let dlen = data.len() as int;
    lemma_be_u32_of_be_bytes(klen);
    lemma_be_u32_of_be_bytes(dlen);
    vstd::utf8::encode_utf8_valid_utf8(key);
    vstd::utf8::encode_utf8_decode_utf8(key);
    assert(bytes.subrange(0, 4) =~= be_bytes(klen));
    assert(bytes.subrange(4, 4 + klen) =~= k);
    assert(bytes.subrange(4 + klen, 8 + klen) =~= be_bytes(dlen));
    assert(bytes.subrange(8 + klen, 8 + klen + dlen) =~= data);
}

impl<'a> File<'a> {
    /// Writes the record out, with the payload as it is. A key or a payload
    /// whose length does not fit in four bytes is refused.
    pub fn into_bytes(self) -> (bytes: Result<Vec<u8>, PngFilesError>)
        ensures
            match bytes {
                Ok(b) => lengths_fit(self.key@, self.data@) && b@ == record_bytes(
                    self.key@,
                    self.data@,
                ),
                Err(e) => e == PngFilesError::SizeLimit && !lengths_fit(self.key@, self.data@),
            },
    {
        let key = self.key.as_bytes();
        let key_len = match length_field(key.len()) {
            Some(len) => len,
            None => {
                return Err(PngFilesError::SizeLimit);
            },
        };
        let data_len = match length_field(self.data.len()) {
            Some(len) => len,
            None => {
                return Err(PngFilesError::SizeLimit);
            },
        };
        let mut bytes: Vec<u8> = Vec::new();
        write_be_u32(&mut bytes, key_len);
        bytes.extend_from_slice(key);
        write_be_u32(&mut bytes, data_len);
        bytes.extend_from_slice(self.data);
        Ok(bytes)
    }

    /// Inflates the payload.
    pub fn decode_data(&self) -> (raw: Result<Vec<u8>, PngFilesError>)
        ensures
            match raw {
                Ok(r) => inflated(self.data@) == Some(r@),
                Err(e) => e == PngFilesError::Compression && inflated(self.data@) is None,
            },
    {
        match inflate(self.data) {
            Some(raw) => Ok(raw),
            None => Err(PngFilesError::Compression),
        }
    }
}

} // verus!
