use png_files::chunk::{ChunkType, DataSource, PngChunk, CHUNK_TYPE};
use png_files::endian::{length_field, write_be_u32};
use png_files::record::File;
use png_files::text::{same_bytes, same_text};
use png_files::{Png, PngFilesError};
use std::io::Write;
use std::rc::Rc;

#[test]
fn record_is_key_and_payload_with_their_lengths() {
    let file = File { key: "ab", data: &[9, 8, 7] };
    assert_eq!(
        file.into_bytes(),
        Ok(vec![0, 0, 0, 2, b'a', b'b', 0, 0, 0, 3, 9, 8, 7])
    );
    let empty = File { key: "", data: &[] };
    assert_eq!(empty.into_bytes(), Ok(vec![0; 8]));
}

#[test]
fn key_length_counts_bytes() {
    let file = File { key: "é", data: &[1] };
    assert_eq!(
        file.into_bytes(),
        Ok(vec![0, 0, 0, 2, 0xc3, 0xa9, 0, 0, 0, 1, 1])
    );
}

#[test]
fn long_lengths_are_big_endian() {
    let data = vec![7u8; 0x0102];
    let key = "k".repeat(0x01_0000);
    let bytes = File { key: &key, data: &data }.into_bytes().unwrap();
    assert_eq!(bytes.len(), 8 + 0x01_0000 + 0x0102);
    assert_eq!(&bytes[..4], &[0, 1, 0, 0]);
    assert_eq!(&bytes[4 + 0x01_0000..8 + 0x01_0000], &[0, 0, 1, 2]);
    let file = Png::decode_file(&bytes).unwrap();
    assert_eq!(file.key, key);
    assert_eq!(file.data, &data[..]);
}

#[test]
fn record_is_read_back() {
    let bytes = [0, 0, 0, 2, b'a', b'b', 0, 0, 0, 3, 9, 8, 7];
    let file = Png::decode_file(&bytes).unwrap();
    assert_eq!(file.key, "ab");
    assert_eq!(file.data, &[9, 8, 7]);
}

#[test]
fn bytes_behind_the_payload_are_not_looked_at() {
    let bytes = [0, 0, 0, 1, b'k', 0, 0, 0, 1, 5, 6, 7];
    let file = Png::decode_file(&bytes).unwrap();
    assert_eq!(file.key, "k");
    assert_eq!(file.data, &[5]);
}

#[test]
fn malformed_records_are_encoding_errors() {
    let cases: [&[u8]; 7] = [
        &[],
        &[0, 0, 0],
        &[0, 0, 0, 0],
        &[0, 0, 0, 2, b'a', 0, 0, 0, 0],
        &[0, 0, 0, 1, 0xff, 0, 0, 0, 0],
        &[0, 0, 0, 1, b'a', 0, 0, 0, 1],
        &[0xff, 0xff, 0xff, 0xff, b'a', 0, 0, 0, 0],
    ];
    for bytes in cases {
        assert!(matches!(
            Png::decode_file(bytes),
            Err(PngFilesError::Encoding)
        ));
    }
}

#[test]
fn payload_is_inflated() {
    let mut encoder =
        flate2::write::DeflateEncoder::new(Vec::new(), flate2::Compression::best());
    encoder.write_all(b"hello hello hello hello").unwrap();
    let stream = encoder.finish().unwrap();
    let file = File { key: "k", data: &stream };
    assert_eq!(file.decode_data(), Ok(b"hello hello hello hello".to_vec()));
}

#[test]
fn stored_block_is_inflated() {
    let stream = [0x01, 0x03, 0x00, 0xfc, 0xff, b'a', b'b', b'c'];
    let file = File { key: "k", data: &stream };
    assert_eq!(file.decode_data(), Ok(b"abc".to_vec()));
}

#[test]
fn broken_stream_is_a_compression_error() {
    let file = File { key: "k", data: &[0xff, 0xff, 0xff, 0xff] };
    assert_eq!(file.decode_data(), Err(PngFilesError::Compression));
}

#[test]
fn encode_file_deflates_and_frames() {
    let raw = vec![b'z'; 1000];
    let bytes = Png::encode_file(File { key: "zs", data: &raw }).unwrap();
    assert!(bytes.len() < 100);
    let file = Png::decode_file(&bytes).unwrap();
    assert_eq!(file.key, "zs");
    assert_eq!(file.data.len(), bytes.len() - 10);
    assert_eq!(file.decode_data(), Ok(raw));
}

#[test]
fn length_field_has_four_bytes() {
    assert_eq!(length_field(0), Some(0));
    assert_eq!(length_field(18), Some(18));
    assert_eq!(length_field(u32::MAX as usize - 1), Some(u32::MAX - 1));
    assert_eq!(length_field(u32::MAX as usize), Some(u32::MAX));
    if usize::BITS < 64 {
        return;
    }
    assert_eq!(length_field(u32::MAX as usize + 1), None);
    assert_eq!(length_field(usize::MAX), None);
}

#[test]
fn payload_longer_than_its_length_field_is_refused() {
    let len = u32::MAX as usize + 1;
    // Needs four gigabytes of address space: where there is less, only the
    // lengths are tried, in the test above.
    let mut room: Vec<u8> = Vec::new();
    if usize::BITS < 64 || room.try_reserve_exact(len).is_err() {
        return;
    }
    drop(room);
    let data = vec![0u8; len];
    let file = File { key: "k", data: &data };
    assert_eq!(file.into_bytes(), Err(PngFilesError::SizeLimit));
}

#[test]
fn chunk_is_written_with_the_checksum_it_stores() {
    let chunk = PngChunk {
        source: DataSource::Data(vec![1, 2, 3]),
        chunk_type: ChunkType::Png("tEXt".to_string()),
        crc: 0x0102_0304,
        len: 3,
    };
    assert_eq!(chunk.as_data(), &[1, 2, 3]);
    assert_eq!(
        chunk.into_bytes(),
        vec![0, 0, 0, 3, 0x74, 0x45, 0x58, 0x74, 1, 2, 3, 1, 2, 3, 4]
    );
}

#[test]
fn chunk_data_is_the_range_of_the_shared_buffer() {
    let buffer = Rc::new(vec![10u8, 11, 12, 13, 14, 15]);
    let chunk = PngChunk {
        source: DataSource::Range { data: buffer.clone(), start: 2, end: 5 },
        chunk_type: ChunkType::Png("IDAT".to_string()),
        crc: 0xdead_beef,
        len: 3,
    };
    assert_eq!(chunk.as_data(), &[12, 13, 14]);
    assert_eq!(
        chunk.into_bytes(),
        vec![0, 0, 0, 3, b'I', b'D', b'A', b'T', 12, 13, 14, 0xde, 0xad, 0xbe, 0xef]
    );
    let empty = PngChunk {
        source: DataSource::Range { data: buffer, start: 6, end: 6 },
        chunk_type: ChunkType::File { key: "k".to_string() },
        crc: 0,
        len: 0,
    };
    assert_eq!(empty.as_data(), &[] as &[u8]);
    assert_eq!(
        empty.into_bytes(),
        vec![0, 0, 0, 0, b'f', b'i', b'L', b'e', 0, 0, 0, 0]
    );
}

#[test]
fn chunk_type_of_a_file_is_the_reserved_type() {
    let file = ChunkType::File { key: "a.txt".to_string() };
    assert_eq!(file.get_key(), Some("a.txt"));
    assert_eq!(file.as_ref(), "fiLe");
    assert_eq!(file.as_bytes(), &[0x66, 0x69, 0x4c, 0x65]);
    assert_eq!(CHUNK_TYPE, "fiLe");
}

#[test]
fn chunk_type_of_another_chunk_is_its_text() {
    let other = ChunkType::Png("IDAT".to_string());
    assert_eq!(other.get_key(), None);
    assert_eq!(other.as_ref(), "IDAT");
    assert_eq!(other.as_bytes(), b"IDAT");
}

#[test]
fn numbers_are_written_most_significant_byte_first() {
    let mut out = vec![0xaa];
    write_be_u32(&mut out, 0x0102_0304);
    write_be_u32(&mut out, 0);
    write_be_u32(&mut out, u32::MAX);
    write_be_u32(&mut out, 256);
    assert_eq!(
        out,
        vec![0xaa, 1, 2, 3, 4, 0, 0, 0, 0, 0xff, 0xff, 0xff, 0xff, 0, 0, 1, 0]
    );
}

#[test]
fn bytes_and_texts_are_compared() {
    assert!(same_bytes(&[], &[]));
    assert!(same_bytes(&[1, 2], &[1, 2]));
    assert!(!same_bytes(&[1, 2], &[1, 3]));
    assert!(!same_bytes(&[1, 2], &[1, 2, 3]));
    assert!(same_text("fiLe", "fiLe"));
    assert!(!same_text("fiLe", "file"));
    assert!(!same_text("fiLe", "fiL"));
}
