use png_files::{Png, PngFilesError};
use std::io::Write;

const SIGNATURE: [u8; 8] = [0x89, 0x50, 0x4e, 0x47, 0x0d, 0x0a, 0x1a, 0x0a];
const IEND: [u8; 12] = [0, 0, 0, 0, 0x49, 0x45, 0x4e, 0x44, 0xae, 0x42, 0x60, 0x82];

fn plain_chunk(tag: &[u8; 4], data: &[u8]) -> Vec<u8> {
    let mut checked = tag.to_vec();
    checked.extend_from_slice(data);
    let mut out = (data.len() as u32).to_be_bytes().to_vec();
    out.extend_from_slice(&checked);
    out.extend_from_slice(&crc32fast::hash(&checked).to_be_bytes());
    out
}

fn deflated(raw: &[u8]) -> Vec<u8> {
    let mut encoder =
        flate2::write::DeflateEncoder::new(Vec::new(), flate2::Compression::best());
    encoder.write_all(raw).unwrap();
    encoder.finish().unwrap()
}

fn record(key: &str, raw: &[u8]) -> Vec<u8> {
    let stream = deflated(raw);
    let mut out = (key.len() as u32).to_be_bytes().to_vec();
    out.extend_from_slice(key.as_bytes());
    out.extend_from_slice(&(stream.len() as u32).to_be_bytes());
    out.extend_from_slice(&stream);
    out
}

fn file_chunk(key: &str, raw: &[u8]) -> Vec<u8> {
    plain_chunk(b"fiLe", &record(key, raw))
}

fn header() -> Vec<u8> {
    plain_chunk(b"IHDR", &[0, 0, 0, 1, 0, 0, 0, 1, 8, 0, 0, 0, 0])
}

fn image_with(chunks: &[Vec<u8>]) -> Vec<u8> {
    let mut bytes = SIGNATURE.to_vec();
    for c in chunks {
        bytes.extend_from_slice(c);
    }
    bytes
}

#[test]
fn minimal_buffer_insert_serialize_parse_get() {
    let mut png = Png::new(SIGNATURE.to_vec()).unwrap();
    png.insert_file("a.txt", vec![0x01, 0x02, 0x03], true).unwrap();
    let bytes = png.into_bytes();
    let again = Png::new(bytes).unwrap();
    assert_eq!(again.get_file("a.txt"), Some(vec![0x01, 0x02, 0x03]));
}

#[test]
fn inserted_file_is_written_as_one_file_chunk() {
    let mut png = Png::new(SIGNATURE.to_vec()).unwrap();
    png.insert_file("a.txt", vec![0x01, 0x02, 0x03], false).unwrap();
    let stream = deflated(&[0x01, 0x02, 0x03]);
    assert_ne!(stream, vec![0x01, 0x02, 0x03]);

    let mut data = vec![0, 0, 0, 5];
    data.extend_from_slice(b"a.txt");
    data.extend_from_slice(&[0, 0, 0, stream.len() as u8]);
    data.extend_from_slice(&stream);
    let mut checked = b"fiLe".to_vec();
    checked.extend_from_slice(&data);

    let mut expected = SIGNATURE.to_vec();
    expected.extend_from_slice(&(data.len() as u32).to_be_bytes());
    expected.extend_from_slice(&checked);
    expected.extend_from_slice(&crc32fast::hash(&checked).to_be_bytes());
    assert_eq!(png.into_bytes(), expected);
}

#[test]
fn insert_then_get() {
    let mut png = Png::new(image_with(&[header(), IEND.to_vec()])).unwrap();
    let contents: Vec<u8> = (0..5000u32).map(|i| (i * 7 % 251) as u8).collect();
    png.insert_file("data.bin", contents.clone(), false).unwrap();
    png.insert_file("empty", Vec::new(), false).unwrap();
    png.insert_file("ключ", vec![9], false).unwrap();
    assert_eq!(png.get_file("data.bin"), Some(contents));
    assert_eq!(png.get_file("empty"), Some(Vec::new()));
    assert_eq!(png.get_file("ключ"), Some(vec![9]));
    assert_eq!(png.get_file("data"), None);
    assert_eq!(png.get_file(""), None);
}

#[test]
fn large_files_come_back_whole() {
    let mut state: u32 = 0x2545_f491;
    let noise: Vec<u8> = (0..300_000)
        .map(|_| {
            state ^= state << 13;
            state ^= state >> 17;
            state ^= state << 5;
            (state >> 24) as u8
        })
        .collect();
    let blank = vec![0u8; 2_000_000];
    let mut png = Png::new(image_with(&[header(), IEND.to_vec()])).unwrap();
    png.insert_file("noise", noise.clone(), false).unwrap();
    png.insert_file("blank", blank.clone(), false).unwrap();
    let bytes = png.into_bytes();
    assert!(bytes.len() > 300_000);
    assert!(bytes.len() < 400_000);
    let again = Png::new(bytes).unwrap();
    assert_eq!(again.get_file("noise"), Some(noise));
    assert_eq!(again.get_file("blank"), Some(blank));
}

#[test]
fn new_key_goes_behind_all_chunks() {
    let before = image_with(&[header(), file_chunk("b", b"bee"), IEND.to_vec()]);
    let mut png = Png::new(before.clone()).unwrap();
    png.insert_file("a", b"ay".to_vec(), true).unwrap();
    let mut expected = before;
    expected.extend(file_chunk("a", b"ay"));
    assert_eq!(png.into_bytes(), expected);
}

#[test]
fn insert_then_remove() {
    let before = image_with(&[header(), IEND.to_vec()]);
    let mut png = Png::new(before.clone()).unwrap();
    png.insert_file("a.txt", vec![1, 2, 3], false).unwrap();
    assert!(png.remove_file("a.txt"));
    assert_eq!(png.get_file("a.txt"), None);
    assert!(!png.remove_file("a.txt"));
    assert_eq!(png.into_bytes(), before);
}

#[test]
fn remove_takes_the_first_of_two() {
    let bytes = image_with(&[
        file_chunk("k", b"first"),
        header(),
        file_chunk("k", b"second"),
    ]);
    let mut png = Png::new(bytes).unwrap();
    assert_eq!(png.get_file("k"), Some(b"first".to_vec()));
    assert!(png.remove_file("k"));
    assert_eq!(png.get_file("k"), Some(b"second".to_vec()));
    assert_eq!(
        png.into_bytes(),
        image_with(&[header(), file_chunk("k", b"second")])
    );
}

#[test]
fn remove_of_a_missing_key_changes_nothing() {
    let bytes = image_with(&[header(), file_chunk("k", b"v"), IEND.to_vec()]);
    let mut png = Png::new(bytes.clone()).unwrap();
    assert!(!png.remove_file("K"));
    assert!(!png.remove_file("IHDR"));
    assert_eq!(png.into_bytes(), bytes);
}

#[test]
fn duplicate_key_is_refused_and_nothing_changes() {
    let bytes = image_with(&[header(), file_chunk("k", b"one"), IEND.to_vec()]);
    let mut png = Png::new(bytes.clone()).unwrap();
    assert_eq!(
        png.insert_file("k", b"two".to_vec(), false),
        Err(PngFilesError::DuplicateKey)
    );
    assert_eq!(png.get_file("k"), Some(b"one".to_vec()));
    assert_eq!(png.into_bytes(), bytes);
}

#[test]
fn replace_keeps_the_place() {
    let bytes = image_with(&[
        header(),
        file_chunk("k", b"one"),
        plain_chunk(b"IDAT", &[5, 6, 7]),
        file_chunk("other", b"o"),
        IEND.to_vec(),
    ]);
    let mut png = Png::new(bytes).unwrap();
    assert_eq!(png.insert_file("k", b"two".to_vec(), true), Ok(()));
    assert_eq!(png.get_file("k"), Some(b"two".to_vec()));
    assert_eq!(png.get_file("other"), Some(b"o".to_vec()));
    assert_eq!(
        png.into_bytes(),
        image_with(&[
            header(),
            file_chunk("k", b"two"),
            plain_chunk(b"IDAT", &[5, 6, 7]),
            file_chunk("other", b"o"),
            IEND.to_vec(),
        ])
    );
}

#[test]
fn replace_changes_the_first_of_two() {
    let bytes = image_with(&[file_chunk("k", b"first"), file_chunk("k", b"second")]);
    let mut png = Png::new(bytes).unwrap();
    png.insert_file("k", b"new".to_vec(), true).unwrap();
    assert_eq!(
        png.into_bytes(),
        image_with(&[file_chunk("k", b"new"), file_chunk("k", b"second")])
    );
}

#[test]
fn other_chunks_keep_their_bytes_and_order() {
    let others = [
        header(),
        plain_chunk(b"IDAT", &[1]),
        plain_chunk(b"IDAT", &[2]),
        IEND.to_vec(),
    ];
    let mut png = Png::new(image_with(&others)).unwrap();
    png.insert_file("x", vec![1; 100], true).unwrap();
    png.insert_file("y", vec![2; 100], true).unwrap();
    png.insert_file("x", vec![3; 100], true).unwrap();
    assert!(png.remove_file("x"));
    assert!(png.remove_file("y"));
    assert_eq!(png.into_bytes(), image_with(&others));
}

#[test]
fn changed_image_is_read_back() {
    let mut png = Png::new(image_with(&[header(), IEND.to_vec()])).unwrap();
    png.insert_file("a", vec![1], true).unwrap();
    png.insert_file("b", vec![2], true).unwrap();
    let bytes = png.into_bytes();
    let again = Png::new(bytes.clone()).unwrap();
    assert_eq!(again.get_file("a"), Some(vec![1]));
    assert_eq!(again.get_file("b"), Some(vec![2]));
    assert_eq!(again.into_bytes(), bytes);
}

#[test]
fn flipped_bit_in_an_inserted_file_is_found() {
    let mut png = Png::new(SIGNATURE.to_vec()).unwrap();
    png.insert_file("a.txt", vec![1, 2, 3], true).unwrap();
    let good = png.into_bytes();
    for at in 16..good.len() - 4 {
        let mut bytes = good.clone();
        bytes[at] ^= 0x04;
        assert!(matches!(Png::new(bytes), Err(PngFilesError::Integrity)));
    }
}

#[test]
fn broken_deflate_stream_gives_no_file() {
    let mut data = vec![0, 0, 0, 1, b'k', 0, 0, 0, 4];
    data.extend_from_slice(&[0xff, 0xff, 0xff, 0xff]);
    let png = Png::new(image_with(&[plain_chunk(b"fiLe", &data)])).unwrap();
    assert_eq!(png.get_file("k"), None);
}

#[test]
fn key_is_compared_whole() {
    let png = Png::new(image_with(&[file_chunk("a.txt", b"x")])).unwrap();
    assert_eq!(png.get_file("a.tx"), None);
    assert_eq!(png.get_file("a.txt2"), None);
    assert_eq!(png.get_file("A.txt"), None);
    assert_eq!(png.get_file("a.txt"), Some(b"x".to_vec()));
}
