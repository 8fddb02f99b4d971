use pngmetagrep::test_util::make_test_png;
use pngmetagrep::write::{build_text_chunk, find_iend_position};
use pngmetagrep::{crc32, read_text_chunks, write_text_chunk, PngError};

#[test]
fn write_to_empty_png() {
    let data = make_test_png(&[]);
    let out = write_text_chunk(&data, "vdsl", r#"{"seed":42}"#).unwrap();

    let chunks = read_text_chunks(&out).unwrap();
    assert_eq!(chunks.len(), 1);
    assert_eq!(chunks.get("vdsl").unwrap(), r#"{"seed":42}"#);
}

#[test]
fn write_preserves_existing_chunks() {
    let data = make_test_png(&[("prompt", "hello")]);
    let out = write_text_chunk(&data, "vdsl", r#"{"seed":1}"#).unwrap();

    let chunks = read_text_chunks(&out).unwrap();
    assert_eq!(chunks.len(), 2);
    assert_eq!(chunks.get("prompt").unwrap(), "hello");
    assert_eq!(chunks.get("vdsl").unwrap(), r#"{"seed":1}"#);
}

#[test]
fn write_rejects_non_png() {
    let result = write_text_chunk(b"not a png", "key", "value");
    assert!(result.is_err());
}

#[test]
fn write_multiple_chunks_sequentially() {
    let data = make_test_png(&[]);
    let once = write_text_chunk(&data, "alpha", "a").unwrap();
    let twice = write_text_chunk(&once, "beta", "b").unwrap();

    let chunks = read_text_chunks(&twice).unwrap();
    assert_eq!(chunks.len(), 2);
    assert_eq!(chunks.get("alpha").unwrap(), "a");
    assert_eq!(chunks.get("beta").unwrap(), "b");
}

#[test]
fn crc32_known_value() {
    // "IEND" → 0xAE426082 per PNG spec
    assert_eq!(crc32(b"IEND"), 0xAE42_6082);
}

#[test]
fn crc32_check_value() {
    assert_eq!(crc32(b"123456789"), 0xCBF4_3926);
    assert_eq!(crc32(b""), 0);
}

#[test]
fn build_text_chunk_layout() {
    let chunk = build_text_chunk("k", "v");
    assert_eq!(&chunk[0..4], &[0, 0, 0, 3]);
    assert_eq!(&chunk[4..8], b"tEXt");
    assert_eq!(&chunk[8..11], &[b'k', 0, b'v']);
    let crc = crc32(b"tEXtk\0v");
    assert_eq!(&chunk[11..15], &crc.to_be_bytes());
    assert_eq!(chunk.len(), 15);
}

#[test]
fn iend_position_of_test_png() {
    let data = make_test_png(&[]);
    assert_eq!(find_iend_position(&data), Ok(33));
    let data = make_test_png(&[("k", "v")]);
    assert_eq!(find_iend_position(&data), Ok(33 + 15));
}

#[test]
fn write_without_iend_fails() {
    let mut data = make_test_png(&[]);
    data.truncate(data.len() - 12);
    assert_eq!(write_text_chunk(&data, "k", "v"), Err(PngError::IendNotFound));
    assert_eq!(write_text_chunk(&data[..5], "k", "v"), Err(PngError::NotPng));
}

#[test]
fn write_inserts_before_iend() {
    let data = make_test_png(&[]);
    let out = write_text_chunk(&data, "k", "v").unwrap();
    assert_eq!(&out[..33], &data[..33]);
    assert_eq!(&out[33..48], build_text_chunk("k", "v").as_slice());
    assert_eq!(&out[48..], &data[33..]);
}

#[test]
fn write_then_overwrite_keyword() {
    let data = make_test_png(&[("k", "old")]);
    let out = write_text_chunk(&data, "k", "new").unwrap();
    let chunks = read_text_chunks(&out).unwrap();
    assert_eq!(chunks.len(), 1);
    assert_eq!(chunks.get("k").unwrap(), "new");
}

#[test]
fn crc32_is_affine_over_xor() {
    let a = b"tEXtkey\0value";
    let b = b"IHDR\x00\x00\x00\x01abcde";
    let c = b"0123456789abc";
    let x: Vec<u8> = (0..a.len()).map(|i| a[i] ^ b[i] ^ c[i]).collect();
    assert_eq!(crc32(&x), crc32(a) ^ crc32(b) ^ crc32(c));
}
