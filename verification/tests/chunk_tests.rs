use pngmetagrep::chunk;
use pngmetagrep::png::read_u32_be;
use pngmetagrep::test_util::make_test_png;
use pngmetagrep::PngError;

#[test]
fn chunk_rejects_non_png() {
    let result = chunk::read_text_chunks(b"hello world");
    assert!(result.is_err());
}

#[test]
fn whole_file_reader_reads_chunks() {
    let data = make_test_png(&[("b", "2"), ("a", "1")]);
    let chunks = chunk::read_text_chunks(&data).unwrap();
    assert_eq!(chunks.len(), 2);
    assert_eq!(chunks.get("a").unwrap(), "1");
    assert_eq!(chunks.get("b").unwrap(), "2");
}

#[test]
fn whole_file_reader_stops_quietly_at_truncated_chunk() {
    let mut data = make_test_png(&[("a", "1"), ("b", "2")]);
    data.truncate(33 + 15 + 10);
    let chunks = chunk::read_text_chunks(&data).unwrap();
    assert_eq!(chunks.len(), 1);
    assert_eq!(chunks.get("a").unwrap(), "1");
    assert_eq!(chunk::read_text_chunks(&data[..4]).err(), Some(PngError::NotPng));
}

#[test]
fn read_u32_be_value() {
    assert_eq!(read_u32_be(&[9, 0x12, 0x34, 0x56, 0x78], 1), 0x1234_5678);
}
