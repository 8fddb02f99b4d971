use pngmetagrep::test_util::make_test_png;
use pngmetagrep::{contains_in_text_chunks, read_text_chunks, scan_text_chunks, PngError};

// --- read_text_chunks tests ---

#[test]
fn read_rejects_non_png() {
    let result = read_text_chunks(b"hello world");
    assert!(result.is_err());
}

#[test]
fn extracts_single_text_chunk() {
    let data = make_test_png(&[("vdsl", r#"{"seed":42}"#)]);
    let chunks = read_text_chunks(&data).unwrap();
    assert_eq!(chunks.len(), 1);
    assert_eq!(chunks.get("vdsl").unwrap(), r#"{"seed":42}"#);
}

#[test]
fn extracts_multiple_text_chunks() {
    let data = make_test_png(&[("prompt", "hello"), ("workflow", r#"{"nodes":[]}"#)]);
    let chunks = read_text_chunks(&data).unwrap();
    assert_eq!(chunks.len(), 2);
    assert_eq!(chunks.get("prompt").unwrap(), "hello");
    assert_eq!(chunks.get("workflow").unwrap(), r#"{"nodes":[]}"#);
}

#[test]
fn returns_empty_for_png_without_text() {
    let data = make_test_png(&[]);
    let chunks = read_text_chunks(&data).unwrap();
    assert!(chunks.is_empty());
}

#[test]
fn keys_are_sorted() {
    let data = make_test_png(&[("zebra", "z"), ("alpha", "a"), ("middle", "m")]);
    let chunks = read_text_chunks(&data).unwrap();
    let keys: Vec<String> = chunks.keys();
    assert_eq!(keys, vec!["alpha", "middle", "zebra"]);
}

// --- scan_text_chunks tests ---

#[test]
fn scan_returns_true_on_predicate_match() {
    let data = make_test_png(&[("key", "value")]);
    let result = scan_text_chunks(&data, |d: &[u8]| d.windows(5).any(|w| w == b"value")).unwrap();
    assert!(result);
}

#[test]
fn scan_returns_false_when_no_match() {
    let data = make_test_png(&[("key", "value")]);
    let result = scan_text_chunks(&data, |d: &[u8]| d.windows(6).any(|w| w == b"absent")).unwrap();
    assert!(!result);
}

#[test]
fn scan_early_exits() {
    let data = make_test_png(&[("a", "hit"), ("b", "hit"), ("c", "miss")]);
    let mut call_count = 0usize;
    let result = scan_text_chunks(&data, |d: &[u8]| {
        call_count += 1;
        d.windows(3).any(|w| w == b"hit")
    })
    .unwrap();
    assert!(result);
    assert_eq!(call_count, 1);
}

#[test]
fn scan_rejects_non_png() {
    assert!(scan_text_chunks(b"not png", |_: &[u8]| true).is_err());
}

// --- contains_in_text_chunks tests ---

#[test]
fn contains_finds_in_text_value() {
    let data = make_test_png(&[("vdsl", r#"{"seed":42}"#)]);
    assert!(contains_in_text_chunks(&data, b"seed").unwrap());
}

#[test]
fn contains_finds_in_keyword() {
    let data = make_test_png(&[("workflow", "data")]);
    assert!(contains_in_text_chunks(&data, b"workflow").unwrap());
}

#[test]
fn contains_returns_false_when_absent() {
    let data = make_test_png(&[("vdsl", r#"{"seed":1}"#)]);
    assert!(!contains_in_text_chunks(&data, b"nonexistent").unwrap());
}

#[test]
fn contains_returns_false_for_empty_png() {
    let data = make_test_png(&[]);
    assert!(!contains_in_text_chunks(&data, b"anything").unwrap());
}

#[test]
fn contains_early_exits_on_first_match() {
    let data = make_test_png(&[("a", "needle"), ("b", "needle"), ("c", "other")]);
    assert!(contains_in_text_chunks(&data, b"needle").unwrap());
}

#[test]
fn contains_rejects_non_png() {
    assert!(contains_in_text_chunks(b"not png", b"x").is_err());
}

// --- edge cases of the streaming walk ---

#[test]
fn read_short_input_is_unexpected_eof() {
    assert_eq!(read_text_chunks(&[137, 80, 78]).err(), Some(PngError::UnexpectedEof));
}

#[test]
fn read_wrong_signature_is_not_png() {
    assert_eq!(read_text_chunks(b"GIF89a\0\0\0\0").err(), Some(PngError::NotPng));
}

#[test]
fn read_truncated_text_chunk_is_unexpected_eof() {
    let mut data = make_test_png(&[("key", "value")]);
    // cut the file inside the data of the tEXt chunk (IHDR ends at 33, tEXt data starts at 41)
    data.truncate(43);
    assert_eq!(read_text_chunks(&data).err(), Some(PngError::UnexpectedEof));
}

#[test]
fn scan_match_before_truncated_chunk_is_found() {
    let mut data = make_test_png(&[("a", "hit"), ("b", "miss")]);
    // cut inside the second tEXt chunk's data
    let second_data = 33 + 12 + 5 + 8;
    data.truncate(second_data + 2);
    assert!(scan_text_chunks(&data, |d: &[u8]| d.windows(3).any(|w| w == b"hit")).unwrap());
    assert_eq!(read_text_chunks(&data).err(), Some(PngError::UnexpectedEof));
    assert_eq!(contains_in_text_chunks(&data, b"zzz"), Err(PngError::UnexpectedEof));
}

#[test]
fn later_duplicate_keyword_wins() {
    let data = make_test_png(&[("k", "first"), ("k", "second")]);
    let chunks = read_text_chunks(&data).unwrap();
    assert_eq!(chunks.len(), 1);
    assert_eq!(chunks.get("k").unwrap(), "second");
}

#[test]
fn chunk_without_nul_is_skipped() {
    let mut data = make_test_png(&[]);
    // insert a tEXt chunk whose data has no zero byte before IEND
    let iend = data.len() - 12;
    let chunk: Vec<u8> = vec![0, 0, 0, 3, b't', b'E', b'X', b't', b'a', b'b', b'c', 0, 0, 0, 0];
    data.splice(iend..iend, chunk);
    let chunks = read_text_chunks(&data).unwrap();
    assert!(chunks.is_empty());
    assert!(contains_in_text_chunks(&data, b"abc").unwrap());
}

#[test]
fn text_after_first_nul_keeps_later_nuls() {
    let data = make_test_png(&[("k", "a\0b")]);
    let chunks = read_text_chunks(&data).unwrap();
    assert_eq!(chunks.get("k").unwrap(), "a\0b");
}

#[test]
fn invalid_utf8_is_replaced() {
    let mut data = make_test_png(&[]);
    let iend = data.len() - 12;
    let chunk: Vec<u8> = vec![0, 0, 0, 3, b't', b'E', b'X', b't', b'k', 0, 0xff, 0, 0, 0, 0];
    data.splice(iend..iend, chunk);
    let chunks = read_text_chunks(&data).unwrap();
    assert_eq!(chunks.get("k").unwrap(), "\u{FFFD}");
}

#[test]
fn chunks_after_iend_are_ignored() {
    let mut data = make_test_png(&[]);
    let chunk: Vec<u8> = vec![0, 0, 0, 3, b't', b'E', b'X', b't', b'k', 0, b'v', 0, 0, 0, 0];
    data.extend_from_slice(&chunk);
    let chunks = read_text_chunks(&data).unwrap();
    assert!(chunks.is_empty());
}

#[test]
fn empty_needle_matches_any_chunk() {
    let data = make_test_png(&[("k", "v")]);
    assert!(contains_in_text_chunks(&data, b"").unwrap());
    let empty = make_test_png(&[]);
    assert!(!contains_in_text_chunks(&empty, b"").unwrap());
}
