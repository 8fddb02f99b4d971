use pngmetagrep::test_util::make_test_png;
use pngmetagrep::{read_text_chunks, write_text_chunk, PngError};

#[test]
fn read_after_write_gives_old_pairs_and_new_pair() {
    let data = make_test_png(&[("a", "1"), ("b", "2")]);
    let out = write_text_chunk(&data, "c", "3").unwrap();
    let before = read_text_chunks(&data).unwrap();
    let after = read_text_chunks(&out).unwrap();
    assert_eq!(after.len(), before.len() + 1);
    for (k, v) in before.entries() {
        assert_eq!(after.get(k).unwrap(), v);
    }
    assert_eq!(after.get("c").unwrap(), "3");
}

#[test]
fn written_data_can_be_written_again() {
    let mut data = make_test_png(&[]);
    for i in 0..5 {
        data = write_text_chunk(&data, &format!("k{i}"), "v").unwrap();
    }
    let chunks = read_text_chunks(&data).unwrap();
    assert_eq!(chunks.keys(), vec!["k0", "k1", "k2", "k3", "k4"]);
}

#[test]
fn test_png_reads_back_its_pairs() {
    let pairs = [("x", "ü"), ("y", "{\"a\":1}"), ("", "empty keyword")];
    let chunks = read_text_chunks(&make_test_png(&pairs)).unwrap();
    assert_eq!(chunks.len(), 3);
    for (k, v) in pairs {
        assert_eq!(chunks.get(k).unwrap(), v);
    }
    assert_eq!(chunks.keys(), vec!["", "x", "y"]);
}

#[test]
fn keys_sort_by_utf8_bytes() {
    let chunks = read_text_chunks(&make_test_png(&[("é", "1"), ("z", "2"), ("Z", "3")])).unwrap();
    assert_eq!(chunks.keys(), vec!["Z", "z", "é"]);
}

#[test]
fn error_messages() {
    assert_eq!(PngError::NotPng.message(), "not a PNG file");
    assert_eq!(PngError::IendNotFound.message(), "IEND chunk not found");
    assert_eq!(PngError::ChunkSizeOverflow.message(), "chunk size overflow");
    assert_eq!(PngError::UnexpectedEof.message(), "failed to fill whole buffer");
}

#[test]
fn crc32_of_message_and_its_crc_is_the_residue() {
    for data in [&b""[..], &b"IEND"[..], &b"123456789"[..], &b"tEXtkey\0value"[..]] {
        let crc = pngmetagrep::crc32(data);
        let mut with_crc = data.to_vec();
        with_crc.extend_from_slice(&crc.to_le_bytes());
        assert_eq!(pngmetagrep::crc32(&with_crc), 0x2144_DF1C);
    }
}

#[test]
fn bytes_after_iend_header_do_not_move_iend() {
    let data = make_test_png(&[("k", "v")]);
    let p = pngmetagrep::write::find_iend_position(&data).unwrap();
    for extra in [&b""[..], &b"\0\0\0\0IEND"[..], &[0xffu8; 40][..]] {
        let joined = [&data[..p + 8], extra].concat();
        assert_eq!(pngmetagrep::write::find_iend_position(&joined), Ok(p));
    }
}

#[test]
fn streaming_and_buffer_readers_agree_on_complete_files() {
    let data = make_test_png(&[("b", "2"), ("a", "1"), ("a", "3")]);
    let streamed = read_text_chunks(&data).unwrap();
    let buffered = pngmetagrep::chunk::read_text_chunks(&data).unwrap();
    assert_eq!(streamed.entries(), buffered.entries());
    assert_eq!(streamed.get("a").unwrap(), "3");
}
