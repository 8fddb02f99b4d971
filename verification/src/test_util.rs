//! Building minimal valid PNG files, for tests.

use vstd::prelude::*;
use vstd::utf8::encode_utf8;

use crate::png::{
    be_bytes, be_u32_at, has_tag, iend_tag, png_signature, text_tag, u32_to_be_bytes, PngError,
    IEND_TAG, PNG_SIGNATURE, TEXT_TAG,
};
use crate::read::{payloads_map, read_spec, text_walk};
use crate::write::{append_bytes, lemma_be_bytes_roundtrip, lemma_text_chunk_data_entry, no_nul_char, text_chunk_data};

verus! {

/// The `IHDR` chunk of a 1×1 8-bit grayscale image, with a zero CRC.
pub open spec fn test_ihdr_chunk() -> Seq<u8> {
    be_bytes(13) + seq![73u8, 72u8, 68u8, 82u8] + seq![0u8, 0, 0, 1, 0, 0, 0, 1, 8, 0, 0, 0, 0]
        + seq![0u8, 0, 0, 0]
}

/// The `IEND` chunk, with a zero CRC.
pub open spec fn test_iend_chunk() -> Seq<u8> {
    be_bytes(0) + seq![73u8, 69u8, 78u8, 68u8] + seq![0u8, 0, 0, 0]
}

/// The data of a `tEXt` chunk: keyword bytes, a zero byte, text bytes.
pub open spec fn test_text_data(entry: (Seq<char>, Seq<char>)) -> Seq<u8> {
    encode_utf8(entry.0) + seq![0u8] + encode_utf8(entry.1)
}

/// A `tEXt` chunk with a zero CRC.
pub open spec fn test_text_chunk(entry: (Seq<char>, Seq<char>)) -> Seq<u8> {
    be_bytes(test_text_data(entry).len() as u32) + text_tag() + test_text_data(entry) + seq![0u8, 0, 0, 0]
}

/// The `tEXt` chunks for `entries`, in order.
pub open spec fn test_text_chunks(entries: Seq<(Seq<char>, Seq<char>)>) -> Seq<u8>
    decreases entries.len(),
{
    if entries.len() == 0 {
        Seq::empty()
    } else {
        test_text_chunk(entries[0]) + test_text_chunks(entries.drop_first())
    }
}

/// A minimal PNG: signature, `IHDR`, the `tEXt` chunks for `entries`, `IEND`.
pub open spec fn test_png(entries: Seq<(Seq<char>, Seq<char>)>) -> Seq<u8> {
    png_signature() + test_ihdr_chunk() + test_text_chunks(entries) + test_iend_chunk()
}

/// The keyword/text pairs of a slice of string pairs.
pub open spec fn entries_of(text_chunks: Seq<(&str, &str)>) -> Seq<(Seq<char>, Seq<char>)> {
    text_chunks.map_values(|c: (&str, &str)| (c.0@, c.1@))
}

/// Build a minimal valid PNG with the given tEXt chunks (test helper).
///
/// The image is 1×1 8-bit grayscale; CRC fields are left zero.
pub fn make_test_png(text_chunks: &[(&str, &str)]) -> (buf: Vec<u8>)
    ensures
        buf@ == test_png(entries_of(text_chunks@)),
{
    let ghost entries = entries_of(text_chunks@);
    let mut buf: Vec<u8> = Vec::new();
    let sig = PNG_SIGNATURE;
    append_bytes(&mut buf, sig.as_slice());

    // IHDR: 1×1 8-bit grayscale
    let ihdr: [u8; 13] = [0, 0, 0, 1, 0, 0, 0, 1, 8, 0, 0, 0, 0];
    let ihdr_len = u32_to_be_bytes(13);
    append_bytes(&mut buf, ihdr_len.as_slice());
    let ihdr_tag: [u8; 4] = [73, 72, 68, 82];
    append_bytes(&mut buf, ihdr_tag.as_slice());
    append_bytes(&mut buf, ihdr.as_slice());
    let zero_crc: [u8; 4] = [0, 0, 0, 0];
    append_bytes(&mut buf, zero_crc.as_slice());
    let ghost head = buf@;
    assert(head =~= png_signature() + test_ihdr_chunk());

    let text_tag_bytes = TEXT_TAG;
    let mut i: usize = 0;
    assert(entries.subrange(0, entries.len() as int) =~= entries);
    while i < text_chunks.len()
        invariant
            i <= text_chunks@.len(),
            entries == entries_of(text_chunks@),
            head == png_signature() + test_ihdr_chunk(),
            text_tag_bytes@ == text_tag(),
            zero_crc@ == seq![0u8, 0, 0, 0],
            buf@ + test_text_chunks(entries.subrange(i as int, entries.len() as int))
                == head + test_text_chunks(entries),
        decreases text_chunks.len() - i,
    {
        let (kw, txt) = text_chunks[i];
        let ghost e = entries[i as int];
        assert(e == (kw@, txt@));
        let ghost before = buf@;
        let mut data: Vec<u8> = Vec::new();
        append_bytes(&mut data, kw.as_bytes());
        data.push(0);
        append_bytes(&mut data, txt.as_bytes());
        assert(data@ =~= test_text_data(e));
        let len_bytes = u32_to_be_bytes(#[verifier::truncate] (data.len() as u32));
        append_bytes(&mut buf, len_bytes.as_slice());
        append_bytes(&mut buf, text_tag_bytes.as_slice());
        append_bytes(&mut buf, data.as_slice());
        append_bytes(&mut buf, zero_crc.as_slice());
        proof {
            assert(buf@ =~= before + test_text_chunk(e));
            let rest = entries.subrange(i as int, entries.len() as int);
            assert(rest[0] == e);
            assert(rest.drop_first() =~= entries.subrange(i + 1, entries.len() as int));
            assert(test_text_chunks(rest) == test_text_chunk(e) + test_text_chunks(rest.drop_first()));
            assert(buf@ + test_text_chunks(entries.subrange(i + 1, entries.len() as int))
                =~= before + test_text_chunks(rest));
        }
        i += 1;
    }
    assert(entries.subrange(i as int, entries.len() as int).len() == 0);
    assert(buf@ =~= head + test_text_chunks(entries));

    // IEND
    let iend_len = u32_to_be_bytes(0);
    append_bytes(&mut buf, iend_len.as_slice());
    let iend_tag_bytes = IEND_TAG;
    append_bytes(&mut buf, iend_tag_bytes.as_slice());
    append_bytes(&mut buf, zero_crc.as_slice());
    assert(iend_tag_bytes@ == seq![73u8, 69u8, 78u8, 68u8]);
    assert(buf@ =~= test_png(entries));
    buf
}


/// The map a list of keyword/text pairs gives, a later pair overriding an
/// earlier one with the same keyword.
pub open spec fn pairs_map(entries: Seq<(Seq<char>, Seq<char>)>) -> Map<Seq<char>, Seq<char>>
    decreases entries.len(),
{
    if entries.len() == 0 {
        Map::empty()
    } else {
        pairs_map(entries.drop_last()).insert(entries.last().0, entries.last().1)
    }
}

/// Every keyword is free of NUL characters and every chunk's data fits the
/// 32-bit length field.
pub open spec fn well_formed_entries(entries: Seq<(Seq<char>, Seq<char>)>) -> bool {
    forall|i: int| 0 <= i < entries.len() ==> no_nul_char(#[trigger] entries[i].0)
        && test_text_data(entries[i]).len() <= u32::MAX
}

/// Walking the `tEXt` chunks that follow `pre`, up to `IEND`, meets their data in order.
proof fn lemma_walk_test_chunks(pre: Seq<u8>, entries: Seq<(Seq<char>, Seq<char>)>)
    requires
        well_formed_entries(entries),
    ensures
        text_walk(pre + test_text_chunks(entries) + test_iend_chunk(), pre.len() as int)
            == (entries.map_values(|e: (Seq<char>, Seq<char>)| test_text_data(e)), false),
    decreases entries.len(),
{
    let d = pre + test_text_chunks(entries) + test_iend_chunk();
    let pos = pre.len() as int;
    if entries.len() == 0 {
        assert(d.subrange(pos + 4, pos + 8) =~= seq![73u8, 69u8, 78u8, 68u8]);
        assert(!has_tag(d, pos, text_tag())) by {
            assert(d.subrange(pos + 4, pos + 8)[0] != text_tag()[0]);
        }
        assert(entries.map_values(|e: (Seq<char>, Seq<char>)| test_text_data(e)) =~= Seq::<Seq<u8>>::empty());
    } else {
        let e = entries[0];
        let data = test_text_data(e);
        let c = test_text_chunk(e);
        let rest = entries.drop_first();
        assert(well_formed_entries(rest)) by {
            assert forall|i: int| 0 <= i < rest.len() implies no_nul_char(#[trigger] rest[i].0)
                && test_text_data(rest[i]).len() <= u32::MAX by {
                assert(rest[i] == entries[i + 1]);
            }
        }
        let pre2 = pre + c;
        lemma_walk_test_chunks(pre2, rest);
        assert(d =~= pre2 + test_text_chunks(rest) + test_iend_chunk());
        lemma_be_bytes_roundtrip(data.len() as u32);
        assert(d[pos] == c[0] && d[pos + 1] == c[1] && d[pos + 2] == c[2] && d[pos + 3] == c[3]);
        assert(be_u32_at(d, pos) == data.len());
        assert(d.subrange(pos + 4, pos + 8) =~= text_tag());
        assert(d.subrange(pos + 8, pos + 8 + data.len()) =~= data);
        assert(pre2.len() == pos + 12 + data.len());
        let ps = entries.map_values(|e: (Seq<char>, Seq<char>)| test_text_data(e));
        let ps_rest = rest.map_values(|e: (Seq<char>, Seq<char>)| test_text_data(e));
        assert(ps =~= seq![data] + ps_rest);
    }
}

/// The keyword map of the payloads of a list of pairs is the map of the pairs.
proof fn lemma_payloads_map_pairs(entries: Seq<(Seq<char>, Seq<char>)>)
    requires
        well_formed_entries(entries),
    ensures
        payloads_map(entries.map_values(|e: (Seq<char>, Seq<char>)| test_text_data(e))) == pairs_map(entries),
    decreases entries.len(),
{
    if entries.len() > 0 {
        let ps = entries.map_values(|e: (Seq<char>, Seq<char>)| test_text_data(e));
        let init = entries.drop_last();
        assert(well_formed_entries(init)) by {
            assert forall|i: int| 0 <= i < init.len() implies no_nul_char(#[trigger] init[i].0)
                && test_text_data(init[i]).len() <= u32::MAX by {
                assert(init[i] == entries[i]);
            }
        }
        lemma_payloads_map_pairs(init);
        assert(ps.drop_last() =~= init.map_values(|e: (Seq<char>, Seq<char>)| test_text_data(e)));
        let last = entries.last();
        assert(no_nul_char(entries[entries.len() - 1].0));
        lemma_text_chunk_data_entry(last.0, last.1);
        assert(ps.last() == text_chunk_data(encode_utf8(last.0), encode_utf8(last.1)));
    }
}

/// Reading a PNG built by `make_test_png` gives back its keyword/text pairs,
/// a later pair overriding an earlier one with the same keyword.
///
/// Holds when no keyword has a NUL character (the reader splits each chunk
/// at its first zero byte) and each chunk's data fits the 32-bit length.
pub proof fn lemma_read_test_png(entries: Seq<(Seq<char>, Seq<char>)>)
    requires
        well_formed_entries(entries),
    ensures
        read_spec(test_png(entries)) == Ok::<Map<Seq<char>, Seq<char>>, PngError>(pairs_map(entries)),
{
    let d = test_png(entries);
    let pre = png_signature() + test_ihdr_chunk();
    lemma_walk_test_chunks(pre, entries);
    assert(d =~= pre + test_text_chunks(entries) + test_iend_chunk());
    assert(d.subrange(0, 8) =~= png_signature());
    lemma_be_bytes_roundtrip(13);
    assert(d[8] == 0 && d[9] == 0 && d[10] == 0 && d[11] == 13);
    assert(be_u32_at(d, 8) == 13);
    assert(!has_tag(d, 8, text_tag())) by {
        assert(d.subrange(12, 16)[0] != text_tag()[0]);
    }
    assert(!has_tag(d, 8, iend_tag())) by {
        assert(d.subrange(12, 16)[1] != iend_tag()[1]);
    }
    assert(pre.len() == 33);
    lemma_payloads_map_pairs(entries);
}
} // verus!
