//! `tEXt` extraction from a PNG file read whole into memory: the chunks are
//! visited while a full header and CRC fit, and the walk stops quietly at a
//! chunk whose data runs past the end.

use vstd::prelude::*;

use crate::png::{
    be_u32_at, chunk_type_is, has_png_signature, has_tag, iend_tag, read_u32_be,
    starts_with_signature, text_tag, PngError, IEND_TAG, TEXT_TAG,
};
use crate::read::{payloads_map, read_spec, split_payload, text_walk};
use crate::text_map::TextChunks;

verus! {

/// The data of each `tEXt` chunk met from the chunk header at `pos` on, in
/// file order. The walk ends when fewer than 12 bytes remain, when a chunk's
/// data runs past the end, or at `IEND`.
pub open spec fn buffer_walk(d: Seq<u8>, pos: int) -> Seq<Seq<u8>>
    decreases d.len() - pos,
{
    if pos < 0 || pos + 12 > d.len() {
        Seq::empty()
    } else {
        let data_end = pos + 8 + be_u32_at(d, pos);
        if data_end > d.len() {
            Seq::empty()
        } else if has_tag(d, pos, text_tag()) {
            let payload = d.subrange(pos + 8, data_end);
            if data_end + 4 > d.len() {
                seq![payload]
            } else {
                seq![payload] + buffer_walk(d, data_end + 4)
            }
        } else if has_tag(d, pos, iend_tag()) {
            Seq::empty()
        } else if data_end + 4 > d.len() {
            Seq::empty()
        } else {
            buffer_walk(d, data_end + 4)
        }
    }
}

/// What reading the `tEXt` chunks of an in-memory file `d` gives.
pub open spec fn buffer_read_spec(d: Seq<u8>) -> Result<Map<Seq<char>, Seq<char>>, PngError> {
    if !starts_with_signature(d) {
        Err(PngError::NotPng)
    } else {
        Ok(payloads_map(buffer_walk(d, 8)))
    }
}

/// Whether the chunks from the header at `pos` on each lie wholly inside `d`
/// (header, data and CRC), up to and including the first `IEND` chunk or
/// until fewer bytes remain than a chunk header takes.
pub open spec fn chunks_complete(d: Seq<u8>, pos: int) -> bool
    decreases d.len() - pos,
{
    if pos < 0 {
        false
    } else if pos + 8 > d.len() {
        true
    } else {
        let next = pos + 12 + be_u32_at(d, pos);
        next <= d.len() && (has_tag(d, pos, iend_tag()) || chunks_complete(d, next))
    }
}

/// On complete chunks the streaming walk meets no truncated data and sees
/// the same `tEXt` payloads as the whole-buffer walk.
proof fn lemma_walks_agree(d: Seq<u8>, pos: int)
    requires
        chunks_complete(d, pos),
    ensures
        !text_walk(d, pos).1,
        text_walk(d, pos).0 == buffer_walk(d, pos),
    decreases d.len() - pos,
{
    if pos + 8 <= d.len() {
        let next = pos + 12 + be_u32_at(d, pos);
        if has_tag(d, pos, text_tag()) {
            assert(!has_tag(d, pos, iend_tag())) by {
                assert(text_tag()[0] != iend_tag()[0]);
                assert(d.subrange(pos + 4, pos + 8)[0] == text_tag()[0]);
            }
            lemma_walks_agree(d, next);
        } else if !has_tag(d, pos, iend_tag()) {
            lemma_walks_agree(d, next);
        }
    }
}

/// The two readers agree on a well-formed file: when the data starts with
/// the PNG signature and every chunk lies wholly inside it, up to and
/// including the first `IEND`, the streaming reader succeeds and gives the
/// same keyword → text pairs as the whole-buffer reader.
pub proof fn lemma_readers_agree(d: Seq<u8>)
    requires
        starts_with_signature(d),
        chunks_complete(d, 8),
    ensures
        read_spec(d) is Ok,
        read_spec(d) == buffer_read_spec(d),
{
    lemma_walks_agree(d, 8);
}

/// Extract all tEXt chunks from PNG file contents.
///
/// Returns keyword → text pairs. Only chunk headers and tEXt data are
/// looked at; image pixel data is never decoded.
pub fn read_text_chunks(data: &[u8]) -> (r: Result<TextChunks, PngError>)
    ensures
        r matches Ok(c) ==> c.wf() && buffer_read_spec(data@) == Ok::<Map<Seq<char>, Seq<char>>, PngError>(c@),
        r matches Err(e) ==> buffer_read_spec(data@) == Err::<Map<Seq<char>, Seq<char>>, PngError>(e),
{
    if !has_png_signature(data) {
        return Err(PngError::NotPng);
    }
    let ghost w = buffer_walk(data@, 8);
    let mut chunks = TextChunks::new();
    let mut pos: usize = 8;
    let ghost mut seen: int = 0;
    assert(w.subrange(0, 0) =~= Seq::<Seq<u8>>::empty());
    assert(w.subrange(0, w.len() as int) =~= w);
    while pos <= data.len() && data.len() - pos >= 12
        invariant
            8 <= pos,
            starts_with_signature(data@),
            w == buffer_walk(data@, 8),
            0 <= seen <= w.len(),
            pos <= data@.len() ==> buffer_walk(data@, pos as int) == w.subrange(seen, w.len() as int),
            pos > data@.len() ==> seen == w.len(),
            chunks.wf(),
            chunks@ == payloads_map(w.subrange(0, seen)),
        decreases data@.len() + 12 - pos,
    {
        let length = read_u32_be(data, pos) as usize;
        let data_start = pos + 8;
        if length > data.len() - data_start {
            assert(w.subrange(seen, w.len() as int).len() == 0);
            assert(w.subrange(0, seen) =~= w);
            return Ok(chunks);
        }
        let data_end = data_start + length;
        let ghost rest = buffer_walk(data@, data_end + 4);
        if chunk_type_is(data, pos, &TEXT_TAG) {
            let chunk = &data[data_start..data_end];
            assert(w[seen] == chunk@) by {
                assert(w.subrange(seen, w.len() as int)[0] == w[seen]);
            }
            assert(w.subrange(0, seen + 1).drop_last() =~= w.subrange(0, seen));
            if let Some((keyword, text)) = split_payload(chunk) {
                chunks.insert(keyword, text);
            }
            proof {
                if data_end + 4 <= data@.len() {
                    assert(w.subrange(seen + 1, w.len() as int)
                        =~= w.subrange(seen, w.len() as int).drop_first());
                    assert(rest =~= (seq![chunk@] + rest).drop_first());
                } else {
                    assert(w.subrange(seen, w.len() as int) =~= seq![chunk@]);
                }
                seen = seen + 1;
            }
        } else if chunk_type_is(data, pos, &IEND_TAG) {
            assert(w.subrange(seen, w.len() as int).len() == 0);
            assert(w.subrange(0, seen) =~= w);
            return Ok(chunks);
        } else {
            proof {
                if data_end + 4 > data@.len() {
                    assert(w.subrange(seen, w.len() as int).len() == 0);
                }
            }
        }
        if data.len() - data_end < 4 {
            assert(w.subrange(0, seen) =~= w);
            return Ok(chunks);
        }
        pos = data_end + 4;
    }
    proof {
        if pos <= data@.len() {
            assert(w.subrange(seen, w.len() as int).len() == 0);
        }
    }
    assert(w.subrange(0, seen) =~= w);
    Ok(chunks)
}

} // verus!
