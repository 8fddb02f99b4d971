//! Streaming extraction of `tEXt` chunks: the chunks are visited in file
//! order, non-`tEXt` data is stepped over, and the walk stops at `IEND`.

use vstd::prelude::*;
use vstd::utf8::{decode_utf8, valid_utf8};

use crate::png::{
    be_u32_at, chunk_type_is, has_png_signature, has_tag, iend_tag, read_u32_be, starts_with_signature, text_tag,
    PngError, IEND_TAG, TEXT_TAG,
};
use crate::text_map::TextChunks;

verus! {

/// What a streaming reader meets from the chunk header at `pos` on: the data
/// of each `tEXt` chunk, in file order, and whether it stopped on a `tEXt`
/// chunk whose data runs past the end of the input.
///
/// The walk ends when fewer than 8 bytes remain for a chunk header, at an
/// `IEND` chunk, or when the next chunk would start past the end.
pub open spec fn text_walk(d: Seq<u8>, pos: int) -> (Seq<Seq<u8>>, bool)
    decreases d.len() - pos,
{
    if pos < 0 || pos + 8 > d.len() {
        (Seq::empty(), false)
    } else {
        let len = be_u32_at(d, pos);
        let next = pos + 12 + len;
        if has_tag(d, pos, text_tag()) {
            if pos + 8 + len > d.len() {
                (Seq::empty(), true)
            } else {
                let payload = d.subrange(pos + 8, pos + 8 + len);
                if next > d.len() {
                    (seq![payload], false)
                } else {
                    let rest = text_walk(d, next);
                    (seq![payload] + rest.0, rest.1)
                }
            }
        } else if has_tag(d, pos, iend_tag()) {
            (Seq::empty(), false)
        } else if next > d.len() {
            (Seq::empty(), false)
        } else {
            text_walk(d, next)
        }
    }
}

/// The `tEXt` payloads of a PNG file and whether the walk hit truncated data.
pub open spec fn file_text_walk(d: Seq<u8>) -> (Seq<Seq<u8>>, bool) {
    text_walk(d, 8)
}

/// `z` is the position of the first zero byte of `p`.
pub open spec fn is_first_nul(p: Seq<u8>, z: int) -> bool {
    0 <= z < p.len() && p[z] == 0 && forall|j: int| 0 <= j < z ==> p[j] != 0
}

/// `p` holds a zero byte.
pub open spec fn has_nul(p: Seq<u8>) -> bool {
    exists|z: int| 0 <= z < p.len() && p[z] == 0
}

/// The position of the first zero byte of `p` (meaningful when `has_nul(p)`).
pub open spec fn first_nul(p: Seq<u8>) -> int {
    choose|z: int| is_first_nul(p, z)
}

/// Where the first zero byte is is unique.
pub proof fn lemma_first_nul_unique(p: Seq<u8>, z: int)
    requires
        is_first_nul(p, z),
    ensures
        first_nul(p) == z,
        has_nul(p),
{
    let w = first_nul(p);
    assert(is_first_nul(p, w));
    if w < z {
        assert(p[w] != 0);
    } else if z < w {
        assert(p[z] != 0);
    }
}

/// The characters `String::from_utf8_lossy` makes of `bytes` that are not
/// valid UTF-8 (each invalid sequence becomes U+FFFD).
pub uninterp spec fn utf8_lossy_invalid(bytes: Seq<u8>) -> Seq<char>;

/// The characters that lossy UTF-8 decoding makes of `bytes`: the characters
/// they encode when they are valid UTF-8.
pub open spec fn utf8_lossy_chars(bytes: Seq<u8>) -> Seq<char> {
    if valid_utf8(bytes) {
        decode_utf8(bytes)
    } else {
        utf8_lossy_invalid(bytes)
    }
}

/// Decodes `bytes` as UTF-8 by `String::from_utf8_lossy`, replacing each
/// invalid sequence with U+FFFD.
///
/// Trusted: for valid UTF-8 the documentation of `from_utf8_lossy` promises
/// the very characters the bytes encode; for other input the result is
/// named by `utf8_lossy_invalid`, a function of the bytes alone.
#[verifier::external_body]
pub(crate) fn utf8_lossy(bytes: &[u8]) -> (s: String)
    ensures
        valid_utf8(bytes@) ==> s@ == decode_utf8(bytes@),
        !valid_utf8(bytes@) ==> s@ == utf8_lossy_invalid(bytes@),
{
    String::from_utf8_lossy(bytes).into_owned()
}

/// The keyword and text of a `tEXt` payload: the bytes before the first zero
/// byte and those after it, each decoded as by `from_utf8_lossy`.
pub open spec fn payload_entry(p: Seq<u8>) -> (Seq<char>, Seq<char>) {
    let z = first_nul(p);
    (utf8_lossy_chars(p.subrange(0, z)), utf8_lossy_chars(p.subrange(z + 1, p.len() as int)))
}

/// The keyword → text map that a sequence of `tEXt` payloads gives, in order,
/// a later keyword overriding an earlier one; payloads without a zero byte
/// are ignored.
pub open spec fn payloads_map(ps: Seq<Seq<u8>>) -> Map<Seq<char>, Seq<char>>
    decreases ps.len(),
{
    if ps.len() == 0 {
        Map::empty()
    } else {
        let m = payloads_map(ps.drop_last());
        let p = ps.last();
        if has_nul(p) {
            m.insert(payload_entry(p).0, payload_entry(p).1)
        } else {
            m
        }
    }
}

/// What reading the `tEXt` chunks of `d` gives.
pub open spec fn read_spec(d: Seq<u8>) -> Result<Map<Seq<char>, Seq<char>>, PngError> {
    if d.len() < 8 {
        Err(PngError::UnexpectedEof)
    } else if !starts_with_signature(d) {
        Err(PngError::NotPng)
    } else if file_text_walk(d).1 {
        Err(PngError::UnexpectedEof)
    } else {
        Ok(payloads_map(file_text_walk(d).0))
    }
}

/// One step of the streaming walk.
pub enum TextStep {
    /// The walk ends here without error.
    End,
    /// The walk stops on a `tEXt` chunk whose data runs past the end.
    Truncated,
    /// A `tEXt` chunk with data `start..end`; the walk goes on at `next`.
    Text { start: usize, end: usize, next: usize },
}

/// From the chunk header at `pos`, step over chunks up to the next `tEXt`
/// chunk, and say where its data lies.
pub fn next_text_chunk(data: &[u8], pos: usize) -> (r: TextStep)
    requires
        pos <= data@.len(),
    ensures
        r matches TextStep::End ==> text_walk(data@, pos as int) == (Seq::<Seq<u8>>::empty(), false),
        r matches TextStep::Truncated ==> text_walk(data@, pos as int) == (Seq::<Seq<u8>>::empty(), true),
        r matches TextStep::Text { start, end, next } ==> {
            &&& pos < start <= end <= next <= data@.len()
            &&& text_walk(data@, pos as int) == (
                seq![data@.subrange(start as int, end as int)] + text_walk(data@, next as int).0,
                text_walk(data@, next as int).1,
            )
        },
{
    let ghost d = data@;
    let mut cur = pos;
    loop
        invariant
            pos <= cur <= data@.len(),
            d == data@,
            text_walk(d, pos as int) == text_walk(d, cur as int),
        decreases data@.len() - cur,
    {
        if data.len() - cur < 8 {
            assert(text_walk(d, cur as int) == (Seq::<Seq<u8>>::empty(), false));
            assert(text_walk(d, pos as int) == (Seq::<Seq<u8>>::empty(), false));
            return TextStep::End;
        }
        let length = read_u32_be(data, cur) as usize;
        let rest = data.len() - cur - 8;
        if chunk_type_is(data, cur, &TEXT_TAG) {
            if length > rest {
                return TextStep::Truncated;
            }
            let start = cur + 8;
            let end = start + length;
            let next = if data.len() - end < 4 {
                data.len()
            } else {
                end + 4
            };
            proof {
                if data.len() - end < 4 {
                    assert(text_walk(d, data@.len() as int) == (Seq::<Seq<u8>>::empty(), false));
                    assert(seq![d.subrange(start as int, end as int)] + Seq::<Seq<u8>>::empty()
                        =~= seq![d.subrange(start as int, end as int)]);
                }
            }
            return TextStep::Text { start, end, next };
        }
        if chunk_type_is(data, cur, &IEND_TAG) {
            return TextStep::End;
        }
        if rest < 4 || length > rest - 4 {
            return TextStep::End;
        }
        cur = cur + 12 + length;
    }
}


/// Split a `tEXt` payload at its first zero byte into keyword and text,
/// decoding each as by `from_utf8_lossy`; `None` when there is no zero byte.
pub fn split_payload(p: &[u8]) -> (r: Option<(String, String)>)
    ensures
        r is None <==> !has_nul(p@),
        r matches Some((k, t)) ==> (k@, t@) == payload_entry(p@),
{
    let mut i: usize = 0;
    while i < p.len()
        invariant
            i <= p@.len(),
            forall|j: int| 0 <= j < i ==> p@[j] != 0,
        decreases p.len() - i,
    {
        if p[i] == 0 {
            proof {
                lemma_first_nul_unique(p@, i as int);
            }
            let keyword = utf8_lossy(&p[0..i]);
            let text = utf8_lossy(&p[i + 1..p.len()]);
            return Some((keyword, text));
        }
        i += 1;
    }
    None
}

/// The predicate returned `b` on some slice holding exactly `payload`.
pub open spec fn returned<F: FnMut(&[u8]) -> bool>(predicate: F, payload: Seq<u8>, b: bool) -> bool {
    exists|s: &[u8]| s@ == payload && call_ensures(predicate, (s,), b)
}

/// What scanning `data` with `predicate` may give: the signature errors;
/// then `Ok(true)` after calls that returned `false` on the chunks before one
/// that returned `true`; `Ok(false)` when every chunk was refused and none is
/// cut short; `Err(UnexpectedEof)` when every chunk before a cut-short one
/// was refused.
pub open spec fn scan_outcome<F: FnMut(&[u8]) -> bool>(predicate: F, data: Seq<u8>, r: Result<bool, PngError>) -> bool {
    &&& data.len() < 8 ==> r == Err::<bool, PngError>(PngError::UnexpectedEof)
    &&& data.len() >= 8 && !starts_with_signature(data) ==> r == Err::<bool, PngError>(PngError::NotPng)
    &&& starts_with_signature(data) ==> {
        let w = file_text_walk(data);
        &&& r matches Ok(true) ==> exists|i: int| 0 <= i < w.0.len() && returned(predicate, w.0[i], true)
            && forall|j: int| 0 <= j < i ==> returned(predicate, w.0[j], false)
        &&& r matches Ok(false) ==> !w.1 && forall|j: int| 0 <= j < w.0.len() ==> returned(predicate, w.0[j], false)
        &&& r is Err ==> r == Err::<bool, PngError>(PngError::UnexpectedEof) && w.1
            && forall|j: int| 0 <= j < w.0.len() ==> returned(predicate, w.0[j], false)
        &&& !w.1 ==> r is Ok
    }
}

/// What scanning `d` with a predicate that computes `f` gives: `Ok(true)`
/// when a chunk met before the walk stops satisfies `f`, whether or not a
/// later chunk is cut short.
pub open spec fn scan_spec(d: Seq<u8>, f: spec_fn(Seq<u8>) -> bool) -> Result<bool, PngError> {
    if d.len() < 8 {
        Err(PngError::UnexpectedEof)
    } else if !starts_with_signature(d) {
        Err(PngError::NotPng)
    } else if exists|i: int| 0 <= i < file_text_walk(d).0.len() && f(#[trigger] file_text_walk(d).0[i]) {
        Ok(true)
    } else if file_text_walk(d).1 {
        Err(PngError::UnexpectedEof)
    } else {
        Ok(false)
    }
}

/// A scan with a predicate that computes `f` gives `scan_spec(d, f)`.
pub proof fn lemma_scan_spec<F: FnMut(&[u8]) -> bool>(d: Seq<u8>, predicate: F, f: spec_fn(Seq<u8>) -> bool, r: Result<bool, PngError>)
    requires
        scan_outcome(predicate, d, r),
        forall|s: &[u8], b: bool| call_ensures(predicate, (s,), b) ==> b == f(s@),
    ensures
        r == scan_spec(d, f),
{
    if starts_with_signature(d) {
        let w = file_text_walk(d);
        if r matches Ok(true) {
            let i = choose|i: int| 0 <= i < w.0.len() && returned(predicate, w.0[i], true)
                && forall|j: int| 0 <= j < i ==> returned(predicate, w.0[j], false);
            let s = choose|s: &[u8]| s@ == w.0[i] && call_ensures(predicate, (s,), true);
            assert(f(w.0[i]));
        } else {
            assert forall|j: int| 0 <= j < w.0.len() implies !f(#[trigger] w.0[j]) by {
                assert(returned(predicate, w.0[j], false));
                let s = choose|s: &[u8]| s@ == w.0[j] && call_ensures(predicate, (s,), false);
            }
        }
    }
}

/// Scan `tEXt` chunks with a caller-supplied predicate on raw bytes.
///
/// Visits the `tEXt` chunks in file order, passing each chunk's raw data
/// (keyword + zero byte + text) to `predicate`, and returns `Ok(true)` as soon
/// as a call returns `true`. A `tEXt` chunk whose data runs past the end is
/// an error only if no earlier chunk matched.
pub fn scan_text_chunks<F: FnMut(&[u8]) -> bool>(data: &[u8], predicate: F) -> (r: Result<bool, PngError>)
    requires
        forall|s: &[u8]| call_requires(predicate, (s,)),
    ensures
        scan_outcome(predicate, data@, r),
{
    if data.len() < 8 {
        return Err(PngError::UnexpectedEof);
    }
    if !has_png_signature(data) {
        return Err(PngError::NotPng);
    }
    let ghost w = file_text_walk(data@);
    let mut pred = predicate;
    let mut pos: usize = 8;
    let ghost mut seen: int = 0;
    loop
        invariant
            8 <= pos <= data@.len(),
            starts_with_signature(data@),
            pred == predicate,
            forall|s: &[u8]| call_requires(predicate, (s,)),
            w == file_text_walk(data@),
            0 <= seen <= w.0.len(),
            text_walk(data@, pos as int).0 == w.0.subrange(seen, w.0.len() as int),
            text_walk(data@, pos as int).1 == w.1,
            forall|j: int| 0 <= j < seen ==> returned(predicate, w.0[j], false),
        decreases data@.len() - pos,
    {
        match next_text_chunk(data, pos) {
            TextStep::End => {
                assert(w.0.subrange(seen, w.0.len() as int).len() == 0);
                return Ok(false);
            },
            TextStep::Truncated => {
                assert(w.0.subrange(seen, w.0.len() as int).len() == 0);
                return Err(PngError::UnexpectedEof);
            },
            TextStep::Text { start, end, next } => {
                let chunk = &data[start..end];
                assert(w.0[seen] == chunk@) by {
                    assert(w.0.subrange(seen, w.0.len() as int)[0] == w.0[seen]);
                }
                let hit = pred(chunk);
                if hit {
                    assert(returned(predicate, w.0[seen], true));
                    return Ok(true);
                }
                assert(returned(predicate, w.0[seen], false));
                proof {
                    assert(w.0.subrange(seen + 1, w.0.len() as int)
                        =~= w.0.subrange(seen, w.0.len() as int).drop_first());
                    assert(seq![chunk@] + text_walk(data@, next as int).0
                        == w.0.subrange(seen, w.0.len() as int));
                    assert(text_walk(data@, next as int).0
                        =~= (seq![chunk@] + text_walk(data@, next as int).0).drop_first());
                    seen = seen + 1;
                }
                pos = next;
            },
        }
    }
}

/// Extract all `tEXt` chunks of a PNG file held in `data`.
///
/// Returns keyword → text pairs in sorted keyword order; when a keyword
/// occurs twice the later chunk wins, and a chunk without a zero byte is
/// skipped.
pub fn read_text_chunks(data: &[u8]) -> (r: Result<TextChunks, PngError>)
    ensures
        r matches Ok(c) ==> c.wf() && read_spec(data@) == Ok::<Map<Seq<char>, Seq<char>>, PngError>(c@),
        r matches Err(e) ==> read_spec(data@) == Err::<Map<Seq<char>, Seq<char>>, PngError>(e),
{
    if data.len() < 8 {
        return Err(PngError::UnexpectedEof);
    }
    if !has_png_signature(data) {
        return Err(PngError::NotPng);
    }
    let ghost w = file_text_walk(data@);
    let mut chunks = TextChunks::new();
    let mut pos: usize = 8;
    let ghost mut seen: int = 0;
    assert(w.0.subrange(0, 0) =~= Seq::<Seq<u8>>::empty());
    loop
        invariant
            8 <= pos <= data@.len(),
            starts_with_signature(data@),
            w == file_text_walk(data@),
            0 <= seen <= w.0.len(),
            text_walk(data@, pos as int).0 == w.0.subrange(seen, w.0.len() as int),
            text_walk(data@, pos as int).1 == w.1,
            chunks.wf(),
            chunks@ == payloads_map(w.0.subrange(0, seen)),
        decreases data@.len() - pos,
    {
        match next_text_chunk(data, pos) {
            TextStep::End => {
                assert(w.0.subrange(seen, w.0.len() as int).len() == 0);
                assert(w.0.subrange(0, seen) =~= w.0);
                return Ok(chunks);
            },
            TextStep::Truncated => {
                return Err(PngError::UnexpectedEof);
            },
            TextStep::Text { start, end, next } => {
                let chunk = &data[start..end];
                assert(w.0[seen] == chunk@) by {
                    assert(w.0.subrange(seen, w.0.len() as int)[0] == w.0[seen]);
                }
                let ghost before = w.0.subrange(0, seen);
                assert(w.0.subrange(0, seen + 1).drop_last() =~= before);
                assert(w.0.subrange(0, seen + 1).last() == chunk@);
                if let Some((keyword, text)) = split_payload(chunk) {
                    chunks.insert(keyword, text);
                }
                proof {
                    assert(seq![chunk@] + text_walk(data@, next as int).0
                        == w.0.subrange(seen, w.0.len() as int));
                    assert(w.0.subrange(seen + 1, w.0.len() as int)
                        =~= w.0.subrange(seen, w.0.len() as int).drop_first());
                    assert(text_walk(data@, next as int).0
                        =~= (seq![chunk@] + text_walk(data@, next as int).0).drop_first());
                    seen = seen + 1;
                }
                pos = next;
            },
        }
    }
}

/// `needle` occurs in `haystack` starting at `i`.
pub open spec fn occurs_at(haystack: Seq<u8>, needle: Seq<u8>, i: int) -> bool {
    0 <= i && i + needle.len() <= haystack.len() && haystack.subrange(i, i + needle.len()) == needle
}

/// `needle` occurs somewhere in `haystack` (the empty needle occurs everywhere).
pub open spec fn contains_bytes(haystack: Seq<u8>, needle: Seq<u8>) -> bool {
    exists|i: int| occurs_at(haystack, needle, i)
}

/// The position of the first occurrence of `needle` in `haystack`, by
/// `memchr::memmem::find`.
///
/// Trusted: `Some(i)` is the first position at which `needle` occurs, as the
/// crate documents ("the index of the first occurrence"); `None` means it
/// occurs nowhere.
#[verifier::external_body]
pub(crate) fn memmem_find(haystack: &[u8], needle: &[u8]) -> (r: Option<usize>)
    ensures
        r matches Some(i) ==> occurs_at(haystack@, needle@, i as int)
            && forall|j: int| 0 <= j < i ==> !occurs_at(haystack@, needle@, j),
        r is None ==> forall|j: int| !occurs_at(haystack@, needle@, j),
{
    memchr::memmem::find(haystack, needle)
}

/// What searching the `tEXt` chunks of `d` for `needle` gives: `Ok(true)`
/// when a chunk met before the walk stops holds it, whether or not a later
/// chunk is truncated.
pub open spec fn contains_spec(d: Seq<u8>, needle: Seq<u8>) -> Result<bool, PngError> {
    if d.len() < 8 {
        Err(PngError::UnexpectedEof)
    } else if !starts_with_signature(d) {
        Err(PngError::NotPng)
    } else if exists|i: int| 0 <= i < file_text_walk(d).0.len() && contains_bytes(#[trigger] file_text_walk(d).0[i], needle) {
        Ok(true)
    } else if file_text_walk(d).1 {
        Err(PngError::UnexpectedEof)
    } else {
        Ok(false)
    }
}

/// Search the `tEXt` chunk data for a byte pattern, without decoding.
///
/// Each chunk's raw bytes (keyword, zero byte and text) are searched;
/// returns `Ok(true)` on the first chunk that holds `needle`.
pub fn contains_in_text_chunks(data: &[u8], needle: &[u8]) -> (r: Result<bool, PngError>)
    ensures
        r == contains_spec(data@, needle@),
{
    let finder = |chunk: &[u8]| -> (b: bool)
        ensures
            b == contains_bytes(chunk@, needle@),
        { memmem_find(chunk, needle).is_some() };
    let r = scan_text_chunks(data, finder);
    proof {
        if starts_with_signature(data@) {
            let w = file_text_walk(data@);
            if r matches Ok(true) {
                let i = choose|i: int| 0 <= i < w.0.len() && returned(finder, w.0[i], true)
                    && forall|j: int| 0 <= j < i ==> returned(finder, w.0[j], false);
                assert(contains_bytes(w.0[i], needle@));
            } else {
                assert forall|j: int| 0 <= j < w.0.len() implies !contains_bytes(#[trigger] w.0[j], needle@) by {
                    assert(returned(finder, w.0[j], false));
                }
            }
        }
    }
    r
}
} // verus!
