//! Inserting a `tEXt` chunk into PNG data, just before the `IEND` chunk,
//! with the CRC-32 that the PNG specification prescribes.

use vstd::prelude::*;
use vstd::utf8::encode_utf8;

use crate::read::{first_nul, has_nul, is_first_nul, lemma_first_nul_unique, payload_entry, read_spec, text_walk};

use crate::png::{
    be_bytes, be_u32, be_u32_at, chunk_type_is, has_png_signature, has_tag, iend_tag, read_u32_be,
    starts_with_signature, text_tag, u32_to_be_bytes, PngError, IEND_TAG, TEXT_TAG,
};

verus! {

/// One bit step of the reflected CRC-32 (polynomial 0xEDB88320).
pub open spec fn crc_step(c: u32) -> u32 {
    if c & 1 != 0 {
        (c >> 1) ^ 0xEDB8_8320u32
    } else {
        c >> 1
    }
}

/// `n` bit steps.
pub open spec fn crc_steps(c: u32, n: nat) -> u32
    decreases n,
{
    if n == 0 {
        c
    } else {
        crc_step(crc_steps(c, (n - 1) as nat))
    }
}

/// The CRC register after feeding `s`, starting from all ones.
pub open spec fn crc_register(s: Seq<u8>) -> u32
    decreases s.len(),
{
    if s.len() == 0 {
        0xFFFF_FFFFu32
    } else {
        crc_steps(crc_register(s.drop_last()) ^ (s.last() as u32), 8)
    }
}

/// CRC-32 per the PNG specification (ISO 3309 / ITU-T V.42).
pub open spec fn crc32_spec(s: Seq<u8>) -> u32 {
    crc_register(s) ^ 0xFFFF_FFFFu32
}

/// Bytewise exclusive or of three byte sequences.
pub open spec fn xor3(a: Seq<u8>, b: Seq<u8>, c: Seq<u8>) -> Seq<u8> {
    Seq::new(a.len(), |i: int| a[i] ^ b[i] ^ c[i])
}

/// One CRC bit step is linear over GF(2).
proof fn lemma_crc_step_linear(x: u32, y: u32)
    ensures
        crc_step(x ^ y) == crc_step(x) ^ crc_step(y),
{
    assert(((x ^ y) & 1 != 0 ==> ((x ^ y) >> 1) ^ 0xEDB8_8320u32 == (if x & 1 != 0 {
        (x >> 1) ^ 0xEDB8_8320u32
    } else {
        x >> 1
    }) ^ (if y & 1 != 0 {
        (y >> 1) ^ 0xEDB8_8320u32
    } else {
        y >> 1
    })) && ((x ^ y) & 1 == 0 ==> ((x ^ y) >> 1) == (if x & 1 != 0 {
        (x >> 1) ^ 0xEDB8_8320u32
    } else {
        x >> 1
    }) ^ (if y & 1 != 0 {
        (y >> 1) ^ 0xEDB8_8320u32
    } else {
        y >> 1
    }))) by (bit_vector);
}

/// Any number of CRC bit steps is linear over GF(2).
proof fn lemma_crc_steps_linear(x: u32, y: u32, n: nat)
    ensures
        crc_steps(x ^ y, n) == crc_steps(x, n) ^ crc_steps(y, n),
    decreases n,
{
    if n > 0 {
        lemma_crc_steps_linear(x, y, (n - 1) as nat);
        lemma_crc_step_linear(crc_steps(x, (n - 1) as nat), crc_steps(y, (n - 1) as nat));
    }
}

/// The CRC register of a bytewise xor of three equally long inputs is the
/// xor of their registers.
proof fn lemma_crc_register_xor3(a: Seq<u8>, b: Seq<u8>, c: Seq<u8>)
    requires
        a.len() == b.len(),
        b.len() == c.len(),
    ensures
        crc_register(xor3(a, b, c)) == crc_register(a) ^ crc_register(b) ^ crc_register(c),
    decreases a.len(),
{
    let x = xor3(a, b, c);
    if a.len() == 0 {
        assert(0xFFFF_FFFFu32 ^ 0xFFFF_FFFFu32 ^ 0xFFFF_FFFFu32 == 0xFFFF_FFFFu32) by (bit_vector);
    } else {
        lemma_crc_register_xor3(a.drop_last(), b.drop_last(), c.drop_last());
        assert(x.drop_last() =~= xor3(a.drop_last(), b.drop_last(), c.drop_last()));
        let ra = crc_register(a.drop_last());
        let rb = crc_register(b.drop_last());
        let rc = crc_register(c.drop_last());
        let la = a.last();
        let lb = b.last();
        let lc = c.last();
        assert(x.last() == la ^ lb ^ lc);
        assert(((ra ^ rb ^ rc) ^ ((la ^ lb ^ lc) as u32)) == ((ra ^ (la as u32)) ^ (rb ^ (lb as u32)))
            ^ (rc ^ (lc as u32))) by (bit_vector);
        lemma_crc_steps_linear((ra ^ (la as u32)) ^ (rb ^ (lb as u32)), rc ^ (lc as u32), 8);
        lemma_crc_steps_linear(ra ^ (la as u32), rb ^ (lb as u32), 8);
    }
}

/// CRC-32 is affine over GF(2): for three inputs of the same length, the
/// CRC of their bytewise xor is the xor of their CRCs.
pub proof fn lemma_crc32_affine(a: Seq<u8>, b: Seq<u8>, c: Seq<u8>)
    requires
        a.len() == b.len(),
        b.len() == c.len(),
    ensures
        crc32_spec(xor3(a, b, c)) == crc32_spec(a) ^ crc32_spec(b) ^ crc32_spec(c),
{
    lemma_crc_register_xor3(a, b, c);
    let ra = crc_register(a);
    let rb = crc_register(b);
    let rc = crc_register(c);
    assert((ra ^ rb ^ rc) ^ 0xFFFF_FFFFu32 == (ra ^ 0xFFFF_FFFFu32) ^ (rb ^ 0xFFFF_FFFFu32) ^ (rc
        ^ 0xFFFF_FFFFu32)) by (bit_vector);
}

/// The four bytes of `x`, least significant first.
pub open spec fn le_bytes(x: u32) -> Seq<u8> {
    seq![x as u8, (x >> 8u32) as u8, (x >> 16u32) as u8, (x >> 24u32) as u8]
}

/// Eight CRC bit steps, written out.
proof fn lemma_crc_steps_8(z: u32)
    ensures
        crc_steps(z, 8) == crc_step(crc_step(crc_step(crc_step(crc_step(crc_step(crc_step(crc_step(z)))))))),
{
    reveal_with_fuel(crc_steps, 9);
}

/// A bit step on a value whose low bit is clear is a plain shift.
proof fn lemma_crc_step_shifted(z: u32, k: u32)
    requires
        z & 0xff == 0,
        k < 8,
    ensures
        crc_step(z >> k) == z >> ((k + 1) as u32),
{
    assert(crc_step(z >> k) == z >> ((k + 1) as u32)) by (bit_vector)
        requires
            z & 0xff == 0,
            k < 8,
    ;
}

/// Up to eight bit steps on a value whose low byte is clear only shift it.
proof fn lemma_crc_steps_shifted(z: u32, n: nat)
    requires
        z & 0xff == 0,
        n <= 8,
    ensures
        crc_steps(z, n) == z >> (n as u32),
    decreases n,
{
    if n == 0 {
        assert(z >> 0u32 == z) by (bit_vector);
    } else {
        lemma_crc_steps_shifted(z, (n - 1) as nat);
        lemma_crc_step_shifted(z, (n - 1) as u32);
        assert(((n - 1) as u32 + 1) as u32 == n as u32);
    }
}

/// Exclusive or facts used below.
proof fn lemma_xor_facts(a: u32, b: u32)
    ensures
        (a ^ b) ^ b == a,
        a ^ (a ^ b) == b,
        a ^ 0u32 == a,
{
    assert((a ^ b) ^ b == a && a ^ (a ^ b) == b && a ^ 0u32 == a) by (bit_vector);
}

/// Feeding the low byte of `y` into the register `r` gives eight bit steps
/// of `r ^ y`, xored with the rest of `y` shifted down a byte.
proof fn lemma_crc_feed_low_byte(r: u32, y: u32)
    ensures
        crc_steps(r ^ ((y as u8) as u32), 8) == crc_steps(r ^ y, 8) ^ (y >> 8u32),
{
    let b = (y as u8) as u32;
    let h = y ^ b;
    assert((y ^ ((y as u8) as u32)) & 0xff == 0 && (y ^ ((y as u8) as u32)) >> 8u32 == y >> 8u32
        && r ^ y == (r ^ ((y as u8) as u32)) ^ (y ^ ((y as u8) as u32))) by (bit_vector);
    lemma_crc_steps_shifted(h, 8);
    lemma_crc_steps_linear(r ^ b, h, 8);
    lemma_xor_facts(crc_steps(r ^ b, 8), y >> 8u32);
}

/// CRC-32 residue: a message followed by its own CRC-32, least significant
/// byte first, always has the CRC-32 0x2144DF1C.
pub proof fn lemma_crc32_residue(s: Seq<u8>)
    ensures
        crc32_spec(s + le_bytes(crc32_spec(s))) == 0x2144_DF1Cu32,
{
    let c = crc32_spec(s);
    let r = crc_register(s);
    let y1 = c >> 8u32;
    let y2 = c >> 16u32;
    let y3 = c >> 24u32;
    assert((c >> 8u32) >> 8u32 == c >> 16u32 && (c >> 16u32) >> 8u32 == c >> 24u32
        && (c >> 24u32) >> 8u32 == 0u32) by (bit_vector);
    let t1 = s.push(c as u8);
    let t2 = t1.push(y1 as u8);
    let t3 = t2.push(y2 as u8);
    let t4 = t3.push(y3 as u8);
    assert(s + le_bytes(c) =~= t4);
    assert(t1.drop_last() =~= s);
    assert(t2.drop_last() =~= t1);
    assert(t3.drop_last() =~= t2);
    assert(t4.drop_last() =~= t3);
    let big = 0xFFFF_FFFFu32;
    // r ^ c is the all-ones register
    lemma_xor_facts(r, big);
    assert(r ^ c == big);
    let q1 = crc_steps(big, 8);
    let q2 = crc_steps(q1, 8);
    let q3 = crc_steps(q2, 8);
    let q4 = crc_steps(q3, 8);
    lemma_crc_feed_low_byte(r, c);
    assert(crc_register(t1) == q1 ^ y1);
    lemma_crc_feed_low_byte(crc_register(t1), y1);
    lemma_xor_facts(q1, y1);
    assert(crc_register(t2) == q2 ^ y2);
    lemma_crc_feed_low_byte(crc_register(t2), y2);
    lemma_xor_facts(q2, y2);
    assert(crc_register(t3) == q3 ^ y3);
    lemma_crc_feed_low_byte(crc_register(t3), y3);
    lemma_xor_facts(q3, y3);
    lemma_xor_facts(q4, 0u32);
    assert(crc_register(t4) == q4);
    lemma_crc_steps_8(big);
    lemma_crc_steps_8(q1);
    lemma_crc_steps_8(q2);
    lemma_crc_steps_8(q3);
    assert(crc_step(crc_step(crc_step(crc_step(crc_step(crc_step(crc_step(crc_step(0xFFFF_FFFFu32))))))))
        == 0x2dfd_1072u32) by (bit_vector);
    assert(crc_step(crc_step(crc_step(crc_step(crc_step(crc_step(crc_step(crc_step(0x2dfd_1072u32))))))))
        == 0xbe26_ed00u32) by (bit_vector);
    assert(crc_step(crc_step(crc_step(crc_step(crc_step(crc_step(crc_step(crc_step(0xbe26_ed00u32))))))))
        == 0x00be_26edu32) by (bit_vector);
    assert(crc_step(crc_step(crc_step(crc_step(crc_step(crc_step(crc_step(crc_step(0x00be_26edu32))))))))
        == 0xdebb_20e3u32) by (bit_vector);
    assert(0xdebb_20e3u32 ^ 0xFFFF_FFFFu32 == 0x2144_DF1Cu32) by (bit_vector);
}

/// CRC-32 per the PNG specification (ISO 3309 / ITU-T V.42).
pub fn crc32(data: &[u8]) -> (c: u32)
    ensures
        c == crc32_spec(data@),
{
    let mut crc: u32 = 0xFFFF_FFFF;
    let mut i: usize = 0;
    assert(data@.subrange(0, 0) =~= Seq::<u8>::empty());
    while i < data.len()
        invariant
            i <= data@.len(),
            crc == crc_register(data@.subrange(0, i as int)),
        decreases data.len() - i,
    {
        crc = crc ^ (data[i] as u32);
        let ghost c0 = crc;
        let mut k: u32 = 0;
        while k < 8
            invariant
                k <= 8,
                crc == crc_steps(c0, k as nat),
            decreases 8 - k,
        {
            if crc & 1 != 0 {
                crc = (crc >> 1) ^ 0xEDB8_8320;
            } else {
                crc = crc >> 1;
            }
            k += 1;
        }
        assert(data@.subrange(0, i + 1).drop_last() =~= data@.subrange(0, i as int));
        assert(data@.subrange(0, i + 1).last() == data@[i as int]);
        i += 1;
    }
    assert(data@.subrange(0, i as int) =~= data@);
    crc ^ 0xFFFF_FFFF
}

/// Append the bytes of `s` to `v`.
pub fn append_bytes(v: &mut Vec<u8>, s: &[u8])
    ensures
        final(v)@ == old(v)@ + s@,
{
    let ghost v0 = v@;
    let mut i: usize = 0;
    while i < s.len()
        invariant
            i <= s@.len(),
            v@ == v0 + s@.subrange(0, i as int),
        decreases s.len() - i,
    {
        v.push(s[i]);
        assert(v0 + s@.subrange(0, i + 1) =~= (v0 + s@.subrange(0, i as int)).push(s@[i as int]));
        i += 1;
    }
    assert(s@.subrange(0, i as int) =~= s@);
}

/// The data of a `tEXt` chunk: keyword, a zero byte, text.
pub open spec fn text_chunk_data(keyword: Seq<u8>, text: Seq<u8>) -> Seq<u8> {
    keyword + seq![0u8] + text
}

/// A complete `tEXt` chunk for `keyword` and `text`: length (4 bytes,
/// big-endian, the data length truncated to 32 bits) + `tEXt` + data + the
/// CRC-32 of type and data.
pub open spec fn text_chunk_bytes(keyword: Seq<char>, text: Seq<char>) -> Seq<u8> {
    let data = text_chunk_data(encode_utf8(keyword), encode_utf8(text));
    be_bytes(data.len() as u32) + text_tag() + data + be_bytes(crc32_spec(text_tag() + data))
}

/// Build a complete `tEXt` chunk: length(4) + "tEXt"(4) + data + crc(4).
pub fn build_text_chunk(keyword: &str, text: &str) -> (buf: Vec<u8>)
    ensures
        buf@ == text_chunk_bytes(keyword@, text@),
{
    let mut chunk_data: Vec<u8> = Vec::new();
    append_bytes(&mut chunk_data, keyword.as_bytes());
    chunk_data.push(0);
    append_bytes(&mut chunk_data, text.as_bytes());
    assert(chunk_data@ =~= text_chunk_data(encode_utf8(keyword@), encode_utf8(text@)));

    let length = #[verifier::truncate] (chunk_data.len() as u32);
    let tag = TEXT_TAG;
    assert(tag@ == text_tag());

    let mut crc_input: Vec<u8> = Vec::new();
    append_bytes(&mut crc_input, tag.as_slice());
    append_bytes(&mut crc_input, chunk_data.as_slice());
    let crc = crc32(crc_input.as_slice());

    let mut buf: Vec<u8> = Vec::new();
    let len_bytes = u32_to_be_bytes(length);
    append_bytes(&mut buf, len_bytes.as_slice());
    append_bytes(&mut buf, tag.as_slice());
    append_bytes(&mut buf, chunk_data.as_slice());
    let crc_bytes = u32_to_be_bytes(crc);
    append_bytes(&mut buf, crc_bytes.as_slice());
    buf
}

/// Where the walk over chunk headers from `pos` finds the `IEND` chunk.
pub open spec fn iend_walk(d: Seq<u8>, pos: int) -> Result<int, PngError>
    decreases d.len() - pos,
{
    if pos < 0 || pos + 8 > d.len() {
        Err(PngError::IendNotFound)
    } else if has_tag(d, pos, iend_tag()) {
        Ok(pos)
    } else {
        let next = pos + 12 + be_u32_at(d, pos);
        if next > usize::MAX {
            Err(PngError::ChunkSizeOverflow)
        } else if next > d.len() {
            Err(PngError::IendNotFound)
        } else {
            iend_walk(d, next)
        }
    }
}

/// Find the byte offset where the IEND chunk starts (at its length field).
pub fn find_iend_position(data: &[u8]) -> (r: Result<usize, PngError>)
    ensures
        r matches Ok(p) ==> iend_walk(data@, 8) == Ok::<int, PngError>(p as int),
        r matches Err(e) ==> iend_walk(data@, 8) == Err::<int, PngError>(e),
{
    let mut pos: usize = 8;
    loop
        invariant
            iend_walk(data@, 8) == iend_walk(data@, pos as int),
        decreases data@.len() + 8 - pos,
    {
        if pos > data.len() || data.len() - pos < 8 {
            return Err(PngError::IendNotFound);
        }
        if chunk_type_is(data, pos, &IEND_TAG) {
            return Ok(pos);
        }
        let length = read_u32_be(data, pos) as usize;
        let next = match pos.checked_add(length) {
            None => {
                return Err(PngError::ChunkSizeOverflow);
            },
            Some(x) => match x.checked_add(12) {
                None => {
                    return Err(PngError::ChunkSizeOverflow);
                },
                Some(y) => y,
            },
        };
        if next > data.len() {
            return Err(PngError::IendNotFound);
        }
        pos = next;
    }
}

/// What writing a `tEXt` chunk for `keyword` and `text` into `d` gives: the
/// chunk inserted just before `IEND`.
pub open spec fn write_spec(d: Seq<u8>, keyword: Seq<char>, text: Seq<char>) -> Result<Seq<u8>, PngError> {
    if !starts_with_signature(d) {
        Err(PngError::NotPng)
    } else {
        match iend_walk(d, 8) {
            Err(e) => Err(e),
            Ok(p) => Ok(d.subrange(0, p) + text_chunk_bytes(keyword, text) + d.subrange(p, d.len() as int)),
        }
    }
}

/// Write a `tEXt` chunk into PNG data, returning the new file contents.
///
/// The chunk is inserted immediately before the IEND marker.
/// CRC-32 is computed per the PNG specification (over type + data).
pub fn write_text_chunk(data: &[u8], keyword: &str, text: &str) -> (r: Result<Vec<u8>, PngError>)
    ensures
        r matches Ok(out) ==> write_spec(data@, keyword@, text@) == Ok::<Seq<u8>, PngError>(out@),
        r matches Err(e) ==> write_spec(data@, keyword@, text@) == Err::<Seq<u8>, PngError>(e),
{
    if !has_png_signature(data) {
        return Err(PngError::NotPng);
    }
    let iend_pos = match find_iend_position(data) {
        Ok(p) => p,
        Err(e) => {
            return Err(e);
        },
    };
    proof {
        lemma_iend_walk_found(data@, 8);
    }
    let chunk_bytes = build_text_chunk(keyword, text);
    let mut out: Vec<u8> = Vec::new();
    append_bytes(&mut out, &data[0..iend_pos]);
    append_bytes(&mut out, chunk_bytes.as_slice());
    append_bytes(&mut out, &data[iend_pos..data.len()]);
    Ok(out)
}

/// Where the walk finds `IEND`, there is a whole `IEND` header at or after
/// the start.
pub proof fn lemma_iend_walk_found(d: Seq<u8>, pos: int)
    ensures
        iend_walk(d, pos) matches Ok(p) ==> pos <= p && p + 8 <= d.len() && has_tag(d, p, iend_tag()),
    decreases d.len() - pos,
{
    if pos >= 0 && pos + 8 <= d.len() && !has_tag(d, pos, iend_tag()) {
        let next = pos + 12 + be_u32_at(d, pos);
        if next <= usize::MAX && next <= d.len() {
            lemma_iend_walk_found(d, next);
        }
    }
}


/// Four big-endian bytes read back give the number they were made from.
#[verifier::spinoff_prover]
pub proof fn lemma_be_bytes_roundtrip(x: u32)
    ensures
        be_bytes(x).len() == 4,
        be_u32(be_bytes(x)[0], be_bytes(x)[1], be_bytes(x)[2], be_bytes(x)[3]) == x,
{
}

/// The streaming walk over data with a `tEXt` chunk inserted at the position
/// of `IEND` meets the chunks it met before, then the inserted one.
pub proof fn lemma_walk_after_insert(d: Seq<u8>, p: int, c: Seq<u8>, cd: Seq<u8>, crc: Seq<u8>, pos: int)
    requires
        8 <= pos,
        iend_walk(d, pos) == Ok::<int, PngError>(p),
        cd.len() <= u32::MAX,
        crc.len() == 4,
        c == be_bytes(cd.len() as u32) + text_tag() + cd + crc,
    ensures
        !text_walk(d, pos).1,
        text_walk(d.subrange(0, p) + c + d.subrange(p, d.len() as int), pos)
            == (text_walk(d, pos).0.push(cd), false),
    decreases d.len() - pos,
{
    let n = d.subrange(0, p) + c + d.subrange(p, d.len() as int);
    lemma_iend_walk_found(d, pos);
    assert(n.len() == d.len() + c.len());
    assert(c.len() == 12 + cd.len());
    assert forall|i: int| 0 <= i < p implies n[i] == d[i] by {}
    if pos == p {
        lemma_be_bytes_roundtrip(cd.len() as u32);
        assert(n.subrange(p + 4, p + 8) =~= text_tag());
        assert(n[p] == c[0] && n[p + 1] == c[1] && n[p + 2] == c[2] && n[p + 3] == c[3]);
        assert(be_u32_at(n, p) == cd.len());
        assert(n.subrange(p + 8, p + 8 + cd.len()) =~= cd);
        let next = p + 12 + cd.len();
        assert(n.subrange(next + 4, next + 8) =~= d.subrange(p + 4, p + 8));
        assert(!has_tag(n, next, text_tag())) by {
            assert(n.subrange(next + 4, next + 8)[0] == iend_tag()[0]);
        }
        assert(text_walk(n, next) == (Seq::<Seq<u8>>::empty(), false));
        assert(!has_tag(d, p, text_tag())) by {
            assert(d.subrange(p + 4, p + 8)[0] == iend_tag()[0]);
        }
        assert(text_walk(d, p) == (Seq::<Seq<u8>>::empty(), false));
        assert(seq![cd] + Seq::<Seq<u8>>::empty() =~= Seq::<Seq<u8>>::empty().push(cd));
    } else {
        assert(!has_tag(d, pos, iend_tag()));
        let len = be_u32_at(d, pos);
        let next = pos + 12 + len;
        assert(next <= d.len() && iend_walk(d, next) == Ok::<int, PngError>(p));
        lemma_iend_walk_found(d, next);
        assert(next <= p);
        assert(n.subrange(pos + 4, pos + 8) =~= d.subrange(pos + 4, pos + 8));
        assert(be_u32_at(n, pos) == len);
        lemma_walk_after_insert(d, p, c, cd, crc, next);
        if has_tag(d, pos, text_tag()) {
            assert(n.subrange(pos + 8, pos + 8 + len) =~= d.subrange(pos + 8, pos + 8 + len));
            let pl = d.subrange(pos + 8, pos + 8 + len);
            assert(seq![pl] + text_walk(d, next).0.push(cd) =~= (seq![pl] + text_walk(d, next).0).push(cd));
        }
    }
}

/// No character of `k` is the NUL character.
pub open spec fn no_nul_char(k: Seq<char>) -> bool {
    forall|i: int| 0 <= i < k.len() ==> k[i] as u32 != 0
}

/// The UTF-8 encoding of a string without NUL characters has no zero byte.
pub proof fn lemma_encode_no_nul(k: Seq<char>)
    requires
        no_nul_char(k),
    ensures
        forall|j: int| 0 <= j < encode_utf8(k).len() ==> encode_utf8(k)[j] != 0,
    decreases k.len(),
{
    if k.len() > 0 {
        lemma_encode_no_nul(k.drop_first());
        let c = k[0] as u32;
        vstd::utf8::char_is_scalar(k[0]);
        assert(c != 0);
        let e = vstd::utf8::encode_scalar(c);
        assert forall|j: int| 0 <= j < e.len() implies e[j] != 0 by {
            lemma_encode_scalar_nonzero(c);
        }
        let rest = encode_utf8(k.drop_first());
        assert(encode_utf8(k) == e + rest);
        assert forall|j: int| 0 <= j < encode_utf8(k).len() implies encode_utf8(k)[j] != 0 by {
            if j < e.len() {
                assert(encode_utf8(k)[j] == e[j]);
            } else {
                assert(encode_utf8(k)[j] == rest[j - e.len()]);
            }
        }
    }
}

/// No byte of the encoding of a nonzero scalar is zero.
pub proof fn lemma_encode_scalar_nonzero(c: u32)
    requires
        c != 0,
        vstd::utf8::is_scalar(c),
    ensures
        forall|j: int| 0 <= j < vstd::utf8::encode_scalar(c).len() ==> vstd::utf8::encode_scalar(c)[j] != 0,
{
    let e = vstd::utf8::encode_scalar(c);
    assert(0xC0u8 | ((c >> 6) & 0x1F) as u8 != 0) by (bit_vector);
    assert(0xE0u8 | ((c >> 12) & 0x0F) as u8 != 0) by (bit_vector);
    assert(0xF0u8 | ((c >> 18) & 0x7) as u8 != 0) by (bit_vector);
    assert(0x80u8 | (c & 0x3F) as u8 != 0) by (bit_vector);
    assert(0x80u8 | ((c >> 6) & 0x3F) as u8 != 0) by (bit_vector);
    assert(0x80u8 | ((c >> 12) & 0x3F) as u8 != 0) by (bit_vector);
    if c <= 0x7F {
        assert((c & 0x7F) as u8 != 0) by (bit_vector)
            requires
                c != 0,
                c <= 0x7F,
        ;
    }
}

/// Reading after a successful write gives what was there before, with the
/// written keyword now mapped to the written text.
///
/// Holds when the keyword has no NUL character (the reader splits keyword
/// and text at the first zero byte) and the chunk data fits the 32-bit
/// length field.
pub proof fn lemma_read_after_write(d: Seq<u8>, keyword: Seq<char>, text: Seq<char>)
    requires
        write_spec(d, keyword, text) is Ok,
        no_nul_char(keyword),
        encode_utf8(keyword).len() + 1 + encode_utf8(text).len() <= u32::MAX,
    ensures
        read_spec(d) is Ok,
        read_spec(write_spec(d, keyword, text)->Ok_0) == Ok::<Map<Seq<char>, Seq<char>>, PngError>(
            read_spec(d)->Ok_0.insert(keyword, text),
        ),
{
    let kb = encode_utf8(keyword);
    let tb = encode_utf8(text);
    let cd = text_chunk_data(kb, tb);
    let crc = be_bytes(crc32_spec(text_tag() + cd));
    let c = text_chunk_bytes(keyword, text);
    assert(c == be_bytes(cd.len() as u32) + text_tag() + cd + crc);
    let p = iend_walk(d, 8)->Ok_0;
    lemma_iend_walk_found(d, 8);
    let n = d.subrange(0, p) + c + d.subrange(p, d.len() as int);
    assert(write_spec(d, keyword, text) == Ok::<Seq<u8>, PngError>(n));
    lemma_walk_after_insert(d, p, c, cd, crc, 8);
    assert(n.subrange(0, 8) =~= d.subrange(0, 8));
    assert(starts_with_signature(n));
    let old_ps = text_walk(d, 8).0;
    assert(text_walk(n, 8).0.drop_last() =~= old_ps);
    lemma_text_chunk_data_entry(keyword, text);
}

/// The data of a `tEXt` chunk whose keyword has no NUL character splits
/// back into that keyword and text.
pub proof fn lemma_text_chunk_data_entry(keyword: Seq<char>, text: Seq<char>)
    requires
        no_nul_char(keyword),
    ensures
        has_nul(text_chunk_data(encode_utf8(keyword), encode_utf8(text))),
        payload_entry(text_chunk_data(encode_utf8(keyword), encode_utf8(text))) == (keyword, text),
{
    let kb = encode_utf8(keyword);
    let tb = encode_utf8(text);
    let cd = text_chunk_data(kb, tb);
    lemma_encode_no_nul(keyword);
    assert(cd[kb.len() as int] == 0);
    assert(is_first_nul(cd, kb.len() as int)) by {
        assert forall|j: int| 0 <= j < kb.len() implies cd[j] != 0 by {
            assert(cd[j] == kb[j]);
        }
    }
    lemma_first_nul_unique(cd, kb.len() as int);
    assert(cd.subrange(0, kb.len() as int) =~= kb);
    assert(cd.subrange(kb.len() as int + 1, cd.len() as int) =~= tb);
    vstd::utf8::encode_utf8_valid_utf8(keyword);
    vstd::utf8::encode_utf8_valid_utf8(text);
    vstd::utf8::encode_utf8_decode_utf8(keyword);
    vstd::utf8::encode_utf8_decode_utf8(text);
}

/// The walk for `IEND` in `e` goes as in `d` when the two agree on every
/// byte up to the end of the `IEND` chunk header that `d`'s walk finds.
proof fn lemma_iend_walk_same_prefix(d: Seq<u8>, e: Seq<u8>, pos: int, p: int)
    requires
        iend_walk(d, pos) == Ok::<int, PngError>(p),
        p + 8 <= e.len(),
        e.subrange(0, p + 8) == d.subrange(0, p + 8),
    ensures
        iend_walk(e, pos) == Ok::<int, PngError>(p),
    decreases d.len() - pos,
{
    lemma_iend_walk_found(d, pos);
    assert forall|i: int| 0 <= i < p + 8 implies e[i] == d[i] by {
        assert(e.subrange(0, p + 8)[i] == e[i]);
        assert(d.subrange(0, p + 8)[i] == d[i]);
    }
    assert(e.subrange(pos + 4, pos + 8) =~= d.subrange(pos + 4, pos + 8));
    assert(be_u32_at(e, pos) == be_u32_at(d, pos));
    if !has_tag(d, pos, iend_tag()) {
        let next = pos + 12 + be_u32_at(d, pos);
        lemma_iend_walk_found(d, next);
        lemma_iend_walk_same_prefix(d, e, next, p);
    }
}

/// The search for `IEND` steps over every chunk that is not `IEND`, of any
/// type: when the chunk at `pos` is not `IEND` and lies wholly inside the
/// data, the search from `pos` finds what the search from the next chunk
/// finds; and a chunk of type `IEND` is found where it stands.
pub proof fn lemma_iend_walk_steps_over(d: Seq<u8>, pos: int)
    requires
        0 <= pos,
        pos + 8 <= d.len(),
        d.len() <= usize::MAX,
    ensures
        d.subrange(pos + 4, pos + 8) == seq![73u8, 69u8, 78u8, 68u8] ==> iend_walk(d, pos) == Ok::<int, PngError>(pos),
        d.subrange(pos + 4, pos + 8) != seq![73u8, 69u8, 78u8, 68u8]
            && pos + 12 + be_u32(d[pos], d[pos + 1], d[pos + 2], d[pos + 3]) <= d.len()
            ==> iend_walk(d, pos) == iend_walk(d, pos + 12 + be_u32(d[pos], d[pos + 1], d[pos + 2], d[pos + 3])),
{
    assert(iend_tag() =~= seq![73u8, 69u8, 78u8, 68u8]);
}

/// On a file whose chunks each lie wholly inside it, one after another from
/// the signature up to an `IEND` chunk, the search finds that `IEND`.
pub proof fn lemma_iend_found_in_complete_file(d: Seq<u8>, pos: int, p: int)
    requires
        0 <= pos <= p,
        p + 8 <= d.len(),
        d.len() <= usize::MAX,
        d.subrange(p + 4, p + 8) == seq![73u8, 69u8, 78u8, 68u8],
        chain_reaches(d, pos, p),
    ensures
        iend_walk(d, pos) == Ok::<int, PngError>(p),
    decreases p - pos,
{
    lemma_iend_walk_steps_over(d, pos);
    if pos < p {
        let next = pos + 12 + be_u32_at(d, pos);
        lemma_iend_found_in_complete_file(d, next, p);
    }
}

/// Whether stepping chunk by chunk from `pos` (each non-`IEND` chunk wholly
/// inside `d`) lands on `p` before any `IEND` chunk.
pub open spec fn chain_reaches(d: Seq<u8>, pos: int, p: int) -> bool
    decreases p - pos,
{
    if pos == p {
        true
    } else if pos > p || pos < 0 || pos + 8 > d.len() {
        false
    } else {
        let next = pos + 12 + be_u32(d[pos], d[pos + 1], d[pos + 2], d[pos + 3]);
        if d.subrange(pos + 4, pos + 8) == seq![73u8, 69u8, 78u8, 68u8] || next > d.len() || next > p {
            false
        } else {
            chain_reaches(d, next, p)
        }
    }
}

/// Bytes after the header of the `IEND` chunk (its data, its CRC, or
/// anything else) never change where the `IEND` chunk is found.
pub proof fn lemma_iend_ignores_tail(d: Seq<u8>, p: int, extra: Seq<u8>)
    requires
        iend_walk(d, 8) == Ok::<int, PngError>(p),
    ensures
        iend_walk(d.subrange(0, p + 8) + extra, 8) == Ok::<int, PngError>(p),
{
    lemma_iend_walk_found(d, 8);
    let e = d.subrange(0, p + 8) + extra;
    assert(e.subrange(0, p + 8) =~= d.subrange(0, p + 8));
    lemma_iend_walk_same_prefix(d, e, 8, p);
}

/// With a `tEXt` chunk inserted at the position of `IEND`, the walk over
/// chunk headers finds `IEND` right after the inserted chunk.
proof fn lemma_iend_after_insert(d: Seq<u8>, p: int, c: Seq<u8>, cd: Seq<u8>, crc: Seq<u8>, pos: int)
    requires
        8 <= pos,
        iend_walk(d, pos) == Ok::<int, PngError>(p),
        cd.len() <= u32::MAX,
        crc.len() == 4,
        c == be_bytes(cd.len() as u32) + text_tag() + cd + crc,
        d.len() + c.len() <= usize::MAX,
    ensures
        iend_walk(d.subrange(0, p) + c + d.subrange(p, d.len() as int), pos)
            == Ok::<int, PngError>(p + c.len()),
    decreases d.len() - pos,
{
    let n = d.subrange(0, p) + c + d.subrange(p, d.len() as int);
    lemma_iend_walk_found(d, pos);
    assert(n.len() == d.len() + c.len());
    assert(c.len() == 12 + cd.len());
    assert forall|i: int| 0 <= i < p implies n[i] == d[i] by {}
    if pos == p {
        lemma_be_bytes_roundtrip(cd.len() as u32);
        assert(n.subrange(p + 4, p + 8) =~= text_tag());
        assert(!has_tag(n, p, iend_tag())) by {
            assert(n.subrange(p + 4, p + 8)[0] != iend_tag()[0]);
        }
        assert(n[p] == c[0] && n[p + 1] == c[1] && n[p + 2] == c[2] && n[p + 3] == c[3]);
        assert(be_u32_at(n, p) == cd.len());
        let next = p + 12 + cd.len();
        assert(n.subrange(next + 4, next + 8) =~= d.subrange(p + 4, p + 8));
        assert(iend_walk(n, next) == Ok::<int, PngError>(next));
    } else {
        assert(!has_tag(d, pos, iend_tag()));
        let len = be_u32_at(d, pos);
        let next = pos + 12 + len;
        assert(next <= d.len() && iend_walk(d, next) == Ok::<int, PngError>(p));
        lemma_iend_walk_found(d, next);
        assert(n.subrange(pos + 4, pos + 8) =~= d.subrange(pos + 4, pos + 8));
        assert(be_u32_at(n, pos) == len);
        lemma_iend_after_insert(d, p, c, cd, crc, next);
    }
}

/// Data that a `tEXt` chunk was written into can be written into again.
///
/// Holds when the first chunk's data fits the 32-bit length field and the
/// written data fits in memory (its length is at most `usize::MAX`).
pub proof fn lemma_write_again(
    d: Seq<u8>,
    keyword: Seq<char>,
    text: Seq<char>,
    keyword2: Seq<char>,
    text2: Seq<char>,
)
    requires
        write_spec(d, keyword, text) is Ok,
        write_spec(d, keyword, text)->Ok_0.len() <= usize::MAX,
        encode_utf8(keyword).len() + 1 + encode_utf8(text).len() <= u32::MAX,
    ensures
        write_spec(write_spec(d, keyword, text)->Ok_0, keyword2, text2) is Ok,
{
    let cd = text_chunk_data(encode_utf8(keyword), encode_utf8(text));
    let crc = be_bytes(crc32_spec(text_tag() + cd));
    let c = text_chunk_bytes(keyword, text);
    assert(c == be_bytes(cd.len() as u32) + text_tag() + cd + crc);
    let p = iend_walk(d, 8)->Ok_0;
    lemma_iend_walk_found(d, 8);
    let n = d.subrange(0, p) + c + d.subrange(p, d.len() as int);
    assert(write_spec(d, keyword, text) == Ok::<Seq<u8>, PngError>(n));
    lemma_iend_after_insert(d, p, c, cd, crc, 8);
    assert(n.subrange(0, 8) =~= d.subrange(0, 8));
}
} // verus!
