//! Metadata extracted from one PNG file: the chosen `tEXt` chunks, each
//! parsed as JSON where it is JSON and kept as a JSON string otherwise.

use vstd::prelude::*;

use crate::json::{json_numbers_ok, json_parse, json_parses, member_models, parse_json, JsonModel, JsonValue};
use crate::png::PngError;
use crate::read::{read_spec, read_text_chunks};
use crate::text_map::sorted_keys;

verus! {

/// Extracted metadata from a single PNG file.
pub struct PngMeta {
    /// File path (as provided).
    pub path: String,
    /// Extracted chunks: (keyword, parsed JSON or raw string).
    pub chunks: Vec<(String, JsonValue)>,
}

/// Extracted metadata as plain values.
pub struct MetaModel {
    pub path: Seq<char>,
    pub chunks: Seq<(Seq<char>, JsonModel)>,
}

impl PngMeta {
    /// The metadata as plain values.
    pub open spec fn model(&self) -> MetaModel {
        MetaModel { path: self.path@, chunks: member_models(self.chunks@) }
    }
}

/// The value of a chunk whose text is `text`: the parsed JSON when the text
/// parses, else the text as a JSON string.
pub open spec fn chunk_value(text: Seq<char>) -> JsonModel {
    if json_parses(text) {
        json_parse(text)
    } else {
        JsonModel::Str(text)
    }
}

/// The keywords asked for, as plain values.
pub open spec fn key_views(keys: Seq<String>) -> Seq<Seq<char>> {
    keys.map_values(|k: String| k@)
}

/// The test "the map has this keyword".
pub open spec fn present_in(map: Map<Seq<char>, Seq<char>>) -> spec_fn(Seq<char>) -> bool {
    |k: Seq<char>| map.contains_key(k)
}

/// The keywords extraction takes from `map` for `keys`: every keyword of the
/// map in sorted order when `keys` is empty, else the keys asked for that the
/// map has, in the order asked (repeats kept).
pub open spec fn chosen_keys(map: Map<Seq<char>, Seq<char>>, keys: Seq<Seq<char>>) -> Seq<Seq<char>> {
    if keys.len() == 0 {
        sorted_keys(map)
    } else {
        keys.filter(present_in(map))
    }
}

/// The chunks for the keywords `ks`: each keyword with the value of its text.
pub open spec fn chosen_chunks(map: Map<Seq<char>, Seq<char>>, ks: Seq<Seq<char>>) -> Seq<(Seq<char>, JsonModel)> {
    ks.map_values(|k: Seq<char>| (k, chunk_value(map[k])))
}

/// What extraction from the PNG data `data` read from `path` gives for `keys`.
pub open spec fn extract_spec(path: Seq<char>, data: Seq<u8>, keys: Seq<Seq<char>>) -> Result<Option<MetaModel>, PngError> {
    match read_spec(data) {
        Err(e) => Err(e),
        Ok(map) => {
            let ks = chosen_keys(map, keys);
            if ks.len() == 0 {
                Ok(None)
            } else {
                Ok(Some(MetaModel { path, chunks: chosen_chunks(map, ks) }))
            }
        },
    }
}

/// The result of extraction as plain values.
pub open spec fn extract_model(r: Result<Option<PngMeta>, PngError>) -> Result<Option<MetaModel>, PngError> {
    match r {
        Ok(Some(m)) => Ok(Some(m.model())),
        Ok(None) => Ok(None),
        Err(e) => Err(e),
    }
}

/// Whether every chunk value of the metadata holds only numbers that
/// `serde_json` reads back.
pub open spec fn meta_numbers_ok(m: MetaModel) -> bool {
    forall|i: int| 0 <= i < m.chunks.len() ==> json_numbers_ok(#[trigger] m.chunks[i].1)
}

/// The JSON object that metadata is written as: `path` first, then the
/// members of the single chunk when there is exactly one chunk and it is a
/// JSON object, else one member per chunk.
pub open spec fn meta_json(m: MetaModel) -> JsonModel {
    let path_member = ("path"@, JsonModel::Str(m.path));
    if m.chunks.len() == 1 && m.chunks[0].1 is Object {
        JsonModel::Object(seq![path_member] + m.chunks[0].1->Object_0)
    } else {
        JsonModel::Object(seq![path_member] + m.chunks)
    }
}

/// The map that a list of object members gives, a later member replacing an
/// earlier one with the same key.
pub open spec fn members_map(ms: Seq<(Seq<char>, JsonModel)>) -> Map<Seq<char>, JsonModel>
    decreases ms.len(),
{
    if ms.len() == 0 {
        Map::empty()
    } else {
        members_map(ms.drop_last()).insert(ms.last().0, ms.last().1)
    }
}

/// The map of a member followed by others: the later members override it.
pub proof fn lemma_members_map_prepend(a: (Seq<char>, JsonModel), ms: Seq<(Seq<char>, JsonModel)>)
    ensures
        members_map(seq![a] + ms) == map![a.0 => a.1].union_prefer_right(members_map(ms)),
    decreases ms.len(),
{
    if ms.len() == 0 {
        assert(seq![a] + ms =~= seq![a]);
        assert(seq![a].drop_last() =~= Seq::<(Seq<char>, JsonModel)>::empty());
        assert(seq![a].last() == a);
        assert(members_map(Seq::<(Seq<char>, JsonModel)>::empty()) == Map::<Seq<char>, JsonModel>::empty());
        assert(members_map(seq![a]) =~= map![a.0 => a.1].union_prefer_right(Map::empty()));
    } else {
        lemma_members_map_prepend(a, ms.drop_last());
        assert((seq![a] + ms).drop_last() =~= seq![a] + ms.drop_last());
        assert(members_map(seq![a] + ms) =~= map![a.0 => a.1].union_prefer_right(members_map(ms)));
    }
}

/// In the JSON written for metadata, the single object chunk's members win
/// over `path` (a member named `path` replaces the file path); otherwise each
/// keyword maps to its value, a later chunk with the same keyword winning,
/// and `path` maps to the file path unless a chunk is named `path`.
pub proof fn lemma_meta_json_members(m: MetaModel)
    ensures
        meta_json(m) is Object,
        members_map(meta_json(m)->Object_0) == if m.chunks.len() == 1 && m.chunks[0].1 is Object {
            map!["path"@ => JsonModel::Str(m.path)].union_prefer_right(members_map(m.chunks[0].1->Object_0))
        } else {
            map!["path"@ => JsonModel::Str(m.path)].union_prefer_right(members_map(m.chunks))
        },
{
    let pm = ("path"@, JsonModel::Str(m.path));
    if m.chunks.len() == 1 && m.chunks[0].1 is Object {
        lemma_members_map_prepend(pm, m.chunks[0].1->Object_0);
    } else {
        lemma_members_map_prepend(pm, m.chunks);
    }
}

/// The JSON object of metadata whose chunk values hold only numbers that
/// read back holds only such numbers too.
pub proof fn lemma_meta_json_numbers_ok(m: MetaModel)
    requires
        meta_numbers_ok(m),
    ensures
        json_numbers_ok(meta_json(m)),
{
    let pm = ("path"@, JsonModel::Str(m.path));
    if m.chunks.len() == 1 && m.chunks[0].1 is Object {
        let ms = seq![pm] + m.chunks[0].1->Object_0;
        assert(json_numbers_ok(m.chunks[0].1));
        assert forall|i: int| 0 <= i < ms.len() implies json_numbers_ok(#[trigger] ms[i].1) by {
            if i > 0 {
                assert(ms[i] == m.chunks[0].1->Object_0[i - 1]);
            }
        }
    } else {
        let ms = seq![pm] + m.chunks;
        assert forall|i: int| 0 <= i < ms.len() implies json_numbers_ok(#[trigger] ms[i].1) by {
            if i > 0 {
                assert(ms[i] == m.chunks[i - 1]);
            }
        }
    }
}

/// The value a chunk of text `t` is extracted as, written out: the parsed
/// JSON when `serde_json` accepts the text, else the text as a JSON string.
proof fn lemma_chunk_value_cases(t: Seq<char>)
    ensures
        json_parses(t) ==> chunk_value(t) == json_parse(t),
        !json_parses(t) ==> chunk_value(t) == JsonModel::Str(t),
{
}

/// Whether the metadata has a chunk with keyword `k` and value `v`.
pub open spec fn has_chunk(meta: MetaModel, k: Seq<char>, v: JsonModel) -> bool {
    exists|j: int| 0 <= j < meta.chunks.len() && #[trigger] meta.chunks[j] == (k, v)
}

/// Extraction of one requested keyword that the file has gives exactly that
/// chunk, its text parsed as JSON when it parses and kept as a JSON string
/// when it does not.
pub proof fn lemma_extract_one_key(path: Seq<char>, data: Seq<u8>, k: Seq<char>)
    requires
        read_spec(data) is Ok,
        read_spec(data)->Ok_0.contains_key(k),
    ensures
        ({
            let t = read_spec(data)->Ok_0[k];
            extract_spec(path, data, seq![k]) == Ok::<Option<MetaModel>, PngError>(Some(MetaModel {
                path,
                chunks: seq![(k, if json_parses(t) { json_parse(t) } else { JsonModel::Str(t) })],
            }))
        }),
{
    let m = read_spec(data)->Ok_0;
    let keys = seq![k];
    reveal(Seq::filter);
    assert(keys.drop_last() =~= Seq::<Seq<char>>::empty());
    assert(Seq::<Seq<char>>::empty().filter(present_in(m)) =~= Seq::<Seq<char>>::empty());
    assert(keys.filter(present_in(m)) =~= keys);
    lemma_chunk_value_cases(m[k]);
    assert(chosen_chunks(m, keys) =~= seq![(k, chunk_value(m[k]))]);
}

/// With keywords given, every requested keyword that the file has is in the
/// extracted metadata with its value (parsed JSON, or the text as a JSON
/// string), and every extracted chunk is a requested keyword the file has.
pub proof fn lemma_extract_requested_keys(path: Seq<char>, data: Seq<u8>, keys: Seq<Seq<char>>)
    requires
        read_spec(data) is Ok,
        keys.len() > 0,
    ensures
        ({
            let m = read_spec(data)->Ok_0;
            &&& forall|i: int| 0 <= i < keys.len() && m.contains_key(#[trigger] keys[i]) ==> (extract_spec(path, data, keys) matches Ok(Some(meta))
                && has_chunk(meta, keys[i], if json_parses(m[keys[i]]) {
                    json_parse(m[keys[i]])
                } else {
                    JsonModel::Str(m[keys[i]])
                }))
            &&& extract_spec(path, data, keys) matches Ok(Some(meta)) ==> forall|j: int| 0 <= j < meta.chunks.len()
                ==> keys.contains(#[trigger] meta.chunks[j].0) && m.contains_key(meta.chunks[j].0)
        }),
{
    let m = read_spec(data)->Ok_0;
    let pred = present_in(m);
    let ks = keys.filter(pred);
    assert(chosen_keys(m, keys) == ks);
    assert forall|i: int| 0 <= i < keys.len() && m.contains_key(#[trigger] keys[i]) implies (extract_spec(path, data, keys) matches Ok(Some(meta))
        && has_chunk(meta, keys[i], if json_parses(m[keys[i]]) {
            json_parse(m[keys[i]])
        } else {
            JsonModel::Str(m[keys[i]])
        })) by {
        keys.lemma_filter_contains(pred, i);
        let j = choose|j: int| 0 <= j < ks.len() && ks[j] == keys[i];
        lemma_chunk_value_cases(m[keys[i]]);
        let chunks = chosen_chunks(m, ks);
        assert(chunks[j] == (keys[i], chunk_value(m[keys[i]])));
        assert(ks.len() > 0);
        assert(extract_spec(path, data, keys) == Ok::<Option<MetaModel>, PngError>(
            Some(MetaModel { path, chunks }),
        ));
        let meta = MetaModel { path, chunks };
        assert(0 <= j < meta.chunks.len() && meta.chunks[j] == (keys[i], if json_parses(m[keys[i]]) {
            json_parse(m[keys[i]])
        } else {
            JsonModel::Str(m[keys[i]])
        }));
    }
    if extract_spec(path, data, keys) is Ok && extract_spec(path, data, keys)->Ok_0 is Some {
        let chunks = chosen_chunks(m, ks);
        assert forall|j: int| 0 <= j < chunks.len() implies keys.contains(#[trigger] chunks[j].0) && m.contains_key(chunks[j].0) by {
            keys.lemma_filter_pred(pred, j);
            assert(ks.contains(ks[j]));
            keys.lemma_filter_contains_rev(pred, ks[j]);
        }
    }
}

/// Filtering keys none of which the map has leaves nothing.
proof fn lemma_filter_none(keys: Seq<Seq<char>>, map: Map<Seq<char>, Seq<char>>)
    requires
        forall|x: int| 0 <= x < keys.len() ==> !map.contains_key(#[trigger] keys[x]),
    ensures
        keys.filter(present_in(map)).len() == 0,
    decreases keys.len(),
{
    reveal(Seq::filter);
    if keys.len() > 0 {
        let init = keys.drop_last();
        assert forall|x: int| 0 <= x < init.len() implies !map.contains_key(#[trigger] init[x]) by {
            assert(init[x] == keys[x]);
        }
        lemma_filter_none(init, map);
        assert(!map.contains_key(keys[keys.len() - 1]));
    }
}

/// A chunk value: the text parsed as JSON, or the text as a JSON string
/// when it does not parse.
pub(crate) fn parse_chunk_value(raw: &str) -> (v: JsonValue)
    ensures
        v.model() == chunk_value(raw@),
        json_numbers_ok(v.model()),
{
    match parse_json(raw) {
        Some(v) => v,
        None => JsonValue::String(raw.to_owned()),
    }
}

/// The models of the members of a sequence are the members' models, index by index.
pub proof fn lemma_member_models_index(s: Seq<(String, JsonValue)>)
    ensures
        member_models(s).len() == s.len(),
        forall|i: int| 0 <= i < s.len() ==> #[trigger] member_models(s)[i] == (s[i].0@, s[i].1.model()),
    decreases s.len(),
{
    if s.len() > 0 {
        lemma_member_models_index(s.drop_last());
    }
}

/// Append copies of the members of `src` to `out`.
fn append_members(out: &mut Vec<(String, JsonValue)>, src: &Vec<(String, JsonValue)>)
    ensures
        member_models(final(out)@) == member_models(old(out)@) + member_models(src@),
{
    let ghost out0 = out@;
    let mut i: usize = 0;
    assert(src@.subrange(0, 0) =~= Seq::<(String, JsonValue)>::empty());
    assert(member_models(out0) + member_models(Seq::<(String, JsonValue)>::empty()) =~= member_models(out0));
    while i < src.len()
        invariant
            i <= src@.len(),
            member_models(out@) == member_models(out0) + member_models(src@.subrange(0, i as int)),
        decreases src.len() - i,
    {
        let k = src[i].0.clone();
        let x = src[i].1.copy();
        let ghost before = out@;
        out.push((k, x));
        proof {
            assert(out@.drop_last() == before);
            assert(src@.subrange(0, i + 1).drop_last() =~= src@.subrange(0, i as int));
            assert(member_models(out@) =~= member_models(out0) + member_models(src@.subrange(0, i + 1)));
        }
        i += 1;
    }
    assert(src@.subrange(0, i as int) =~= src@);
}

impl PngMeta {
    /// Convert to a JSON value for serialization.
    ///
    /// - Single chunk whose value is a JSON object → merge `path` into it
    ///   (flat output: `{"path":"...", "_v":1, "seed":...}`).
    /// - Otherwise → nest by keyword
    ///   (`{"path":"...", "vdsl":{...}, "prompt":{...}}`).
    pub fn to_json_value(&self) -> (v: JsonValue)
        ensures
            v.model() == meta_json(self.model()),
            meta_numbers_ok(self.model()) ==> json_numbers_ok(v.model()),
    {
        proof {
            if meta_numbers_ok(self.model()) {
                lemma_meta_json_numbers_ok(self.model());
            }
        }
        let mut members: Vec<(String, JsonValue)> = Vec::new();
        members.push(("path".to_owned(), JsonValue::String(self.path.clone())));
        let ghost head = member_models(members@);
        let ghost empty = Seq::<(String, JsonValue)>::empty();
        assert(members@.drop_last() =~= empty);
        assert(member_models(empty) == Seq::<(Seq<char>, JsonModel)>::empty());
        assert(members@.last().0@ == "path"@);
        assert(members@.last().1.model() == JsonModel::Str(self.path@));
        assert(head =~= seq![("path"@, JsonModel::Str(self.path@))]);
        proof {
            lemma_member_models_index(self.chunks@);
        }
        if self.chunks.len() == 1 {
            if let JsonValue::Object(inner) = &self.chunks[0].1 {
                append_members(&mut members, inner);
                return JsonValue::Object(members);
            }
        }
        append_members(&mut members, &self.chunks);
        JsonValue::Object(members)
    }
}

/// Extract tEXt chunks from PNG file contents `data` read from `path`.
///
/// When `keys` is empty, **all** tEXt chunks are returned, in sorted keyword
/// order. When `keys` is non-empty, only the specified keywords are
/// extracted, in the order given.
///
/// Each chunk value is parsed as JSON; if parsing fails, it is stored
/// as a JSON string. Files without any matching chunks give `Ok(None)`.
pub fn extract(path: &str, data: &[u8], keys: &[String]) -> (r: Result<Option<PngMeta>, PngError>)
    ensures
        extract_model(r) == extract_spec(path@, data@, key_views(keys@)),
        r matches Ok(Some(m)) ==> meta_numbers_ok(m.model()),
{
    let text_chunks = match read_text_chunks(data) {
        Ok(c) => c,
        Err(e) => {
            return Err(e);
        },
    };
    let ghost map = text_chunks@;
    let ghost kv = key_views(keys@);
    let ghost ks = chosen_keys(map, kv);
    let mut found: Vec<(String, JsonValue)> = Vec::new();
    let ghost empty: Seq<(String, JsonValue)> = Seq::empty();
    assert(found@ == empty);

    if keys.len() == 0 {
        let entries = text_chunks.entries();
        proof {
            text_chunks.lemma_key_seq_sorted_keys();
        }
        let ghost ev = text_chunks.entries_view();
        assert(ks == text_chunks.key_seq());
        proof {
            text_chunks.lemma_entries_values();
        }
        assert forall|x: int| 0 <= x < ks.len() implies ks[x] == #[trigger] entries@[x].0@
            && map[ks[x]] == entries@[x].1@ by {
            assert(ev[x] == (entries@[x].0@, entries@[x].1@));
            assert(map.contains_key(ev[x].0));
        }
        let mut i: usize = 0;
        assert(chosen_chunks(map, ks.subrange(0, 0)) =~= member_models(found@));
        while i < entries.len()
            invariant
                i <= entries@.len(),
                ks.len() == entries@.len(),
                forall|x: int| 0 <= x < ks.len() ==> ks[x] == #[trigger] entries@[x].0@
                    && map[ks[x]] == entries@[x].1@,
                member_models(found@) == chosen_chunks(map, ks.subrange(0, i as int)),
                forall|x: int| 0 <= x < found@.len() ==> json_numbers_ok(#[trigger] found@[x].1.model()),
            decreases entries.len() - i,
        {
            let keyword = entries[i].0.clone();
            let value = parse_chunk_value(entries[i].1.as_str());
            let ghost before = found@;
            found.push((keyword, value));
            proof {
                assert(found@.drop_last() == before);
                assert(ks[i as int] == entries@[i as int].0@);
                assert(member_models(found@) =~= chosen_chunks(map, ks.subrange(0, i + 1)));
            }
            i += 1;
        }
        assert(ks.subrange(0, i as int) =~= ks);
    } else {
        let mut i: usize = 0;
        assert(chosen_chunks(map, kv.subrange(0, 0).filter(present_in(map))) =~= member_models(found@)) by {
            reveal(Seq::filter);
        }
        while i < keys.len()
            invariant
                i <= keys@.len(),
                kv == key_views(keys@),
                map == text_chunks@,
                text_chunks.wf(),
                member_models(found@) == chosen_chunks(map, kv.subrange(0, i as int).filter(present_in(map))),
                forall|x: int| 0 <= x < found@.len() ==> json_numbers_ok(#[trigger] found@[x].1.model()),
            decreases keys.len() - i,
        {
            let key = &keys[i];
            let ghost sub = kv.subrange(0, i + 1);
            assert(sub.drop_last() =~= kv.subrange(0, i as int));
            assert(sub.last() == key@);
            reveal(Seq::filter);
            assert(sub.filter(present_in(map)) == if map.contains_key(key@) {
                sub.drop_last().filter(present_in(map)).push(key@)
            } else {
                sub.drop_last().filter(present_in(map))
            });
            let ghost before = found@;
            match text_chunks.get(key.as_str()) {
                Some(raw) => {
                    let value = parse_chunk_value(raw.as_str());
                    let k = key.clone();
                    found.push((k, value));
                    proof {
                        assert(found@.drop_last() == before);
                        assert(member_models(found@) =~= chosen_chunks(map, sub.filter(present_in(map))));
                    }
                },
                None => {
                },
            }
            i += 1;
        }
        assert(kv.subrange(0, i as int) =~= kv);
    }
    proof {
        lemma_member_models_index(found@);
        assert forall|x: int| 0 <= x < member_models(found@).len()
            implies json_numbers_ok(#[trigger] member_models(found@)[x].1) by {
            assert(json_numbers_ok(found@[x].1.model()));
        }
    }
    if found.len() == 0 {
        return Ok(None);
    }
    Ok(Some(PngMeta { path: path.to_owned(), chunks: found }))
}

} // verus!
