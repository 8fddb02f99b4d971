//! Choosing how to match a search pattern against PNG metadata, from the
//! cheapest byte search to a regex over the serialized JSON.

use vstd::prelude::*;

use crate::json::{json_text, json_to_string};
use crate::meta::{extract, extract_spec, key_views, meta_json, PngMeta};
use crate::png::PngError;
use crate::read::{
    contains_in_text_chunks, contains_spec, lemma_scan_spec, read_spec, scan_outcome, scan_spec, scan_text_chunks,
};

verus! {

/// A regex meta-character.
pub open spec fn is_regex_meta(c: char) -> bool {
    c == '.' || c == '^' || c == '$' || c == '*' || c == '+' || c == '?' || c == '{' || c == '}'
        || c == '[' || c == ']' || c == '(' || c == ')' || c == '|' || c == '\\'
}

/// A character of JSON structure that appears only after serialization.
pub open spec fn is_json_structure_char(c: char) -> bool {
    c == '{' || c == '}' || c == '"'
}

/// The pattern holds no regex meta-character.
pub open spec fn is_literal_spec(p: Seq<char>) -> bool {
    forall|i: int| 0 <= i < p.len() ==> !is_regex_meta(#[trigger] p[i])
}

/// A pattern counts as literal (and may go to the byte search) exactly when
/// none of its characters is one of `. ^ $ * + ? { } [ ] ( ) | \`.
pub proof fn lemma_literal_chars(p: Seq<char>)
    ensures
        is_literal_spec(p) <==> forall|i: int| 0 <= i < p.len() ==> {
            let c = #[trigger] p[i];
            c != '.' && c != '^' && c != '$' && c != '*' && c != '+' && c != '?' && c != '{' && c != '}'
                && c != '[' && c != ']' && c != '(' && c != ')' && c != '|' && c != '\\'
        },
{
}

/// A pattern needs the serialized JSON exactly when it holds `{`, `}` or `"`.
pub proof fn lemma_json_structure_chars(p: Seq<char>)
    ensures
        has_json_structure_chars_spec(p) <==> exists|i: int| 0 <= i < p.len() && {
            let c = #[trigger] p[i];
            c == '{' || c == '}' || c == '"'
        },
{
}

/// The pattern holds a brace or a double quote.
pub open spec fn has_json_structure_chars_spec(p: Seq<char>) -> bool {
    exists|i: int| 0 <= i < p.len() && is_json_structure_char(#[trigger] p[i])
}

/// True if the pattern contains no regex meta-characters.
pub fn is_literal(pattern: &str) -> (r: bool)
    ensures
        r == is_literal_spec(pattern@),
{
    broadcast use vstd::string::group_string_axioms;
    let mut ok = true;
    for c in it: pattern.chars()
        invariant
            it.seq() == pattern@,
            ok == (forall|j: int| 0 <= j < it.index() ==> !is_regex_meta(#[trigger] pattern@[j])),
    {
        if c == '.' || c == '^' || c == '$' || c == '*' || c == '+' || c == '?' || c == '{' || c == '}'
            || c == '[' || c == ']' || c == '(' || c == ')' || c == '|' || c == '\\' {
            ok = false;
        }
    }
    ok
}


/// True if the pattern references JSON structure characters that only
/// appear after serde serialization (braces, quotes).
pub fn has_json_structure_chars(pattern: &str) -> (r: bool)
    ensures
        r == has_json_structure_chars_spec(pattern@),
{
    broadcast use vstd::string::group_string_axioms;
    let mut found = false;
    for c in it: pattern.chars()
        invariant
            it.seq() == pattern@,
            found == (exists|j: int| 0 <= j < it.index() && is_json_structure_char(#[trigger] pattern@[j])),
    {
        if c == '{' || c == '}' || c == '"' {
            found = true;
        }
    }
    found
}

/// `regex::bytes::Regex`.
#[verifier::external_type_specification]
#[verifier::external_body]
pub struct ExBytesRegex(regex::bytes::Regex);

/// `regex::Regex`.
#[verifier::external_type_specification]
#[verifier::external_body]
pub struct ExStrRegex(regex::Regex);

/// `regex::Error`.
#[verifier::external_type_specification]
#[verifier::external_body]
pub struct ExRegexError(regex::Error);

/// Whether `regex::bytes::RegexBuilder` compiles `pattern` with the given
/// case-insensitivity and its default limits.
pub uninterp spec fn bytes_regex_compiles(pattern: Seq<char>, ignore_case: bool) -> bool;

/// Whether `regex::RegexBuilder` compiles `pattern` with the given
/// case-insensitivity and its default limits.
pub uninterp spec fn str_regex_compiles(pattern: Seq<char>, ignore_case: bool) -> bool;

/// Whether the byte regex compiled from `pattern` with the given
/// case-insensitivity matches somewhere in `haystack`.
pub uninterp spec fn bytes_regex_matches(pattern: Seq<char>, ignore_case: bool, haystack: Seq<u8>) -> bool;

/// Whether the string regex compiled from `pattern` with the given
/// case-insensitivity matches somewhere in `haystack`.
pub uninterp spec fn str_regex_matches(pattern: Seq<char>, ignore_case: bool, haystack: Seq<char>) -> bool;

/// A regex over bytes, with the pattern and flag it was compiled from.
pub struct BytesRegex {
    re: regex::bytes::Regex,
    pattern: String,
    ignore_case: bool,
}

/// A regex over strings, with the pattern and flag it was compiled from.
pub struct StrRegex {
    re: regex::Regex,
    pattern: String,
    ignore_case: bool,
}

impl BytesRegex {
    /// The pattern the regex was compiled from.
    pub closed spec fn pattern_model(&self) -> Seq<char> {
        self.pattern@
    }

    /// Whether the regex ignores case.
    pub closed spec fn ignore_case_model(&self) -> bool {
        self.ignore_case
    }

    /// The pattern the regex was compiled from.
    pub fn pattern(&self) -> (p: &str)
        ensures
            p@ == self.pattern_model(),
    {
        self.pattern.as_str()
    }

    /// Whether the regex ignores case.
    pub fn ignore_case(&self) -> (b: bool)
        ensures
            b == self.ignore_case_model(),
    {
        self.ignore_case
    }
}

impl StrRegex {
    /// The pattern the regex was compiled from.
    pub closed spec fn pattern_model(&self) -> Seq<char> {
        self.pattern@
    }

    /// Whether the regex ignores case.
    pub closed spec fn ignore_case_model(&self) -> bool {
        self.ignore_case
    }

    /// The pattern the regex was compiled from.
    pub fn pattern(&self) -> (p: &str)
        ensures
            p@ == self.pattern_model(),
    {
        self.pattern.as_str()
    }

    /// Whether the regex ignores case.
    pub fn ignore_case(&self) -> (b: bool)
        ensures
            b == self.ignore_case_model(),
    {
        self.ignore_case
    }
}

/// Compile `pattern` for byte haystacks: `regex::bytes::RegexBuilder::new`,
/// `case_insensitive`, `build`; the pattern and flag are kept beside the
/// compiled regex.
///
/// Trusted: success depends on the pattern and the flag alone (the builder
/// only records them before `build`).
#[verifier::external_body]
fn compile_bytes_regex(pattern: &str, ignore_case: bool) -> (r: Result<BytesRegex, regex::Error>)
    ensures
        r is Ok <==> bytes_regex_compiles(pattern@, ignore_case),
        r matches Ok(re) ==> re.pattern_model() == pattern@ && re.ignore_case_model() == ignore_case,
{
    let re = regex::bytes::RegexBuilder::new(pattern).case_insensitive(ignore_case).build()?;
    Ok(BytesRegex { re, pattern: pattern.to_owned(), ignore_case })
}

/// Compile `pattern` for string haystacks: `regex::RegexBuilder::new`,
/// `case_insensitive`, `build`; the pattern and flag are kept beside the
/// compiled regex.
///
/// Trusted: success depends on the pattern and the flag alone (the builder
/// only records them before `build`).
#[verifier::external_body]
fn compile_str_regex(pattern: &str, ignore_case: bool) -> (r: Result<StrRegex, regex::Error>)
    ensures
        r is Ok <==> str_regex_compiles(pattern@, ignore_case),
        r matches Ok(re) ==> re.pattern_model() == pattern@ && re.ignore_case_model() == ignore_case,
{
    let re = regex::RegexBuilder::new(pattern).case_insensitive(ignore_case).build()?;
    Ok(StrRegex { re, pattern: pattern.to_owned(), ignore_case })
}

/// Whether `re` matches somewhere in `haystack` (`regex::bytes::Regex::is_match`).
///
/// Trusted: the regex was compiled from the pattern and flag kept beside it
/// (only `compile_bytes_regex` builds a `BytesRegex`), and a match depends
/// on them and the haystack alone; the result is named.
#[verifier::external_body]
fn bytes_regex_is_match(re: &BytesRegex, haystack: &[u8]) -> (b: bool)
    ensures
        b == bytes_regex_matches(re.pattern_model(), re.ignore_case_model(), haystack@),
{
    re.re.is_match(haystack)
}

/// Whether `re` matches somewhere in `haystack` (`regex::Regex::is_match`).
///
/// Trusted: the regex was compiled from the pattern and flag kept beside it
/// (only `compile_str_regex` builds a `StrRegex`), and a match depends on
/// them and the haystack alone; the result is named.
#[verifier::external_body]
fn str_regex_is_match(re: &StrRegex, haystack: &str) -> (b: bool)
    ensures
        b == str_regex_matches(re.pattern_model(), re.ignore_case_model(), haystack@),
{
    re.re.is_match(haystack)
}

/// Compiled match strategy — construct once, use many times.
pub enum Matcher {
    /// No filter: accept all files with tEXt chunks.
    NoFilter,
    /// Literal byte search (memmem).
    BinContains(Vec<u8>),
    /// Regex on raw chunk bytes (no serde needed).
    BinRegex(BytesRegex),
    /// Regex requiring JSON serialization.
    JsonRegex(StrRegex),
}

/// Options for constructing a [`Matcher`].
pub struct FindOptions<'a> {
    pub pattern: Option<&'a str>,
    pub ignore_case: bool,
}

/// Why a search of one file failed.
#[derive(Debug)]
pub enum FindError {
    /// The file's data was not accepted as PNG.
    Png(PngError),
    /// The metadata could not be serialized as JSON.
    Json(serde_json::Error),
}

/// What the byte-level pre-filter of `m` says of `data`: `None` for no
/// filter and for the JSON level, and for a byte search that fails.
pub open spec fn prefilter_spec(m: &Matcher, data: Seq<u8>) -> Option<bool> {
    match m {
        Matcher::NoFilter => None,
        Matcher::JsonRegex(_) => None,
        Matcher::BinContains(n) => match contains_spec(data, n@) {
            Ok(b) => Some(b),
            Err(_) => None,
        },
        Matcher::BinRegex(re) => match scan_spec(
            data,
            |p: Seq<u8>| bytes_regex_matches(re.pattern_model(), re.ignore_case_model(), p),
        ) {
            Ok(b) => Some(b),
            Err(_) => None,
        },
    }
}

/// Whether `m` keeps the file with contents `data` at `path`: the pre-filter
/// does not rule it out, extraction finds chunks, and at the JSON level the
/// regex matches the serialized JSON of the metadata.
pub open spec fn keeps(m: &Matcher, path: Seq<char>, data: Seq<u8>, keys: Seq<Seq<char>>) -> bool {
    &&& prefilter_spec(m, data) != Some(false)
    &&& extract_spec(path, data, keys) matches Ok(Some(meta))
    &&& (m matches Matcher::JsonRegex(re) ==> str_regex_matches(
        re.pattern_model(),
        re.ignore_case_model(),
        json_text(meta_json(meta)),
    ))
}

/// A result that reports exactly the PNG error `e`.
pub open spec fn is_png_error<T>(r: Result<T, FindError>, e: PngError) -> bool {
    r matches Err(FindError::Png(x)) && x == e
}

impl Matcher {
    /// Build a matcher from options. Auto-detects the optimal strategy.
    ///
    /// - Level 1: a literal, case-sensitive pattern with no JSON structure
    ///   characters → byte search.
    /// - Level 2: no JSON structure characters → regex on raw chunk bytes.
    /// - Level 3: otherwise → regex on the serialized JSON.
    ///
    /// Returns `Err` if the pattern is an invalid regex.
    pub fn new(opts: &FindOptions<'_>) -> (r: Result<Matcher, regex::Error>)
        ensures
            opts.pattern is None ==> r matches Ok(Matcher::NoFilter),
            opts.pattern matches Some(p) ==> {
                if !has_json_structure_chars_spec(p@) && is_literal_spec(p@) && !opts.ignore_case {
                    r matches Ok(Matcher::BinContains(n)) && n@ == vstd::utf8::encode_utf8(p@)
                } else if !has_json_structure_chars_spec(p@) {
                    &&& (r is Ok <==> bytes_regex_compiles(p@, opts.ignore_case))
                    &&& (r matches Ok(m) ==> m matches Matcher::BinRegex(re)
                        && re.pattern_model() == p@ && re.ignore_case_model() == opts.ignore_case)
                } else {
                    &&& (r is Ok <==> str_regex_compiles(p@, opts.ignore_case))
                    &&& (r matches Ok(m) ==> m matches Matcher::JsonRegex(re)
                        && re.pattern_model() == p@ && re.ignore_case_model() == opts.ignore_case)
                }
            },
    {
        let pat = match opts.pattern {
            Some(p) => p,
            None => {
                return Ok(Matcher::NoFilter);
            },
        };
        let json_chars = has_json_structure_chars(pat);

        // Level 1: literal + case-sensitive, and nothing that only the
        // serialized JSON holds → memmem
        if !json_chars && is_literal(pat) && !opts.ignore_case {
            return Ok(Matcher::BinContains(vstd::slice::slice_to_vec(pat.as_bytes())));
        }

        // Level 2: no JSON structure chars → regex::bytes
        if !json_chars {
            return match compile_bytes_regex(pat, opts.ignore_case) {
                Ok(re) => Ok(Matcher::BinRegex(re)),
                Err(e) => Err(e),
            };
        }

        // Level 3: full serde path
        match compile_str_regex(pat, opts.ignore_case) {
            Ok(re) => Ok(Matcher::JsonRegex(re)),
            Err(e) => Err(e),
        }
    }

    /// Test if any tEXt chunk in the file matches (binary pre-filter).
    ///
    /// Returns `Some(true/false)` for Level 1/2, `None` for no filter and
    /// Level 3 (and when the byte-level scan fails).
    pub fn bin_matches(&self, data: &[u8]) -> (r: Option<bool>)
        ensures
            r == prefilter_spec(self, data@),
    {
        match self {
            Matcher::NoFilter => None,
            Matcher::BinContains(needle) => match contains_in_text_chunks(data, needle.as_slice()) {
                Ok(b) => Some(b),
                Err(_) => None,
            },
            Matcher::BinRegex(re) => {
                let pred = |chunk: &[u8]| -> (b: bool)
                    ensures
                        b == bytes_regex_matches(re.pattern_model(), re.ignore_case_model(), chunk@),
                    { bytes_regex_is_match(re, chunk) };
                let r = scan_text_chunks(data, pred);
                proof {
                    lemma_scan_spec(data@, pred, |p: Seq<u8>| bytes_regex_matches(re.pattern_model(), re.ignore_case_model(), p), r);
                }
                match r {
                    Ok(b) => Some(b),
                    Err(_) => None,
                }
            },
            Matcher::JsonRegex(_) => None,
        }
    }

    /// Full find on the contents `data` of the file at `path`: extract +
    /// filter in one call.
    ///
    /// Uses the fastest available path automatically:
    /// - Level 1/2: binary pre-filter → skip extraction on a miss
    /// - Level 3: extract → serialize as JSON → regex
    ///
    /// Returns `Ok(None)` if the file has no matching chunks.
    pub fn find(&self, path: &str, data: &[u8], keys: &[String]) -> (r: Result<Option<PngMeta>, FindError>)
        ensures
            extract_spec(path@, data@, key_views(keys@)) matches Err(e) ==> is_png_error(r, e),
            r matches Err(FindError::Png(e)) ==> extract_spec(path@, data@, key_views(keys@))
                == Err::<Option<crate::meta::MetaModel>, PngError>(e),
            r matches Ok(o) ==> (o is Some <==> keeps(self, path@, data@, key_views(keys@))),
            r matches Ok(Some(m)) ==> extract_spec(path@, data@, key_views(keys@))
                == Ok::<Option<crate::meta::MetaModel>, PngError>(Some(m.model())),
            extract_spec(path@, data@, key_views(keys@)) is Ok ==> r is Ok,
            self matches Matcher::JsonRegex(re) ==> (r matches Ok(Some(m)) ==> str_regex_matches(
                re.pattern_model(),
                re.ignore_case_model(),
                json_text(meta_json(m.model())),
            )),
            ({
                let e = extract_spec(path@, data@, key_views(keys@));
                self matches Matcher::JsonRegex(re) ==> (e is Ok && e->Ok_0 is Some && str_regex_matches(
                    re.pattern_model(),
                    re.ignore_case_model(),
                    json_text(meta_json(e->Ok_0->Some_0)),
                ) ==> (r matches Ok(Some(m)) && m.model() == e->Ok_0->Some_0))
            }),
    {
        proof {
            lemma_prefilter_reads(self, data@);
        }
        // Binary pre-filter (Level 1 & 2)
        if let Some(matched) = self.bin_matches(data) {
            if !matched {
                return Ok(None);
            }
        }

        let meta = match extract(path, data, keys) {
            Ok(Some(m)) => m,
            Ok(None) => {
                return Ok(None);
            },
            Err(e) => {
                return Err(FindError::Png(e));
            },
        };

        // Level 3: serde + regex
        if let Matcher::JsonRegex(re) = self {
            let json = match json_to_string(&meta.to_json_value()) {
                Ok(j) => j,
                Err(e) => {
                    return Err(FindError::Json(e));
                },
            };
            if !str_regex_is_match(re, json.as_str()) {
                return Ok(None);
            }
        }

        Ok(Some(meta))
    }

    /// Check if the file with contents `data` matches: the boolean form of
    /// [`find`](Self::find).
    pub fn matches(&self, path: &str, data: &[u8], keys: &[String]) -> (r: Result<bool, FindError>)
        ensures
            extract_spec(path@, data@, key_views(keys@)) matches Err(e) ==> is_png_error(r, e),
            r matches Err(FindError::Png(e)) ==> extract_spec(path@, data@, key_views(keys@))
                == Err::<Option<crate::meta::MetaModel>, PngError>(e),
            r matches Ok(b) ==> b == keeps(self, path@, data@, key_views(keys@)),
            extract_spec(path@, data@, key_views(keys@)) is Ok ==> r is Ok,
            ({
                let e = extract_spec(path@, data@, key_views(keys@));
                self matches Matcher::JsonRegex(re) ==> (r == Ok::<bool, FindError>(true) <==> (e is Ok
                    && e->Ok_0 is Some && str_regex_matches(
                    re.pattern_model(),
                    re.ignore_case_model(),
                    json_text(meta_json(e->Ok_0->Some_0)),
                )))
            }),
    {
        match self.find(path, data, keys) {
            Ok(found) => Ok(found.is_some()),
            Err(e) => Err(e),
        }
    }
}

/// A scan's answer with its error dropped.
pub open spec fn answer(r: Result<bool, PngError>) -> Option<bool> {
    match r {
        Ok(b) => Some(b),
        Err(_) => None,
    }
}

/// What the pre-filter is at each level: no answer without a pattern and
/// at the JSON level; at the byte-search level, the answer of
/// `contains_in_text_chunks` for the needle, an error read as no answer.
pub proof fn lemma_prefilter_levels(m: &Matcher, data: Seq<u8>)
    ensures
        m is NoFilter || m is JsonRegex ==> prefilter_spec(m, data) is None,
        m matches Matcher::BinContains(n) ==> prefilter_spec(m, data) == answer(contains_spec(data, n@)),
{
}

/// At the byte-regex level the pre-filter is the answer of
/// `scan_text_chunks` run with any predicate that answers as the regex
/// does, an error read as no answer.
pub proof fn lemma_bin_regex_prefilter<F: FnMut(&[u8]) -> bool>(
    re: BytesRegex,
    data: Seq<u8>,
    predicate: F,
    r: Result<bool, PngError>,
)
    requires
        scan_outcome(predicate, data, r),
        forall|s: &[u8], b: bool| call_ensures(predicate, (s,), b) ==> b == bytes_regex_matches(
            re.pattern_model(),
            re.ignore_case_model(),
            s@,
        ),
    ensures
        prefilter_spec(&Matcher::BinRegex(re), data) == answer(r),
{
    lemma_scan_spec(data, predicate, |p: Seq<u8>| bytes_regex_matches(re.pattern_model(), re.ignore_case_model(), p), r);
}

/// A pre-filter that rules a file out has read it without error.
proof fn lemma_prefilter_reads(m: &Matcher, data: Seq<u8>)
    ensures
        prefilter_spec(m, data) == Some(false) ==> read_spec(data) is Ok,
{
}

} // verus!
