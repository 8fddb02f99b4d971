use pngmetagrep::test_util::make_test_png;
use pngmetagrep::find::{has_json_structure_chars, is_literal};
use pngmetagrep::{FindOptions, Matcher};

fn opts(pattern: Option<&str>, ignore_case: bool) -> FindOptions<'_> {
    FindOptions { pattern, ignore_case }
}

// --- Matcher::new auto-detection ---

#[test]
fn auto_none() {
    let m = Matcher::new(&opts(None, false)).unwrap();
    assert!(matches!(m, Matcher::NoFilter));
}

#[test]
fn auto_literal() {
    let m = Matcher::new(&opts(Some("seed"), false)).unwrap();
    assert!(matches!(m, Matcher::BinContains(_)));
}

#[test]
fn auto_literal_ignore_case_upgrades_to_bin_regex() {
    let m = Matcher::new(&opts(Some("seed"), true)).unwrap();
    assert!(matches!(m, Matcher::BinRegex(_)));
}

#[test]
fn auto_regex_no_json_chars() {
    let m = Matcher::new(&opts(Some("seed|model"), false)).unwrap();
    assert!(matches!(m, Matcher::BinRegex(_)));
}

#[test]
fn auto_json_regex() {
    let m = Matcher::new(&opts(Some(r#"\{"seed""#), false)).unwrap();
    assert!(matches!(m, Matcher::JsonRegex(_)));
}

#[test]
fn auto_invalid_regex() {
    let result = Matcher::new(&opts(Some("[invalid"), false));
    assert!(result.is_err());
}

// --- find ---

#[test]
fn find_literal_hit() {
    let data = make_test_png(&[("vdsl", r#"{"seed":42}"#)]);
    let m = Matcher::new(&opts(Some("seed"), false)).unwrap();
    let result = m.find("find_lit_hit.png", &data, &[]).unwrap();
    assert!(result.is_some());
}

#[test]
fn find_literal_miss() {
    let data = make_test_png(&[("vdsl", r#"{"seed":42}"#)]);
    let m = Matcher::new(&opts(Some("nonexistent"), false)).unwrap();
    let result = m.find("find_lit_miss.png", &data, &[]).unwrap();
    assert!(result.is_none());
}

#[test]
fn find_regex_hit() {
    let data = make_test_png(&[("vdsl", r#"{"seed":42}"#)]);
    let m = Matcher::new(&opts(Some("seed|model"), false)).unwrap();
    let result = m.find("find_re_hit.png", &data, &[]).unwrap();
    assert!(result.is_some());
}

#[test]
fn find_regex_miss() {
    let data = make_test_png(&[("vdsl", r#"{"seed":42}"#)]);
    let m = Matcher::new(&opts(Some("xyz|abc"), false)).unwrap();
    let result = m.find("find_re_miss.png", &data, &[]).unwrap();
    assert!(result.is_none());
}

#[test]
fn find_no_filter() {
    let data = make_test_png(&[("vdsl", r#"{"seed":42}"#)]);
    let m = Matcher::new(&opts(None, false)).unwrap();
    let result = m.find("find_none.png", &data, &[]).unwrap();
    assert!(result.is_some());
}

#[test]
fn find_ignore_case() {
    let data = make_test_png(&[("vdsl", r#"{"Seed":42}"#)]);
    let m = Matcher::new(&opts(Some("seed"), true)).unwrap();
    let result = m.find("find_icase.png", &data, &[]).unwrap();
    assert!(result.is_some());
}

// --- matches ---

#[test]
fn matches_fast_path() {
    let data = make_test_png(&[("vdsl", r#"{"seed":42}"#)]);
    let m = Matcher::new(&opts(Some("seed"), false)).unwrap();
    assert!(m.matches("matches_fast.png", &data, &[]).unwrap());
}

#[test]
fn matches_fast_path_miss() {
    let data = make_test_png(&[("vdsl", r#"{"seed":42}"#)]);
    let m = Matcher::new(&opts(Some("nope"), false)).unwrap();
    assert!(!m.matches("matches_fast_miss.png", &data, &[]).unwrap());
}

#[test]
fn matches_empty_png() {
    let data = make_test_png(&[]);
    let m = Matcher::new(&opts(None, false)).unwrap();
    assert!(!m.matches("matches_empty.png", &data, &[]).unwrap());
}

// --- more cases ---

#[test]
fn literal_detection() {
    assert!(is_literal("seed"));
    assert!(is_literal(""));
    assert!(!is_literal("a.b"));
    assert!(!is_literal("a\\b"));
    assert!(is_literal("plain words, \"quoted\""));
}

#[test]
fn json_char_detection() {
    assert!(has_json_structure_chars("{"));
    assert!(has_json_structure_chars("a\"b"));
    assert!(!has_json_structure_chars("seed|model"));
}

#[test]
fn literal_with_quote_goes_to_json_level() {
    let m = Matcher::new(&opts(Some("\"seed\""), false)).unwrap();
    assert!(matches!(m, Matcher::JsonRegex(_)));
}

#[test]
fn quote_pattern_filters_serialized_json() {
    let data = make_test_png(&[("note", "plain text")]);
    let m = Matcher::new(&opts(Some("\"plain"), false)).unwrap();
    assert!(m.find("n.png", &data, &[]).unwrap().is_some());
    assert!(m.matches("n.png", &data, &[]).unwrap());
}

#[test]
fn matches_agrees_with_find_on_keys() {
    let data = make_test_png(&[("vdsl", r#"{"seed":42}"#)]);
    let m = Matcher::new(&opts(Some("seed"), false)).unwrap();
    let keys = vec!["prompt".to_string()];
    assert!(m.find("p.png", &data, &keys).unwrap().is_none());
    assert!(!m.matches("p.png", &data, &keys).unwrap());
}

#[test]
fn regex_keeps_pattern_and_flag() {
    match Matcher::new(&opts(Some("seed|model"), true)).unwrap() {
        Matcher::BinRegex(re) => {
            assert_eq!(re.pattern(), "seed|model");
            assert!(re.ignore_case());
        },
        _ => panic!("expected a byte regex"),
    }
}

#[test]
fn bin_matches_by_level() {
    let data = make_test_png(&[("vdsl", r#"{"Seed":42}"#)]);
    let icase = Matcher::new(&opts(Some("seed"), true)).unwrap();
    assert_eq!(icase.bin_matches(&data), Some(true));
    let miss = Matcher::new(&opts(Some("x|y"), false)).unwrap();
    assert_eq!(miss.bin_matches(&data), Some(false));
    assert_eq!(miss.bin_matches(b"not png"), None);
    let json = Matcher::new(&opts(Some("\"Seed\""), false)).unwrap();
    assert_eq!(json.bin_matches(&data), None);
    assert!(json.find("p", &data, &[]).unwrap().is_some());
}

#[test]
fn invalid_json_regex_is_an_error() {
    assert!(Matcher::new(&opts(Some("{\"(unclosed"), false)).is_err());
}

#[test]
fn json_regex_sees_path_and_flattened_object() {
    let data = make_test_png(&[("vdsl", r#"{"seed":42}"#)]);
    let m = Matcher::new(&opts(Some(r#""path":"p.png","seed":42"#), false)).unwrap();
    assert!(matches!(m, Matcher::JsonRegex(_)));
    assert!(m.find("p.png", &data, &[]).unwrap().is_some());
    assert!(m.matches("p.png", &data, &[]).unwrap());
    assert!(!m.matches("q.png", &data, &[]).unwrap());
}

#[test]
fn find_with_keys_selects_requested_chunks() {
    let data = make_test_png(&[("prompt", "hello"), ("vdsl", r#"{"seed":1}"#)]);
    let m = Matcher::new(&opts(None, false)).unwrap();
    let keys = vec!["vdsl".to_string(), "missing".to_string()];
    let meta = m.find("x.png", &data, &keys).unwrap().unwrap();
    assert_eq!(meta.path, "x.png");
    assert_eq!(meta.chunks.len(), 1);
    assert_eq!(meta.chunks[0].0, "vdsl");
    let none = vec!["missing".to_string()];
    assert!(m.find("x.png", &data, &none).unwrap().is_none());
    assert!(!m.matches("x.png", &data, &none).unwrap());
}

#[test]
fn find_reports_non_png() {
    let m = Matcher::new(&opts(Some("seed"), false)).unwrap();
    assert!(m.find("bad.txt", b"not png", &[]).is_err());
    assert!(m.matches("bad.txt", b"not png", &[]).is_err());
}
