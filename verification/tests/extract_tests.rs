use pngmetagrep::extract;
use pngmetagrep::test_util::make_test_png;
use pngmetagrep::JsonValue;

fn json(meta: &pngmetagrep::PngMeta) -> String {
    meta.to_json_value().to_json_string().unwrap()
}

#[test]
fn extract_all_chunks_when_keys_empty() {
    let data = make_test_png(&[("prompt", "hello"), ("vdsl", r#"{"seed":1}"#)]);
    let result = extract("pmg_ext_all.png", &data, &[]).unwrap().unwrap();
    assert_eq!(result.chunks.len(), 2);
    assert_eq!(result.chunks[0].0, "prompt");
    assert_eq!(result.chunks[1].0, "vdsl");
}

#[test]
fn extract_specific_chunk() {
    let data = make_test_png(&[("prompt", "hello"), ("vdsl", r#"{"seed":1}"#)]);
    let keys = vec!["vdsl".to_string()];
    let result = extract("pmg_ext_specific.png", &data, &keys).unwrap().unwrap();
    assert_eq!(result.chunks.len(), 1);
    assert_eq!(result.chunks[0].0, "vdsl");
}

#[test]
fn extract_returns_none_for_missing_key() {
    let data = make_test_png(&[("prompt", "hello")]);
    let keys = vec!["nonexistent".to_string()];
    let result = extract("pmg_ext_miss.png", &data, &keys).unwrap();
    assert!(result.is_none());
}

#[test]
fn extract_returns_none_for_no_text_chunks() {
    let data = make_test_png(&[]);
    let result = extract("pmg_ext_empty.png", &data, &[]).unwrap();
    assert!(result.is_none());
}

#[test]
fn extract_parses_json_values() {
    let data = make_test_png(&[("data", r#"{"key":"val"}"#)]);
    let result = extract("pmg_ext_json.png", &data, &[]).unwrap().unwrap();
    assert!(matches!(result.chunks[0].1, JsonValue::Object(_)));
}

#[test]
fn extract_stores_non_json_as_string() {
    let data = make_test_png(&[("note", "plain text")]);
    let result = extract("pmg_ext_raw.png", &data, &[]).unwrap().unwrap();
    assert_eq!(result.chunks[0].1, JsonValue::String("plain text".into()));
}

#[test]
fn extract_parsed_object_members() {
    let data = make_test_png(&[("prompt", "hello"), ("vdsl", r#"{"seed":1}"#)]);
    let keys = vec!["vdsl".to_string()];
    let result = extract("p", &data, &keys).unwrap().unwrap();
    assert_eq!(
        result.chunks[0].1,
        JsonValue::Object(vec![("seed".to_string(), JsonValue::Number("1".to_string()))])
    );
}

#[test]
fn extract_keeps_key_order_and_repeats() {
    let data = make_test_png(&[("a", "1"), ("b", "2")]);
    let keys = vec!["b".to_string(), "a".to_string(), "b".to_string()];
    let result = extract("p", &data, &keys).unwrap().unwrap();
    let got: Vec<&str> = result.chunks.iter().map(|c| c.0.as_str()).collect();
    assert_eq!(got, vec!["b", "a", "b"]);
    assert_eq!(result.chunks[1].1, JsonValue::Number("1".into()));
}

#[test]
fn single_object_chunk_is_flattened() {
    let data = make_test_png(&[("vdsl", r#"{"_v":1,"seed":42}"#)]);
    let meta = extract("images/001.png", &data, &[]).unwrap().unwrap();
    assert_eq!(json(&meta), r#"{"_v":1,"path":"images/001.png","seed":42}"#);
}

#[test]
fn several_chunks_are_nested_by_keyword() {
    let data = make_test_png(&[("prompt", "hi"), ("workflow", r#"{"n":[]}"#)]);
    let meta = extract("images/002.png", &data, &[]).unwrap().unwrap();
    assert_eq!(json(&meta), r#"{"path":"images/002.png","prompt":"hi","workflow":{"n":[]}}"#);
}

#[test]
fn single_non_object_chunk_is_nested() {
    let data = make_test_png(&[("note", "42")]);
    let meta = extract("n.png", &data, &[]).unwrap().unwrap();
    assert_eq!(json(&meta), r#"{"note":42,"path":"n.png"}"#);
}

#[test]
fn path_member_of_object_chunk_wins() {
    let data = make_test_png(&[("vdsl", r#"{"path":"inner"}"#)]);
    let meta = extract("outer.png", &data, &[]).unwrap().unwrap();
    assert_eq!(json(&meta), r#"{"path":"inner"}"#);
}

#[test]
fn to_json_value_members_put_path_first() {
    let data = make_test_png(&[("a", "1"), ("b", "x")]);
    let meta = extract("p", &data, &[]).unwrap().unwrap();
    match meta.to_json_value() {
        JsonValue::Object(ms) => {
            let keys: Vec<&str> = ms.iter().map(|e| e.0.as_str()).collect();
            assert_eq!(keys, vec!["path", "a", "b"]);
            assert_eq!(ms[0].1, JsonValue::String("p".into()));
        },
        _ => panic!("not an object"),
    }
}

#[test]
fn numbers_and_nesting_survive_a_round_trip() {
    let text = r#"{"a":[1,-2,3.5,true,null,"s"],"b":{"c":{}}}"#;
    let data = make_test_png(&[("k", text)]);
    let meta = extract("p", &data, &[]).unwrap().unwrap();
    assert_eq!(meta.chunks[0].1.to_json_string().unwrap(), text);
}

#[test]
fn number_text_serializes_when_it_reads_back() {
    assert_eq!(JsonValue::Number("12".to_owned()).to_json_string().unwrap(), "12");
    assert_eq!(JsonValue::Number("-1.5e3".to_owned()).to_json_string().unwrap(), "-1500.0");
    assert!(JsonValue::Number(String::new()).to_json_string().is_err());
    assert!(JsonValue::Number("twelve".to_owned()).to_json_string().is_err());
}

#[test]
fn extracted_metadata_always_serializes() {
    let data = make_test_png(&[("vdsl", r#"{"seed":42,"cfg":7.5,"big":1e300,"n":[0,1]}"#)]);
    let meta = extract("x.png", &data, &[]).unwrap().unwrap();
    let text = meta.to_json_value().to_json_string().unwrap();
    assert_eq!(text, r#"{"big":1e+300,"cfg":7.5,"n":[0,1],"path":"x.png","seed":42}"#);
}
