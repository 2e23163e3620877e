use deskollama::json::{parse_json, parse_json_bytes, Json, Member};

fn member(name: &str, value: Json) -> Member {
    Member { name: name.to_string(), value }
}

#[test]
fn a_document_is_parsed_level_by_level() {
    let doc = parse_json(r#" {"a": [null, true, -1.5, "x"], "b": {"c": 7}} "#);
    let expected = Json::Object(vec![
        member(
            "a",
            Json::Array(vec![
                Json::Null,
                Json::Bool(true),
                Json::Number("-1.5".to_string()),
                Json::Text("x".to_string()),
            ]),
        ),
        member("b", Json::Object(vec![member("c", Json::Number("7".to_string()))])),
    ]);
    assert_eq!(doc, Some(expected));
}

#[test]
fn the_last_of_two_equal_members_stays() {
    let doc = parse_json(r#"{"a": 1, "a": 2}"#).unwrap();
    assert_eq!(doc.get("a"), Some(&Json::Number("2".to_string())));
}

#[test]
fn text_that_is_no_document_is_refused() {
    assert_eq!(parse_json("{"), None);
    assert_eq!(parse_json(""), None);
    assert_eq!(parse_json("{} {}"), None);
}

#[test]
fn bytes_are_parsed_as_text_is() {
    assert_eq!(parse_json_bytes(b"[1]"), Some(Json::Array(vec![Json::Number("1".to_string())])));
    assert_eq!(parse_json_bytes(&[b'"', 0xff, b'"']), None);
}

#[test]
fn members_are_found_by_name() {
    let doc = Json::Object(vec![
        member("x", Json::Text("1".to_string())),
        member("y", Json::Bool(false)),
    ]);
    assert_eq!(doc.get("y"), Some(&Json::Bool(false)));
    assert_eq!(doc.get("z"), None);
    assert_eq!(doc.get_text("x"), Some("1"));
    assert_eq!(doc.get_text("y"), None);
    assert_eq!(Json::Null.get("x"), None);
}

#[test]
fn texts_are_gathered_from_an_array() {
    let doc = parse_json(r#"{"l": [{"n": "a"}, {"n": 1}, 3, {"m": "b"}, {"n": "c"}]}"#).unwrap();
    assert_eq!(doc.get_texts("l", "n"), vec!["a".to_string(), "c".to_string()]);
    assert_eq!(doc.get_texts("q", "n"), Vec::<String>::new());
}

#[test]
fn values_are_built() {
    assert_eq!(Json::number(42), Json::Number("42".to_string()));
    assert_eq!(Json::text("a"), Json::Text("a".to_string()));
    assert_eq!(Member::new("a", Json::Null), member("a", Json::Null));
}
