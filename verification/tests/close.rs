use deskollama::close::{
    close_policy, on_close, set_close_policy, unload_ollama_models, unload_requests,
};
use deskollama::json::{parse_json, Json};
use deskollama::request::Body;

#[test]
fn models_are_unloaded_until_the_user_says_otherwise() {
    let mut policy = close_policy();
    assert!(policy.unload);
    assert_eq!(policy.base, "http://localhost:11434");
    set_close_policy(&mut policy, false, "http://h:1//");
    assert!(!policy.unload);
    assert_eq!(policy.base, "http://h:1");
    assert!(on_close(&policy).is_none());
}

#[test]
fn a_blank_address_changes_nothing_but_the_wish() {
    let mut policy = close_policy();
    set_close_policy(&mut policy, false, " \t");
    assert!(!policy.unload);
    assert_eq!(policy.base, "http://localhost:11434");
    set_close_policy(&mut policy, true, "http://h/ ");
    assert_eq!(policy.base, "http://h/ ");
    set_close_policy(&mut policy, true, "///");
    assert_eq!(policy.base, "");
}

#[test]
fn the_models_in_memory_are_asked_for() {
    let request = on_close(&close_policy()).unwrap();
    assert_eq!(request.method, "GET");
    assert_eq!(request.url, "http://localhost:11434/api/ps");
    assert_eq!(request.timeout_ms, Some(2_000));
    assert_eq!(request.body, Body::Empty);
}

#[test]
fn each_model_in_memory_is_unloaded() {
    let doc = parse_json(r#"{"models": [{"name": "a:1"}, {"size": 1}, {"name": "b"}]}"#).unwrap();
    let requests = unload_requests("http://h", &doc);
    assert_eq!(requests.len(), 2);
    for (request, name) in requests.iter().zip(["a:1", "b"]) {
        assert_eq!(request.method, "POST");
        assert_eq!(request.url, "http://h/api/generate");
        assert_eq!(request.timeout_ms, Some(2_000));
        match &request.body {
            Body::Document(doc) => {
                assert_eq!(doc.get_text("model"), Some(name));
                assert_eq!(doc.get("keep_alive"), Some(&Json::Number("0".to_string())));
            }
            other => panic!("{:?}", other),
        }
    }
}

#[test]
fn an_answer_that_is_no_document_unloads_nothing() {
    assert_eq!(unload_ollama_models("http://h", b"oops").len(), 0);
    assert_eq!(unload_ollama_models("http://h", b"{}").len(), 0);
    assert_eq!(unload_ollama_models("http://h", br#"{"models":[{"name":"m"}]}"#).len(), 1);
}
