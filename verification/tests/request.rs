use deskollama::failure::Failure;
use deskollama::json::Json;
use deskollama::request::{
    fetch_page, fetch_reply, installer_request, installer_size, ollama_fetch, ollama_stream,
    page_reply, Body, Header, HttpRequest, SizeAnswer,
};

fn url(s: &str) -> String {
    s.to_string()
}

fn json_header() -> Option<Header> {
    Some(Header { name: "Content-Type".to_string(), value: "application/json".to_string() })
}

#[test]
fn pages_are_asked_for_at_two_hosts_only() {
    for good in ["https://ollama.com/", "https://ollama.com/search?q=x", "https://registry.ollama.ai/v2/"] {
        assert_eq!(fetch_page(url(good), None).unwrap().url, good);
    }
    for bad in [
        "",
        "https://ollama.com",
        "http://ollama.com/",
        "https://ollama.com.evil.net/",
        "https://evil.net/https://ollama.com/",
        " https://ollama.com/",
        "https://OLLAMA.com/",
        "https://ollama.ai/",
    ] {
        assert_eq!(fetch_page(url(bad), Some(true)), Err(Failure::HostRefused));
    }
}

#[test]
fn the_request_for_a_page() {
    let expected = HttpRequest {
        method: "GET".to_string(),
        url: "https://ollama.com/x".to_string(),
        header: None,
        body: Body::Empty,
        timeout_ms: Some(20_000),
        user_agent: Some("DeskOllama".to_string()),
    };
    assert_eq!(fetch_page(url("https://ollama.com/x"), None), Ok(expected));
    assert_eq!(fetch_page(url("https://ollama.com/x"), Some(false)).unwrap().header, None);
    assert_eq!(
        fetch_page(url("https://ollama.com/x"), Some(true)).unwrap().header,
        Some(Header { name: "HX-Request".to_string(), value: "true".to_string() })
    );
}

#[test]
fn a_page_counts_only_with_a_status_of_success() {
    assert_eq!(page_reply(204), Ok(()));
    assert_eq!(page_reply(503), Err(Failure::PageStatus(503)));
}

#[test]
fn a_method_is_a_token() {
    for good in ["GET", "POST", "DELETE", "X-a_very.long~method!name", "get"] {
        assert_eq!(ollama_fetch(url("u"), good.to_string(), None, None).unwrap().method, good);
    }
    for bad in ["", "GET ", "G\u{e9}T", "A/B", "A\n", "a,b", "(a)"] {
        assert_eq!(
            ollama_fetch(url("u"), bad.to_string(), None, None),
            Err(Failure::Transport("invalid HTTP method".to_string()))
        );
    }
}

#[test]
fn methods_agree_with_the_client_on_every_ascii_character() {
    for b in 0u8..=255 {
        let name = (b as char).to_string();
        assert_eq!(
            ollama_fetch(url("u"), name.clone(), None, None).is_ok(),
            reqwest::Method::from_bytes(name.as_bytes()).is_ok()
        );
    }
}

#[test]
fn what_a_request_carries_is_json() {
    let bare = ollama_fetch(url("u"), "GET".to_string(), None, Some(7)).unwrap();
    assert_eq!((bare.header, bare.body, bare.timeout_ms), (None, Body::Empty, Some(7)));
    let full = ollama_fetch(url("u"), "POST".to_string(), Some("{}".to_string()), None).unwrap();
    assert_eq!(full.header, json_header());
    assert_eq!(full.body, Body::Text("{}".to_string()));
    assert_eq!((full.timeout_ms, full.user_agent), (None, None));
}

#[test]
fn a_stream_is_opened_without_a_time_limit() {
    let request = ollama_stream(url("http://h/api/chat"), "{}".to_string());
    let expected = HttpRequest {
        method: "POST".to_string(),
        url: "http://h/api/chat".to_string(),
        header: json_header(),
        body: Body::Text("{}".to_string()),
        timeout_ms: None,
        user_agent: None,
    };
    assert_eq!(request, expected);
}

#[test]
fn an_answer_is_handed_on_whatever_its_status() {
    let good = fetch_reply(200, "b".to_string());
    assert_eq!(good.get("ok"), Some(&Json::Bool(true)));
    let bad = fetch_reply(500, "b".to_string());
    assert_eq!(bad.get("ok"), Some(&Json::Bool(false)));
    assert_eq!(bad.get("status"), Some(&Json::Number("500".to_string())));
    assert_eq!(bad.get_text("body"), Some("b"));
}

#[test]
fn the_size_of_the_installer_is_asked_for_and_0_is_unknown() {
    let request = installer_request();
    assert_eq!(request.method, "HEAD");
    assert_eq!(
        request.url,
        "https://github.com/ollama/ollama/releases/latest/download/OllamaSetup.exe"
    );
    assert_eq!(request.timeout_ms, Some(15_000));
}

#[test]
fn the_size_of_the_installer_is_unknown_unless_a_success_announces_it() {
    let size = |status, announced| installer_size(Some(SizeAnswer { status, announced }));
    assert_eq!(size(200, Some(1_500_000_000)), 1_500_000_000);
    assert_eq!(size(299, Some(1)), 1);
    assert_eq!(size(200, None), 0);
    for status in [0, 100, 199, 300, 302, 404, 503, 999] {
        assert_eq!(size(status, Some(9)), 0);
    }
    assert_eq!(installer_size(None), 0);
}
