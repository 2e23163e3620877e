use deskollama::failure::Failure;
use deskollama::json::Json;
use deskollama::locate::{
    default_ollama_exe, detection_unsupported, first_line_in, models_dir, ollama_detect,
    ollama_on_path, ollama_start, search, search_after_default, search_after_system, ExeStep,
    Place,
};

fn some(s: &str) -> Option<String> {
    Some(s.to_string())
}

fn place(base: &str, names: &[&str]) -> Option<Place> {
    Some(Place { base: base.to_string(), names: names.iter().map(|s| s.to_string()).collect() })
}

#[test]
fn the_place_set_for_models_wins() {
    assert_eq!(models_dir(some(" D:\\m "), some("C:\\u")), place(" D:\\m ", &[]));
    assert_eq!(models_dir(some("  "), some("C:\\u")), place("C:\\u", &[".ollama", "models"]));
    assert_eq!(models_dir(None, some("C:\\u")), place("C:\\u", &[".ollama", "models"]));
    assert_eq!(models_dir(None, None), None);
    assert_eq!(models_dir(some(""), None), None);
}

#[test]
fn a_place_leads_on() {
    let blobs = models_dir(some("m"), None).unwrap().join("blobs");
    assert_eq!(Some(blobs), place("m", &["blobs"]));
}

#[test]
fn the_default_place_of_the_program() {
    assert_eq!(default_ollama_exe(some("L")), place("L", &["Programs", "Ollama", "ollama.exe"]));
    assert_eq!(default_ollama_exe(None), None);
}

#[test]
fn the_system_names_the_program_on_a_line() {
    assert_eq!(ollama_on_path(true, b"\r\n  C:\\o.exe \r\nD:\\o.exe\r\n"), some("C:\\o.exe"));
    assert_eq!(ollama_on_path(false, b"C:\\o.exe"), None);
    assert_eq!(ollama_on_path(true, b" \n"), None);
    assert_eq!(ollama_on_path(true, b"\xff\n"), some("\u{fffd}"));
}

#[test]
fn lines_end_as_in_the_standard_library() {
    for s in ["", "a", "\n\n b\r\nc", "a\rb\n", "  \r\n\t\nx"] {
        let expected = s.lines().map(str::trim).find(|l| !l.is_empty()).map(str::to_string);
        assert_eq!(first_line_in(s), expected);
    }
}

#[test]
fn the_search_goes_step_by_step() {
    assert_eq!(search(some("C:\\o.exe")), ExeStep::Found("C:\\o.exe".to_string()));
    assert_eq!(search(some(" ")), ExeStep::CheckDefault);
    assert_eq!(search(None), ExeStep::CheckDefault);
    assert_eq!(search_after_default(some("d")), ExeStep::Found("d".to_string()));
    assert_eq!(search_after_default(None), ExeStep::AskSystem);
    assert_eq!(search_after_system(some("s")), ExeStep::Found("s".to_string()));
    assert_eq!(search_after_system(None), ExeStep::NotFound);
}

#[test]
fn what_was_detected_is_handed_on() {
    let found = ollama_detect(some("e"));
    assert_eq!(found.get("supported"), Some(&Json::Bool(true)));
    assert_eq!(found.get("installed"), Some(&Json::Bool(true)));
    assert_eq!(found.get_text("exe"), Some("e"));
    let missing = ollama_detect(None);
    assert_eq!(missing.get("installed"), Some(&Json::Bool(false)));
    assert_eq!(missing.get("exe"), Some(&Json::Null));
    let unsupported = detection_unsupported();
    assert_eq!(unsupported.get("supported"), Some(&Json::Bool(false)));
    assert_eq!(unsupported.get("installed"), Some(&Json::Bool(false)));
    assert_eq!(unsupported.get("exe"), Some(&Json::Null));
}

#[test]
fn the_server_needs_a_program() {
    assert_eq!(ollama_start(some("e")), Ok("e".to_string()));
    assert_eq!(ollama_start(None), Err(Failure::NotInstalled));
}
