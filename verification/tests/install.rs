use deskollama::failure::Failure;
use deskollama::install::{
    install_outcome, percent_text, read_piece, InstallEvent, InstallReader,
};

fn stage(s: &str) -> InstallEvent {
    InstallEvent::Stage(s.to_string())
}

fn percent(s: &str) -> InstallEvent {
    InstallEvent::Percent(s.to_string())
}

/// What output reports that arrives in these chunks.
fn read(chunks: &[&[u8]]) -> Vec<InstallEvent> {
    let mut reader = InstallReader::new();
    let mut all = Vec::new();
    for chunk in chunks {
        let step = reader.step(chunk);
        all.extend(step.events);
        reader = step.reader;
    }
    all.extend(reader.finish());
    all
}

fn detail(stderr: &str, success: bool, code: Option<i32>) -> String {
    match install_outcome(false, stderr, success, code) {
        Err(Failure::NotOnDiskAfterInstall(detail)) => detail,
        other => panic!("{:?}", other),
    }
}

#[test]
fn the_percentage_ends_the_line() {
    assert_eq!(percent_text("[####------] 42.5%"), Some("42.5".to_string()));
    assert_eq!(percent_text("42.5% done"), None);
    assert_eq!(percent_text("100%%"), Some("100%".to_string()));
    assert_eq!(percent_text("%"), Some(String::new()));
    assert_eq!(percent_text("   "), None);
}

#[test]
fn a_piece_is_a_stage_a_percentage_or_nothing() {
    assert_eq!(read_piece("  >>> Downloading  "), Some(stage("Downloading")));
    assert_eq!(read_piece(">>>>> x"), Some(stage("x")));
    assert_eq!(read_piece(">> x"), None);
    assert_eq!(read_piece(">>> 50%"), Some(stage("50%")));
    assert_eq!(read_piece("bar 7%"), Some(percent("7")));
    assert_eq!(read_piece(" \t"), None);
}

#[test]
fn carriage_returns_divide_as_line_feeds_do() {
    let text: &[u8] = b">>> Get\n\r# 1%\r## 2%\rnoise\r\n";
    assert_eq!(read(&[text]), vec![stage("Get"), percent("1"), percent("2")]);
    for c in ["\r", "\n"] {
        let (a, b) = (">>> a\r3%", "4%\nx");
        let mut apart = read(&[a.as_bytes()]);
        apart.extend(read(&[b.as_bytes()]));
        assert_eq!(read(&[format!("{}{}{}", a, c, b).as_bytes()]), apart);
    }
}

#[test]
fn a_redrawn_bar_is_reported_before_the_line_ends() {
    let step = InstallReader::new().step(b"# 1%\r## 2%\r### 3");
    assert_eq!(step.events, vec![percent("1"), percent("2")]);
    let step = step.reader.step(b"0%");
    assert_eq!(step.events, vec![]);
    let step = step.reader.step(b"\r");
    assert_eq!(step.events, vec![percent("30")]);
    assert_eq!(step.reader.finish(), vec![]);
}

#[test]
fn how_the_output_arrives_does_not_matter() {
    let output: &[u8] = ">>> é\r\n# 1%\r## 2.5%\n\n>>> Done".as_bytes();
    let whole = read(&[output]);
    assert_eq!(whole, vec![stage("é"), percent("1"), percent("2.5"), stage("Done")]);
    for i in 0..=output.len() {
        for j in i..=output.len() {
            assert_eq!(read(&[&output[..i], &output[i..j], &output[j..]]), whole);
        }
    }
    assert_eq!(read(&[]), vec![]);
}

#[test]
fn output_that_is_not_utf8_is_read_all_the_same() {
    assert_eq!(read(&[b"\xff 9%\n"]), vec![percent("9")]);
    assert_eq!(read(&[b">>> \xff"]), vec![stage("\u{fffd}")]);
}

#[test]
fn only_ollama_on_disk_counts() {
    assert_eq!(install_outcome(true, "boom", false, Some(1)), Ok(()));
    assert!(install_outcome(false, "", true, Some(0)).is_err());
}

#[test]
fn what_the_script_complained_of_is_told() {
    assert_eq!(detail("  no disk \n", true, Some(0)), "no disk");
    assert_eq!(detail(&"é".repeat(301), false, None), "é".repeat(300));
    assert_eq!(detail(&"x".repeat(300), false, None), "x".repeat(300));
}

#[test]
fn how_a_silent_script_ended_is_told() {
    assert_eq!(
        detail(" ", true, Some(0)),
        "the installer reported no error, but Ollama is not on disk"
    );
    assert_eq!(detail("", false, Some(-5)), format!("installer exited with code {:?}", Some(-5)));
    assert_eq!(detail("", false, Some(1)), "installer exited with code Some(1)");
    assert_eq!(detail("", false, None), "installer exited with code None");
}
