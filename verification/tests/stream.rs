use deskollama::failure::Failure;
use deskollama::json::Json;
use deskollama::stream::{
    refused_stream, success, text_event, unanswered_stream, AnswerInput, AnswerNext, NdjsonStream,
    RefusalInput, StreamEvent, StreamInput,
};

fn line(s: &str) -> StreamEvent {
    StreamEvent::Line(s.to_string())
}

fn opened() -> NdjsonStream {
    let step = unanswered_stream(AnswerInput::Answered(200));
    assert_eq!(step.events, vec![]);
    match step.next {
        AnswerNext::Open(stream) => stream,
        _ => panic!("the stream did not open"),
    }
}

fn run(chunks: &[&[u8]], end: StreamInput) -> Vec<StreamEvent> {
    let mut stream = opened();
    let mut all = Vec::new();
    for chunk in chunks {
        let step = stream.step(StreamInput::Chunk(chunk.to_vec()));
        all.extend(step.events);
        stream = step.next.unwrap();
    }
    let step = stream.step(end);
    assert!(step.next.is_none());
    all.extend(step.events);
    all
}

#[test]
fn success_is_between_200_and_299() {
    assert!(!success(199));
    assert!(success(200));
    assert!(success(299));
    assert!(!success(300));
}

#[test]
fn a_refused_stream_sends_the_answer() {
    for status in [199, 300, 404, 500] {
        let step = unanswered_stream(AnswerInput::Answered(status));
        assert_eq!(step.events, vec![]);
        assert!(matches!(step.next, AnswerNext::Refused(s) if s == status));
    }
    let event = refused_stream(404, RefusalInput::Body("gone".to_string()));
    assert_eq!(event, StreamEvent::Http { status: 404, body: "gone".to_string() });
    let payload = event.payload();
    assert_eq!(payload.get_text("kind"), Some("http"));
    assert_eq!(payload.get("status"), Some(&Json::Number("404".to_string())));
    assert_eq!(payload.get_text("body"), Some("gone"));
}

#[test]
fn a_stop_takes_effect_in_every_state() {
    let step = unanswered_stream(AnswerInput::Aborted);
    assert_eq!(step.events, vec![StreamEvent::Aborted]);
    assert!(matches!(step.next, AnswerNext::Ended));
    assert_eq!(refused_stream(404, RefusalInput::Aborted), StreamEvent::Aborted);
    let step = opened().step(StreamInput::Aborted);
    assert_eq!(step.events, vec![StreamEvent::Aborted]);
    assert!(step.next.is_none());
}

#[test]
fn a_request_that_could_not_be_made_sends_nothing() {
    let step = unanswered_stream(AnswerInput::NotSent("refused".to_string()));
    assert_eq!(step.events, vec![]);
    match step.next {
        AnswerNext::Failed(failure) => {
            assert_eq!(failure, Failure::Transport("refused".to_string()));
        }
        _ => panic!("the stream did not fail"),
    }
}

#[test]
fn lines_are_put_together_from_chunks() {
    assert_eq!(
        run(&[b"{\"a\"", b":1}\n{\"b\":2}\n{\"c", b"\":3}"], StreamInput::Finished),
        vec![line("{\"a\":1}"), line("{\"b\":2}"), line("{\"c\":3}"), StreamEvent::End]
    );
}

#[test]
fn chunks_do_not_matter() {
    let body: &[u8] = "é1\r\n\n  \n x \ny".as_bytes();
    let whole = run(&[body], StreamInput::Finished);
    assert_eq!(whole, vec![line("é1"), line("x"), line("y"), StreamEvent::End]);
    for i in 0..=body.len() {
        for j in i..=body.len() {
            let parts = [&body[..i], &body[i..j], &body[j..]];
            assert_eq!(run(&parts, StreamInput::Finished), whole);
        }
    }
}

#[test]
fn an_empty_body_sends_its_end_alone() {
    assert_eq!(run(&[], StreamInput::Finished), vec![StreamEvent::End]);
    assert_eq!(run(&[b"\n\n"], StreamInput::Finished), vec![StreamEvent::End]);
}

#[test]
fn a_stopped_stream_sends_nothing_of_an_unfinished_line() {
    assert_eq!(run(&[b"a\nb"], StreamInput::Aborted), vec![line("a"), StreamEvent::Aborted]);
}

#[test]
fn a_broken_stream_sends_the_reason() {
    assert_eq!(
        run(&[b"a\nb"], StreamInput::Failed("reset".to_string())),
        vec![line("a"), StreamEvent::Error("reset".to_string())]
    );
}

#[test]
fn bytes_that_are_not_utf8_are_sent_as_text() {
    assert_eq!(run(&[b"\xffa\n"], StreamInput::Aborted)[0], line("\u{fffd}a"));
}

#[test]
fn blank_text_is_not_sent() {
    assert_eq!(text_event(" \n"), None);
    assert_eq!(text_event(" a \n"), Some(line("a")));
}

#[test]
fn messages_carry_their_kind() {
    assert_eq!(line("x").payload().get_text("kind"), Some("line"));
    assert_eq!(line("x").payload().get_text("line"), Some("x"));
    assert_eq!(StreamEvent::Aborted.payload().get_text("kind"), Some("aborted"));
    let error = StreamEvent::Error("e".to_string()).payload();
    assert_eq!(error.get_text("kind"), Some("error"));
    assert_eq!(error.get_text("message"), Some("e"));
    assert_eq!(StreamEvent::End.payload().get_text("kind"), Some("end"));
}
