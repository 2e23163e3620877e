//! Streams of newline-delimited JSON: from the chunks of a response body to the
//! messages that the front end receives.

use vstd::prelude::*;

use crate::failure::Failure;
use crate::json::{Json, JsonTree, Member, MemberTree};
use crate::lines::{cut, lemma_cut_rest_unbroken, lemma_cut_unbroken, unbroken};
use crate::text::{decoded, text_in, trim, trimmed};

verus! {

/// What the front end receives from a stream.
#[derive(Debug, PartialEq, Eq)]
pub enum StreamEvent {
    /// The server answered with a status other than success.
    Http { status: u16, body: String },
    /// One line of the body.
    Line(String),
    /// The stream was stopped.
    Aborted,
    /// The body could not be read to its end, for the reason given.
    Error(String),
    /// The body is at its end.
    End,
}

/// A `StreamEvent` as a mathematical value.
pub enum StreamMessage {
    Http { status: u16, body: Seq<char> },
    Line(Seq<char>),
    Aborted,
    Error(Seq<char>),
    End,
}

impl View for StreamEvent {
    type V = StreamMessage;

    open spec fn view(&self) -> StreamMessage {
        match self {
            StreamEvent::Http { status, body } => StreamMessage::Http {
                status: *status,
                body: body@,
            },
            StreamEvent::Line(s) => StreamMessage::Line(s@),
            StreamEvent::Aborted => StreamMessage::Aborted,
            StreamEvent::Error(s) => StreamMessage::Error(s@),
            StreamEvent::End => StreamMessage::End,
        }
    }
}

impl StreamMessage {
    /// The form in which a message is sent.
    pub open spec fn payload(self) -> JsonTree {
        match self {
            StreamMessage::Http { status, body } => JsonTree::Object(
                seq![
                    MemberTree::new("kind"@, JsonTree::Text("http"@)),
                    MemberTree::new("status"@, JsonTree::number(status as nat)),
                    MemberTree::new("body"@, JsonTree::Text(body)),
                ],
            ),
            StreamMessage::Line(s) => JsonTree::Object(
                seq![
                    MemberTree::new("kind"@, JsonTree::Text("line"@)),
                    MemberTree::new("line"@, JsonTree::Text(s)),
                ],
            ),
            StreamMessage::Aborted => JsonTree::Object(
                seq![MemberTree::new("kind"@, JsonTree::Text("aborted"@))],
            ),
            StreamMessage::Error(s) => JsonTree::Object(
                seq![
                    MemberTree::new("kind"@, JsonTree::Text("error"@)),
                    MemberTree::new("message"@, JsonTree::Text(s)),
                ],
            ),
            StreamMessage::End => JsonTree::Object(
                seq![MemberTree::new("kind"@, JsonTree::Text("end"@))],
            ),
        }
    }
}

impl StreamEvent {
    /// The form in which a message is sent.
    pub fn payload(&self) -> (json: Json)
        ensures
            json@ == self@.payload(),
    {
        match self {
            StreamEvent::Http { status, body } => Json::object_of_three(
                Member::new("kind", Json::text("http")),
                Member::new("status", Json::number(*status as u64)),
                Member::new("body", Json::text(body)),
            ),
            StreamEvent::Line(s) => Json::object_of_two(
                Member::new("kind", Json::text("line")),
                Member::new("line", Json::text(s)),
            ),
            StreamEvent::Aborted => Json::object_of_one(Member::new("kind", Json::text("aborted"))),
            StreamEvent::Error(s) => Json::object_of_two(
                Member::new("kind", Json::text("error")),
                Member::new("message", Json::text(s)),
            ),
            StreamEvent::End => Json::object_of_one(Member::new("kind", Json::text("end"))),
        }
    }
}

/// Tells whether an HTTP status is one of success.
pub open spec fn is_success(status: u16) -> bool {
    200 <= status < 300
}

/// Tells whether an HTTP status is one of success.
pub fn success(status: u16) -> (yes: bool)
    ensures
        yes == is_success(status),
{
    200 <= status && status < 300
}

/// The message that a line is sent as: a blank line is not sent.
pub open spec fn text_message(text: Seq<char>) -> Option<StreamMessage> {
    if trim(text).len() == 0 {
        None
    } else {
        Some(StreamMessage::Line(trim(text)))
    }
}

/// The messages that lines are sent as, in order.
pub open spec fn line_messages(lines: Seq<Seq<u8>>) -> Seq<StreamMessage>
    decreases lines.len(),
{
    if lines.len() == 0 {
        Seq::empty()
    } else {
        let before = line_messages(lines.drop_last());
        match text_message(text_in(lines.last())) {
            Some(m) => before.push(m),
            None => before,
        }
    }
}

/// What a list of events stands for.
pub open spec fn sent(events: Seq<StreamEvent>) -> Seq<StreamMessage> {
    events.map_values(|e: StreamEvent| e@)
}

/// The message that a line is sent as, given its text.
pub fn text_event(text: &str) -> (event: Option<StreamEvent>)
    ensures
        match event {
            Some(e) => text_message(text@) == Some(e@),
            None => text_message(text@) is None,
        },
{
    let line = trimmed(text);
    if line.as_str().is_empty() {
        None
    } else {
        Some(StreamEvent::Line(line))
    }
}

/// Adds the message that a line is sent as.
fn send_line(line: &Vec<u8>, events: &mut Vec<StreamEvent>)
    ensures
        sent(final(events)@) == sent(old(events)@) + line_messages(seq![line@]),
{
    let ghost before = sent(events@);
    proof {
        assert(seq![line@].drop_last() == Seq::<Seq<u8>>::empty());
        assert(line_messages(seq![line@].drop_last()) == Seq::<StreamMessage>::empty());
    }
    if let Some(event) = text_event(&decoded(line)) {
        events.push(event);
        assert(sent(events@) == before.push(event@));
    }
    assert(sent(events@) == before + line_messages(seq![line@]));
}

proof fn lemma_line_messages_push(lines: Seq<Seq<u8>>, line: Seq<u8>)
    ensures
        line_messages(lines.push(line)) == line_messages(lines) + line_messages(seq![line]),
{
    assert(lines.push(line).drop_last() == lines);
    assert(lines.push(line).last() == line);
    assert(seq![line].drop_last() == Seq::<Seq<u8>>::empty());
    assert(seq![line].last() == line);
    assert(line_messages(seq![line].drop_last()) == Seq::<StreamMessage>::empty());
    assert(line_messages(lines.push(line)) == line_messages(lines) + line_messages(seq![line]));
}

/// What happens to an open stream.
#[derive(Debug, PartialEq, Eq)]
pub enum StreamInput {
    /// More of the body has arrived.
    Chunk(Vec<u8>),
    /// The body is at its end.
    Finished,
    /// The body cannot be read any further, for the reason given.
    Failed(String),
    /// The front end stops the stream.
    Aborted,
}

/// A `StreamInput` as a mathematical value.
pub enum StreamSignal {
    Chunk(Seq<u8>),
    Finished,
    Failed(Seq<char>),
    Aborted,
}

impl View for StreamInput {
    type V = StreamSignal;

    open spec fn view(&self) -> StreamSignal {
        match self {
            StreamInput::Chunk(bytes) => StreamSignal::Chunk(bytes@),
            StreamInput::Finished => StreamSignal::Finished,
            StreamInput::Failed(s) => StreamSignal::Failed(s@),
            StreamInput::Aborted => StreamSignal::Aborted,
        }
    }
}

/// An open stream: the bytes of a line that has not ended yet.
pub struct NdjsonStream {
    pending: Vec<u8>,
}

impl View for NdjsonStream {
    type V = Seq<u8>;

    closed spec fn view(&self) -> Seq<u8> {
        self.pending@
    }
}

/// The messages that an open stream sends on a signal.
pub open spec fn messages(pending: Seq<u8>, signal: StreamSignal) -> Seq<StreamMessage> {
    match signal {
        StreamSignal::Chunk(bytes) => line_messages(cut(pending + bytes, false).lines),
        StreamSignal::Finished => line_messages(seq![pending]).push(StreamMessage::End),
        StreamSignal::Failed(s) => seq![StreamMessage::Error(s)],
        StreamSignal::Aborted => seq![StreamMessage::Aborted],
    }
}

/// What an open stream holds back after a signal, where it stays open.
pub open spec fn held_back(pending: Seq<u8>, signal: StreamSignal) -> Option<Seq<u8>> {
    match signal {
        StreamSignal::Chunk(bytes) => Some(cut(pending + bytes, false).rest),
        _ => None,
    }
}

/// What comes of a signal: the messages to send, and the stream where it stays
/// open.
pub struct StreamStep {
    pub events: Vec<StreamEvent>,
    pub next: Option<NdjsonStream>,
}

/// What happens to a stream that the server has not answered yet.
pub enum AnswerInput {
    /// The server answers, with this status.
    Answered(u16),
    /// The request could not be made, for the reason given.
    NotSent(String),
    /// The front end stops the stream.
    Aborted,
}

/// An `AnswerInput` as a mathematical value.
pub enum AnswerSignal {
    Answered(u16),
    NotSent(Seq<char>),
    Aborted,
}

impl View for AnswerInput {
    type V = AnswerSignal;

    open spec fn view(&self) -> AnswerSignal {
        match self {
            AnswerInput::Answered(status) => AnswerSignal::Answered(*status),
            AnswerInput::NotSent(s) => AnswerSignal::NotSent(s@),
            AnswerInput::Aborted => AnswerSignal::Aborted,
        }
    }
}

/// The messages that a stream sends while it waits for an answer.
pub open spec fn answer_messages(signal: AnswerSignal) -> Seq<StreamMessage> {
    match signal {
        AnswerSignal::Aborted => seq![StreamMessage::Aborted],
        _ => Seq::empty(),
    }
}

/// How a stream goes on.
pub enum AnswerNext {
    /// It is open.
    Open(NdjsonStream),
    /// It was refused with this status: the body of the answer is still to be read.
    Refused(u16),
    /// It has ended.
    Ended,
    /// It has ended, and the request for it failed.
    Failed(Failure),
}

/// What comes of the wait for an answer: the messages to send, and how the stream
/// goes on.
pub struct AnswerStep {
    pub events: Vec<StreamEvent>,
    pub next: AnswerNext,
}

/// Takes in what happens to a stream that the server has not answered yet. It may
/// be silent for long while the prompt is evaluated, so a stop takes effect here
/// as it does later.
pub fn unanswered_stream(input: AnswerInput) -> (step: AnswerStep)
    ensures
        sent(step.events@) == answer_messages(input@),
        match step.next {
            AnswerNext::Open(stream) => stream@ == Seq::<u8>::empty() && (
            input matches AnswerInput::Answered(status) && is_success(status)),
            AnswerNext::Refused(code) => input matches AnswerInput::Answered(status)
                && !is_success(status) && code == status,
            AnswerNext::Ended => input is Aborted,
            AnswerNext::Failed(failure) => input matches AnswerInput::NotSent(reason) && failure
                == Failure::Transport(reason),
        },
{
    let mut events: Vec<StreamEvent> = Vec::new();
    assert(sent(events@) == Seq::<StreamMessage>::empty());
    let next = match input {
        AnswerInput::Answered(status) => {
            if success(status) {
                AnswerNext::Open(NdjsonStream { pending: Vec::new() })
            } else {
                AnswerNext::Refused(status)
            }
        },
        AnswerInput::NotSent(reason) => AnswerNext::Failed(Failure::Transport(reason)),
        AnswerInput::Aborted => {
            events.push(StreamEvent::Aborted);
            assert(sent(events@) == seq![StreamMessage::Aborted]);
            AnswerNext::Ended
        },
    };
    AnswerStep { events, next }
}

/// What happens to a stream that was refused.
pub enum RefusalInput {
    /// The body of the answer was read.
    Body(String),
    /// The front end stops the stream.
    Aborted,
}

/// A `RefusalInput` as a mathematical value.
pub enum RefusalSignal {
    Body(Seq<char>),
    Aborted,
}

impl View for RefusalInput {
    type V = RefusalSignal;

    open spec fn view(&self) -> RefusalSignal {
        match self {
            RefusalInput::Body(s) => RefusalSignal::Body(s@),
            RefusalInput::Aborted => RefusalSignal::Aborted,
        }
    }
}

/// The one message that is sent where a stream was refused.
pub open spec fn refusal_message(status: u16, signal: RefusalSignal) -> StreamMessage {
    match signal {
        RefusalSignal::Body(body) => StreamMessage::Http { status, body },
        RefusalSignal::Aborted => StreamMessage::Aborted,
    }
}

/// The one message that is sent where a stream was refused: the answer, unless
/// the stream is stopped before the whole of it has arrived.
pub fn refused_stream(status: u16, input: RefusalInput) -> (event: StreamEvent)
    ensures
        event@ == refusal_message(status, input@),
{
    match input {
        RefusalInput::Body(body) => StreamEvent::Http { status, body },
        RefusalInput::Aborted => StreamEvent::Aborted,
    }
}

impl NdjsonStream {
    #[verifier::type_invariant]
    spec fn holds_one_line(self) -> bool {
        unbroken(self.pending@, false)
    }

    /// Takes in a signal: sends the lines that it completes, and where it ends the
    /// stream what is left and how it ended.
    pub fn step(self, input: StreamInput) -> (step: StreamStep)
        ensures
            sent(step.events@) == messages(self@, input@),
            match step.next {
                Some(next) => held_back(self@, input@) == Some(next@),
                None => held_back(self@, input@) is None,
            },
    {
        proof {
            use_type_invariant(&self);
        }
        let mut events: Vec<StreamEvent> = Vec::new();
        let ghost start = self.pending@;
        match input {
            StreamInput::Chunk(bytes) => {
                let mut pending = self.pending;
                let mut i: usize = 0;
                proof {
                    lemma_cut_unbroken(start, false);
                    assert(start + bytes@.take(0) == start);
                    assert(sent(events@) == Seq::<StreamMessage>::empty());
                }
                while i < bytes.len()
                    invariant
                        i <= bytes@.len(),
                        pending@ == cut(start + bytes@.take(i as int), false).rest,
                        sent(events@) == line_messages(cut(start + bytes@.take(i as int), false).lines),
                    decreases bytes@.len() - i,
                {
                    let ghost now = start + bytes@.take(i + 1);
                    let ghost before = cut(start + bytes@.take(i as int), false);
                    assert(now.drop_last() == start + bytes@.take(i as int));
                    assert(now.last() == bytes@[i as int]);
                    let byte: u8 = bytes[i];
                    pending.push(byte);
                    if byte == 10 {
                        proof {
                            lemma_line_messages_push(before.lines, pending@);
                        }
                        send_line(&pending, &mut events);
                        pending = Vec::new();
                    }
                    i = i + 1;
                }
                proof {
                    assert(bytes@.take(i as int) == bytes@);
                    lemma_cut_rest_unbroken(start + bytes@, false);
                }
                StreamStep { events, next: Some(NdjsonStream { pending }) }
            },
            StreamInput::Finished => {
                send_line(&self.pending, &mut events);
                let ghost before = sent(events@);
                events.push(StreamEvent::End);
                proof {
                    assert(before == line_messages(seq![start]));
                    assert(sent(events@) == before.push(StreamMessage::End));
                }
                StreamStep { events, next: None }
            },
            StreamInput::Failed(reason) => {
                events.push(StreamEvent::Error(reason));
                assert(sent(events@) == seq![StreamMessage::Error(reason@)]);
                StreamStep { events, next: None }
            },
            StreamInput::Aborted => {
                events.push(StreamEvent::Aborted);
                assert(sent(events@) == seq![StreamMessage::Aborted]);
                StreamStep { events, next: None }
            },
        }
    }
}

} // verus!
