//! What holds of every stream, however its body is divided on the way.

use vstd::prelude::*;
use vstd::utf8::encode_utf8;

use crate::json::{law_field_is_the_first_of_its_name, JsonTree};
use crate::lines::{cut, lemma_cut_join, lemma_cut_rest_unbroken, lemma_cut_unbroken, unbroken};
use crate::stream::{
    answer_messages, held_back, is_success, line_messages, messages, refusal_message, sent,
    text_message, AnswerInput, AnswerSignal, RefusalInput, RefusalSignal, StreamEvent, StreamInput,
    StreamMessage, StreamSignal,
};
use crate::text::{
    decimal, is_white, law_blank_is_what_trims_to_nothing, law_text_is_read_as_it_was_encoded,
    law_trim_leaves_what_stands_between, lemma_breaks_are_encoded_in_one_byte, lemma_encode_join,
    lemma_encoding_has_no_other_ascii, lemma_trim_parts, lemma_trim_settles, text_in, trim,
};

verus! {

/// All that a stream sends on a run of signals, from the state in which it holds
/// `pending` back. Signals behind the one that ends it change nothing.
pub open spec fn session(pending: Seq<u8>, signals: Seq<StreamSignal>) -> Seq<StreamMessage>
    decreases signals.len(),
{
    if signals.len() == 0 {
        Seq::empty()
    } else {
        messages(pending, signals[0]) + match held_back(pending, signals[0]) {
            Some(rest) => session(rest, signals.skip(1)),
            None => Seq::empty(),
        }
    }
}

/// The arrival of chunks, one after the other.
pub open spec fn arrivals(chunks: Seq<Seq<u8>>) -> Seq<StreamSignal> {
    chunks.map_values(|c: Seq<u8>| StreamSignal::Chunk(c))
}

proof fn lemma_line_messages_join(a: Seq<Seq<u8>>, b: Seq<Seq<u8>>)
    ensures
        line_messages(a + b) == line_messages(a) + line_messages(b),
    decreases b.len(),
{
    if b.len() == 0 {
        assert(a + b == a);
        assert(line_messages(a) + line_messages(b) == line_messages(a));
    } else {
        lemma_line_messages_join(a, b.drop_last());
        assert((a + b).drop_last() == a + b.drop_last());
        assert((a + b).last() == b.last());
        assert(line_messages(a + b) == line_messages(a) + line_messages(b));
    }
}

proof fn lemma_session_of_chunks(
    pending: Seq<u8>,
    chunks: Seq<Seq<u8>>,
    end: StreamSignal,
    later: Seq<StreamSignal>,
)
    requires
        unbroken(pending, false),
        end !is Chunk,
    ensures
        session(pending, arrivals(chunks) + seq![end] + later) == line_messages(
            cut(pending + chunks.flatten(), false).lines,
        ) + messages(cut(pending + chunks.flatten(), false).rest, end),
    decreases chunks.len(),
{
    let signals = arrivals(chunks) + seq![end] + later;
    let body = chunks.flatten();
    if chunks.len() == 0 {
        assert(signals[0] == end);
        assert(pending + body == pending);
        lemma_cut_unbroken(pending, false);
        assert(session(pending, signals) == messages(pending, end));
    } else {
        let first = chunks[0];
        let others = chunks.drop_first();
        assert(signals[0] == StreamSignal::Chunk(first));
        assert(signals.skip(1) == arrivals(others) + seq![end] + later);
        let rest = cut(pending + first, false).rest;
        lemma_cut_rest_unbroken(pending + first, false);
        lemma_session_of_chunks(rest, others, end, later);
        assert(body == first + others.flatten());
        assert(pending + body == pending + first + others.flatten());
        lemma_cut_join(pending + first, others.flatten(), false);
        lemma_line_messages_join(
            cut(pending + first, false).lines,
            cut(rest + others.flatten(), false).lines,
        );
        assert(session(pending, signals) == messages(pending, signals[0]) + session(
            rest,
            signals.skip(1),
        ));
        assert(session(pending, signals) == line_messages(cut(pending + body, false).lines) + messages(
            cut(pending + body, false).rest,
            end,
        ));
    }
}

/// However a body is divided into chunks, what is sent is each complete line of
/// the body and then what its end calls for; and nothing behind the end is sent.
pub proof fn law_session_sends_the_lines_of_the_body(
    chunks: Seq<Seq<u8>>,
    end: StreamSignal,
    later: Seq<StreamSignal>,
)
    requires
        end !is Chunk,
    ensures
        session(Seq::empty(), arrivals(chunks) + seq![end] + later) == line_messages(
            cut(chunks.flatten(), false).lines,
        ) + messages(cut(chunks.flatten(), false).rest, end),
{
    assert(Seq::<u8>::empty() + chunks.flatten() == chunks.flatten());
    lemma_session_of_chunks(Seq::empty(), chunks, end, later);
}

/// Two ways to divide the same body into chunks make no difference to what is
/// sent.
pub proof fn law_chunks_do_not_matter(
    one: Seq<Seq<u8>>,
    other: Seq<Seq<u8>>,
    end: StreamSignal,
)
    requires
        one.flatten() == other.flatten(),
        end !is Chunk,
    ensures
        session(Seq::empty(), arrivals(one) + seq![end]) == session(
            Seq::empty(),
            arrivals(other) + seq![end],
        ),
{
    let none = Seq::<StreamSignal>::empty();
    law_session_sends_the_lines_of_the_body(one, end, none);
    law_session_sends_the_lines_of_the_body(other, end, none);
    assert(arrivals(one) + seq![end] + none == arrivals(one) + seq![end]);
    assert(arrivals(other) + seq![end] + none == arrivals(other) + seq![end]);
}

/// A body that is read to its end is sent line by line, a last line without a
/// line feed among them, and then its end.
pub proof fn law_finished_body_is_sent_whole(chunks: Seq<Seq<u8>>)
    ensures
        session(Seq::empty(), arrivals(chunks) + seq![StreamSignal::Finished]) == line_messages(
            cut(chunks.flatten(), false).lines.push(cut(chunks.flatten(), false).rest),
        ).push(StreamMessage::End),
{
    let end = StreamSignal::Finished;
    let none = Seq::<StreamSignal>::empty();
    let whole = cut(chunks.flatten(), false);
    law_session_sends_the_lines_of_the_body(chunks, end, none);
    assert(arrivals(chunks) + seq![end] + none == arrivals(chunks) + seq![end]);
    lemma_line_messages_join(whole.lines, seq![whole.rest]);
    assert(whole.lines + seq![whole.rest] == whole.lines.push(whole.rest));
    assert(line_messages(whole.lines) + line_messages(seq![whole.rest]).push(StreamMessage::End) == (
    line_messages(whole.lines) + line_messages(seq![whole.rest])).push(StreamMessage::End));
}

/// Tells whether a message is a line with something on it and no white space
/// around it.
pub open spec fn is_clean_line(m: StreamMessage) -> bool {
    m matches StreamMessage::Line(s) && s.len() > 0 && trim(s) == s
}

proof fn lemma_lines_are_clean(lines: Seq<Seq<u8>>)
    ensures
        forall|i: int|
            0 <= i < line_messages(lines).len() ==> is_clean_line(
                #[trigger] line_messages(lines)[i],
            ),
    decreases lines.len(),
{
    if lines.len() > 0 {
        let before = line_messages(lines.drop_last());
        lemma_lines_are_clean(lines.drop_last());
        lemma_trim_settles(text_in(lines.last()));
        assert forall|i: int| 0 <= i < line_messages(lines).len() implies is_clean_line(
            #[trigger] line_messages(lines)[i],
        ) by {
            if i < before.len() {
                assert(line_messages(lines)[i] == before[i]);
            }
        }
    }
}

/// A stream sends nothing but clean lines, except that the signal that ends it
/// is answered last, with one message that is no line.
pub proof fn law_only_the_end_is_no_line(pending: Seq<u8>, signals: Seq<StreamSignal>)
    ensures
        ({
            let all = session(pending, signals);
            let ends = exists|i: int| 0 <= i < signals.len() && #[trigger] signals[i] !is Chunk;
            &&& forall|i: int| 0 <= i < all.len() - 1 ==> is_clean_line(#[trigger] all[i])
            &&& ends ==> all.len() > 0 && all.last() !is Line
            &&& !ends && all.len() > 0 ==> is_clean_line(all.last())
        }),
    decreases signals.len(),
{
    if signals.len() > 0 {
        let first = messages(pending, signals[0]);
        let all = session(pending, signals);
        let ends = exists|i: int| 0 <= i < signals.len() && #[trigger] signals[i] !is Chunk;
        match signals[0] {
            StreamSignal::Chunk(bytes) => {
                let rest = cut(pending + bytes, false).rest;
                let others = signals.skip(1);
                let after = session(rest, others);
                law_only_the_end_is_no_line(rest, others);
                lemma_lines_are_clean(cut(pending + bytes, false).lines);
                assert(all == first + after);
                let ends_later = exists|i: int|
                    0 <= i < others.len() && #[trigger] others[i] !is Chunk;
                if ends {
                    let i = choose|i: int| 0 <= i < signals.len() && #[trigger] signals[i] !is Chunk;
                    assert(others[i - 1] !is Chunk);
                }
                if ends_later {
                    let i = choose|i: int| 0 <= i < others.len() && #[trigger] others[i] !is Chunk;
                    assert(signals[i + 1] !is Chunk);
                }
                assert forall|i: int| 0 <= i < all.len() - 1 implies is_clean_line(
                    #[trigger] all[i],
                ) by {
                    if i < first.len() {
                        assert(all[i] == first[i]);
                    } else {
                        assert(all[i] == after[i - first.len()]);
                    }
                }
                if all.len() > 0 {
                    if after.len() > 0 {
                        assert(all.last() == after.last());
                    } else {
                        assert(all.last() == first.last());
                    }
                }
            },
            _ => {
                lemma_lines_are_clean(seq![pending]);
                assert(all == first);
                assert(signals[0] !is Chunk);
            },
        }
    }
}

/// All that a stream sends, from the request for it on: what it sends while it
/// waits for an answer, and then the answer where that refuses it, or what the
/// signals to the open stream call for.
pub open spec fn conversation(
    answer: AnswerSignal,
    refusal: RefusalSignal,
    signals: Seq<StreamSignal>,
) -> Seq<StreamMessage> {
    answer_messages(answer) + match answer {
        AnswerSignal::Answered(status) => if is_success(status) {
            session(Seq::empty(), signals)
        } else {
            seq![refusal_message(status, refusal)]
        },
        _ => Seq::empty(),
    }
}

/// A stop takes effect at once, whatever the stream is at: while the server is
/// still silent and while a refusal is read, nothing but the stop is answered,
/// and from an open stream nothing follows the lines that are complete.
pub proof fn law_a_stop_takes_effect_at_once(
    refusal: RefusalSignal,
    signals: Seq<StreamSignal>,
    status: u16,
    chunks: Seq<Seq<u8>>,
    later: Seq<StreamSignal>,
)
    ensures
        conversation(AnswerSignal::Aborted, refusal, signals) == seq![StreamMessage::Aborted],
        !is_success(status) ==> conversation(
            AnswerSignal::Answered(status),
            RefusalSignal::Aborted,
            signals,
        ) == seq![StreamMessage::Aborted],
        is_success(status) ==> conversation(
            AnswerSignal::Answered(status),
            refusal,
            arrivals(chunks) + seq![StreamSignal::Aborted] + later,
        ) == line_messages(cut(chunks.flatten(), false).lines).push(StreamMessage::Aborted),
{
    let none = Seq::<StreamMessage>::empty();
    let stop = seq![StreamMessage::Aborted];
    assert(stop + none == stop);
    assert(none + stop == stop);
    law_session_sends_the_lines_of_the_body(chunks, StreamSignal::Aborted, later);
    let lines = line_messages(cut(chunks.flatten(), false).lines);
    assert(none + (lines + stop) == lines.push(StreamMessage::Aborted));
}

/// A stream that was asked for and comes to an end sends one message that is no
/// line, and sends it last.
pub proof fn law_a_stream_ends_once(
    answer: AnswerSignal,
    refusal: RefusalSignal,
    signals: Seq<StreamSignal>,
)
    requires
        answer !is NotSent,
        exists|i: int| 0 <= i < signals.len() && #[trigger] signals[i] !is Chunk,
    ensures
        ({
            let all = conversation(answer, refusal, signals);
            &&& all.len() > 0
            &&& all.last() !is Line
            &&& forall|i: int| 0 <= i < all.len() - 1 ==> is_clean_line(#[trigger] all[i])
        }),
{
    law_only_the_end_is_no_line(Seq::empty(), signals);
    let none = Seq::<StreamMessage>::empty();
    assert(none + session(Seq::empty(), signals) == session(Seq::empty(), signals));
}

/// A line is sent as what stands between its first character that is not white
/// space and its last, whatever stands there; only a line of nothing but white
/// space is not sent.
pub proof fn law_only_blank_lines_are_left_out(a: Seq<char>, core: Seq<char>, b: Seq<char>)
    requires
        forall|i: int| 0 <= i < a.len() ==> is_white(#[trigger] a[i]),
        forall|i: int| 0 <= i < b.len() ==> is_white(#[trigger] b[i]),
        core.len() > 0 ==> !is_white(core[0]) && !is_white(core.last()),
    ensures
        core.len() > 0 ==> text_message(a + core + b) == Some(StreamMessage::Line(core)),
        core.len() == 0 ==> text_message(a + core + b) is None,
{
    law_trim_leaves_what_stands_between(a, core, b);
}

/// A text is sent as a line if and only if it holds a character other than white
/// space.
pub proof fn law_a_line_is_sent_unless_blank(text: Seq<char>)
    ensures
        text_message(text) is None <==> forall|i: int|
            0 <= i < text.len() ==> is_white(#[trigger] text[i]),
        text_message(text) is Some ==> text_message(text)->0 is Line,
{
    law_blank_is_what_trims_to_nothing(text);
}

/// Bytes without a line feed are held back behind what was, and nothing is sent of
/// them.
pub proof fn law_an_unfinished_line_is_held_back(pending: Seq<u8>, bytes: Seq<u8>)
    requires
        forall|i: int| 0 <= i < pending.len() ==> #[trigger] pending[i] != 10u8,
        forall|i: int| 0 <= i < bytes.len() ==> #[trigger] bytes[i] != 10u8,
    ensures
        messages(pending, StreamSignal::Chunk(bytes)) == Seq::<StreamMessage>::empty(),
        held_back(pending, StreamSignal::Chunk(bytes)) == Some(pending + bytes),
{
    let all = pending + bytes;
    assert forall|i: int| 0 <= i < all.len() implies #[trigger] all[i] != 10u8 by {
        if i < pending.len() {
            assert(all[i] == pending[i]);
        } else {
            assert(all[i] == bytes[i - pending.len()]);
        }
    }
    assert(unbroken(all, false));
    lemma_cut_unbroken(all, false);
}

/// A line feed completes the line that was held back: it is sent at once, as what
/// stands between the white space around it, or not at all where it is blank; and
/// nothing of it is held back.
pub proof fn law_a_complete_line_is_sent_at_once(
    pending: Seq<u8>,
    bytes: Seq<u8>,
    a: Seq<char>,
    core: Seq<char>,
    b: Seq<char>,
)
    requires
        forall|i: int| 0 <= i < pending.len() ==> #[trigger] pending[i] != 10u8,
        forall|i: int| 0 <= i < bytes.len() ==> #[trigger] bytes[i] != 10u8,
        text_in((pending + bytes).push(10u8)) == a + core + b,
        forall|i: int| 0 <= i < a.len() ==> is_white(#[trigger] a[i]),
        forall|i: int| 0 <= i < b.len() ==> is_white(#[trigger] b[i]),
        core.len() > 0 ==> !is_white(core[0]) && !is_white(core.last()),
    ensures
        messages(pending, StreamSignal::Chunk(bytes.push(10u8))) == if core.len() > 0 {
            seq![StreamMessage::Line(core)]
        } else {
            Seq::empty()
        },
        held_back(pending, StreamSignal::Chunk(bytes.push(10u8))) == Some(Seq::<u8>::empty()),
{
    let all = pending + bytes.push(10u8);
    let line = (pending + bytes).push(10u8);
    assert(all == line);
    assert(line.drop_last() == pending + bytes);
    law_an_unfinished_line_is_held_back(pending, bytes);
    assert forall|i: int| 0 <= i < (pending + bytes).len() implies #[trigger] (pending + bytes)[i]
        != 10u8 by {
        if i < pending.len() {
            assert((pending + bytes)[i] == pending[i]);
        } else {
            assert((pending + bytes)[i] == bytes[i - pending.len()]);
        }
    }
    assert(unbroken(pending + bytes, false));
    lemma_cut_unbroken(pending + bytes, false);
    assert(cut(all, false).lines == seq![line]);
    law_only_blank_lines_are_left_out(a, core, b);
    let one = seq![line];
    assert(one.drop_last() == Seq::<Seq<u8>>::empty());
    assert(line_messages(one.drop_last()) == Seq::<StreamMessage>::empty());
    assert(one.last() == line);
    assert(Seq::<StreamMessage>::empty().push(StreamMessage::Line(core)) == seq![
        StreamMessage::Line(core),
    ]);
}

/// Where a chunk is divided makes no difference: what the first part completes is
/// sent, and then what the second completes of what the first left.
pub proof fn law_a_chunk_can_be_divided(pending: Seq<u8>, x: Seq<u8>, y: Seq<u8>)
    ensures
        held_back(pending, StreamSignal::Chunk(x)) is Some,
        messages(pending, StreamSignal::Chunk(x + y)) == messages(pending, StreamSignal::Chunk(x))
            + messages(held_back(pending, StreamSignal::Chunk(x))->0, StreamSignal::Chunk(y)),
        held_back(pending, StreamSignal::Chunk(x + y)) == held_back(
            held_back(pending, StreamSignal::Chunk(x))->0,
            StreamSignal::Chunk(y),
        ),
{
    let rest = cut(pending + x, false).rest;
    assert(pending + (x + y) == pending + x + y);
    lemma_cut_join(pending + x, y, false);
    lemma_line_messages_join(cut(pending + x, false).lines, cut(rest + y, false).lines);
}

/// A body that ends is answered with what was held back, where that is not blank,
/// and then with its end; a broken one with the reason and a stopped one with the
/// stop alone. Each of these ends the stream.
pub proof fn law_how_a_stream_ends(
    pending: Seq<u8>,
    a: Seq<char>,
    core: Seq<char>,
    b: Seq<char>,
    reason: Seq<char>,
)
    requires
        text_in(pending) == a + core + b,
        forall|i: int| 0 <= i < a.len() ==> is_white(#[trigger] a[i]),
        forall|i: int| 0 <= i < b.len() ==> is_white(#[trigger] b[i]),
        core.len() > 0 ==> !is_white(core[0]) && !is_white(core.last()),
    ensures
        messages(pending, StreamSignal::Finished) == if core.len() > 0 {
            seq![StreamMessage::Line(core), StreamMessage::End]
        } else {
            seq![StreamMessage::End]
        },
        messages(pending, StreamSignal::Failed(reason)) == seq![StreamMessage::Error(reason)],
        messages(pending, StreamSignal::Aborted) == seq![StreamMessage::Aborted],
        held_back(pending, StreamSignal::Finished) is None,
        held_back(pending, StreamSignal::Failed(reason)) is None,
        held_back(pending, StreamSignal::Aborted) is None,
{
    law_only_blank_lines_are_left_out(a, core, b);
    let one = seq![pending];
    assert(one.drop_last() == Seq::<Seq<u8>>::empty());
    assert(line_messages(one.drop_last()) == Seq::<StreamMessage>::empty());
    assert(one.last() == pending);
    assert(Seq::<StreamMessage>::empty().push(StreamMessage::Line(core)).push(StreamMessage::End)
        == seq![StreamMessage::Line(core), StreamMessage::End]);
    assert(Seq::<StreamMessage>::empty().push(StreamMessage::End) == seq![StreamMessage::End]);
}

/// Lines of text, each with the line feed that ends it.
pub open spec fn written(lines: Seq<Seq<char>>) -> Seq<char>
    decreases lines.len(),
{
    if lines.len() == 0 {
        Seq::empty()
    } else {
        written(lines.drop_last()) + lines.last() + seq!['\n']
    }
}

/// The lines that are not blank, each without the white space around it.
pub open spec fn lines_to_send(lines: Seq<Seq<char>>) -> Seq<StreamMessage>
    decreases lines.len(),
{
    if lines.len() == 0 {
        Seq::empty()
    } else if forall|i: int| 0 <= i < lines.last().len() ==> is_white(#[trigger] lines.last()[i]) {
        lines_to_send(lines.drop_last())
    } else {
        lines_to_send(lines.drop_last()).push(StreamMessage::Line(trim(lines.last())))
    }
}

proof fn lemma_text_goes_line_by_line(lines: Seq<Seq<char>>)
    requires
        forall|k: int, i: int|
            0 <= k < lines.len() && 0 <= i < lines[k].len() ==> #[trigger] lines[k][i] != '\n',
    ensures
        messages(Seq::empty(), StreamSignal::Chunk(encode_utf8(written(lines)))) == lines_to_send(
            lines,
        ),
        held_back(Seq::empty(), StreamSignal::Chunk(encode_utf8(written(lines)))) == Some(
            Seq::<u8>::empty(),
        ),
    decreases lines.len(),
{
    let none = Seq::<u8>::empty();
    if lines.len() == 0 {
        law_an_unfinished_line_is_held_back(none, encode_utf8(written(lines)));
        assert(none + none == none);
    } else {
        let head = lines.drop_last();
        let last = lines.last();
        let before = encode_utf8(written(head));
        let bytes = encode_utf8(last);
        assert forall|k: int, i: int|
            0 <= k < head.len() && 0 <= i < head[k].len() implies #[trigger] head[k][i] != '\n' by {
            assert(lines[k][i] != '\n');
        }
        lemma_text_goes_line_by_line(head);
        assert forall|i: int| 0 <= i < last.len() implies (#[trigger] last[i]) as int
            != 10u8 as int by {
            assert(lines[lines.len() - 1][i] != '\n');
        }
        lemma_encoding_has_no_other_ascii(last, 10u8);
        lemma_encode_join(written(head) + last, seq!['\n']);
        lemma_encode_join(written(head), last);
        lemma_encode_join(last, seq!['\n']);
        lemma_breaks_are_encoded_in_one_byte();
        assert(before + bytes + seq![10u8] == before + bytes.push(10u8));
        assert(bytes + seq![10u8] == bytes.push(10u8));
        law_a_chunk_can_be_divided(none, before, bytes.push(10u8));
        let (a, core, b) = lemma_trim_parts(last);
        let end = b.push('\n');
        assert forall|i: int| 0 <= i < end.len() implies is_white(#[trigger] end[i]) by {
            if i < b.len() {
                assert(end[i] == b[i]);
            }
        }
        law_text_is_read_as_it_was_encoded(last + seq!['\n'], none);
        assert(last + seq!['\n'] == a + core + end);
        assert((none + bytes).push(10u8) == bytes.push(10u8));
        law_a_complete_line_is_sent_at_once(none, bytes, a, core, end);
        law_blank_is_what_trims_to_nothing(last);
        assert(lines_to_send(head) + seq![StreamMessage::Line(core)] == lines_to_send(head).push(
            StreamMessage::Line(core),
        ));
        assert(lines_to_send(head) + Seq::<StreamMessage>::empty() == lines_to_send(head));
    }
}

/// Text that is written line by line is sent line by line: each line that holds
/// anything but white space, in order and once, and no other. What stands in the
/// middle of a line is sent as it is.
pub proof fn law_text_is_sent_line_by_line(lines: Seq<Seq<char>>)
    requires
        forall|k: int, i: int|
            0 <= k < lines.len() && 0 <= i < lines[k].len() ==> #[trigger] lines[k][i] != '\n',
    ensures
        session(
            Seq::empty(),
            seq![StreamSignal::Chunk(encode_utf8(written(lines))), StreamSignal::Finished],
        ) == lines_to_send(lines).push(StreamMessage::End),
{
    let none = Seq::<u8>::empty();
    let chars = Seq::<char>::empty();
    let first = StreamSignal::Chunk(encode_utf8(written(lines)));
    let signals = seq![first, StreamSignal::Finished];
    lemma_text_goes_line_by_line(lines);
    law_text_is_read_as_it_was_encoded(chars, none);
    assert(encode_utf8(chars) == none);
    assert(chars + chars + chars == chars);
    law_how_a_stream_ends(none, chars, chars, chars, chars);
    let rest = signals.skip(1);
    assert(rest[0] == StreamSignal::Finished);
    assert(session(none, rest) == seq![StreamMessage::End] + Seq::<StreamMessage>::empty());
    assert(session(none, signals) == messages(none, first) + session(none, rest));
    assert(session(none, signals) == lines_to_send(lines).push(StreamMessage::End));
}

/// A status is one of success just where its first digit of three is a 2.
pub proof fn law_success_begins_with_two(status: u16)
    ensures
        is_success(status) <==> status / 100 == 2,
{
}

/// A stream that the server refuses sends the status and the whole answer and
/// nothing else; one that could not be asked for sends nothing; and one that is
/// accepted sends what its body calls for.
pub proof fn law_the_answer_decides(
    status: u16,
    body: Seq<char>,
    refusal: RefusalSignal,
    reason: Seq<char>,
    signals: Seq<StreamSignal>,
)
    ensures
        status / 100 != 2 ==> conversation(
            AnswerSignal::Answered(status),
            RefusalSignal::Body(body),
            signals,
        ) == seq![(StreamMessage::Http { status, body })],
        status / 100 == 2 ==> conversation(AnswerSignal::Answered(status), refusal, signals)
            == session(Seq::empty(), signals),
        conversation(AnswerSignal::NotSent(reason), refusal, signals) == Seq::<
            StreamMessage,
        >::empty(),
{
    let none = Seq::<StreamMessage>::empty();
    assert(none + seq![StreamMessage::Http { status, body }] == seq![
        StreamMessage::Http { status, body },
    ]);
    assert(none + session(Seq::empty(), signals) == session(Seq::empty(), signals));
    assert(none + none == none);
}

/// Each message is sent with its kind under `kind` and all that it holds beside
/// it.
pub proof fn law_messages_are_sent_with_all_they_hold(
    status: u16,
    body: Seq<char>,
    line: Seq<char>,
    reason: Seq<char>,
)
    ensures
        ({
            let http = (StreamMessage::Http { status, body }).payload();
            &&& http.field("kind"@) == Some(JsonTree::Text("http"@))
            &&& http.field("status"@) == Some(JsonTree::Number(decimal(status as nat)))
            &&& http.field("body"@) == Some(JsonTree::Text(body))
            &&& http is Object && http->Object_0.len() == 3
        }),
        ({
            let sent = StreamMessage::Line(line).payload();
            &&& sent.field("kind"@) == Some(JsonTree::Text("line"@))
            &&& sent.field("line"@) == Some(JsonTree::Text(line))
            &&& sent is Object && sent->Object_0.len() == 2
        }),
        ({
            let error = StreamMessage::Error(reason).payload();
            &&& error.field("kind"@) == Some(JsonTree::Text("error"@))
            &&& error.field("message"@) == Some(JsonTree::Text(reason))
            &&& error is Object && error->Object_0.len() == 2
        }),
        ({
            let stop = StreamMessage::Aborted.payload();
            &&& stop.field("kind"@) == Some(JsonTree::Text("aborted"@))
            &&& stop is Object && stop->Object_0.len() == 1
        }),
        ({
            let end = StreamMessage::End.payload();
            &&& end.field("kind"@) == Some(JsonTree::Text("end"@))
            &&& end is Object && end->Object_0.len() == 1
        }),
{
    reveal_strlit("kind");
    reveal_strlit("status");
    reveal_strlit("body");
    reveal_strlit("line");
    reveal_strlit("message");
    assert("kind"@[0] != "line"@[0]);
    let http = StreamMessage::Http { status, body }.payload()->Object_0;
    law_field_is_the_first_of_its_name(http, "kind"@, 0);
    assert("kind"@.len() != "status"@.len());
    law_field_is_the_first_of_its_name(http, "status"@, 1);
    assert("kind"@[0] != "body"@[0]);
    law_field_is_the_first_of_its_name(http, "body"@, 2);
    let sent = StreamMessage::Line(line).payload()->Object_0;
    law_field_is_the_first_of_its_name(sent, "kind"@, 0);
    law_field_is_the_first_of_its_name(sent, "line"@, 1);
    let error = StreamMessage::Error(reason).payload()->Object_0;
    law_field_is_the_first_of_its_name(error, "kind"@, 0);
    law_field_is_the_first_of_its_name(error, "message"@, 1);
    law_field_is_the_first_of_its_name(StreamMessage::Aborted.payload()->Object_0, "kind"@, 0);
    law_field_is_the_first_of_its_name(StreamMessage::End.payload()->Object_0, "kind"@, 0);
}

/// What is handed to the front end and what comes in stand for the like messages
/// and signals, with all that they hold.
pub proof fn law_events_stand_for_their_messages(
    status: u16,
    s: String,
    bytes: Vec<u8>,
    events: Seq<StreamEvent>,
    i: int,
)
    requires
        0 <= i < events.len(),
    ensures
        (StreamEvent::Http { status, body: s })@ == (StreamMessage::Http { status, body: s@ }),
        StreamEvent::Line(s)@ == StreamMessage::Line(s@),
        StreamEvent::Error(s)@ == StreamMessage::Error(s@),
        StreamEvent::Aborted@ == StreamMessage::Aborted,
        StreamEvent::End@ == StreamMessage::End,
        StreamInput::Chunk(bytes)@ == StreamSignal::Chunk(bytes@),
        StreamInput::Finished@ == StreamSignal::Finished,
        StreamInput::Failed(s)@ == StreamSignal::Failed(s@),
        StreamInput::Aborted@ == StreamSignal::Aborted,
        AnswerInput::Answered(status)@ == AnswerSignal::Answered(status),
        AnswerInput::NotSent(s)@ == AnswerSignal::NotSent(s@),
        AnswerInput::Aborted@ == AnswerSignal::Aborted,
        RefusalInput::Body(s)@ == RefusalSignal::Body(s@),
        RefusalInput::Aborted@ == RefusalSignal::Aborted,
        sent(events).len() == events.len(),
        sent(events)[i] == events[i]@,
{
}

} // verus!
