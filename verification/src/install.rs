//! Installing Ollama: what its install script reports while it runs, and whether
//! it did its work.

use vstd::prelude::*;
use vstd::utf8::encode_utf8;

use crate::failure::Failure;
use crate::lines::{cut, lemma_cut_join, lemma_cut_rest_unbroken, lemma_cut_unbroken, unbroken};
use crate::text::{
    between, chars_of, decoded, final_word, is_white, last_word, law_last_word_stands_last,
    law_leading_copies_are_dropped, law_text_is_read_as_it_was_encoded,
    law_trim_ignores_white_space_around, law_trim_leaves_what_stands_between,
    lemma_encoding_has_no_other_ascii, lemma_trim_settles, signed_decimal,
    signed_decimal_text, starts_with, strip_prefixes, text_in, trailing_run, trim, trim_end,
    trimmed, without_prefixes,
};

verus! {

/// Something that the install script reports.
#[derive(Debug, PartialEq, Eq)]
pub enum InstallEvent {
    /// What it is doing now.
    Stage(String),
    /// How much of the download is done: the number in front of a percent sign,
    /// as it was written.
    Percent(String),
}

/// An `InstallEvent` as a mathematical value.
pub enum InstallReport {
    Stage(Seq<char>),
    Percent(Seq<char>),
}

impl View for InstallEvent {
    type V = InstallReport;

    open spec fn view(&self) -> InstallReport {
        match self {
            InstallEvent::Stage(s) => InstallReport::Stage(s@),
            InstallEvent::Percent(s) => InstallReport::Percent(s@),
        }
    }
}

/// What stands in front of the percent sign that the last word of `line` ends in.
pub open spec fn percent(line: Seq<char>) -> Option<Seq<char>> {
    match last_word(line) {
        Some(word) => if word.len() > 0 && word.last() == '%' {
            Some(word.drop_last())
        } else {
            None
        },
        None => None,
    }
}

/// What stands in front of the percent sign that the last word of `line` ends in.
pub fn percent_text(line: &str) -> (out: Option<String>)
    ensures
        match out {
            Some(number) => percent(line@) == Some(number@),
            None => percent(line@) is None,
        },
{
    match final_word(line) {
        Some(word) => {
            let letters = chars_of(&word);
            let len: usize = letters.len();
            if len > 0 && letters[len - 1] == '%' {
                assert(word@.subrange(0, len - 1) == word@.drop_last());
                Some(between(&word, 0, len - 1))
            } else {
                None
            }
        },
        None => None,
    }
}

/// What one piece of the script's output reports.
pub open spec fn report(piece: Seq<char>) -> Option<InstallReport> {
    let t = trim(piece);
    if t.len() == 0 {
        None
    } else if ">>>"@.is_prefix_of(t) {
        Some(InstallReport::Stage(trim(strip_prefixes(t, ">"@))))
    } else {
        match percent(t) {
            Some(number) => Some(InstallReport::Percent(number)),
            None => None,
        }
    }
}

/// What one piece of the script's output reports.
pub fn read_piece(piece: &str) -> (event: Option<InstallEvent>)
    ensures
        match event {
            Some(e) => report(piece@) == Some(e@),
            None => report(piece@) is None,
        },
{
    let t = trimmed(piece);
    if t.as_str().is_empty() {
        None
    } else if starts_with(&t, ">>>") {
        Some(InstallEvent::Stage(trimmed(&without_prefixes(&t, ">"))))
    } else {
        match percent_text(&t) {
            Some(number) => Some(InstallEvent::Percent(number)),
            None => None,
        }
    }
}

/// What pieces of the script's output report, in order.
pub open spec fn reports(parts: Seq<Seq<char>>) -> Seq<InstallReport>
    decreases parts.len(),
{
    if parts.len() == 0 {
        Seq::empty()
    } else {
        let before = reports(parts.drop_last());
        match report(parts.last()) {
            Some(r) => before.push(r),
            None => before,
        }
    }
}

/// The texts of complete pieces of the script's output, without the byte that
/// ends each.
pub open spec fn piece_texts(lines: Seq<Seq<u8>>) -> Seq<Seq<char>> {
    lines.map_values(|line: Seq<u8>| text_in(line.drop_last()))
}

/// What a list of events stands for.
pub open spec fn reported(events: Seq<InstallEvent>) -> Seq<InstallReport> {
    events.map_values(|e: InstallEvent| e@)
}

/// The script's output while it is read: the bytes of a piece that has not ended
/// yet. The script redraws its bar behind a carriage return, with no line feed, so
/// a carriage return ends a piece too.
pub struct InstallReader {
    pending: Vec<u8>,
}

impl View for InstallReader {
    type V = Seq<u8>;

    closed spec fn view(&self) -> Seq<u8> {
        self.pending@
    }
}

/// What comes of more output: what it reports, and the reader to go on with.
pub struct InstallStep {
    pub events: Vec<InstallEvent>,
    pub reader: InstallReader,
}

proof fn lemma_reports_one(text: Seq<char>)
    ensures
        reports(seq![text]) == match report(text) {
            Some(r) => seq![r],
            None => Seq::empty(),
        },
{
    assert(seq![text].drop_last() == Seq::<Seq<char>>::empty());
    assert(reports(seq![text].drop_last()) == Seq::<InstallReport>::empty());
    assert(seq![text].last() == text);
    if let Some(r) = report(text) {
        assert(Seq::<InstallReport>::empty().push(r) == seq![r]);
    }
}

/// Adds what a piece of the output reports.
fn report_piece(piece: &Vec<u8>, events: &mut Vec<InstallEvent>)
    ensures
        reported(final(events)@) == reported(old(events)@) + reports(seq![text_in(piece@)]),
{
    let ghost before = reported(events@);
    proof {
        lemma_reports_one(text_in(piece@));
    }
    if let Some(event) = read_piece(&decoded(piece)) {
        events.push(event);
        assert(reported(events@) == before.push(event@));
    }
    assert(reported(events@) == before + reports(seq![text_in(piece@)]));
}

impl InstallReader {
    #[verifier::type_invariant]
    spec fn holds_one_piece(self) -> bool {
        unbroken(self.pending@, true)
    }

    /// Nothing has been read yet.
    pub fn new() -> (reader: Self)
        ensures
            reader@ == Seq::<u8>::empty(),
    {
        InstallReader { pending: Vec::new() }
    }

    /// Takes in more output: reports each piece that it completes, as soon as the
    /// carriage return or line feed behind the piece is there.
    pub fn step(self, bytes: &[u8]) -> (step: InstallStep)
        ensures
            reported(step.events@) == reports(piece_texts(cut(self@ + bytes@, true).lines)),
            step.reader@ == cut(self@ + bytes@, true).rest,
    {
        proof {
            use_type_invariant(&self);
        }
        let ghost start = self.pending@;
        let mut events: Vec<InstallEvent> = Vec::new();
        let mut pending = self.pending;
        let mut i: usize = 0;
        proof {
            lemma_cut_unbroken(start, true);
            assert(start + bytes@.take(0) == start);
            assert(piece_texts(Seq::<Seq<u8>>::empty()) == Seq::<Seq<char>>::empty());
            assert(reported(events@) == Seq::<InstallReport>::empty());
        }
        while i < bytes.len()
            invariant
                i <= bytes@.len(),
                pending@ == cut(start + bytes@.take(i as int), true).rest,
                reported(events@) == reports(
                    piece_texts(cut(start + bytes@.take(i as int), true).lines),
                ),
            decreases bytes@.len() - i,
        {
            let ghost now = start + bytes@.take(i + 1);
            let ghost before = cut(start + bytes@.take(i as int), true);
            assert(now.drop_last() == start + bytes@.take(i as int));
            assert(now.last() == bytes@[i as int]);
            let byte: u8 = bytes[i];
            if byte == 10 || byte == 13 {
                proof {
                    let line = pending@.push(byte);
                    let texts_before = piece_texts(before.lines);
                    assert(line.drop_last() == pending@);
                    assert(piece_texts(before.lines.push(line)) == texts_before + seq![
                        text_in(pending@),
                    ]);
                    lemma_reports_join(texts_before, seq![text_in(pending@)]);
                }
                report_piece(&pending, &mut events);
                pending = Vec::new();
            } else {
                pending.push(byte);
            }
            i = i + 1;
        }
        proof {
            assert(bytes@.take(i as int) == bytes@);
            lemma_cut_rest_unbroken(start + bytes@, true);
        }
        InstallStep { events, reader: InstallReader { pending } }
    }

    /// The output is at its end: what stands behind the last break is a piece too.
    pub fn finish(self) -> (events: Vec<InstallEvent>)
        ensures
            reported(events@) == reports(seq![text_in(self@)]),
    {
        let mut events: Vec<InstallEvent> = Vec::new();
        assert(reported(events@) == Seq::<InstallReport>::empty());
        report_piece(&self.pending, &mut events);
        assert(Seq::<InstallReport>::empty() + reports(seq![text_in(self@)]) == reports(
            seq![text_in(self@)],
        ));
        events
    }
}

/// The code that a process ended with, as it is shown.
pub open spec fn shown_code(code: Option<i32>) -> Seq<char> {
    match code {
        Some(n) => "Some("@ + signed_decimal(n as int) + ")"@,
        None => "None"@,
    }
}

/// What is said of an install that left no Ollama on disk: the beginning of what
/// the script complained of or, where it said nothing, how it ended.
pub open spec fn complaint(stderr: Seq<char>, success: bool, code: Option<i32>) -> Seq<char> {
    let said = trim(stderr);
    if said.len() > 300 {
        said.take(300)
    } else if said.len() > 0 {
        said
    } else if success {
        "the installer reported no error, but Ollama is not on disk"@
    } else {
        "installer exited with code "@ + shown_code(code)
    }
}

/// Judges an install that has ended. Only Ollama being on disk counts: a script
/// can fail on almost any line and still end as if it had not.
pub fn install_outcome(on_disk: bool, stderr: &str, success: bool, code: Option<i32>) -> (outcome:
    Result<(), Failure>)
    ensures
        outcome is Ok <==> on_disk,
        !on_disk ==> (outcome->Err_0 matches Failure::NotOnDiskAfterInstall(detail) && detail@
            == complaint(stderr@, success, code)),
{
    if on_disk {
        return Ok(());
    }
    let said = trimmed(stderr);
    let letters = chars_of(&said);
    let detail = if letters.len() > 300 {
        assert(said@.subrange(0, 300) == said@.take(300));
        between(&said, 0, 300)
    } else if letters.len() > 0 {
        said
    } else if success {
        "the installer reported no error, but Ollama is not on disk".to_owned()
    } else {
        let shown = match code {
            Some(n) => "Some(".to_owned().concat(&signed_decimal_text(n)).concat(")"),
            None => "None".to_owned(),
        };
        "installer exited with code ".to_owned().concat(&shown)
    };
    Err(Failure::NotOnDiskAfterInstall(detail))
}

proof fn lemma_reports_join(a: Seq<Seq<char>>, b: Seq<Seq<char>>)
    ensures
        reports(a + b) == reports(a) + reports(b),
    decreases b.len(),
{
    if b.len() == 0 {
        assert(a + b == a);
        assert(reports(a) + reports(b) == reports(a));
    } else {
        lemma_reports_join(a, b.drop_last());
        assert((a + b).drop_last() == a + b.drop_last());
        assert((a + b).last() == b.last());
        assert(reports(a + b) == reports(a) + reports(b));
    }
}

/// All that the script's whole output reports.
pub open spec fn output_reports(output: Seq<u8>) -> Seq<InstallReport> {
    let all = cut(output, true);
    reports(piece_texts(all.lines)) + reports(seq![text_in(all.rest)])
}

/// All that is reported while the output arrives in chunks and then ends, from
/// the state in which `pending` is held back.
pub open spec fn chunk_reports(pending: Seq<u8>, chunks: Seq<Seq<u8>>) -> Seq<InstallReport>
    decreases chunks.len(),
{
    if chunks.len() == 0 {
        reports(seq![text_in(pending)])
    } else {
        let now = cut(pending + chunks[0], true);
        reports(piece_texts(now.lines)) + chunk_reports(now.rest, chunks.skip(1))
    }
}

proof fn lemma_chunk_reports(pending: Seq<u8>, chunks: Seq<Seq<u8>>)
    requires
        unbroken(pending, true),
    ensures
        chunk_reports(pending, chunks) == output_reports(pending + chunks.flatten()),
    decreases chunks.len(),
{
    if chunks.len() == 0 {
        assert(pending + chunks.flatten() == pending);
        lemma_cut_unbroken(pending, true);
        assert(piece_texts(Seq::<Seq<u8>>::empty()) == Seq::<Seq<char>>::empty());
        assert(chunk_reports(pending, chunks) == output_reports(pending));
    } else {
        let first = pending + chunks[0];
        let others = chunks.skip(1);
        let rest = cut(first, true).rest;
        assert(others == chunks.drop_first());
        assert(pending + chunks.flatten() == first + others.flatten());
        lemma_cut_rest_unbroken(first, true);
        lemma_chunk_reports(rest, others);
        lemma_cut_join(first, others.flatten(), true);
        lemma_piece_texts_join(cut(first, true).lines, cut(rest + others.flatten(), true).lines);
        assert(chunk_reports(pending, chunks) == output_reports(first + others.flatten()));
    }
}

proof fn lemma_piece_texts_join(a: Seq<Seq<u8>>, b: Seq<Seq<u8>>)
    ensures
        reports(piece_texts(a + b)) == reports(piece_texts(a)) + reports(piece_texts(b)),
{
    assert(piece_texts(a + b) == piece_texts(a) + piece_texts(b));
    lemma_reports_join(piece_texts(a), piece_texts(b));
}

/// However the output is divided into chunks, what is reported is what the whole
/// of it reports.
pub proof fn law_output_chunks_do_not_matter(chunks: Seq<Seq<u8>>)
    ensures
        chunk_reports(Seq::empty(), chunks) == output_reports(chunks.flatten()),
{
    assert(Seq::<u8>::empty() + chunks.flatten() == chunks.flatten());
    lemma_chunk_reports(Seq::empty(), chunks);
}

/// A carriage return ends a report as a line feed does: what stands on either
/// side of one is reported as if it stood alone.
pub proof fn law_returns_and_feeds_divide_reports(a: Seq<u8>, c: u8, b: Seq<u8>)
    requires
        c == 13u8 || c == 10u8,
    ensures
        output_reports(a + seq![c] + b) == output_reports(a) + output_reports(b),
{
    let head = a + seq![c];
    let left = cut(a, true);
    let right = cut(b, true);
    assert(head.drop_last() == a);
    assert(head.last() == c);
    let line = left.rest.push(c);
    assert(cut(head, true).lines == left.lines.push(line));
    assert(cut(head, true).rest == Seq::<u8>::empty());
    lemma_cut_join(head, b, true);
    assert(Seq::<u8>::empty() + b == b);
    assert(cut(head + b, true).lines == left.lines.push(line) + right.lines);
    assert(left.lines.push(line) == left.lines + seq![line]);
    lemma_piece_texts_join(left.lines.push(line), right.lines);
    lemma_piece_texts_join(left.lines, seq![line]);
    assert(line.drop_last() == left.rest);
    assert(piece_texts(seq![line]) == seq![text_in(left.rest)]);
    assert(output_reports(head + b) == output_reports(a) + output_reports(b));
}

proof fn lemma_trimmed_line_ends_in_word(a: Seq<char>, word: Seq<char>, b: Seq<char>) -> (head: Seq<
    char,
>)
    requires
        a.len() > 0 ==> is_white(a.last()),
        word.len() > 0,
        forall|i: int| 0 <= i < word.len() ==> !is_white(#[trigger] word[i]),
        forall|i: int| 0 <= i < b.len() ==> is_white(#[trigger] b[i]),
    ensures
        trim(a + word + b) == head + word,
        head.len() > 0 ==> is_white(head.last()),
        a.len() > 0 && !is_white(a[0]) ==> head == a,
    decreases a.len(),
{
    let none = Seq::<char>::empty();
    if a.len() > 0 && is_white(a[0]) {
        let rest = a.skip(1);
        if rest.len() > 0 {
            assert(rest.last() == a.last());
        }
        let head = lemma_trimmed_line_ends_in_word(rest, word, b);
        let line = rest + word + b;
        law_trim_ignores_white_space_around(seq![a[0]], line, none);
        assert(seq![a[0]] + line + none == a + word + b);
        head
    } else {
        let line = a + word;
        assert(line.last() == word[word.len() - 1]);
        assert(line[0] == (if a.len() > 0 {
            a[0]
        } else {
            word[0]
        }));
        law_trim_leaves_what_stands_between(none, line, b);
        assert(none + line + b == line + b);
        a
    }
}

/// What stands in front of the percent sign that ends the last word of a line is
/// its percentage, whatever stands before that word and however much white space
/// behind; a line whose last word ends otherwise has none.
pub proof fn law_percentage_ends_the_last_word(a: Seq<char>, word: Seq<char>, b: Seq<char>)
    requires
        a.len() > 0 ==> is_white(a.last()),
        forall|i: int| 0 <= i < word.len() ==> !is_white(#[trigger] word[i]),
        forall|i: int| 0 <= i < b.len() ==> is_white(#[trigger] b[i]),
    ensures
        percent(a + word.push('%') + b) == Some(word),
        word.len() > 0 && word.last() != '%' ==> percent(a + word + b) is None,
        percent(b) is None,
{
    let whole = word.push('%');
    assert forall|i: int| 0 <= i < whole.len() implies !is_white(#[trigger] whole[i]) by {
        if i < word.len() {
            assert(whole[i] == word[i]);
        }
    }
    law_last_word_stands_last(a, whole, b);
    law_last_word_stands_last(a, word, b);
    assert(whole.drop_last() == word);
}

/// A piece that announces no stage and whose last word ends in a percent sign is
/// reported as the percentage in front of that sign.
pub proof fn law_percentage_is_reported(a: Seq<char>, n: Seq<char>, b: Seq<char>)
    requires
        a.len() > 0 ==> is_white(a.last()),
        forall|i: int| 0 <= i < n.len() ==> !is_white(#[trigger] n[i]),
        forall|i: int| 0 <= i < b.len() ==> is_white(#[trigger] b[i]),
        !">>>"@.is_prefix_of(trim(a + n.push('%') + b)),
    ensures
        report(a + n.push('%') + b) == Some(InstallReport::Percent(n)),
{
    let word = n.push('%');
    let none = Seq::<char>::empty();
    assert forall|i: int| 0 <= i < word.len() implies !is_white(#[trigger] word[i]) by {
        if i < n.len() {
            assert(word[i] == n[i]);
        }
    }
    let head = lemma_trimmed_line_ends_in_word(a, word, b);
    law_percentage_ends_the_last_word(head, n, none);
    assert(head + word + none == head + word);
}

/// The progress line of the script is reported: whatever the bar in front of it
/// looks like, so long as it begins with neither `>` nor white space, the
/// percentage behind it is.
pub proof fn law_bar_does_not_hide_the_percentage(bar: Seq<char>, n: Seq<char>)
    requires
        bar.len() > 0,
        bar[0] != '>',
        !is_white(bar[0]),
        forall|i: int| 0 <= i < n.len() ==> !is_white(#[trigger] n[i]),
    ensures
        report(bar + " "@ + n + "%"@) == Some(InstallReport::Percent(n)),
{
    reveal_strlit(" ");
    reveal_strlit("%");
    reveal_strlit(">>>");
    let none = Seq::<char>::empty();
    let a = bar + " "@;
    let word = n.push('%');
    assert forall|i: int| 0 <= i < word.len() implies !is_white(#[trigger] word[i]) by {
        if i < n.len() {
            assert(word[i] == n[i]);
        }
    }
    let head = lemma_trimmed_line_ends_in_word(a, word, none);
    assert(a[0] == bar[0]);
    assert((head + word)[0] == bar[0]);
    if ">>>"@.is_prefix_of(head + word) {
        assert(">>>"@[0] == (head + word)[0]);
    }
    law_percentage_is_reported(a, n, none);
    assert(a + word + none == bar + " "@ + n + "%"@);
}

proof fn lemma_strip_marks(marks: Seq<char>, rest: Seq<char>)
    requires
        forall|i: int| 0 <= i < marks.len() ==> #[trigger] marks[i] == '>',
        rest.len() > 0 ==> rest[0] != '>',
    ensures
        strip_prefixes(marks + rest, ">"@) == rest,
    decreases marks.len(),
{
    reveal_strlit(">");
    if marks.len() > 0 {
        let others = marks.skip(1);
        assert(marks[0] == '>');
        assert(marks + rest == ">"@ + (others + rest));
        assert forall|i: int| 0 <= i < others.len() implies #[trigger] others[i] == '>' by {
            assert(others[i] == marks[i + 1]);
        }
        law_leading_copies_are_dropped(">"@, others + rest);
        lemma_strip_marks(others, rest);
    } else {
        assert(marks + rest == rest);
        if ">"@.is_prefix_of(rest) {
            assert(">"@[0] == rest[0]);
        }
        law_leading_copies_are_dropped(">"@, rest);
    }
}

/// A piece that begins with `>>>`, after any white space, announces a stage: what
/// stands behind the marks, without white space around it.
pub proof fn law_stage_is_reported(
    a: Seq<char>,
    marks: Seq<char>,
    space: Seq<char>,
    label: Seq<char>,
    b: Seq<char>,
)
    requires
        forall|i: int| 0 <= i < a.len() ==> is_white(#[trigger] a[i]),
        marks.len() >= 3,
        forall|i: int| 0 <= i < marks.len() ==> #[trigger] marks[i] == '>',
        forall|i: int| 0 <= i < space.len() ==> is_white(#[trigger] space[i]),
        label.len() > 0 ==> !is_white(label[0]) && !is_white(label.last()),
        space.len() == 0 && label.len() > 0 ==> label[0] != '>',
        forall|i: int| 0 <= i < b.len() ==> is_white(#[trigger] b[i]),
    ensures
        report(a + marks + space + label + b) == Some(InstallReport::Stage(label)),
{
    reveal_strlit(">>>");
    let none = Seq::<char>::empty();
    let piece = a + marks + space + label + b;
    let inner = if label.len() > 0 {
        marks + space + label
    } else {
        marks
    };
    let behind = if label.len() > 0 {
        b
    } else {
        space + b
    };
    assert forall|i: int| 0 <= i < behind.len() implies is_white(#[trigger] behind[i]) by {
        if label.len() == 0 {
            if i < space.len() {
                assert(behind[i] == space[i]);
            } else {
                assert(behind[i] == b[i - space.len()]);
            }
        }
    }
    assert(piece == a + inner + behind);
    assert(inner[0] == marks[0]);
    assert(inner.last() == (if label.len() > 0 {
        label.last()
    } else {
        marks[marks.len() - 1]
    }));
    law_trim_leaves_what_stands_between(a, inner, behind);
    assert(">>>"@ == inner.subrange(0, 3)) by {
        assert(inner[0] == marks[0] && inner[1] == marks[1] && inner[2] == marks[2]);
    }
    let rest = if label.len() > 0 {
        space + label
    } else {
        none
    };
    assert(inner == marks + rest);
    if rest.len() > 0 {
        if space.len() > 0 {
            assert(rest[0] == space[0]);
        } else {
            assert(rest[0] == label[0]);
        }
    }
    lemma_strip_marks(marks, rest);
    if label.len() > 0 {
        law_trim_leaves_what_stands_between(space, label, none);
        assert(space + label + none == rest);
    } else {
        law_trim_leaves_what_stands_between(none, none, none);
        assert(none + none + none == rest);
        assert(label == none);
    }
}

/// A piece that announces no stage and does not end in a percent sign, once the
/// white space around it is gone, reports nothing.
pub proof fn law_nothing_else_is_reported(piece: Seq<char>)
    requires
        !">>>"@.is_prefix_of(trim(piece)),
        trim(piece).len() > 0 ==> trim(piece).last() != '%',
    ensures
        report(piece) is None,
{
    let t = trim(piece);
    lemma_trim_settles(piece);
    if t.len() > 0 {
        let i = t.len() - 1;
        assert(!is_white(t[i]));
        assert(trim_end(t) == t);
        assert(trailing_run(t).last() == t.last());
    }
}

/// Each piece is reported in its place, as if it stood alone.
pub proof fn law_each_piece_is_reported_in_its_place(
    a: Seq<Seq<char>>,
    piece: Seq<char>,
    b: Seq<Seq<char>>,
)
    ensures
        reports(a + seq![piece] + b) == reports(a) + (match report(piece) {
            Some(r) => seq![r],
            None => Seq::empty(),
        }) + reports(b),
        reports(Seq::empty()) == Seq::<InstallReport>::empty(),
{
    lemma_reports_join(a + seq![piece], b);
    lemma_reports_join(a, seq![piece]);
    lemma_reports_one(piece);
}

/// A piece is reported as soon as a carriage return or a line feed completes it,
/// and not before; and nothing of it is held back.
pub proof fn law_a_complete_piece_is_reported_at_once(pending: Seq<u8>, bytes: Seq<u8>, c: u8)
    requires
        forall|i: int|
            0 <= i < pending.len() ==> #[trigger] pending[i] != 10u8 && pending[i] != 13u8,
        forall|i: int| 0 <= i < bytes.len() ==> #[trigger] bytes[i] != 10u8 && bytes[i] != 13u8,
        c == 10u8 || c == 13u8,
    ensures
        cut(pending + bytes, true).lines.len() == 0,
        cut(pending + bytes, true).rest == pending + bytes,
        reports(piece_texts(cut(pending + bytes.push(c), true).lines)) == match report(
            text_in(pending + bytes),
        ) {
            Some(r) => seq![r],
            None => Seq::empty(),
        },
        cut(pending + bytes.push(c), true).rest == Seq::<u8>::empty(),
{
    let all = pending + bytes;
    assert forall|i: int| 0 <= i < all.len() implies #[trigger] all[i] != 10u8 && all[i]
        != 13u8 by {
        if i < pending.len() {
            assert(all[i] == pending[i]);
        } else {
            assert(all[i] == bytes[i - pending.len()]);
        }
    }
    assert(unbroken(all, true));
    lemma_cut_unbroken(all, true);
    let line = all.push(c);
    assert(pending + bytes.push(c) == line);
    assert(line.drop_last() == all);
    assert(cut(line, true).lines == seq![line]);
    assert(piece_texts(seq![line]) == seq![text_in(all)]);
    lemma_reports_one(text_in(all));
}

/// Where the output is divided makes no difference: what the first part completes
/// is reported, and then what the second completes of what the first left.
pub proof fn law_output_can_be_divided(pending: Seq<u8>, x: Seq<u8>, y: Seq<u8>)
    ensures
        ({
            let first = cut(pending + x, true);
            let second = cut(first.rest + y, true);
            let whole = cut(pending + (x + y), true);
            &&& reports(piece_texts(whole.lines)) == reports(piece_texts(first.lines)) + reports(
                piece_texts(second.lines),
            )
            &&& whole.rest == second.rest
        }),
{
    assert(pending + (x + y) == pending + x + y);
    lemma_cut_join(pending + x, y, true);
    lemma_piece_texts_join(
        cut(pending + x, true).lines,
        cut(cut(pending + x, true).rest + y, true).lines,
    );
}

/// While the script draws its bar, every percentage is reported as soon as the bar
/// is drawn anew: a line with any bar and a percentage behind it, as the script
/// writes it, is reported as that percentage.
pub proof fn law_progress_is_reported_while_it_is_drawn(bar: Seq<char>, n: Seq<char>, c: u8)
    requires
        bar.len() > 0,
        bar[0] != '>',
        !is_white(bar[0]),
        forall|i: int|
            0 <= i < bar.len() ==> #[trigger] bar[i] != '\n' && bar[i] != '\r',
        forall|i: int| 0 <= i < n.len() ==> !is_white(#[trigger] n[i]),
        c == 10u8 || c == 13u8,
    ensures
        reports(
            piece_texts(
                cut(Seq::<u8>::empty() + encode_utf8(bar + " "@ + n + "%"@).push(c), true).lines,
            ),
        ) == seq![InstallReport::Percent(n)],
{
    reveal_strlit(" ");
    reveal_strlit("%");
    let text = bar + " "@ + n + "%"@;
    let none = Seq::<u8>::empty();
    assert forall|i: int| 0 <= i < text.len() implies #[trigger] text[i] != '\n' && text[i]
        != '\r' by {
        if i < bar.len() {
            assert(text[i] == bar[i]);
        } else if bar.len() < i < bar.len() + 1 + n.len() {
            assert(text[i] == n[i - bar.len() - 1]);
        }
    }
    assert forall|i: int| 0 <= i < text.len() implies (#[trigger] text[i]) as int
        != 10u8 as int by {
        assert(text[i] != '\n');
    }
    lemma_encoding_has_no_other_ascii(text, 10u8);
    assert forall|i: int| 0 <= i < text.len() implies (#[trigger] text[i]) as int
        != 13u8 as int by {
        assert(text[i] != '\r');
    }
    lemma_encoding_has_no_other_ascii(text, 13u8);
    law_a_complete_piece_is_reported_at_once(none, encode_utf8(text), c);
    assert(none + encode_utf8(text) == encode_utf8(text));
    law_text_is_read_as_it_was_encoded(text, none);
    law_bar_does_not_hide_the_percentage(bar, n);
}

/// What is said of a failed install is what the script complained of, from its
/// first character that is not white space to its last but no more than 300
/// characters; and only where it said nothing, how it ended.
pub proof fn law_what_is_said_of_a_failed_install(
    a: Seq<char>,
    said: Seq<char>,
    b: Seq<char>,
    success: bool,
    code: i32,
)
    requires
        forall|i: int| 0 <= i < a.len() ==> is_white(#[trigger] a[i]),
        forall|i: int| 0 <= i < b.len() ==> is_white(#[trigger] b[i]),
        said.len() > 0 ==> !is_white(said[0]) && !is_white(said.last()),
    ensures
        0 < said.len() <= 300 ==> complaint(a + said + b, success, Some(code)) == said && complaint(
            a + said + b,
            success,
            None,
        ) == said,
        said.len() > 300 ==> complaint(a + said + b, success, Some(code)) == said.subrange(0, 300)
            && complaint(a + said + b, success, None) == said.subrange(0, 300),
        said.len() == 0 ==> complaint(a + said + b, true, Some(code))
            == "the installer reported no error, but Ollama is not on disk"@ && complaint(
            a + said + b,
            true,
            None,
        ) == "the installer reported no error, but Ollama is not on disk"@,
        said.len() == 0 ==> complaint(a + said + b, false, Some(code))
            == "installer exited with code Some("@ + signed_decimal(code as int) + ")"@
            && complaint(a + said + b, false, None) == "installer exited with code None"@,
{
    law_trim_leaves_what_stands_between(a, said, b);
    if said.len() > 300 {
        assert(said.take(300) == said.subrange(0, 300));
    }
    reveal_strlit("installer exited with code ");
    reveal_strlit("installer exited with code Some(");
    reveal_strlit("installer exited with code None");
    reveal_strlit("Some(");
    reveal_strlit("None");
    assert("installer exited with code "@ + "None"@ == "installer exited with code None"@);
    assert("installer exited with code "@ + "Some("@ == "installer exited with code Some("@);
    let digits = signed_decimal(code as int);
    assert("installer exited with code "@ + ("Some("@ + digits + ")"@) == "installer exited with code "@
        + "Some("@ + digits + ")"@);
}

/// Events stand for the like reports, each in its place.
pub proof fn law_events_stand_for_their_reports(s: String, events: Seq<InstallEvent>, i: int)
    requires
        0 <= i < events.len(),
    ensures
        InstallEvent::Stage(s)@ == InstallReport::Stage(s@),
        InstallEvent::Percent(s)@ == InstallReport::Percent(s@),
        reported(events).len() == events.len(),
        reported(events)[i] == events[i]@,
{
}

} // verus!
