//! Operations on text, each stated over the sequence of its characters.

use vstd::prelude::*;
use vstd::utf8::{
    decode_utf8, decode_utf8_encode_utf8, encode_scalar, encode_utf8, encode_utf8_decode_utf8,
    encode_utf8_valid_utf8, valid_utf8,
};

verus! {

/// The characters that Unicode gives the `White_Space` property.
pub open spec fn is_white(c: char) -> bool {
    ||| '\u{9}' <= c <= '\u{d}'
    ||| c == '\u{20}'
    ||| c == '\u{85}'
    ||| c == '\u{a0}'
    ||| c == '\u{1680}'
    ||| '\u{2000}' <= c <= '\u{200a}'
    ||| c == '\u{2028}'
    ||| c == '\u{2029}'
    ||| c == '\u{202f}'
    ||| c == '\u{205f}'
    ||| c == '\u{3000}'
}

/// Tells whether `c` is white space.
pub fn white(c: char) -> (yes: bool)
    ensures
        yes == is_white(c),
{
    ('\u{9}' <= c && c <= '\u{d}') || c == '\u{20}' || c == '\u{85}' || c == '\u{a0}'
        || c == '\u{1680}' || ('\u{2000}' <= c && c <= '\u{200a}') || c == '\u{2028}'
        || c == '\u{2029}' || c == '\u{202f}' || c == '\u{205f}' || c == '\u{3000}'
}

/// The characters of `s`, in order.
pub fn chars_of(s: &str) -> (out: Vec<char>)
    ensures
        out@ == s@,
{
    let mut out: Vec<char> = Vec::new();
    for c in iter: s.chars()
        invariant
            out@ == iter.seq().take(iter.index() as int),
            iter.seq() == s@,
    {
        out.push(c);
    }
    out
}


/// The texts that a list of strings holds.
pub open spec fn texts(v: Seq<String>) -> Seq<Seq<char>> {
    v.map_values(|s: String| s@)
}

/// The text that an optional string holds.
pub open spec fn optional_text(s: Option<String>) -> Option<Seq<char>> {
    match s {
        Some(s) => Some(s@),
        None => None,
    }
}

/// The part of `s` between two positions, both counted in characters.
pub(crate) fn between(s: &str, from: usize, to: usize) -> (out: String)
    requires
        from <= to <= s@.len(),
    ensures
        out@ == s@.subrange(from as int, to as int),
{
    s.substring_char(from, to).to_owned()
}

/// Tells whether `p` stands at position `from` of `s`.
fn stands_at(s: &Vec<char>, from: usize, p: &Vec<char>) -> (yes: bool)
    requires
        from <= s@.len(),
    ensures
        yes == p@.is_prefix_of(s@.skip(from as int)),
{
    let len: usize = s.len();
    if p.len() > len - from {
        return false;
    }
    let mut i: usize = 0;
    while i < p.len()
        invariant
            len == s@.len(),
            i <= p@.len() <= len - from,
            forall|j: int| 0 <= j < i ==> p@[j] == s@.skip(from as int)[j],
        decreases p@.len() - i,
    {
        if p[i] != s[from + i] {
            assert(p@[i as int] != s@.skip(from as int).subrange(0, p@.len() as int)[i as int]);
            return false;
        }
        i = i + 1;
    }
    true
}

/// Tells whether `s` begins with `p`.
pub fn starts_with(s: &str, p: &str) -> (yes: bool)
    ensures
        yes == p@.is_prefix_of(s@),
{
    let text = chars_of(s);
    let prefix = chars_of(p);
    assert(text@.skip(0) == s@);
    stands_at(&text, 0, &prefix)
}

/// Tells whether `s` and `t` hold the same characters.
pub fn same(s: &str, t: &str) -> (yes: bool)
    ensures
        yes == (s@ == t@),
{
    s.to_owned() == t.to_owned()
}

/// `s` without the white space it begins with.
pub open spec fn trim_start(s: Seq<char>) -> Seq<char>
    decreases s.len(),
{
    if s.len() > 0 && is_white(s[0]) {
        trim_start(s.skip(1))
    } else {
        s
    }
}

/// `s` without the white space it ends in.
pub open spec fn trim_end(s: Seq<char>) -> Seq<char>
    decreases s.len(),
{
    if s.len() > 0 && is_white(s.last()) {
        trim_end(s.drop_last())
    } else {
        s
    }
}

/// `s` without the white space around it.
pub open spec fn trim(s: Seq<char>) -> Seq<char> {
    trim_start(trim_end(s))
}

/// Tells whether `s` holds nothing but white space.
pub open spec fn is_blank(s: Seq<char>) -> bool {
    forall|i: int| 0 <= i < s.len() ==> is_white(#[trigger] s[i])
}

proof fn lemma_trim_start_at(s: Seq<char>, i: int)
    requires
        0 <= i <= s.len(),
        forall|j: int| 0 <= j < i ==> is_white(#[trigger] s[j]),
        i < s.len() ==> !is_white(s[i]),
    ensures
        trim_start(s) == s.skip(i),
    decreases i,
{
    if i > 0 {
        assert(is_white(s[0]));
        assert forall|j: int| 0 <= j < i - 1 implies is_white(#[trigger] s.skip(1)[j]) by {
            assert(is_white(s[j + 1]));
        }
        lemma_trim_start_at(s.skip(1), i - 1);
        assert(s.skip(1).skip(i - 1) == s.skip(i));
    } else {
        assert(s.skip(0) == s);
    }
}

proof fn lemma_trim_end_at(s: Seq<char>, i: int)
    requires
        0 <= i <= s.len(),
        forall|j: int| i <= j < s.len() ==> is_white(#[trigger] s[j]),
        i > 0 ==> !is_white(s[i - 1]),
    ensures
        trim_end(s) == s.take(i),
    decreases s.len(),
{
    if i < s.len() {
        lemma_trim_end_at(s.drop_last(), i);
        assert(s.drop_last().take(i) == s.take(i));
    } else {
        assert(s.take(i) == s);
    }
}

/// What trimming leaves is empty just where there was nothing but white space.
pub proof fn law_blank_is_what_trims_to_nothing(s: Seq<char>)
    ensures
        trim(s).len() == 0 <==> is_blank(s),
    decreases s.len(),
{
    if s.len() > 0 {
        if is_white(s.last()) {
            law_blank_is_what_trims_to_nothing(s.drop_last());
            assert(is_blank(s.drop_last()) ==> is_blank(s)) by {
                if is_blank(s.drop_last()) {
                    assert forall|i: int| 0 <= i < s.len() implies is_white(#[trigger] s[i]) by {
                        if i < s.len() - 1 {
                            assert(is_white(s.drop_last()[i]));
                        }
                    }
                }
            }
            if is_blank(s) {
                assert forall|i: int| 0 <= i < s.drop_last().len() implies is_white(
                    #[trigger] s.drop_last()[i],
                ) by {
                    assert(is_white(s[i]));
                }
            }
        } else {
            lemma_trim_start_keeps(s);
        }
    }
}

proof fn lemma_trim_start_keeps(s: Seq<char>)
    requires
        s.len() > 0,
        !is_white(s.last()),
    ensures
        trim_start(s).len() > 0,
    decreases s.len(),
{
    if is_white(s[0]) {
        lemma_trim_start_keeps(s.skip(1));
    }
}

/// Text with no white space at either end is left as it is.
pub proof fn lemma_trim_nothing(s: Seq<char>)
    requires
        s.len() > 0 ==> !is_white(s[0]) && !is_white(s.last()),
    ensures
        trim(s) == s,
{
}

proof fn lemma_trim_start_ends(s: Seq<char>)
    requires
        s.len() > 0 ==> !is_white(s.last()),
    ensures
        trim_start(s).len() > 0 ==> !is_white(trim_start(s)[0]) && !is_white(trim_start(s).last()),
    decreases s.len(),
{
    if s.len() > 0 && is_white(s[0]) {
        lemma_trim_start_ends(s.skip(1));
    }
}

proof fn lemma_trim_end_ends(s: Seq<char>)
    ensures
        trim_end(s).len() > 0 ==> !is_white(trim_end(s).last()),
    decreases s.len(),
{
    if s.len() > 0 && is_white(s.last()) {
        lemma_trim_end_ends(s.drop_last());
    }
}

/// Trimmed text has no white space at either end, so trimming it again changes
/// nothing.
pub proof fn lemma_trim_settles(s: Seq<char>)
    ensures
        trim(s).len() > 0 ==> !is_white(trim(s)[0]) && !is_white(trim(s).last()),
        trim(trim(s)) == trim(s),
{
    lemma_trim_end_ends(s);
    lemma_trim_start_ends(trim_end(s));
    lemma_trim_nothing(trim(s));
}

/// `s` without the white space around it.
pub fn trimmed(s: &str) -> (out: String)
    ensures
        out@ == trim(s@),
{
    let text = chars_of(s);
    let mut end: usize = text.len();
    while end > 0 && white(text[end - 1])
        invariant
            end <= text@.len(),
            forall|j: int| end <= j < text@.len() ==> is_white(#[trigger] text@[j]),
        decreases end,
    {
        end = end - 1;
    }
    let mut start: usize = 0;
    while start < end && white(text[start])
        invariant
            start <= end <= text@.len(),
            forall|j: int| 0 <= j < start ==> is_white(#[trigger] text@[j]),
        decreases end - start,
    {
        start = start + 1;
    }
    proof {
        lemma_trim_end_at(text@, end as int);
        let head = text@.take(end as int);
        assert forall|j: int| 0 <= j < start implies is_white(#[trigger] head[j]) by {
            assert(is_white(text@[j]));
        }
        lemma_trim_start_at(head, start as int);
        assert(head.skip(start as int) == s@.subrange(start as int, end as int));
    }
    between(s, start, end)
}

/// Tells whether `s` holds nothing but white space.
pub fn blank(s: &str) -> (yes: bool)
    ensures
        yes == is_blank(s@),
{
    let text = chars_of(s);
    let mut i: usize = 0;
    while i < text.len()
        invariant
            i <= text@.len(),
            text@ == s@,
            forall|j: int| 0 <= j < i ==> is_white(#[trigger] text@[j]),
        decreases text@.len() - i,
    {
        if !white(text[i]) {
            assert(!is_white(s@[i as int]));
            return false;
        }
        i = i + 1;
    }
    true
}

/// `s` without every leading copy of `p`.
pub open spec fn strip_prefixes(s: Seq<char>, p: Seq<char>) -> Seq<char>
    decreases s.len(),
{
    if p.len() > 0 && p.is_prefix_of(s) {
        strip_prefixes(s.skip(p.len() as int), p)
    } else {
        s
    }
}

/// `s` without every leading copy of `p`.
pub fn without_prefixes(s: &str, p: &str) -> (out: String)
    ensures
        out@ == strip_prefixes(s@, p@),
{
    let text = chars_of(s);
    let prefix = chars_of(p);
    let len: usize = text.len();
    let mut from: usize = 0;
    assert(s@.skip(0) == s@);
    while prefix.len() > 0 && stands_at(&text, from, &prefix)
        invariant
            len == text@.len(),
            from <= len,
            text@ == s@,
            prefix@ == p@,
            strip_prefixes(s@, p@) == strip_prefixes(s@.skip(from as int), p@),
        decreases text@.len() - from,
    {
        assert(s@.skip(from as int).skip(p@.len() as int) == s@.skip(from + p@.len()));
        from = from + prefix.len();
    }
    assert(s@.subrange(from as int, s@.len() as int) == s@.skip(from as int));
    between(s, from, text.len())
}

/// `s` without every trailing `c`.
pub open spec fn strip_trailing(s: Seq<char>, c: char) -> Seq<char>
    decreases s.len(),
{
    if s.len() > 0 && s.last() == c {
        strip_trailing(s.drop_last(), c)
    } else {
        s
    }
}

/// `s` without every trailing `c`.
pub fn without_trailing(s: &str, c: char) -> (out: String)
    ensures
        out@ == strip_trailing(s@, c),
{
    let text = chars_of(s);
    let mut end: usize = text.len();
    assert(s@.take(s@.len() as int) == s@);
    while end > 0 && text[end - 1] == c
        invariant
            end <= text@.len(),
            text@ == s@,
            strip_trailing(s@, c) == strip_trailing(s@.take(end as int), c),
        decreases end,
    {
        assert(s@.take(end as int).drop_last() == s@.take(end - 1));
        end = end - 1;
    }
    assert(s@.subrange(0, end as int) == s@.take(end as int));
    between(s, 0, end)
}

/// The run of characters other than white space that `s` ends in.
pub open spec fn trailing_run(s: Seq<char>) -> Seq<char>
    decreases s.len(),
{
    if s.len() > 0 && !is_white(s.last()) {
        trailing_run(s.drop_last()).push(s.last())
    } else {
        Seq::empty()
    }
}

proof fn lemma_trailing_run_at(s: Seq<char>, i: int)
    requires
        0 <= i <= s.len(),
        forall|j: int| i <= j < s.len() ==> !is_white(#[trigger] s[j]),
        i > 0 ==> is_white(s[i - 1]),
    ensures
        trailing_run(s) == s.skip(i),
    decreases s.len(),
{
    if i < s.len() {
        lemma_trailing_run_at(s.drop_last(), i);
        assert(s.drop_last().skip(i).push(s.last()) == s.skip(i));
    }
}

/// The last of the words that white space divides `s` into.
pub open spec fn last_word(s: Seq<char>) -> Option<Seq<char>> {
    if is_blank(s) {
        None
    } else {
        Some(trailing_run(trim_end(s)))
    }
}

/// The last of the words that white space divides `s` into.
pub fn final_word(s: &str) -> (out: Option<String>)
    ensures
        match out {
            Some(word) => last_word(s@) == Some(word@),
            None => last_word(s@) is None,
        },
{
    let text = chars_of(s);
    let mut end: usize = text.len();
    while end > 0 && white(text[end - 1])
        invariant
            end <= text@.len(),
            forall|j: int| end <= j < text@.len() ==> is_white(#[trigger] text@[j]),
        decreases end,
    {
        end = end - 1;
    }
    if end == 0 {
        return None;
    }
    proof {
        lemma_trim_end_at(text@, end as int);
        assert(!is_white(s@[end - 1]));
    }
    let ghost head = s@.take(end as int);
    let mut start: usize = end;
    while start > 0 && !white(text[start - 1])
        invariant
            start <= end <= text@.len(),
            forall|j: int| start <= j < end ==> !is_white(#[trigger] text@[j]),
        decreases start,
    {
        start = start - 1;
    }
    proof {
        assert forall|j: int| start <= j < head.len() implies !is_white(#[trigger] head[j]) by {
            assert(!is_white(text@[j]));
        }
        lemma_trailing_run_at(head, start as int);
        assert(head.skip(start as int) == s@.subrange(start as int, end as int));
    }
    Some(between(s, start, end))
}

/// `s` cut at every character that occurs in `breaks`.
pub open spec fn pieces(s: Seq<char>, breaks: Seq<char>) -> Seq<Seq<char>>
    decreases s.len(),
{
    if s.len() == 0 {
        seq![Seq::<char>::empty()]
    } else {
        let before = pieces(s.drop_last(), breaks);
        if breaks.contains(s.last()) {
            before.push(Seq::<char>::empty())
        } else {
            before.drop_last().push(before.last().push(s.last()))
        }
    }
}

/// Tells whether `c` occurs in `set`.
fn occurs(c: char, set: &Vec<char>) -> (yes: bool)
    ensures
        yes == set@.contains(c),
{
    let mut i: usize = 0;
    while i < set.len()
        invariant
            i <= set@.len(),
            forall|j: int| 0 <= j < i ==> set@[j] != c,
        decreases set@.len() - i,
    {
        if set[i] == c {
            return true;
        }
        i = i + 1;
    }
    false
}

/// `s` cut at every character that occurs in `breaks`.
pub fn split_at_any(s: &str, breaks: &str) -> (out: Vec<String>)
    ensures
        texts(out@) == pieces(s@, breaks@),
{
    let text = chars_of(s);
    let set = chars_of(breaks);
    let mut out: Vec<String> = Vec::new();
    let mut start: usize = 0;
    let mut i: usize = 0;
    assert(s@.take(0) == Seq::<char>::empty());
    assert(s@.subrange(0, 0) == Seq::<char>::empty());
    assert(texts(out@).push(s@.subrange(0, 0)) =~= pieces(s@.take(0), breaks@));
    while i < text.len()
        invariant
            start <= i <= text@.len(),
            text@ == s@,
            set@ == breaks@,
            texts(out@).push(s@.subrange(start as int, i as int)) == pieces(
                s@.take(i as int),
                breaks@,
            ),
        decreases text@.len() - i,
    {
        let ghost before = pieces(s@.take(i as int), breaks@);
        let ghost so_far = texts(out@);
        assert(s@.take(i + 1).drop_last() == s@.take(i as int));
        assert(before.drop_last() == so_far);
        assert(before.last() == s@.subrange(start as int, i as int));
        if occurs(text[i], &set) {
            let piece = between(s, start, i);
            out.push(piece);
            start = i + 1;
            assert(texts(out@) == so_far.push(piece@));
            assert(s@.subrange(start as int, i + 1) == Seq::<char>::empty());
        } else {
            assert(s@.subrange(start as int, i + 1) == s@.subrange(start as int, i as int).push(
                s@[i as int],
            ));
        }
        i = i + 1;
    }
    assert(s@.take(i as int) == s@);
    let piece = between(s, start, i);
    let ghost so_far = texts(out@);
    out.push(piece);
    assert(texts(out@) == so_far.push(piece@));
    out
}

/// The character of a decimal digit.
pub open spec fn digit(d: nat) -> char {
    if d == 0 {
        '0'
    } else if d == 1 {
        '1'
    } else if d == 2 {
        '2'
    } else if d == 3 {
        '3'
    } else if d == 4 {
        '4'
    } else if d == 5 {
        '5'
    } else if d == 6 {
        '6'
    } else if d == 7 {
        '7'
    } else if d == 8 {
        '8'
    } else {
        '9'
    }
}

/// `n` in decimal, with no leading zero.
pub open spec fn decimal(n: nat) -> Seq<char>
    decreases n,
{
    if n < 10 {
        seq![digit(n)]
    } else {
        decimal(n / 10).push(digit(n % 10))
    }
}

/// `n` in decimal, with a leading `-` where it is negative.
pub open spec fn signed_decimal(n: int) -> Seq<char> {
    if n < 0 {
        seq!['-'] + decimal((-n) as nat)
    } else {
        decimal(n as nat)
    }
}

fn digit_text(d: u64) -> (out: &'static str)
    requires
        d < 10,
    ensures
        out@ == seq![digit(d as nat)],
{
    proof {
        reveal_strlit("0");
        reveal_strlit("1");
        reveal_strlit("2");
        reveal_strlit("3");
        reveal_strlit("4");
        reveal_strlit("5");
        reveal_strlit("6");
        reveal_strlit("7");
        reveal_strlit("8");
        reveal_strlit("9");
    }
    match d {
        0 => "0",
        1 => "1",
        2 => "2",
        3 => "3",
        4 => "4",
        5 => "5",
        6 => "6",
        7 => "7",
        8 => "8",
        _ => "9",
    }
}

/// `n` in decimal, with no leading zero.
pub fn decimal_text(n: u64) -> (out: String)
    ensures
        out@ == decimal(n as nat),
    decreases n,
{
    if n < 10 {
        digit_text(n).to_owned()
    } else {
        let mut out = decimal_text(n / 10);
        out.append(digit_text(n % 10));
        out
    }
}

/// `n` in decimal, with a leading `-` where it is negative.
pub fn signed_decimal_text(n: i32) -> (out: String)
    ensures
        out@ == signed_decimal(n as int),
{
    if n < 0 {
        proof {
            reveal_strlit("-");
        }
        let mut out = "-".to_owned();
        out.append(&decimal_text((-(n as i64)) as u64));
        out
    } else {
        decimal_text(n as u64)
    }
}

/// What `String::from_utf8_lossy` makes of bytes.
pub uninterp spec fn lossy_text(bytes: Seq<u8>) -> Seq<char>;

/// Calls `String::from_utf8_lossy`. The text depends on the bytes alone, and
/// where they are UTF-8 it is what they encode. What stands for bytes that are
/// not is left unsaid.
#[verifier::external_body]
fn from_utf8_lossy(bytes: &[u8]) -> (out: String)
    ensures
        out@ == lossy_text(bytes@),
        valid_utf8(bytes@) ==> out@ == decode_utf8(bytes@),
{
    String::from_utf8_lossy(bytes).to_string()
}

/// The text that bytes stand for: what they encode where they are UTF-8, and
/// otherwise what can be made of them.
pub open spec fn text_in(bytes: Seq<u8>) -> Seq<char> {
    if valid_utf8(bytes) {
        decode_utf8(bytes)
    } else {
        lossy_text(bytes)
    }
}

/// The text that bytes stand for.
pub fn decoded(bytes: &[u8]) -> (out: String)
    ensures
        out@ == text_in(bytes@),
{
    from_utf8_lossy(bytes)
}

/// White space, by the code points that Unicode lists for it.
pub proof fn law_white_space_by_code_point(c: char)
    ensures
        is_white(c) <==> {
            let n = c as u32;
            ||| 9 <= n <= 13
            ||| 8192 <= n <= 8202
            ||| n == 32 || n == 133 || n == 160 || n == 5760 || n == 8232
            ||| n == 8233 || n == 8239 || n == 8287 || n == 12288
        },
{
}

/// Trimming takes off the white space on either side, all of it and nothing
/// else: what stands between, from the first character that is not white space
/// to the last, is left as it is.
pub proof fn law_trim_leaves_what_stands_between(a: Seq<char>, core: Seq<char>, b: Seq<char>)
    requires
        forall|i: int| 0 <= i < a.len() ==> is_white(#[trigger] a[i]),
        forall|i: int| 0 <= i < b.len() ==> is_white(#[trigger] b[i]),
        core.len() > 0 ==> !is_white(core[0]) && !is_white(core.last()),
    ensures
        trim(a + core + b) == core,
{
    let s = a + core + b;
    if core.len() == 0 {
        assert forall|j: int| 0 <= j < s.len() implies is_white(#[trigger] s[j]) by {
            if j < a.len() {
                assert(s[j] == a[j]);
            } else {
                assert(s[j] == b[j - a.len()]);
            }
        }
        lemma_trim_end_at(s, 0);
        assert(trim(s) == core);
    } else {
        let end = (a + core).len() as int;
        assert forall|j: int| end <= j < s.len() implies is_white(#[trigger] s[j]) by {
            assert(s[j] == b[j - end]);
        }
        assert(s[end - 1] == core.last());
        lemma_trim_end_at(s, end);
        assert(s.take(end) == a + core);
        assert forall|j: int| 0 <= j < a.len() implies is_white(#[trigger] (a + core)[j]) by {
            assert((a + core)[j] == a[j]);
        }
        assert((a + core)[a.len() as int] == core[0]);
        lemma_trim_start_at(a + core, a.len() as int);
        assert((a + core).skip(a.len() as int) == core);
    }
}

/// White space on either side makes no difference to what trimming leaves.
pub proof fn law_trim_ignores_white_space_around(a: Seq<char>, s: Seq<char>, b: Seq<char>)
    requires
        forall|i: int| 0 <= i < a.len() ==> is_white(#[trigger] a[i]),
        forall|i: int| 0 <= i < b.len() ==> is_white(#[trigger] b[i]),
    ensures
        trim(a + s + b) == trim(s),
{
    let (x, core, y) = lemma_trim_parts(s);
    assert(s == x + core + y);
    let left = a + x;
    let right = y + b;
    assert forall|i: int| 0 <= i < left.len() implies is_white(#[trigger] left[i]) by {
        if i < a.len() {
            assert(left[i] == a[i]);
        } else {
            assert(left[i] == x[i - a.len()]);
        }
    }
    assert forall|i: int| 0 <= i < right.len() implies is_white(#[trigger] right[i]) by {
        if i < y.len() {
            assert(right[i] == y[i]);
        } else {
            assert(right[i] == b[i - y.len()]);
        }
    }
    law_trim_leaves_what_stands_between(x, core, y);
    law_trim_leaves_what_stands_between(left, core, right);
    assert(a + s + b == left + core + right);
}

/// Every text is white space, then what trimming leaves, then white space.
pub proof fn lemma_trim_parts(s: Seq<char>) -> (parts: (Seq<char>, Seq<char>, Seq<char>))
    ensures
        s == parts.0 + parts.1 + parts.2,
        forall|i: int| 0 <= i < parts.0.len() ==> is_white(#[trigger] parts.0[i]),
        forall|i: int| 0 <= i < parts.2.len() ==> is_white(#[trigger] parts.2[i]),
        parts.1.len() > 0 ==> !is_white(parts.1[0]) && !is_white(parts.1.last()),
        parts.1 == trim(s),
    decreases s.len(),
{
    let none = Seq::<char>::empty();
    if s.len() > 0 && is_white(s.last()) {
        let (x, core, y) = lemma_trim_parts(s.drop_last());
        let last = y.push(s.last());
        assert forall|i: int| 0 <= i < last.len() implies is_white(#[trigger] last[i]) by {
            if i < y.len() {
                assert(last[i] == y[i]);
            }
        }
        assert(s == s.drop_last().push(s.last()));
        assert(s == x + core + last);
        law_trim_leaves_what_stands_between(x, core, last);
        (x, core, last)
    } else if s.len() > 0 && is_white(s[0]) {
        let (x, core, y) = lemma_trim_parts(s.skip(1));
        let first = seq![s[0]] + x;
        assert forall|i: int| 0 <= i < first.len() implies is_white(#[trigger] first[i]) by {
            if i > 0 {
                assert(first[i] == x[i - 1]);
            }
        }
        assert(s == seq![s[0]] + s.skip(1));
        assert(s == first + core + y);
        law_trim_leaves_what_stands_between(first, core, y);
        (first, core, y)
    } else {
        assert(s == none + s + none);
        law_trim_leaves_what_stands_between(none, s, none);
        (none, s, none)
    }
}

/// The last word of a text is the run without white space that stands behind all
/// other white space but what ends the text; text of nothing but white space has
/// none.
pub proof fn law_last_word_stands_last(a: Seq<char>, word: Seq<char>, b: Seq<char>)
    requires
        a.len() > 0 ==> is_white(a.last()),
        forall|i: int| 0 <= i < word.len() ==> !is_white(#[trigger] word[i]),
        forall|i: int| 0 <= i < b.len() ==> is_white(#[trigger] b[i]),
    ensures
        word.len() > 0 ==> last_word(a + word + b) == Some(word),
        last_word(b) is None,
{
    if word.len() > 0 {
        let s = a + word + b;
        let end = (a + word).len() as int;
        assert(s[end - 1] == word.last());
        assert(!is_white(s[end - 1]));
        assert forall|j: int| end <= j < s.len() implies is_white(#[trigger] s[j]) by {
            assert(s[j] == b[j - end]);
        }
        lemma_trim_end_at(s, end);
        assert(s.take(end) == a + word);
        assert forall|j: int| a.len() <= j < (a + word).len() implies !is_white(
            #[trigger] (a + word)[j],
        ) by {
            assert((a + word)[j] == word[j - a.len()]);
        }
        if a.len() > 0 {
            assert((a + word)[a.len() - 1] == a.last());
        }
        lemma_trailing_run_at(a + word, a.len() as int);
        assert((a + word).skip(a.len() as int) == word);
    }
}

/// A leading copy of `p` is dropped, and where there is none nothing is.
pub proof fn law_leading_copies_are_dropped(p: Seq<char>, s: Seq<char>)
    requires
        p.len() > 0,
    ensures
        strip_prefixes(p + s, p) == strip_prefixes(s, p),
        !p.is_prefix_of(s) ==> strip_prefixes(s, p) == s,
{
    assert((p + s).subrange(0, p.len() as int) == p);
    assert((p + s).skip(p.len() as int) == s);
}

/// Every `c` at the end is dropped, and nothing in front of them is.
pub proof fn law_trailing_copies_are_dropped(root: Seq<char>, tail: Seq<char>, c: char)
    requires
        root.len() > 0 ==> root.last() != c,
        forall|i: int| 0 <= i < tail.len() ==> #[trigger] tail[i] == c,
    ensures
        strip_trailing(root + tail, c) == root,
    decreases tail.len(),
{
    if tail.len() > 0 {
        assert((root + tail).last() == tail[tail.len() - 1]);
        assert((root + tail).drop_last() == root + tail.drop_last());
        law_trailing_copies_are_dropped(root, tail.drop_last(), c);
    } else {
        assert(root + tail == root);
    }
}

/// Text is cut at each break and nowhere else: what stands on either side of one
/// is cut as if it stood alone, and text without a break is one piece.
pub proof fn law_pieces_are_cut_at_breaks(a: Seq<char>, c: char, b: Seq<char>, breaks: Seq<char>)
    requires
        breaks.contains(c),
    ensures
        pieces(a + seq![c] + b, breaks) == pieces(a, breaks) + pieces(b, breaks),
        (forall|i: int| 0 <= i < a.len() ==> !breaks.contains(#[trigger] a[i])) ==> pieces(
            a,
            breaks,
        ) == seq![a],
{
    lemma_pieces_join(a, c, b, breaks);
    if forall|i: int| 0 <= i < a.len() ==> !breaks.contains(#[trigger] a[i]) {
        lemma_pieces_whole(a, breaks);
    }
}

proof fn lemma_pieces_some(s: Seq<char>, breaks: Seq<char>)
    ensures
        pieces(s, breaks).len() > 0,
    decreases s.len(),
{
    if s.len() > 0 {
        lemma_pieces_some(s.drop_last(), breaks);
    }
}

proof fn lemma_pieces_whole(s: Seq<char>, breaks: Seq<char>)
    requires
        forall|i: int| 0 <= i < s.len() ==> !breaks.contains(#[trigger] s[i]),
    ensures
        pieces(s, breaks) == seq![s],
    decreases s.len(),
{
    if s.len() > 0 {
        let head = s.drop_last();
        assert forall|i: int| 0 <= i < head.len() implies !breaks.contains(#[trigger] head[i]) by {
            assert(head[i] == s[i]);
        }
        lemma_pieces_whole(head, breaks);
        assert(!breaks.contains(s[s.len() - 1]));
        assert(head.push(s.last()) == s);
        assert(pieces(s, breaks) == seq![s]);
    } else {
        assert(s == Seq::<char>::empty());
    }
}

proof fn lemma_pieces_join(a: Seq<char>, c: char, b: Seq<char>, breaks: Seq<char>)
    requires
        breaks.contains(c),
    ensures
        pieces(a + seq![c] + b, breaks) == pieces(a, breaks) + pieces(b, breaks),
    decreases b.len(),
{
    let s = a + seq![c] + b;
    if b.len() == 0 {
        assert(s.drop_last() == a);
        assert(s.last() == c);
        assert(pieces(s, breaks) == pieces(a, breaks) + pieces(b, breaks));
    } else {
        let head = b.drop_last();
        lemma_pieces_join(a, c, head, breaks);
        lemma_pieces_some(head, breaks);
        assert(s.drop_last() == a + seq![c] + head);
        assert(s.last() == b.last());
        assert(pieces(s, breaks) == pieces(a, breaks) + pieces(b, breaks));
    }
}

/// The number that a run of decimal digits stands for.
pub open spec fn numeral(s: Seq<char>) -> int
    decreases s.len(),
{
    if s.len() == 0 {
        0
    } else {
        10 * numeral(s.drop_last()) + (s.last() as int - '0' as int)
    }
}

/// A number is written in decimal digits that stand for it, without a needless
/// zero in front.
pub proof fn law_decimal_stands_for_its_number(n: nat)
    ensures
        numeral(decimal(n)) == n,
        decimal(n).len() > 0,
        forall|i: int| 0 <= i < decimal(n).len() ==> '0' <= #[trigger] decimal(n)[i] <= '9',
        n > 0 ==> decimal(n)[0] != '0',
        n == 0 ==> decimal(n).len() == 1,
    decreases n,
{
    let s = decimal(n);
    let d = n % 10;
    assert(digit(d) as int == '0' as int + d);
    if n < 10 {
        assert(s.drop_last() == Seq::<char>::empty());
        assert(numeral(s.drop_last()) == 0);
        assert(s.last() == digit(n));
    } else {
        law_decimal_stands_for_its_number(n / 10);
        assert(s.drop_last() == decimal(n / 10));
        assert forall|i: int| 0 <= i < s.len() implies '0' <= #[trigger] s[i] <= '9' by {
            if i < s.len() - 1 {
                assert(s[i] == decimal(n / 10)[i]);
            }
        }
        assert(s[0] == decimal(n / 10)[0]);
    }
}

/// A negative number is written as its opposite behind a `-`, and any other as it
/// is.
pub proof fn law_sign_stands_in_front(n: int)
    ensures
        n >= 0 ==> numeral(signed_decimal(n)) == n && signed_decimal(n) == decimal(n as nat),
        n < 0 ==> signed_decimal(n)[0] == '-' && numeral(signed_decimal(n).skip(1)) == -n
            && signed_decimal(n).skip(1) == decimal((-n) as nat),
{
    if n < 0 {
        law_decimal_stands_for_its_number((-n) as nat);
        assert(signed_decimal(n).skip(1) == decimal((-n) as nat));
    } else {
        law_decimal_stands_for_its_number(n as nat);
    }
}

/// Bytes that encode a text are read as that text; and all bytes that are UTF-8
/// encode what they are read as.
pub proof fn law_text_is_read_as_it_was_encoded(s: Seq<char>, bytes: Seq<u8>)
    ensures
        text_in(encode_utf8(s)) == s,
        valid_utf8(bytes) ==> encode_utf8(text_in(bytes)) == bytes,
        !valid_utf8(bytes) ==> text_in(bytes) == lossy_text(bytes),
{
    encode_utf8_valid_utf8(s);
    encode_utf8_decode_utf8(s);
    if valid_utf8(bytes) {
        decode_utf8_encode_utf8(bytes);
    }
}

/// A list of strings holds the text of each, in its place.
pub proof fn law_texts_stand_in_their_places(v: Seq<String>, i: int)
    requires
        0 <= i < v.len(),
    ensures
        texts(v).len() == v.len(),
        texts(v)[i] == v[i]@,
        optional_text(Some(v[i])) == Some(v[i]@),
        optional_text(None) is None,
{
}

/// A text is encoded character by character.
pub proof fn lemma_encode_join(a: Seq<char>, b: Seq<char>)
    ensures
        encode_utf8(a + b) == encode_utf8(a) + encode_utf8(b),
    decreases a.len(),
{
    if a.len() == 0 {
        assert(a + b == b);
        assert(encode_utf8(a) + encode_utf8(b) == encode_utf8(b));
    } else {
        lemma_encode_join(a.drop_first(), b);
        assert((a + b).drop_first() == a.drop_first() + b);
        assert((a + b)[0] == a[0]);
        assert(encode_utf8(a + b) == encode_utf8(a) + encode_utf8(b));
    }
}

proof fn lemma_scalar_has_no_other_ascii(c: char, byte: u8)
    requires
        byte < 0x80,
        c as int != byte as int,
    ensures
        forall|i: int|
            0 <= i < encode_scalar(c as u32).len() ==> #[trigger] encode_scalar(c as u32)[i]
                != byte,
{
    let s = c as u32;
    assert(s <= 0x7f ==> (s & 0x7f) as u8 as u32 == s) by (bit_vector);
    let x2 = ((s >> 6) & 0x1F) as u8;
    let x3 = ((s >> 12) & 0x0F) as u8;
    let x4 = ((s >> 18) & 0x7) as u8;
    let y1 = (s & 0x3F) as u8;
    let y2 = ((s >> 6) & 0x3F) as u8;
    let y3 = ((s >> 12) & 0x3F) as u8;
    assert(0xC0u8 | x2 >= 0x80) by (bit_vector);
    assert(0xE0u8 | x3 >= 0x80) by (bit_vector);
    assert(0xF0u8 | x4 >= 0x80) by (bit_vector);
    assert(0x80u8 | y1 >= 0x80) by (bit_vector);
    assert(0x80u8 | y2 >= 0x80) by (bit_vector);
    assert(0x80u8 | y3 >= 0x80) by (bit_vector);
}

/// The byte of an ASCII character occurs in no encoding of a text that does not
/// hold the character.
pub proof fn lemma_encoding_has_no_other_ascii(s: Seq<char>, byte: u8)
    requires
        byte < 0x80,
        forall|i: int| 0 <= i < s.len() ==> (#[trigger] s[i]) as int != byte as int,
    ensures
        forall|i: int| 0 <= i < encode_utf8(s).len() ==> #[trigger] encode_utf8(s)[i] != byte,
    decreases s.len(),
{
    if s.len() > 0 {
        let first = encode_scalar(s[0] as u32);
        let rest = encode_utf8(s.drop_first());
        assert forall|i: int| 0 <= i < s.drop_first().len() implies (#[trigger] s.drop_first()[i]) as int
            != byte as int by {
            assert(s.drop_first()[i] == s[i + 1]);
        }
        lemma_scalar_has_no_other_ascii(s[0], byte);
        lemma_encoding_has_no_other_ascii(s.drop_first(), byte);
        assert forall|i: int| 0 <= i < encode_utf8(s).len() implies #[trigger] encode_utf8(s)[i]
            != byte by {
            if i < first.len() {
                assert(encode_utf8(s)[i] == first[i]);
            } else {
                assert(encode_utf8(s)[i] == rest[i - first.len()]);
            }
        }
    }
}

/// A line feed and a carriage return are each encoded in the one byte that is
/// theirs.
pub proof fn lemma_breaks_are_encoded_in_one_byte()
    ensures
        encode_utf8(seq!['\n']) == seq![10u8],
        encode_utf8(seq!['\r']) == seq![13u8],
{
    assert((10u32 & 0x7F) as u8 == 10u8) by (bit_vector);
    assert((13u32 & 0x7F) as u8 == 13u8) by (bit_vector);
    assert(seq!['\n'].drop_first() == Seq::<char>::empty());
    assert(seq!['\r'].drop_first() == Seq::<char>::empty());
    assert(encode_utf8(Seq::<char>::empty()) == Seq::<u8>::empty());
    assert(encode_utf8(seq!['\n']) == encode_scalar(10u32) + Seq::<u8>::empty());
    assert(encode_utf8(seq!['\r']) == encode_scalar(13u32) + Seq::<u8>::empty());
    assert(encode_utf8(seq!['\n']) == seq![10u8]);
    assert(encode_utf8(seq!['\r']) == seq![13u8]);
}

} // verus!
