//! Bytes that arrive bit by bit, cut at the bytes that end a line.

use vstd::prelude::*;

verus! {

/// Tells whether a byte ends a line: a line feed, and a carriage return where
/// `cr` says so.
pub open spec fn is_break(byte: u8, cr: bool) -> bool {
    byte == 10u8 || (cr && byte == 13u8)
}

/// Bytes cut into lines: those that are complete, each with the byte that ends
/// it, and what stands behind the last of them.
pub struct Cut {
    pub lines: Seq<Seq<u8>>,
    pub rest: Seq<u8>,
}

/// Cuts bytes into lines.
pub open spec fn cut(bytes: Seq<u8>, cr: bool) -> Cut
    decreases bytes.len(),
{
    if bytes.len() == 0 {
        Cut { lines: Seq::empty(), rest: Seq::empty() }
    } else {
        let before = cut(bytes.drop_last(), cr);
        let grown = before.rest.push(bytes.last());
        if is_break(bytes.last(), cr) {
            Cut { lines: before.lines.push(grown), rest: Seq::empty() }
        } else {
            Cut { lines: before.lines, rest: grown }
        }
    }
}

/// Tells whether none of the bytes ends a line.
pub open spec fn unbroken(bytes: Seq<u8>, cr: bool) -> bool {
    forall|i: int| 0 <= i < bytes.len() ==> !is_break(#[trigger] bytes[i], cr)
}

/// Bytes none of which ends a line are all held back.
pub proof fn lemma_cut_unbroken(bytes: Seq<u8>, cr: bool)
    requires
        unbroken(bytes, cr),
    ensures
        cut(bytes, cr) == (Cut { lines: Seq::<Seq<u8>>::empty(), rest: bytes }),
    decreases bytes.len(),
{
    if bytes.len() > 0 {
        assert(unbroken(bytes.drop_last(), cr));
        lemma_cut_unbroken(bytes.drop_last(), cr);
        assert(bytes.drop_last().push(bytes.last()) == bytes);
    } else {
        assert(bytes == Seq::<u8>::empty());
    }
}

/// What is held back holds no byte that ends a line.
pub proof fn lemma_cut_rest_unbroken(bytes: Seq<u8>, cr: bool)
    ensures
        unbroken(cut(bytes, cr).rest, cr),
    decreases bytes.len(),
{
    if bytes.len() > 0 {
        lemma_cut_rest_unbroken(bytes.drop_last(), cr);
    }
}

/// Bytes can be cut as they arrive: what was held back goes in front of the rest.
pub proof fn lemma_cut_join(a: Seq<u8>, b: Seq<u8>, cr: bool)
    ensures
        cut(a + b, cr).lines == cut(a, cr).lines + cut(
            cut(a, cr).rest + b,
            cr,
        ).lines,
        cut(a + b, cr).rest == cut(cut(a, cr).rest + b, cr).rest,
    decreases b.len(),
{
    let rest = cut(a, cr).rest;
    if b.len() == 0 {
        lemma_cut_rest_unbroken(a, cr);
        lemma_cut_unbroken(rest, cr);
        assert(a + b == a);
        assert(rest + b == rest);
        assert(cut(a, cr).lines + Seq::<Seq<u8>>::empty() == cut(a, cr).lines);
    } else {
        lemma_cut_join(a, b.drop_last(), cr);
        assert((a + b).drop_last() == a + b.drop_last());
        assert((rest + b).drop_last() == rest + b.drop_last());
        assert((a + b).last() == b.last());
        assert((rest + b).last() == b.last());
        assert(cut(a + b, cr).lines == cut(a, cr).lines + cut(rest + b, cr).lines);
    }
}

proof fn lemma_flatten_push(lines: Seq<Seq<u8>>, line: Seq<u8>)
    ensures
        lines.push(line).flatten() == lines.flatten() + line,
    decreases lines.len(),
{
    let all = lines.push(line);
    if lines.len() == 0 {
        assert(all.drop_first() == Seq::<Seq<u8>>::empty());
        assert(all.flatten() == line + Seq::<Seq<u8>>::empty().flatten());
        assert(all.flatten() == lines.flatten() + line);
    } else {
        lemma_flatten_push(lines.drop_first(), line);
        assert(all.drop_first() == lines.drop_first().push(line));
        assert(all.flatten() == lines.flatten() + line);
    }
}

/// Cutting bytes into lines loses none of them and moves none: each line ends
/// at its only break, and what is left has none.
pub proof fn law_cut_keeps_every_byte(bytes: Seq<u8>, cr: bool)
    ensures
        cut(bytes, cr).lines.flatten() + cut(bytes, cr).rest == bytes,
        unbroken(cut(bytes, cr).rest, cr),
        forall|i: int|
            0 <= i < cut(bytes, cr).lines.len() ==> {
                let line = #[trigger] cut(bytes, cr).lines[i];
                line.len() > 0 && is_break(line.last(), cr) && unbroken(
                    line.drop_last(),
                    cr,
                )
            },
    decreases bytes.len(),
{
    if bytes.len() > 0 {
        let before = cut(bytes.drop_last(), cr);
        law_cut_keeps_every_byte(bytes.drop_last(), cr);
        let grown = before.rest.push(bytes.last());
        assert(bytes == bytes.drop_last().push(bytes.last()));
        if is_break(bytes.last(), cr) {
            lemma_flatten_push(before.lines, grown);
            assert(grown.drop_last() == before.rest);
            assert(cut(bytes, cr).lines.flatten() + Seq::<u8>::empty() == bytes);
        } else {
            assert(before.lines.flatten() + grown == bytes);
        }
    } else {
        assert(bytes == Seq::<u8>::empty());
    }
}

} // verus!
