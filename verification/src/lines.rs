//! Splitting a text into lines.
//!
//! A line ends at a line feed; a carriage return directly before that line
//! feed belongs to the line ending. The last line needs no line feed, and a
//! text that ends in one has no empty line after it.

use vstd::prelude::*;
use vstd::string::*;
use vstd::utf8::*;
use crate::encoding::{
    lemma_ascii_char_has_byte,
    lemma_last_ascii_byte,
    lemma_text_of_bytes,
    split_around,
};

verus! {

/// The number of characters of `text` before its first line feed, or the
/// length of `text` if it has none.
pub open spec fn line_end(text: Seq<char>) -> int
    decreases text.len(),
{
    if text.len() == 0 || text[0] == '\n' {
        0
    } else {
        1 + line_end(text.drop_first())
    }
}

/// `line` without one trailing carriage return, if it has one.
pub open spec fn strip_cr(line: Seq<char>) -> Seq<char> {
    if line.len() > 0 && line.last() == '\r' {
        line.drop_last()
    } else {
        line
    }
}

/// The lines of `text`, in order.
pub open spec fn lines_of(text: Seq<char>) -> Seq<Seq<char>>
    decreases text.len(),
{
    let end = line_end(text);
    if text.len() == 0 {
        Seq::empty()
    } else if 0 <= end < text.len() {
        seq![strip_cr(text.take(end))] + lines_of(text.skip(end + 1))
    } else {
        seq![text]
    }
}

/// What each string slice of `slices` holds.
pub open spec fn texts(slices: Seq<&str>) -> Seq<Seq<char>> {
    Seq::new(slices.len(), |i: int| slices[i]@)
}

/// `line_end` is the one position that has no line feed before it and is
/// either a line feed or the end of the text.
pub proof fn lemma_line_end(text: Seq<char>, end: int)
    requires
        0 <= end <= text.len(),
        forall|j: int| 0 <= j < end ==> text[j] != '\n',
        end < text.len() ==> text[end] == '\n',
    ensures
        line_end(text) == end,
    decreases text.len(),
{
    if text.len() == 0 || text[0] == '\n' {
    } else {
        let rest = text.drop_first();
        assert forall|j: int| 0 <= j < end - 1 implies rest[j] != '\n' by {
            assert(rest[j] == text[j + 1]);
        }
        lemma_line_end(rest, end - 1);
    }
}

/// Where `line_end` points: inside the text or at its end, with no line
/// feed before it, and at a line feed unless it is the end.
pub proof fn lemma_line_end_is_first(text: Seq<char>)
    ensures
        0 <= line_end(text) <= text.len(),
        forall|j: int| 0 <= j < line_end(text) ==> text[j] != '\n',
        line_end(text) < text.len() ==> text[line_end(text)] == '\n',
    decreases text.len(),
{
    if text.len() == 0 || text[0] == '\n' {
    } else {
        let rest = text.drop_first();
        lemma_line_end_is_first(rest);
        assert forall|j: int| 0 <= j < line_end(text) implies text[j] != '\n' by {
            if j > 0 {
                assert(text[j] == rest[j - 1]);
            }
        }
    }
}

/// No line holds a line feed.
pub proof fn lemma_lines_hold_no_line_feed(text: Seq<char>)
    ensures
        forall|i: int|
            0 <= i < lines_of(text).len() ==> !(#[trigger] lines_of(text)[i]).contains('\n'),
    decreases text.len(),
{
    let end = line_end(text);
    lemma_line_end_is_first(text);
    if text.len() == 0 {
    } else if end < text.len() {
        let tail = text.skip(end + 1);
        lemma_lines_hold_no_line_feed(tail);
        let first = strip_cr(text.take(end));
        assert(!first.contains('\n')) by {
            if first.contains('\n') {
                let j = choose|j: int| 0 <= j < first.len() && first[j] == '\n';
                assert(first[j] == text[j]);
            }
        }
        assert forall|i: int| 0 <= i < lines_of(text).len() implies !(#[trigger] lines_of(
            text,
        )[i]).contains('\n') by {
            if i > 0 {
                assert(lines_of(text)[i] == lines_of(tail)[i - 1]);
            }
        }
    } else {
        assert(!text.contains('\n')) by {
            if text.contains('\n') {
                let j = choose|j: int| 0 <= j < text.len() && text[j] == '\n';
            }
        }
    }
}

/// The offset of the first byte of `bytes` that equals `byte`, or the
/// length of `bytes` if none does.
fn find_byte(bytes: &[u8], byte: u8) -> (at: usize)
    ensures
        at <= bytes@.len(),
        forall|j: int| 0 <= j < at ==> bytes@[j] != byte,
        at < bytes@.len() ==> bytes@[at as int] == byte,
{
    let mut at: usize = 0;
    while at < bytes.len() && bytes[at] != byte
        invariant
            at <= bytes@.len(),
            forall|j: int| 0 <= j < at ==> bytes@[j] != byte,
        decreases bytes@.len() - at,
    {
        at += 1;
    }
    at
}

/// `head` without one trailing carriage return, if it has one.
fn without_cr<'a>(head: &'a str) -> (line: &'a str)
    ensures
        line@ == strip_cr(head@),
{
    let bytes = head.as_bytes();
    let n = bytes.len();
    if n > 0 && bytes[n - 1] == 0x0d {
        let (line, after) = split_around(head, n - 1);
        proof {
            lemma_text_of_bytes(after);
            assert(after.spec_bytes() =~= Seq::<u8>::empty());
            assert(head@ =~= line@.push('\r'));
            assert(head@.drop_last() =~= line@);
        }
        line
    } else {
        proof {
            if head@.len() > 0 && head@.last() == '\r' {
                lemma_last_ascii_byte(head@);
            }
        }
        head
    }
}

/// The lines of `text`, in order, each a slice of `text`.
pub fn lines<'a>(text: &'a str) -> (out: Vec<&'a str>)
    ensures
        texts(out@) == lines_of(text@),
        forall|i: int| 0 <= i < out@.len() ==> !(#[trigger] out@[i]@).contains('\n'),
{
    let mut out: Vec<&'a str> = Vec::new();
    let mut rest = text;
    loop
        invariant_except_break
            texts(out@) + lines_of(rest@) == lines_of(text@),
        ensures
            texts(out@) == lines_of(text@),
        decreases rest@.len(),
    {
        let bytes = rest.as_bytes();
        if bytes.len() == 0 {
            proof {
                lemma_text_of_bytes(rest);
                assert(texts(out@) + lines_of(rest@) =~= texts(out@));
            }
            break ;
        }
        let at = find_byte(bytes, 0x0a);
        proof {
            lemma_text_of_bytes(rest);
            assert(rest@.len() > 0);
        }
        if at == bytes.len() {
            proof {
                assert forall|j: int| 0 <= j < rest@.len() implies rest@[j] != '\n' by {
                    if rest@[j] == '\n' {
                        lemma_ascii_char_has_byte(rest@, j);
                    }
                }
                lemma_line_end(rest@, rest@.len() as int);
                assert(texts(out@.push(rest)) =~= texts(out@) + seq![rest@]);
            }
            out.push(rest);
            break ;
        }
        let (head, tail) = split_around(rest, at);
        let line = without_cr(head);
        proof {
            let end = head@.len() as int;
            assert forall|j: int| 0 <= j < end implies rest@[j] != '\n' by {
                if head@[j] == '\n' {
                    lemma_ascii_char_has_byte(head@, j);
                }
            }
            lemma_line_end(rest@, end);
            assert(rest@.take(end) =~= head@);
            assert(rest@.skip(end + 1) =~= tail@);
            assert(texts(out@.push(line)) =~= texts(out@) + seq![line@]);
            assert(texts(out@) + lines_of(rest@) =~= texts(out@.push(line)) + lines_of(tail@));
        }
        out.push(line);
        rest = tail;
    }
    proof {
        lemma_lines_hold_no_line_feed(text@);
        assert forall|i: int| 0 <= i < out@.len() implies !(#[trigger] out@[i]@).contains(
            '\n',
        ) by {
            assert(texts(out@)[i] == out@[i]@);
        }
    }
    out
}

} // verus!
