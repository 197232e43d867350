//! The lines of a text.
//!
//! A line ends at a line feed, or at a carriage return directly followed by
//! a line feed; neither belongs to the line. What follows the last line feed
//! is a line of its own unless it is empty, and is kept as it stands, a
//! closing carriage return included.

use vstd::prelude::*;
use vstd::utf8::*;
use crate::infix::{occurs_at, occurs_in};
use crate::utf8::{
    lemma_ascii_char_has_byte, lemma_cut, lemma_encode_ascii, lemma_encode_injective,
    lemma_prefix_ends_at_boundary,
};

verus! {

/// The byte of a line feed.
const LF: u8 = 0x0A;

/// The byte of a carriage return.
const CR: u8 = 0x0D;

/// `end` is where the first line feed of `text` stands, or the length of
/// `text` if it has none.
pub open spec fn is_line_end(text: Seq<char>, end: int) -> bool {
    &&& 0 <= end <= text.len()
    &&& forall|j: int| 0 <= j < end ==> text[j] != '\n'
    &&& end < text.len() ==> text[end] == '\n'
}

/// Where the first line feed of `text` stands, or the length of `text` if it
/// has none.
pub open spec fn line_end(text: Seq<char>) -> int {
    choose|end: int| is_line_end(text, end)
}

/// `line` without its last character, if that is a carriage return.
pub open spec fn without_cr(line: Seq<char>) -> Seq<char> {
    if line.len() > 0 && line.last() == '\r' {
        line.drop_last()
    } else {
        line
    }
}

/// The first line of a text that is not empty.
pub open spec fn first_line(text: Seq<char>) -> Seq<char> {
    let end = line_end(text);
    if 0 <= end < text.len() {
        without_cr(text.take(end))
    } else {
        text
    }
}

/// What follows the first line of `text` and its line feed.
pub open spec fn after_first_line(text: Seq<char>) -> Seq<char> {
    let end = line_end(text);
    if 0 <= end < text.len() {
        text.skip(end + 1)
    } else {
        Seq::empty()
    }
}

/// The lines of `text`, in order.
pub open spec fn lines_of(text: Seq<char>) -> Seq<Seq<char>>
    decreases text.len(),
{
    if text.len() == 0 {
        Seq::empty()
    } else {
        seq![first_line(text)] + lines_of(after_first_line(text))
    }
}

/// Some index is the line end of `text`: the first line feed at or after
/// `from`, where none stands before `from`.
proof fn lemma_line_end_from(text: Seq<char>, from: int) -> (end: int)
    requires
        0 <= from <= text.len(),
        forall|j: int| 0 <= j < from ==> text[j] != '\n',
    ensures
        is_line_end(text, end),
    decreases text.len() - from,
{
    if from == text.len() || text[from] == '\n' {
        from
    } else {
        lemma_line_end_from(text, from + 1)
    }
}

/// Every text has exactly one line end.
pub proof fn lemma_line_end(text: Seq<char>)
    ensures
        is_line_end(text, line_end(text)),
        forall|end: int| is_line_end(text, end) ==> end == line_end(text),
{
    let found = lemma_line_end_from(text, 0);
    assert(is_line_end(text, line_end(text)));
    assert forall|end: int| is_line_end(text, end) implies end == line_end(text) by {
        let chosen = line_end(text);
        if end < chosen {
            assert(text[end] == '\n');
        } else if chosen < end {
            assert(text[chosen] == '\n');
        }
    }
}

/// Index of the first byte `wanted` in `bytes`, or the length of `bytes` if
/// it holds none.
fn find_byte(bytes: &[u8], wanted: u8) -> (at: usize)
    ensures
        at <= bytes.len(),
        forall|j: int| 0 <= j < at ==> bytes@[j] != wanted,
        at < bytes.len() ==> bytes@[at as int] == wanted,
{
    let mut at: usize = 0;
    while at < bytes.len() && bytes[at] != wanted
        invariant
            at <= bytes.len(),
            forall|j: int| 0 <= j < at ==> bytes@[j] != wanted,
        decreases bytes.len() - at,
    {
        at += 1;
    }
    at
}

/// `line` without its closing carriage return, if it has one.
fn trim_cr<'a>(line: &'a str) -> (body: &'a str)
    ensures
        body@ == without_cr(line@),
{
    let bytes = line.as_bytes();
    let len = bytes.len();
    proof {
        encode_utf8_valid_utf8(line@);
        lemma_encode_ascii('\r');
    }
    if len > 0 && bytes[len - 1] == CR {
        proof {
            is_char_boundary_iff_not_is_continuation_byte(bytes@, len - 1);
        }
        let (body, cr) = line.split_at(len - 1);
        proof {
            lemma_cut(line@, body@, cr@, len - 1);
            assert(encode_utf8(cr@) =~= seq![CR]);
            lemma_encode_injective(cr@, seq!['\r']);
            assert(line@.drop_last() =~= body@);
        }
        body
    } else {
        proof {
            if line@.len() > 0 && line@.last() == '\r' {
                lemma_ascii_char_has_byte(line@, line@.len() - 1);
            }
        }
        line
    }
}

/// The first line of `text` and what follows it.
fn cut_line<'a>(text: &'a str) -> (cut: (&'a str, &'a str))
    requires
        text@.len() > 0,
    ensures
        cut.0@ == first_line(text@),
        cut.1@ == after_first_line(text@),
{
    let bytes = text.as_bytes();
    let end = find_byte(bytes, LF);
    proof {
        encode_utf8_valid_utf8(text@);
        lemma_encode_ascii('\n');
        lemma_line_end(text@);
    }
    if end < bytes.len() {
        proof {
            is_char_boundary_iff_not_is_continuation_byte(bytes@, end as int);
        }
        let (line, tail) = text.split_at(end);
        proof {
            encode_utf8_valid_utf8(tail@);
            encode_utf8_valid_utf8(seq!['\n']);
            assert(encode_utf8(tail@).subrange(0, 1) =~= seq![LF]);
            lemma_prefix_ends_at_boundary(encode_utf8(tail@), 1);
        }
        let (feed, rest) = tail.split_at(1);
        proof {
            lemma_cut(text@, line@, tail@, end as int);
            lemma_cut(tail@, feed@, rest@, 1);
            lemma_encode_injective(feed@, seq!['\n']);
            let cut = line@.len() as int;
            assert forall|j: int| 0 <= j < cut implies text@[j] != '\n' by {
                if line@[j] == '\n' {
                    lemma_ascii_char_has_byte(line@, j);
                }
            }
            assert(text@[cut] == '\n');
            assert(is_line_end(text@, cut));
            assert(text@.take(cut) =~= line@);
            assert(text@.skip(cut + 1) =~= rest@);
        }
        (trim_cr(line), rest)
    } else {
        let rest: &'a str = "";
        proof {
            reveal_strlit("");
            assert forall|j: int| 0 <= j < text@.len() implies text@[j] != '\n' by {
                if text@[j] == '\n' {
                    lemma_ascii_char_has_byte(text@, j);
                }
            }
            assert(is_line_end(text@, text@.len() as int));
            assert(rest@ =~= Seq::<char>::empty());
        }
        (text, rest)
    }
}

/// The lines of `text`, in order, each a part of `text` itself.
pub fn lines<'a>(text: &'a str) -> (all: Vec<&'a str>)
    ensures
        all.deep_view() == lines_of(text@),
{
    let mut all: Vec<&'a str> = Vec::new();
    let mut rest: &'a str = text;
    assert(all.deep_view() =~= Seq::<Seq<char>>::empty());
    while !rest.is_empty()
        invariant
            all.deep_view() + lines_of(rest@) == lines_of(text@),
        decreases rest@.len(),
    {
        let ghost before = all.deep_view();
        let (line, after) = cut_line(rest);
        all.push(line);
        proof {
            lemma_line_end(rest@);
            assert(all.deep_view() =~= before.push(line@));
            assert(before.push(line@) + lines_of(after@) =~= before + lines_of(rest@));
        }
        rest = after;
    }
    assert(all.deep_view() + lines_of(rest@) =~= all.deep_view());
    all
}

/// The lines of a text with a line feed at `end` and none before it: what
/// stands before `end`, less a closing carriage return, and then the lines
/// of what follows the line feed.
pub proof fn lemma_lines_of_cut(text: Seq<char>, end: int)
    requires
        is_line_end(text, end),
        end < text.len(),
    ensures
        lines_of(text) == seq![without_cr(text.take(end))] + lines_of(text.skip(end + 1)),
{
    lemma_line_end(text);
}

/// Every line of a text stands in the text as an unbroken run.
pub proof fn lemma_line_occurs_in_text(text: Seq<char>, i: int)
    requires
        0 <= i < lines_of(text).len(),
    ensures
        occurs_in(text, lines_of(text)[i]),
    decreases text.len(),
{
    lemma_line_end(text);
    if i == 0 {
        let line = first_line(text);
        assert(text.subrange(0, line.len() as int) =~= line);
        assert(occurs_at(text, line, 0));
    } else {
        let rest = after_first_line(text);
        let line = lines_of(rest)[i - 1];
        lemma_line_occurs_in_text(rest, i - 1);
        let at = choose|at: int| occurs_at(rest, line, at);
        let shifted = line_end(text) + 1 + at;
        assert(text.subrange(shifted, shifted + line.len()) =~= line);
        assert(occurs_at(text, line, shifted));
    }
}

/// No line holds a line feed.
pub proof fn lemma_line_holds_no_line_feed(text: Seq<char>, i: int)
    requires
        0 <= i < lines_of(text).len(),
    ensures
        !lines_of(text)[i].contains('\n'),
    decreases text.len(),
{
    lemma_line_end(text);
    if i == 0 {
        let line = first_line(text);
        assert forall|j: int| 0 <= j < line.len() implies line[j] != '\n' by {
            assert(line[j] == text[j]);
        }
    } else {
        lemma_line_holds_no_line_feed(after_first_line(text), i - 1);
    }
}

/// A text that is not empty has a line, and a text without a line feed is
/// its own only line.
pub proof fn lemma_lines_of_one_line(text: Seq<char>)
    requires
        text.len() > 0,
        !text.contains('\n'),
    ensures
        lines_of(text) == seq![text],
{
    lemma_line_end(text);
    assert(is_line_end(text, text.len() as int));
    assert(lines_of(after_first_line(text)) =~= Seq::<Seq<char>>::empty());
    assert(lines_of(text) =~= seq![text]);
}

/// A line feed at the end of a text opens no further line: it ends the
/// last line, which loses a carriage return that stood at its end. The text
/// is one that does not end in a line feed already.
pub proof fn lemma_closing_line_feed(text: Seq<char>)
    requires
        text.len() > 0,
        text.last() != '\n',
    ensures
        lines_of(text).len() > 0,
        lines_of(text.push('\n')) == lines_of(text).drop_last().push(
            without_cr(lines_of(text).last()),
        ),
    decreases text.len(),
{
    let closed = text.push('\n');
    let end = line_end(text);
    lemma_line_end(text);
    lemma_line_end(closed);
    assert(is_line_end(closed, end)) by {
        assert forall|j: int| 0 <= j < end implies closed[j] != '\n' by {
            assert(closed[j] == text[j]);
        }
        if end < text.len() {
            assert(closed[end] == text[end]);
        }
    }
    if end == text.len() {
        assert(closed.take(end) =~= text);
        assert(closed.skip(end + 1) =~= Seq::<char>::empty());
        assert(lines_of(after_first_line(text)) =~= Seq::<Seq<char>>::empty());
        assert(lines_of(closed) =~= seq![without_cr(text)]);
        assert(lines_of(text) =~= seq![text]);
        assert(lines_of(text).drop_last().push(without_cr(lines_of(text).last())) =~= seq![
            without_cr(text),
        ]);
    } else {
        let rest = text.skip(end + 1);
        assert(rest.len() > 0 && rest.last() == text.last());
        assert(closed.take(end) =~= text.take(end));
        assert(closed.skip(end + 1) =~= rest.push('\n'));
        lemma_closing_line_feed(rest);
        let line = first_line(text);
        assert(lines_of(closed) =~= seq![line] + lines_of(rest.push('\n')));
        assert(lines_of(text) =~= seq![line] + lines_of(rest));
        assert(lines_of(closed) =~= lines_of(text).drop_last().push(
            without_cr(lines_of(text).last()),
        ));
    }
}

} // verus!
