//! The lines of a text.

use vstd::prelude::*;
use vstd::utf8::*;
use vstd::string::*;
use crate::encoding::{
    cut, decoded, lemma_ascii_byte, lemma_decoded_join, lemma_decoded_last, lemma_decoded_without,
};
use crate::substring::{occurs_at, occurs_in};

verus! {

/// The byte that ends a line.
const LINE_FEED: u8 = 0x0a;

/// The byte that may stand before a line feed and then belongs to the line
/// ending.
const CARRIAGE_RETURN: u8 = 0x0d;

/// The number of characters of `text` before its first line feed, or the
/// length of `text` if it holds none.
pub open spec fn first_line_len(text: Seq<char>) -> nat
    decreases text.len(),
{
    if text.len() == 0 || text.first() == '\n' {
        0
    } else {
        1 + first_line_len(text.drop_first())
    }
}

/// A line as it stood before its line feed, without the carriage return
/// that ended it, if one did.
pub open spec fn without_cr(line: Seq<char>) -> Seq<char> {
    if line.len() > 0 && line.last() == '\r' {
        line.drop_last()
    } else {
        line
    }
}

/// The lines of a text, in order. A line ends at a line feed or at the end
/// of the text; a carriage return just before the line feed belongs to the
/// line ending. A line feed at the very end starts no further line, so the
/// empty text has no lines.
pub open spec fn split_lines(text: Seq<char>) -> Seq<Seq<char>>
    decreases text.len(),
{
    if text.len() == 0 {
        Seq::empty()
    } else {
        let end = first_line_len(text) as int;
        if end >= text.len() {
            seq![text]
        } else {
            seq![without_cr(text.take(end))] + split_lines(text.skip(end + 1))
        }
    }
}

/// `first_line_len` is the least index of a line feed, or the length.
pub proof fn lemma_first_line_len(text: Seq<char>)
    ensures
        first_line_len(text) <= text.len(),
        forall|i: int| 0 <= i < first_line_len(text) ==> text[i] != '\n',
        first_line_len(text) < text.len() ==> text[first_line_len(text) as int] == '\n',
    decreases text.len(),
{
    if text.len() != 0 && text.first() != '\n' {
        let rest = text.drop_first();
        lemma_first_line_len(rest);
        assert forall|i: int| 0 <= i < first_line_len(text) implies text[i] != '\n' by {
            if i > 0 {
                assert(text[i] == rest[i - 1]);
            }
        }
    }
}

/// A text that starts with `line`, which holds no line feed, and goes on
/// with a line feed and `rest`, has `line` without its carriage return as
/// its first line and the lines of `rest` as its other lines.
pub proof fn lemma_split_lines_step(line: Seq<char>, rest: Seq<char>)
    requires
        !line.contains('\n'),
    ensures
        split_lines(line + seq!['\n'] + rest) == seq![without_cr(line)] + split_lines(rest),
{
    let text = line + seq!['\n'] + rest;
    let end = first_line_len(text) as int;
    lemma_first_line_len(text);
    if end < line.len() {
        assert(text[end] == line[end]);
        assert(line.contains('\n'));
    }
    if end > line.len() {
        assert(text[line.len() as int] == '\n');
    }
    assert(text.take(end) =~= line);
    assert(text.skip(end + 1) =~= rest);
}

/// A non-empty text without a line feed is its own single line.
pub proof fn lemma_split_lines_last(line: Seq<char>)
    requires
        line.len() > 0,
        !line.contains('\n'),
    ensures
        split_lines(line) == seq![line],
{
    let end = first_line_len(line) as int;
    lemma_first_line_len(line);
    if end < line.len() {
        assert(line.contains('\n'));
    }
}

/// No line holds a line feed.
pub proof fn lemma_lines_hold_no_line_feed(text: Seq<char>)
    ensures
        forall|i: int|
            0 <= i < split_lines(text).len() ==> !(#[trigger] split_lines(text)[i]).contains('\n'),
    decreases text.len(),
{
    if text.len() > 0 {
        let end = first_line_len(text) as int;
        lemma_first_line_len(text);
        if end < text.len() {
            let first = without_cr(text.take(end));
            let rest = text.skip(end + 1);
            lemma_lines_hold_no_line_feed(rest);
            if first.contains('\n') {
                let at = choose|at: int| 0 <= at < first.len() && first[at] == '\n';
                assert(text[at] == '\n');
            }
            assert forall|i: int| 0 <= i < split_lines(text).len() implies !(
            #[trigger] split_lines(text)[i]).contains('\n') by {
                if i > 0 {
                    assert(split_lines(text)[i] == split_lines(rest)[i - 1]);
                }
            }
        }
    }
}

/// Every line is a contiguous part of the text.
pub proof fn lemma_lines_are_parts(text: Seq<char>)
    ensures
        forall|i: int|
            0 <= i < split_lines(text).len() ==> occurs_in(#[trigger] split_lines(text)[i], text),
    decreases text.len(),
{
    if text.len() > 0 {
        let end = first_line_len(text) as int;
        lemma_first_line_len(text);
        if end >= text.len() {
            assert(text.subrange(0, text.len() as int) =~= text);
            assert(occurs_at(text, text, 0));
        } else {
            let first = without_cr(text.take(end));
            let rest = text.skip(end + 1);
            lemma_lines_are_parts(rest);
            assert(text.subrange(0, first.len() as int) =~= first);
            assert(occurs_at(first, text, 0));
            assert forall|i: int| 0 <= i < split_lines(text).len() implies occurs_in(
                #[trigger] split_lines(text)[i],
                text,
            ) by {
                if i > 0 {
                    let line = split_lines(rest)[i - 1];
                    assert(split_lines(text)[i] == line);
                    let at = choose|at: int| occurs_at(line, rest, at);
                    assert(text.subrange(end + 1 + at, end + 1 + at + line.len()) =~= line);
                    assert(occurs_at(line, text, end + 1 + at));
                }
            }
        }
    }
}

/// The first index at or after `from` at which `byte` stands in `bytes`,
/// or the length of `bytes` if it stands at none.
fn find_byte(bytes: &[u8], from: usize, byte: u8) -> (at: usize)
    requires
        from <= bytes@.len(),
    ensures
        from <= at <= bytes@.len(),
        forall|i: int| from <= i < at ==> bytes@[i] != byte,
        at < bytes@.len() ==> bytes@[at as int] == byte,
{
    let mut at: usize = from;
    while at < bytes.len() && bytes[at] != byte
        invariant
            from <= at <= bytes@.len(),
            forall|i: int| from <= i < at ==> bytes@[i] != byte,
        decreases bytes@.len() - at,
    {
        at += 1;
    }
    at
}

/// The lines of `contents`, in order, each a part of `contents` itself.
pub fn lines<'a>(contents: &'a str) -> (result: Vec<&'a str>)
    ensures
        result.deep_view() == split_lines(contents@),
        forall|i: int|
            0 <= i < result.len() ==> occurs_in((#[trigger] result[i])@, contents@)
                && !result[i]@.contains('\n'),
{
    let bytes = contents.as_bytes();
    let len: usize = bytes.len();
    let mut result: Vec<&'a str> = Vec::new();
    let mut start: usize = 0;
    proof {
        encode_utf8_valid_utf8(contents@);
        encode_utf8_decode_utf8(contents@);
        is_char_boundary_start_end_of_seq(bytes@);
        assert(bytes@.subrange(0, len as int) =~= bytes@);
        assert(result.deep_view() =~= Seq::<Seq<char>>::empty());
    }
    while start < len
        invariant
            bytes@ == contents.spec_bytes(),
            valid_utf8(bytes@),
            len == bytes@.len(),
            start <= len,
            is_char_boundary(bytes@, start as int),
            is_char_boundary(bytes@, len as int),
            result.deep_view() + split_lines(decoded(bytes@, start as int, len as int))
                == split_lines(contents@),
        decreases len - start,
    {
        let end: usize = find_byte(bytes, start, LINE_FEED);
        let ghost before = result.deep_view();
        let ghost text = decoded(bytes@, start as int, len as int);
        assert(text.len() > 0) by {
            vstd::utf8::valid_utf8_split(bytes@, start as int);
        }
        if end == len {
            let line = cut(contents, start, len);
            result.push(line);
            proof {
                lemma_decoded_without(bytes@, start as int, len as int, '\n');
                lemma_split_lines_last(text);
                assert(result.deep_view() =~= before.push(text));
                assert(decoded(bytes@, len as int, len as int) =~= Seq::<char>::empty()) by {
                    assert(bytes@.subrange(len as int, len as int) =~= Seq::<u8>::empty());
                }
                assert(before + seq![text] =~= before.push(text));
            }
            start = len;
        } else {
            proof {
                lemma_ascii_byte(bytes@, end as int);
                lemma_decoded_without(bytes@, start as int, end as int, '\n');
                lemma_decoded_join(bytes@, start as int, end as int, len as int);
                lemma_decoded_join(bytes@, end as int, end + 1, len as int);
            }
            let ghost whole = decoded(bytes@, start as int, end as int);
            let ghost rest = decoded(bytes@, end + 1, len as int);
            let mut to: usize = end;
            if end > start && bytes[end - 1] == CARRIAGE_RETURN {
                to = end - 1;
            }
            proof {
                if end > start {
                    lemma_decoded_last(bytes@, start as int, end as int, '\r');
                } else {
                    assert(bytes@.subrange(start as int, end as int) =~= Seq::<u8>::empty());
                }
                assert(decoded(bytes@, start as int, to as int) == without_cr(whole));
                assert(text == whole + (seq!['\n'] + rest));
                assert(whole + (seq!['\n'] + rest) =~= whole + seq!['\n'] + rest);
                lemma_split_lines_step(whole, rest);
            }
            let line = cut(contents, start, to);
            result.push(line);
            proof {
                assert(result.deep_view() =~= before.push(without_cr(whole)));
                assert(before.push(without_cr(whole)) + split_lines(rest) =~= before + (
                seq![without_cr(whole)] + split_lines(rest)));
            }
            start = end + 1;
        }
    }
    proof {
        assert(bytes@.subrange(len as int, len as int) =~= Seq::<u8>::empty());
        assert(split_lines(decoded(bytes@, len as int, len as int)) =~= Seq::<Seq<char>>::empty());
        lemma_lines_are_parts(contents@);
        lemma_lines_hold_no_line_feed(contents@);
        assert forall|i: int| 0 <= i < result.len() implies occurs_in(
            (#[trigger] result[i])@,
            contents@,
        ) && !result[i]@.contains('\n') by {
            assert(result.deep_view()[i] == result[i]@);
        }
    }
    result
}

} // verus!
