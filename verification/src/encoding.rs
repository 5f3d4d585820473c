//! Facts about UTF-8 that let code work on the bytes of a text and state
//! its results in characters.

use vstd::prelude::*;
use vstd::utf8::*;
use vstd::string::*;

verus! {

/// The characters that the bytes `from..to` of `bytes` encode.
pub open spec fn decoded(bytes: Seq<u8>, from: int, to: int) -> Seq<char> {
    decode_utf8(bytes.subrange(from, to))
}

/// True when `index` is the end of `bytes` or the place of a byte that is
/// not a continuation byte.
pub open spec fn starts_char(bytes: Seq<u8>, index: int) -> bool {
    &&& 0 <= index <= bytes.len()
    &&& index < bytes.len() ==> !is_continuation_byte(bytes[index])
}

/// In valid UTF-8 the character boundaries are the end of the bytes and the
/// places of the bytes that are not continuation bytes.
pub proof fn lemma_boundary_iff_starts_char(bytes: Seq<u8>, index: int)
    requires
        valid_utf8(bytes),
    ensures
        is_char_boundary(bytes, index) == starts_char(bytes, index),
{
    if 0 <= index < bytes.len() {
        is_char_boundary_iff_not_is_continuation_byte(bytes, index);
    } else if index == bytes.len() {
        is_char_boundary_start_end_of_seq(bytes);
    }
}

/// Encoding distributes over concatenation.
pub proof fn lemma_encode_concat(a: Seq<char>, b: Seq<char>)
    ensures
        encode_utf8(a + b) == encode_utf8(a) + encode_utf8(b),
    decreases a.len(),
{
    if a.len() == 0 {
        assert(a + b =~= b);
    } else {
        lemma_encode_concat(a.drop_first(), b);
        assert((a + b).drop_first() =~= a.drop_first() + b);
    }
}

/// A prefix of valid UTF-8 that is itself valid UTF-8 ends at a character
/// boundary.
pub proof fn lemma_valid_prefix_is_boundary(bytes: Seq<u8>, to: int)
    requires
        valid_utf8(bytes),
        0 <= to <= bytes.len(),
        valid_utf8(bytes.subrange(0, to)),
    ensures
        is_char_boundary(bytes, to),
    decreases bytes.len(),
{
    if to != 0 {
        let head = bytes.subrange(0, to);
        let width = length_of_first_scalar(bytes);
        assert(head[0] == bytes[0]);
        assert(length_of_first_scalar(head) == width);
        assert(pop_first_scalar(head) =~= pop_first_scalar(bytes).subrange(0, to - width));
        lemma_valid_prefix_is_boundary(pop_first_scalar(bytes), to - width);
    }
}

/// Between two character boundaries of valid UTF-8 lies valid UTF-8, and a
/// boundary of the whole that lies between them is a boundary of the part.
pub proof fn lemma_boundary_in_slice(bytes: Seq<u8>, from: int, to: int, at: int)
    requires
        valid_utf8(bytes),
        from <= at <= to,
        is_char_boundary(bytes, from),
        is_char_boundary(bytes, to),
        is_char_boundary(bytes, at),
    ensures
        0 <= from <= to <= bytes.len(),
        valid_utf8(bytes.subrange(from, to)),
        is_char_boundary(bytes.subrange(from, to), at - from),
{
    lemma_boundary_iff_starts_char(bytes, from);
    lemma_boundary_iff_starts_char(bytes, to);
    lemma_boundary_iff_starts_char(bytes, at);
    let tail = bytes.subrange(from, bytes.len() as int);
    valid_utf8_split(bytes, from);
    lemma_boundary_iff_starts_char(tail, to - from);
    valid_utf8_split(tail, to - from);
    let part = bytes.subrange(from, to);
    assert(tail.subrange(0, to - from) =~= part);
    lemma_boundary_iff_starts_char(part, at - from);
}

/// A character boundary of a part of valid UTF-8 that starts at a character
/// boundary is a character boundary of the whole.
pub proof fn lemma_boundary_from_tail(bytes: Seq<u8>, from: int, at: int)
    requires
        valid_utf8(bytes),
        is_char_boundary(bytes, from),
        from <= bytes.len(),
        is_char_boundary(bytes.subrange(from, bytes.len() as int), at - from),
    ensures
        is_char_boundary(bytes, at),
{
    lemma_boundary_iff_starts_char(bytes, from);
    let tail = bytes.subrange(from, bytes.len() as int);
    valid_utf8_split(bytes, from);
    lemma_boundary_iff_starts_char(tail, at - from);
    lemma_boundary_iff_starts_char(bytes, at);
}

/// What three consecutive character boundaries cut out of valid UTF-8
/// decodes piece by piece.
pub proof fn lemma_decoded_join(bytes: Seq<u8>, from: int, mid: int, to: int)
    requires
        valid_utf8(bytes),
        from <= mid <= to,
        is_char_boundary(bytes, from),
        is_char_boundary(bytes, mid),
        is_char_boundary(bytes, to),
    ensures
        decoded(bytes, from, to) == decoded(bytes, from, mid) + decoded(bytes, mid, to),
{
    lemma_boundary_in_slice(bytes, from, to, mid);
    let part = bytes.subrange(from, to);
    decode_utf8_split(part, mid - from);
    assert(part.subrange(0, mid - from) =~= bytes.subrange(from, mid));
    assert(part.subrange(mid - from, part.len() as int) =~= bytes.subrange(mid, to));
}

/// A character below U+0080 is encoded as the one byte of its value.
pub proof fn lemma_encode_ascii(c: char)
    requires
        c <= '\u{7f}',
    ensures
        encode_utf8(seq![c]) == seq![c as u8],
{
    let scalar = c as u32;
    assert(leading_byte_width_1(scalar) == scalar as u8) by (bit_vector)
        requires
            scalar <= 0x7f,
    ;
    assert(seq![c].drop_first() =~= Seq::<char>::empty());
    assert(encode_utf8(seq![c]) =~= encode_scalar(scalar) + encode_utf8(Seq::<char>::empty()));
}

/// A byte below 0x80 in valid UTF-8 lies between two character boundaries
/// and decodes to the character of its value.
pub proof fn lemma_ascii_byte(bytes: Seq<u8>, at: int)
    requires
        valid_utf8(bytes),
        0 <= at < bytes.len(),
        bytes[at] < 0x80,
    ensures
        is_char_boundary(bytes, at),
        is_char_boundary(bytes, at + 1),
        decoded(bytes, at, at + 1) == seq![bytes[at] as char],
{
    let byte = bytes[at];
    let c = byte as char;
    lemma_boundary_iff_starts_char(bytes, at);
    valid_utf8_split(bytes, at);
    let tail = bytes.subrange(at, bytes.len() as int);
    lemma_encode_ascii(c);
    encode_utf8_valid_utf8(seq![c]);
    encode_utf8_decode_utf8(seq![c]);
    assert(tail.subrange(0, 1) =~= seq![byte]);
    assert(bytes.subrange(at, at + 1) =~= seq![byte]);
    lemma_valid_prefix_is_boundary(tail, 1);
    lemma_boundary_from_tail(bytes, at, at + 1);
}

/// Where a character below U+0080 stands in a text, the byte of its value
/// stands in the encoding, behind the encoding of what precedes it and
/// before the encoding of what follows.
pub proof fn lemma_ascii_char_place(chars: Seq<char>, index: int) -> (at: int)
    requires
        0 <= index < chars.len(),
        chars[index] <= '\u{7f}',
    ensures
        at == encode_utf8(chars.take(index)).len(),
        at + 1 + encode_utf8(chars.skip(index + 1)).len() == encode_utf8(chars).len(),
        encode_utf8(chars)[at] == chars[index] as u8,
{
    let before = chars.take(index);
    let after = chars.skip(index + 1);
    let c = chars[index];
    assert(chars =~= before + seq![c] + after);
    lemma_encode_concat(before + seq![c], after);
    lemma_encode_concat(before, seq![c]);
    lemma_encode_ascii(c);
    encode_utf8(before).len() as int
}

/// A stretch of valid UTF-8 without the byte of a character below U+0080
/// decodes to a text without that character.
pub proof fn lemma_decoded_without(bytes: Seq<u8>, from: int, to: int, c: char)
    requires
        valid_utf8(bytes),
        from <= to,
        is_char_boundary(bytes, from),
        is_char_boundary(bytes, to),
        c <= '\u{7f}',
        forall|at: int| from <= at < to ==> bytes[at] != c as u8,
    ensures
        !decoded(bytes, from, to).contains(c),
{
    lemma_boundary_in_slice(bytes, from, to, from);
    let part = bytes.subrange(from, to);
    let chars = decode_utf8(part);
    decode_utf8_encode_utf8(part);
    if chars.contains(c) {
        let index = choose|index: int| 0 <= index < chars.len() && chars[index] == c;
        let at = lemma_ascii_char_place(chars, index);
        assert(part[at] == bytes[from + at]);
    }
}

/// A non-empty stretch of valid UTF-8 decodes to a text whose last
/// character is a given one below U+0080 just when its last byte is the
/// byte of that character.
pub proof fn lemma_decoded_last(bytes: Seq<u8>, from: int, to: int, c: char)
    requires
        valid_utf8(bytes),
        from < to,
        is_char_boundary(bytes, from),
        is_char_boundary(bytes, to),
        c <= '\u{7f}',
    ensures
        decoded(bytes, from, to).len() > 0,
        (decoded(bytes, from, to).last() == c) == (bytes[to - 1] == c as u8),
        bytes[to - 1] == c as u8 ==> is_char_boundary(bytes, to - 1) && decoded(bytes, from, to)
            == decoded(bytes, from, to - 1).push(c),
{
    lemma_boundary_in_slice(bytes, from, to, from);
    let part = bytes.subrange(from, to);
    let chars = decode_utf8(part);
    decode_utf8_encode_utf8(part);
    assert(chars.len() > 0);
    if chars.last() == c {
        let at = lemma_ascii_char_place(chars, chars.len() - 1);
        assert(chars.skip(chars.len() as int) =~= Seq::<char>::empty());
        assert(part[at] == bytes[from + at]);
    }
    if bytes[to - 1] == c as u8 {
        lemma_ascii_byte(bytes, to - 1);
        lemma_decoded_join(bytes, from, to - 1, to);
        assert((c as u8) as char == c);
    }
}

/// The part of `text` between two character boundaries, given as byte
/// indices. The part borrows from `text`: nothing is copied.
pub(crate) fn cut<'a>(text: &'a str, from: usize, to: usize) -> (part: &'a str)
    requires
        from <= to,
        is_char_boundary(text.spec_bytes(), from as int),
        is_char_boundary(text.spec_bytes(), to as int),
    ensures
        part@ == decoded(text.spec_bytes(), from as int, to as int),
{
    proof {
        encode_utf8_valid_utf8(text@);
        lemma_boundary_in_slice(text.spec_bytes(), 0, to as int, from as int);
        assert(text.spec_bytes().subrange(0, to as int).subrange(from as int, to as int)
            =~= text.spec_bytes().subrange(from as int, to as int));
    }
    let (head, _) = text.split_at(to);
    let (_, part) = head.split_at(from);
    proof {
        encode_utf8_decode_utf8(part@);
    }
    part
}

} // verus!
