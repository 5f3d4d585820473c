//! Whether one text is a contiguous part of another.

use vstd::prelude::*;
use vstd::utf8::*;
use vstd::string::*;
use crate::encoding::{
    decoded, lemma_boundary_from_tail, lemma_boundary_iff_starts_char, lemma_decoded_join,
    lemma_encode_concat, lemma_valid_prefix_is_boundary,
};

verus! {

/// True when `needle` stands in `haystack` at index `at`, item for item.
pub open spec fn occurs_at<T>(needle: Seq<T>, haystack: Seq<T>, at: int) -> bool {
    &&& 0 <= at
    &&& at + needle.len() <= haystack.len()
    &&& haystack.subrange(at, at + needle.len()) == needle
}

/// True when `needle` is a contiguous part of `haystack`. The empty sequence
/// is a part of every sequence.
pub open spec fn occurs_in<T>(needle: Seq<T>, haystack: Seq<T>) -> bool {
    exists|at: int| occurs_at(needle, haystack, at)
}

/// The empty sequence occurs in every sequence.
pub proof fn lemma_empty_occurs<T>(haystack: Seq<T>)
    ensures
        occurs_in(Seq::<T>::empty(), haystack),
{
    assert(haystack.subrange(0, 0) =~= Seq::<T>::empty());
    assert(occurs_at(Seq::<T>::empty(), haystack, 0));
}

/// A text occurs in another just when its encoding occurs in the encoding
/// of the other: an occurrence among the bytes always starts and ends at a
/// character boundary.
pub proof fn lemma_occurs_in_encoding(needle: Seq<char>, haystack: Seq<char>)
    ensures
        occurs_in(encode_utf8(needle), encode_utf8(haystack)) == occurs_in(needle, haystack),
{
    let pattern = encode_utf8(needle);
    let bytes = encode_utf8(haystack);
    encode_utf8_valid_utf8(needle);
    encode_utf8_valid_utf8(haystack);
    encode_utf8_decode_utf8(needle);
    encode_utf8_decode_utf8(haystack);
    if occurs_in(needle, haystack) {
        let index = choose|index: int| occurs_at(needle, haystack, index);
        let before = haystack.take(index);
        let after = haystack.skip(index + needle.len());
        assert(haystack =~= before + needle + after);
        lemma_encode_concat(before + needle, after);
        lemma_encode_concat(before, needle);
        let at = encode_utf8(before).len() as int;
        assert(bytes.subrange(at, at + pattern.len()) =~= pattern);
        assert(occurs_at(pattern, bytes, at));
    }
    if occurs_in(pattern, bytes) {
        let at = choose|at: int| occurs_at(pattern, bytes, at);
        if needle.len() == 0 {
            lemma_empty_occurs(haystack);
            assert(needle =~= Seq::<char>::empty());
        } else {
            let end = at + pattern.len();
            let len = bytes.len() as int;
            assert(pattern.len() > 0);
            assert(pattern[0] == bytes.subrange(at, end)[0]);
            lemma_boundary_iff_starts_char(pattern, 0);
            lemma_boundary_iff_starts_char(bytes, at);
            valid_utf8_split(bytes, at);
            let tail = bytes.subrange(at, len);
            assert(tail.subrange(0, pattern.len() as int) =~= pattern);
            lemma_valid_prefix_is_boundary(tail, pattern.len() as int);
            lemma_boundary_from_tail(bytes, at, end);
            is_char_boundary_start_end_of_seq(bytes);
            lemma_decoded_join(bytes, 0, at, len);
            lemma_decoded_join(bytes, at, end, len);
            assert(bytes.subrange(0, len) =~= bytes);
            assert(bytes.subrange(at, end) =~= pattern);
            let before = decoded(bytes, 0, at);
            let after = decoded(bytes, end, len);
            assert(haystack == before + (needle + after));
            let index = before.len() as int;
            assert(haystack.subrange(index, index + needle.len()) =~= needle);
            assert(occurs_at(needle, haystack, index));
        }
    }
}

/// Tells whether `needle` stands in `haystack` at index `at`.
fn bytes_match_at(haystack: &[u8], needle: &[u8], at: usize) -> (same: bool)
    requires
        at + needle@.len() <= haystack@.len(),
    ensures
        same == occurs_at(needle@, haystack@, at as int),
{
    let ghost window = haystack@.subrange(at as int, at + needle@.len());
    let width: usize = needle.len();
    let mut i: usize = 0;
    proof {
        vstd::slice::axiom_spec_len(haystack);
    }
    while i < width
        invariant
            width == needle@.len(),
            i <= width,
            at + width <= haystack@.len() <= usize::MAX,
            window == haystack@.subrange(at as int, at + needle@.len()),
            forall|k: int| 0 <= k < i ==> window[k] == needle@[k],
        decreases width - i,
    {
        if haystack[at + i] != needle[i] {
            assert(window[i as int] != needle@[i as int]);
            return false;
        }
        i += 1;
    }
    assert(window =~= needle@);
    true
}

/// Tells whether `needle` is a contiguous part of `haystack`, by trying
/// each index in turn.
fn bytes_contain(haystack: &[u8], needle: &[u8]) -> (found: bool)
    ensures
        found == occurs_in(needle@, haystack@),
{
    if needle.len() > haystack.len() {
        return false;
    }
    let last: usize = haystack.len() - needle.len();
    let mut at: usize = 0;
    loop
        invariant
            last == haystack@.len() - needle@.len(),
            at <= last,
            forall|k: int| 0 <= k < at ==> !occurs_at(needle@, haystack@, k),
        decreases last - at,
    {
        if bytes_match_at(haystack, needle, at) {
            return true;
        }
        if at == last {
            return false;
        }
        at += 1;
    }
}

/// Tells whether `needle` is a contiguous part of `haystack`, character for
/// character. The empty text is a part of every text.
pub fn contains(haystack: &str, needle: &str) -> (found: bool)
    ensures
        found == occurs_in(needle@, haystack@),
{
    let found = bytes_contain(haystack.as_bytes(), needle.as_bytes());
    proof {
        lemma_occurs_in_encoding(needle@, haystack@);
    }
    found
}

/// Tells whether two texts are the same, character for character.
pub fn same_text(left: &str, right: &str) -> (same: bool)
    ensures
        same == (left@ == right@),
{
    let left_bytes = left.as_bytes();
    let right_bytes = right.as_bytes();
    proof {
        encode_utf8_decode_utf8(left@);
        encode_utf8_decode_utf8(right@);
    }
    if left_bytes.len() != right_bytes.len() {
        return false;
    }
    let same = bytes_match_at(left_bytes, right_bytes, 0);
    proof {
        assert(left_bytes@.subrange(0, right_bytes@.len() as int) =~= left_bytes@);
    }
    same
}

} // verus!
