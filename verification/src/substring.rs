//! Whether one string occurs inside another.
//!
//! The question is asked of characters and answered on bytes: UTF-8 is
//! self-synchronising, so a string occurs in another exactly when its bytes
//! occur in the other's bytes.

use vstd::prelude::*;
use vstd::string::*;
use vstd::utf8::*;
use crate::encoding::{lemma_encode_concat, lemma_text_of_bytes};

verus! {

/// `needle` stands in `hay` at position `at`.
pub open spec fn occurs_at<T>(hay: Seq<T>, needle: Seq<T>, at: int) -> bool {
    &&& 0 <= at
    &&& at + needle.len() <= hay.len()
    &&& hay.subrange(at, at + needle.len()) == needle
}

/// `needle` stands somewhere in `hay` as a contiguous run. The empty
/// sequence stands in every sequence.
pub open spec fn occurs_in<T>(hay: Seq<T>, needle: Seq<T>) -> bool {
    exists|at: int| occurs_at(hay, needle, at)
}

/// The empty sequence occurs in every sequence.
pub proof fn lemma_empty_occurs<T>(hay: Seq<T>, needle: Seq<T>)
    requires
        needle.len() == 0,
    ensures
        occurs_in(hay, needle),
{
    assert(hay.subrange(0, 0) =~= needle);
    assert(occurs_at(hay, needle, 0));
}

/// If the bytes of `prefix`, followed by anything, are valid UTF-8, then a
/// character ends where the bytes of `prefix` end.
proof fn lemma_boundary_after(prefix: Seq<char>, rest: Seq<u8>)
    requires
        valid_utf8(encode_utf8(prefix) + rest),
    ensures
        is_char_boundary(encode_utf8(prefix) + rest, encode_utf8(prefix).len() as int),
    decreases prefix.len(),
{
    let whole = encode_utf8(prefix) + rest;
    if prefix.len() > 0 {
        let tail = prefix.drop_first();
        encode_utf8_first_scalar(prefix);
        let width = encode_scalar(prefix[0] as u32).len() as int;
        assert(whole[0] == encode_utf8(prefix)[0]);
        assert(length_of_first_scalar(whole) == width);
        assert(pop_first_scalar(whole) =~= encode_utf8(tail) + rest);
        lemma_boundary_after(tail, rest);
    }
}

/// A string occurs in another exactly when its bytes occur in the other's
/// bytes.
pub proof fn lemma_occurs_in_bytes(hay: Seq<char>, needle: Seq<char>)
    ensures
        occurs_in(encode_utf8(hay), encode_utf8(needle)) <==> occurs_in(hay, needle),
{
    let hay_bytes = encode_utf8(hay);
    let needle_bytes = encode_utf8(needle);
    let n = hay_bytes.len() as int;
    let m = needle_bytes.len() as int;
    encode_utf8_valid_utf8(hay);
    encode_utf8_decode_utf8(hay);
    encode_utf8_decode_utf8(needle);
    if occurs_in(hay, needle) {
        let at = choose|at: int| occurs_at(hay, needle, at);
        let before = hay.take(at);
        let after = hay.skip(at + needle.len());
        assert(hay =~= before + needle + after);
        lemma_encode_concat(before + needle, after);
        lemma_encode_concat(before, needle);
        let start = encode_utf8(before).len() as int;
        assert(hay_bytes.subrange(start, start + m) =~= needle_bytes);
        assert(occurs_at(hay_bytes, needle_bytes, start));
    }
    if occurs_in(hay_bytes, needle_bytes) {
        if needle.len() == 0 {
            lemma_empty_occurs(hay, needle);
        } else {
            let start = choose|at: int| occurs_at(hay_bytes, needle_bytes, at);
            encode_utf8_first_scalar(needle);
            assert(hay_bytes[start] == hay_bytes.subrange(start, start + m)[0]);
            assert(!is_continuation_byte(needle_bytes[0]));
            is_char_boundary_iff_not_is_continuation_byte(hay_bytes, start);
            valid_utf8_split(hay_bytes, start);
            decode_utf8_split(hay_bytes, start);
            let front = hay_bytes.subrange(0, start);
            let back = hay_bytes.subrange(start, n);
            let rest = hay_bytes.subrange(start + m, n);
            assert(back =~= needle_bytes + rest);
            lemma_boundary_after(needle, rest);
            valid_utf8_split(back, m);
            decode_utf8_split(back, m);
            assert(back.subrange(0, m) =~= needle_bytes);
            assert(back.subrange(m, back.len() as int) =~= rest);
            let before = decode_utf8(front);
            assert(hay =~= before + needle + decode_utf8(rest));
            let at = before.len() as int;
            assert(hay.subrange(at, at + needle.len()) =~= needle);
            assert(occurs_at(hay, needle, at));
        }
    }
}

/// Whether `needle` stands in `hay` at offset `at`.
fn matches_at(hay: &[u8], needle: &[u8], at: usize) -> (same: bool)
    requires
        at + needle@.len() <= hay@.len(),
    ensures
        same == occurs_at(hay@, needle@, at as int),
{
    let n = hay.len();
    let mut k: usize = 0;
    while k < needle.len()
        invariant
            n == hay@.len(),
            k <= needle@.len(),
            at + needle@.len() <= hay@.len(),
            forall|j: int| 0 <= j < k ==> hay@[at + j] == needle@[j],
        decreases needle@.len() - k,
    {
        if hay[at + k] != needle[k] {
            proof {
                assert(hay@.subrange(at as int, at + needle@.len())[k as int] != needle@[k as int]);
            }
            return false;
        }
        k += 1;
    }
    proof {
        assert(hay@.subrange(at as int, at + needle@.len()) =~= needle@);
    }
    true
}

/// Whether `needle` occurs in `hay`.
fn bytes_contain(hay: &[u8], needle: &[u8]) -> (found: bool)
    ensures
        found == occurs_in(hay@, needle@),
{
    if needle.len() == 0 {
        proof {
            lemma_empty_occurs(hay@, needle@);
        }
        return true;
    }
    if needle.len() > hay.len() {
        return false;
    }
    let n = hay.len();
    let last: usize = n - needle.len();
    let mut at: usize = 0;
    while at <= last
        invariant
            n == hay@.len(),
            last == hay@.len() - needle@.len(),
            needle@.len() > 0,
            at <= last + 1,
            forall|j: int| 0 <= j < at ==> !occurs_at(hay@, needle@, j),
        decreases last + 1 - at,
    {
        if matches_at(hay, needle, at) {
            return true;
        }
        at += 1;
    }
    false
}

/// Whether `query` occurs in `line`: some run of consecutive characters of
/// `line` is `query`. The empty query occurs in every line.
pub fn contains(line: &str, query: &str) -> (found: bool)
    ensures
        found == occurs_in(line@, query@),
{
    proof {
        lemma_occurs_in_bytes(line@, query@);
    }
    bytes_contain(line.as_bytes(), query.as_bytes())
}

} // verus!
