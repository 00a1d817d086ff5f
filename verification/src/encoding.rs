//! How the characters of a string relate to its UTF-8 bytes, as far as
//! cutting a string at an ASCII byte needs it.

use vstd::prelude::*;
use vstd::string::*;
use vstd::utf8::*;

verus! {

/// The UTF-8 encoding of a single ASCII character is the one byte that is
/// its code.
pub proof fn lemma_encode_ascii(c: char)
    requires
        (c as u32) < 0x80,
    ensures
        encode_utf8(seq![c]) == seq![c as u8],
{
    let u = c as u32;
    assert(leading_byte_width_1(u) == u as u8) by (bit_vector)
        requires
            u < 0x80,
    ;
    assert(seq![c].drop_first() =~= Seq::<char>::empty());
    reveal_with_fuel(encode_utf8, 2);
    assert(encode_utf8(seq![c]) =~= seq![c as u8]);
}

/// Encoding distributes over concatenation.
pub proof fn lemma_encode_concat(a: Seq<char>, b: Seq<char>)
    ensures
        encode_utf8(a + b) == encode_utf8(a) + encode_utf8(b),
    decreases a.len(),
{
    if a.len() == 0 {
        assert(a + b =~= b);
        assert(encode_utf8(a) + encode_utf8(b) =~= encode_utf8(b));
    } else {
        lemma_encode_concat(a.drop_first(), b);
        assert((a + b).drop_first() =~= a.drop_first() + b);
        assert(encode_utf8(a + b) =~= encode_utf8(a) + encode_utf8(b));
    }
}

/// A string's characters are the decoding of its bytes, and the bytes are
/// valid UTF-8.
pub proof fn lemma_text_of_bytes(s: &str)
    ensures
        valid_utf8(s.spec_bytes()),
        s@ == decode_utf8(s.spec_bytes()),
{
    encode_utf8_valid_utf8(s@);
    encode_utf8_decode_utf8(s@);
}

/// In valid UTF-8 an ASCII byte stands for one character by itself: the
/// text is what comes before the byte, then that character, then what
/// comes after it.
pub proof fn lemma_ascii_byte_splits(bytes: Seq<u8>, i: int)
    requires
        valid_utf8(bytes),
        0 <= i < bytes.len(),
        bytes[i] < 0x80,
    ensures
        is_char_boundary(bytes, i),
        valid_utf8(bytes.subrange(i, bytes.len() as int)),
        is_char_boundary(bytes.subrange(i, bytes.len() as int), 1),
        valid_utf8(bytes.subrange(0, i)),
        valid_utf8(bytes.subrange(i + 1, bytes.len() as int)),
        decode_utf8(bytes) == decode_utf8(bytes.subrange(0, i)).push(bytes[i] as char)
            + decode_utf8(bytes.subrange(i + 1, bytes.len() as int)),
{
    let n = bytes.len() as int;
    let b = bytes[i];
    is_char_boundary_iff_not_is_continuation_byte(bytes, i);
    valid_utf8_split(bytes, i);
    decode_utf8_split(bytes, i);
    let back = bytes.subrange(i, n);
    assert(back[0] == b);
    assert(length_of_first_scalar(back) == 1);
    assert(pop_first_scalar(back) =~= bytes.subrange(i + 1, n));
    assert(is_char_boundary(back, 1)) by {
        reveal_with_fuel(is_char_boundary, 2);
    }
    assert(codepoint_width_1(b) == b as u32) by (bit_vector)
        requires
            b < 0x80,
    ;
    assert(decode_utf8(back) =~= seq![b as char] + decode_utf8(bytes.subrange(i + 1, n)));
    assert(decode_utf8(bytes) =~= decode_utf8(bytes.subrange(0, i)).push(b as char) + decode_utf8(
        bytes.subrange(i + 1, n),
    ));
}

/// An ASCII character of a text appears among the text's bytes as the byte
/// that is its code.
pub proof fn lemma_ascii_char_has_byte(text: Seq<char>, k: int)
    requires
        0 <= k < text.len(),
        (text[k] as u32) < 0x80,
    ensures
        encode_utf8(text).contains(text[k] as u8),
{
    let before = text.take(k);
    let after = text.skip(k + 1);
    assert(text =~= before + seq![text[k]] + after);
    lemma_encode_concat(before + seq![text[k]], after);
    lemma_encode_concat(before, seq![text[k]]);
    lemma_encode_ascii(text[k]);
    let at = encode_utf8(before).len() as int;
    assert(encode_utf8(text)[at] == text[k] as u8);
}

/// Where a text ends in an ASCII character, its bytes end in the byte that
/// is that character's code.
pub proof fn lemma_last_ascii_byte(text: Seq<char>)
    requires
        text.len() > 0,
        (text.last() as u32) < 0x80,
    ensures
        encode_utf8(text).len() > 0,
        encode_utf8(text).last() == text.last() as u8,
{
    assert(text =~= text.drop_last() + seq![text.last()]);
    lemma_encode_concat(text.drop_last(), seq![text.last()]);
    lemma_encode_ascii(text.last());
}

/// Cuts `s` around the ASCII byte at offset `i`: what stands before that
/// byte, and what stands after it.
pub(crate) fn split_around<'a>(s: &'a str, i: usize) -> (parts: (&'a str, &'a str))
    requires
        i < s.spec_bytes().len(),
        s.spec_bytes()[i as int] < 0x80,
    ensures
        s@ == parts.0@.push(s.spec_bytes()[i as int] as char) + parts.1@,
        parts.0.spec_bytes() == s.spec_bytes().subrange(0, i as int),
        parts.1.spec_bytes() == s.spec_bytes().subrange(i + 1, s.spec_bytes().len() as int),
{
    proof {
        lemma_text_of_bytes(s);
        lemma_ascii_byte_splits(s.spec_bytes(), i as int);
    }
    let (head, rest) = s.split_at(i);
    let (_, tail) = rest.split_at(1);
    proof {
        let bytes = s.spec_bytes();
        let n = bytes.len() as int;
        assert(rest.spec_bytes().subrange(1, rest.spec_bytes().len() as int) =~= bytes.subrange(
            i + 1,
            n,
        ));
        lemma_text_of_bytes(head);
        lemma_text_of_bytes(tail);
    }
    (head, tail)
}

} // verus!
