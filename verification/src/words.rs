//! Finding the first space-delimited word of a text.
//!
//! The word is described twice: over the bytes that a scan reads
//! (`first_word_bytes`) and over the characters that a caller sees
//! (`first_word`). `lemma_first_word_encoding` shows that the two agree.

use vstd::prelude::*;
use vstd::string::*;
use vstd::utf8::*;

verus! {

/// The ASCII space byte, the only delimiter this module recognises.
pub const SPACE: u8 = 0x20;

/// `i` is the end of the first word of `bytes`: no byte before `i` is a
/// space, and `i` is either the position of a space or the end of `bytes`.
pub open spec fn is_first_word_end(bytes: Seq<u8>, i: int) -> bool {
    &&& 0 <= i <= bytes.len()
    &&& forall|j: int| 0 <= j < i ==> bytes[j] != SPACE
    &&& i < bytes.len() ==> bytes[i] == SPACE
}

/// The end of the first word of `bytes`: the index of its first space, or
/// its length where it holds none.
pub open spec fn first_word_end(bytes: Seq<u8>) -> int
    decreases bytes.len(),
{
    if bytes.len() == 0 || bytes[0] == SPACE {
        0
    } else {
        1 + first_word_end(bytes.drop_first())
    }
}

/// The first word of `bytes`: everything before its first space, or all
/// of it where it holds none.
pub open spec fn first_word_bytes(bytes: Seq<u8>) -> Seq<u8> {
    bytes.subrange(0, first_word_end(bytes))
}

/// The number of characters in the first word of `chars`: the index of
/// its first space character, or its length where it holds none.
pub open spec fn first_word_len(chars: Seq<char>) -> int
    decreases chars.len(),
{
    if chars.len() == 0 || chars[0] == ' ' {
        0
    } else {
        1 + first_word_len(chars.drop_first())
    }
}

/// The first word of `chars`: the characters before its first space, or
/// all of them where it holds none.
pub open spec fn first_word(chars: Seq<char>) -> Seq<char> {
    chars.subrange(0, first_word_len(chars))
}

/// `first_word_end` is the one index that satisfies `is_first_word_end`.
pub proof fn lemma_first_word_end_unique(bytes: Seq<u8>, i: int)
    ensures
        is_first_word_end(bytes, first_word_end(bytes)),
        is_first_word_end(bytes, i) ==> i == first_word_end(bytes),
    decreases bytes.len(),
{
    if bytes.len() != 0 && bytes[0] != SPACE {
        let rest = bytes.drop_first();
        lemma_first_word_end_unique(rest, i - 1);
        let e = first_word_end(rest);
        assert forall|j: int| 0 <= j < 1 + e implies bytes[j] != SPACE by {
            if j > 0 {
                assert(rest[j - 1] == bytes[j]);
            }
        }
        if e < rest.len() {
            assert(rest[e] == bytes[1 + e]);
        }
        if is_first_word_end(bytes, i) {
            assert forall|j: int| 0 <= j < i - 1 implies rest[j] != SPACE by {
                assert(rest[j] == bytes[j + 1]);
            }
            if i - 1 < rest.len() {
                assert(rest[i - 1] == bytes[i]);
            }
        }
    }
}

/// Where `head` holds no space, the first word of `head + tail` ends
/// where that of `tail` does, shifted by the length of `head`.
pub proof fn lemma_first_word_end_skip(head: Seq<u8>, tail: Seq<u8>)
    requires
        forall|j: int| 0 <= j < head.len() ==> head[j] != SPACE,
    ensures
        first_word_end(head + tail) == head.len() + first_word_end(tail),
{
    let end = first_word_end(tail);
    let all = head + tail;
    lemma_first_word_end_unique(tail, end);
    assert forall|j: int| 0 <= j < head.len() + end implies all[j] != SPACE by {
        if j >= head.len() {
            assert(all[j] == tail[j - head.len()]);
        }
    }
    if head.len() + end < all.len() {
        assert(all[head.len() + end] == tail[end]);
    }
    lemma_first_word_end_unique(all, head.len() + end);
}

/// `first_word_len` lies within the text, no character before it is a
/// space, and it is the position of a space unless it is the end.
pub proof fn lemma_first_word_len(chars: Seq<char>)
    ensures
        0 <= first_word_len(chars) <= chars.len(),
        forall|j: int| 0 <= j < first_word_len(chars) ==> chars[j] != ' ',
        first_word_len(chars) < chars.len() ==> chars[first_word_len(chars)] == ' ',
    decreases chars.len(),
{
    if chars.len() != 0 && chars[0] != ' ' {
        let rest = chars.drop_first();
        lemma_first_word_len(rest);
        let n = first_word_len(rest);
        assert forall|j: int| 0 <= j < 1 + n implies chars[j] != ' ' by {
            if j > 0 {
                assert(rest[j - 1] == chars[j]);
            }
        }
        if n < rest.len() {
            assert(rest[n] == chars[1 + n]);
        }
    }
}

/// An index with no space before it, which is the position of a space or
/// the end of the text, is the length of the first word.
pub proof fn lemma_first_word_len_unique(chars: Seq<char>, n: int)
    requires
        0 <= n <= chars.len(),
        forall|j: int| 0 <= j < n ==> chars[j] != ' ',
        n < chars.len() ==> chars[n] == ' ',
    ensures
        first_word_len(chars) == n,
    decreases chars.len(),
{
    if chars.len() != 0 && chars[0] != ' ' {
        let rest = chars.drop_first();
        assert forall|j: int| 0 <= j < n - 1 implies rest[j] != ' ' by {
            assert(rest[j] == chars[j + 1]);
        }
        if n - 1 < rest.len() {
            assert(rest[n - 1] == chars[n]);
        }
        lemma_first_word_len_unique(rest, n - 1);
    }
}

/// The encoding of a space is the single space byte, and the encoding of
/// any other character holds no space byte.
pub proof fn lemma_space_in_encoding(c: char)
    ensures
        c == ' ' ==> encode_scalar(c as u32) == seq![SPACE],
        c != ' ' ==> forall|j: int|
            0 <= j < encode_scalar(c as u32).len() ==> #[trigger] encode_scalar(c as u32)[j]
                != SPACE,
        encode_scalar(c as u32).len() > 0,
{
    let v = c as u32;
    assert(has_width_1_encoding(v) ==> (v & 0x7F) as u8 == v) by (bit_vector);
    assert((0xC0u8 | ((v >> 6) & 0x1F) as u8) >= 0x80) by (bit_vector);
    assert((0xE0u8 | ((v >> 12) & 0x0F) as u8) >= 0x80) by (bit_vector);
    assert((0xF0u8 | ((v >> 18) & 0x7) as u8) >= 0x80) by (bit_vector);
    assert((0x80u8 | (v & 0x3F) as u8) >= 0x80) by (bit_vector);
    assert((0x80u8 | ((v >> 6) & 0x3F) as u8) >= 0x80) by (bit_vector);
    assert((0x80u8 | ((v >> 12) & 0x3F) as u8) >= 0x80) by (bit_vector);
    if c == ' ' {
        assert(encode_scalar(v) =~= seq![SPACE]);
    }
}

/// Scanning the encoded bytes and scanning the characters find the same
/// word: the first word of the bytes is the encoding of the first word of
/// the characters.
pub proof fn lemma_first_word_encoding(chars: Seq<char>)
    ensures
        first_word_bytes(encode_utf8(chars)) == encode_utf8(first_word(chars)),
    decreases chars.len(),
{
    let bytes = encode_utf8(chars);
    if chars.len() == 0 {
        assert(first_word(chars) =~= chars);
        assert(first_word_bytes(bytes) =~= bytes);
    } else {
        let c = chars[0];
        let rest = chars.drop_first();
        let head = encode_scalar(c as u32);
        let tail = encode_utf8(rest);
        lemma_space_in_encoding(c);
        assert(bytes == head + tail);
        if c == ' ' {
            assert(bytes[0] == SPACE);
            assert(first_word(chars) =~= Seq::<char>::empty());
            assert(first_word_bytes(bytes) =~= encode_utf8(Seq::<char>::empty()));
        } else {
            lemma_first_word_encoding(rest);
            lemma_first_word_end_skip(head, tail);
            lemma_first_word_len(rest);
            lemma_first_word_end_unique(tail, 0);
            let word = first_word(chars);
            assert(word.len() > 0 && word[0] == c);
            assert(word.drop_first() =~= first_word(rest));
            assert(first_word_bytes(bytes) =~= head + first_word_bytes(tail));
        }
    }
}

/// The end of the first word of well-formed text falls between two
/// characters, never inside the encoding of one.
pub proof fn lemma_first_word_end_is_boundary(chars: Seq<char>)
    ensures
        is_char_boundary(encode_utf8(chars), first_word_end(encode_utf8(chars))),
{
    let bytes = encode_utf8(chars);
    let end = first_word_end(bytes);
    lemma_first_word_end_unique(bytes, end);
    encode_utf8_valid_utf8(chars);
    if end < bytes.len() {
        assert(is_leading_byte_width_1(bytes[end]));
        is_char_boundary_iff_is_leading_byte(bytes, end);
    } else {
        is_char_boundary_start_end_of_seq(bytes);
    }
}

/// Scans `bytes` from the front and returns where its first word ends:
/// the index of the first space byte, or the length where there is none.
pub fn first_word_end_of(bytes: &[u8]) -> (end: usize)
    ensures
        end == first_word_end(bytes@),
        is_first_word_end(bytes@, end as int),
{
    let mut i: usize = 0;
    while i < bytes.len() && bytes[i] != SPACE
        invariant
            i <= bytes.len(),
            forall|j: int| 0 <= j < i ==> bytes@[j] != SPACE,
        decreases bytes.len() - i,
    {
        i += 1;
    }
    proof {
        lemma_first_word_end_unique(bytes@, i as int);
    }
    i
}

/// Returns the byte index at which the first word of `s` ends: the index
/// of the first space, or the length of `s` where it holds none.
pub fn first_word_index(s: &String) -> (end: usize)
    ensures
        end == first_word_end(encode_utf8(s@)),
        is_first_word_end(encode_utf8(s@), end as int),
{
    first_word_end_of(s.as_str().as_bytes())
}

/// Returns the first word of `s` as a view into `s`: the text before its
/// first space, or all of `s` where it holds no space.
pub fn first_word_improved(s: &str) -> (word: &str)
    ensures
        word@ == first_word(s@),
        word.spec_bytes() == first_word_bytes(s.spec_bytes()),
{
    let end = first_word_end_of(s.as_bytes());
    proof {
        lemma_first_word_end_is_boundary(s@);
    }
    let (word, _) = s.split_at(end);
    proof {
        lemma_first_word_encoding(s@);
        encode_utf8_decode_utf8(word@);
        encode_utf8_decode_utf8(first_word(s@));
    }
    word
}

/// Returns the first word of the owned text `s` as a view into it: the
/// text before its first space, or all of `s` where it holds no space.
pub fn first_word_slice(s: &String) -> (word: &str)
    ensures
        word@ == first_word(s@),
        word.spec_bytes() == first_word_bytes(encode_utf8(s@)),
{
    first_word_improved(s.as_str())
}

/// A text that holds no space is its own first word.
pub proof fn law_no_space_is_whole(chars: Seq<char>)
    requires
        forall|j: int| 0 <= j < chars.len() ==> chars[j] != ' ',
    ensures
        first_word(chars) == chars,
{
    lemma_first_word_len_unique(chars, chars.len() as int);
    assert(first_word(chars) =~= chars);
}

/// Where a text is a space-free part, one space, and anything after it,
/// its first word is the space-free part.
pub proof fn law_word_before_space(word: Seq<char>, rest: Seq<char>)
    requires
        forall|j: int| 0 <= j < word.len() ==> word[j] != ' ',
    ensures
        first_word(word + seq![' '] + rest) == word,
{
    let text = word + seq![' '] + rest;
    assert forall|j: int| 0 <= j < word.len() implies text[j] != ' ' by {
        assert(text[j] == word[j]);
    }
    assert(text[word.len() as int] == ' ');
    lemma_first_word_len_unique(text, word.len() as int);
    assert(first_word(text) =~= word);
}

/// The empty text has the empty first word, and so has every text that
/// begins with a space.
pub proof fn law_empty_first_word(chars: Seq<char>)
    requires
        chars.len() == 0 || chars[0] == ' ',
    ensures
        first_word(chars) == Seq::<char>::empty(),
{
    assert(first_word(chars) =~= Seq::<char>::empty());
}

/// The first word of a text holds no space, so taking the first word of
/// it again changes nothing.
pub proof fn law_first_word_idempotent(chars: Seq<char>)
    ensures
        forall|j: int| 0 <= j < first_word(chars).len() ==> first_word(chars)[j] != ' ',
        first_word(first_word(chars)) == first_word(chars),
{
    lemma_first_word_len(chars);
    let word = first_word(chars);
    assert forall|j: int| 0 <= j < word.len() implies word[j] != ' ' by {
        assert(word[j] == chars[j]);
    }
    law_no_space_is_whole(word);
}

/// The first word is a prefix of the text, and where it is shorter than
/// the text, the character that follows it is a space.
pub proof fn law_first_word_is_prefix(chars: Seq<char>)
    ensures
        first_word(chars).len() <= chars.len(),
        first_word(chars) == chars.subrange(0, first_word(chars).len() as int),
        first_word(chars).len() < chars.len() ==> chars[first_word(chars).len() as int] == ' ',
{
    lemma_first_word_len(chars);
}

} // verus!
