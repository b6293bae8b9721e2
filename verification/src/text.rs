//! The grammar of a command tag on characters, and the proof that the grammar
//! on bytes in `tag` reads the same row count off the UTF-8 encoding.
//!
//! On characters the rule reads: split the text at its single spaces, take
//! the last word, and read it as a decimal number, which is one digit or more
//! and nothing else. The row count is that number where the word is one and
//! fits 64 bits, and zero otherwise.

use vstd::prelude::*;
use vstd::utf8::*;
use crate::tag::{
    all_digits, decimal_value, is_digit, last_word, row_count, DIGIT_NINE, DIGIT_ZERO, SPACE,
};

verus! {

/// The last word of `text`: everything behind its last space, or all of it
/// when it holds no space.
pub open spec fn last_word_of_text(text: Seq<char>) -> Seq<char>
    decreases text.len(),
{
    if text.len() == 0 || text.last() == ' ' {
        Seq::empty()
    } else {
        last_word_of_text(text.drop_last()).push(text.last())
    }
}

/// True when `c` is one of the digits `0` to `9`.
pub open spec fn is_digit_char(c: char) -> bool {
    '0' <= c <= '9'
}

/// True when every character of `word` is a digit.
pub open spec fn all_digit_chars(word: Seq<char>) -> bool {
    forall|i: int| 0 <= i < word.len() ==> is_digit_char(#[trigger] word[i])
}

/// True when `word` is a decimal numeral: one digit or more, and nothing else.
pub open spec fn is_numeral_text(word: Seq<char>) -> bool {
    word.len() > 0 && all_digit_chars(word)
}

/// The number that the digits of `word` write in base ten, most significant
/// digit first. It has a meaning only where every character of `word` is a
/// digit.
pub open spec fn decimal_value_of_text(word: Seq<char>) -> nat
    decreases word.len(),
{
    if word.len() == 0 {
        0
    } else {
        10 * decimal_value_of_text(word.drop_last()) + (word.last() as u32 - '0' as u32) as nat
    }
}

/// The count that `word` stands for: its decimal value when it is a numeral
/// and that value fits 64 bits, nothing otherwise.
pub open spec fn numeral_value_of_text(word: Seq<char>) -> Option<u64> {
    if is_numeral_text(word) && decimal_value_of_text(word) <= u64::MAX {
        Some(decimal_value_of_text(word) as u64)
    } else {
        None
    }
}

/// The number of affected rows that the tag `text` reports: the count its
/// last word stands for, and zero when the last word stands for none.
pub open spec fn row_count_of_text(text: Seq<char>) -> u64 {
    match numeral_value_of_text(last_word_of_text(text)) {
        Some(n) => n,
        None => 0,
    }
}

/// The space and the digits have, as characters, the numbers of their bytes.
proof fn lemma_char_numbers(c: char)
    ensures
        c == ' ' <==> c as u32 == SPACE,
        is_digit_char(c) <==> DIGIT_ZERO <= c as u32 <= DIGIT_NINE,
        '0' as u32 == DIGIT_ZERO,
{
    char_u32_cast(c, c as u32);
    char_u32_cast(' ', ' ' as u32);
}

/// An ASCII scalar is encoded as the one byte of its number. Every byte in
/// the encoding of another scalar has its high bit set.
proof fn lemma_encode_scalar_bytes(scalar: u32)
    requires
        is_scalar(scalar),
    ensures
        encode_scalar(scalar).len() >= 1,
        scalar <= 0x7f ==> encode_scalar(scalar) == seq![scalar as u8],
        scalar > 0x7f ==> forall|i: int|
            0 <= i < encode_scalar(scalar).len() ==> #[trigger] encode_scalar(scalar)[i] >= 0x80,
{
    if scalar <= 0x7f {
        assert((scalar & 0x7f) as u8 == scalar as u8) by (bit_vector)
            requires
                scalar <= 0x7f,
        ;
        assert(encode_scalar(scalar) =~= seq![scalar as u8]);
    } else {
        assert forall|low: u8|
            #![trigger 0x80u8 | low]
            #![trigger 0xc0u8 | low]
            #![trigger 0xe0u8 | low]
            #![trigger 0xf0u8 | low]
            0x80u8 | low >= 0x80 && 0xc0u8 | low >= 0x80 && 0xe0u8 | low >= 0x80 && 0xf0u8 | low
                >= 0x80 by {
            assert(0x80u8 | low >= 0x80 && 0xc0u8 | low >= 0x80 && 0xe0u8 | low >= 0x80 && 0xf0u8
                | low >= 0x80) by (bit_vector);
        }
    }
}

/// The encoding of two texts in a row is their encodings in a row.
proof fn lemma_encode_concat(a: Seq<char>, b: Seq<char>)
    ensures
        encode_utf8(a + b) == encode_utf8(a) + encode_utf8(b),
    decreases a.len(),
{
    if a.len() == 0 {
        assert(a + b =~= b);
        assert(encode_utf8(a) + encode_utf8(b) =~= encode_utf8(b));
    } else {
        assert((a + b).drop_first() =~= a.drop_first() + b);
        lemma_encode_concat(a.drop_first(), b);
        assert(encode_utf8(a + b) =~= encode_utf8(a) + encode_utf8(b));
    }
}

/// The encoding of a text is the encoding of all but its last character,
/// followed by the encoding of that character.
proof fn lemma_encode_last(text: Seq<char>)
    requires
        text.len() > 0,
    ensures
        encode_utf8(text) == encode_utf8(text.drop_last()) + encode_scalar(text.last() as u32),
{
    let last = seq![text.last()];
    assert(text =~= text.drop_last() + last);
    lemma_encode_concat(text.drop_last(), last);
    assert(encode_utf8(last) =~= encode_scalar(text.last() as u32)) by {
        reveal_with_fuel(encode_utf8, 2);
    }
}

/// Bytes without a space that follow a tag lengthen its last word.
proof fn lemma_last_word_grows(tag: Seq<u8>, more: Seq<u8>)
    requires
        !more.contains(SPACE),
    ensures
        last_word(tag + more) == last_word(tag) + more,
    decreases more.len(),
{
    if more.len() == 0 {
        assert(tag + more =~= tag);
        assert(last_word(tag) + more =~= last_word(tag));
    } else {
        let init = more.drop_last();
        assert(more.contains(more.last()));
        assert(forall|i: int| 0 <= i < init.len() ==> more.contains(more[i]) && init[i] == more[i]);
        lemma_last_word_grows(tag, init);
        assert((tag + more).drop_last() =~= tag + init);
        assert(last_word(tag) + more =~= (last_word(tag) + init).push(more.last()));
    }
}

/// The last word of an encoded text is the encoding of its last word.
pub proof fn lemma_last_word_of_encoding(text: Seq<char>)
    ensures
        last_word(encode_utf8(text)) == encode_utf8(last_word_of_text(text)),
    decreases text.len(),
{
    if text.len() > 0 {
        let init = text.drop_last();
        let scalar = text.last() as u32;
        char_is_scalar(text.last());
        lemma_char_numbers(text.last());
        lemma_encode_last(text);
        lemma_encode_scalar_bytes(scalar);
        if text.last() == ' ' {
            assert(encode_utf8(text).last() == SPACE);
        } else {
            let word = last_word_of_text(text);
            assert(word.drop_last() =~= last_word_of_text(init));
            lemma_last_word_grows(encode_utf8(init), encode_scalar(scalar));
            lemma_last_word_of_encoding(init);
            lemma_encode_last(word);
        }
    }
}

/// The encoding of a text is made of digits exactly when the text is, and
/// then it has a byte for each character and writes the same number.
pub proof fn lemma_digits_of_encoding(word: Seq<char>)
    ensures
        all_digits(encode_utf8(word)) <==> all_digit_chars(word),
        all_digit_chars(word) ==> encode_utf8(word).len() == word.len(),
        all_digit_chars(word) ==> decimal_value(encode_utf8(word)) == decimal_value_of_text(word),
        encode_utf8(word).len() > 0 <==> word.len() > 0,
    decreases word.len(),
{
    if word.len() > 0 {
        let init = word.drop_last();
        let scalar = word.last() as u32;
        let bytes = encode_utf8(word);
        char_is_scalar(word.last());
        lemma_char_numbers(word.last());
        lemma_encode_last(word);
        lemma_encode_scalar_bytes(scalar);
        lemma_digits_of_encoding(init);
        assert(bytes.last() == encode_scalar(scalar).last());
        assert(forall|i: int| 0 <= i < init.len() ==> init[i] == word[i]);
        assert(forall|i: int| 0 <= i < encode_utf8(init).len() ==> encode_utf8(init)[i] == bytes[i]);
        if all_digit_chars(word) {
            assert(is_digit_char(word[word.len() - 1]));
            assert(bytes.drop_last() =~= encode_utf8(init));
        }
        if all_digits(bytes) {
            assert(is_digit(bytes[bytes.len() - 1]));
            assert(bytes.drop_last() =~= encode_utf8(init));
        }
    }
}

/// The grammar on bytes reads off the encoding of a text what the grammar
/// on characters reads off the text.
pub proof fn lemma_row_count_of_encoding(text: Seq<char>)
    ensures
        row_count(encode_utf8(text)) == row_count_of_text(text),
{
    lemma_last_word_of_encoding(text);
    lemma_digits_of_encoding(last_word_of_text(text));
}

/// The row count of a tag in well-formed UTF-8 is the row count of the text
/// that the tag encodes.
pub proof fn lemma_row_count_of_tag(tag: Seq<u8>)
    requires
        valid_utf8(tag),
    ensures
        row_count(tag) == row_count_of_text(decode_utf8(tag)),
{
    decode_utf8_encode_utf8(tag);
    lemma_row_count_of_encoding(decode_utf8(tag));
}

} // verus!
