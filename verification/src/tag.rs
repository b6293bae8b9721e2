//! The grammar of a command tag: words separated by single spaces, the last
//! of which may be a decimal row count. A count is written with digits and
//! nothing else: a word with a sign in front of its digits is no count.
//!
//! A tag is handled as the bytes of its UTF-8 text. The space and the digits
//! are ASCII, so in well-formed UTF-8 their bytes never occur inside the
//! encoding of another character, and splitting the bytes splits the text.
//! The module `text` states the grammar on characters and proves this.

use vstd::prelude::*;

verus! {

/// The byte that separates the words of a command tag.
pub const SPACE: u8 = 0x20;

/// The byte of the digit `0`.
pub const DIGIT_ZERO: u8 = 0x30;

/// The byte of the digit `9`.
pub const DIGIT_NINE: u8 = 0x39;

/// The last word of `tag`: everything behind its last space, or all of it
/// when it holds no space. A tag that is empty or ends in a space has the
/// empty word as its last.
pub open spec fn last_word(tag: Seq<u8>) -> Seq<u8>
    decreases tag.len(),
{
    if tag.len() == 0 || tag.last() == SPACE {
        Seq::empty()
    } else {
        last_word(tag.drop_last()).push(tag.last())
    }
}

/// True when `b` is one of the ASCII digits `0` to `9`.
pub open spec fn is_digit(b: u8) -> bool {
    DIGIT_ZERO <= b <= DIGIT_NINE
}

/// True when every byte of `word` is a digit.
pub open spec fn all_digits(word: Seq<u8>) -> bool {
    forall|i: int| 0 <= i < word.len() ==> is_digit(#[trigger] word[i])
}

/// True when `word` is a decimal numeral: one digit or more, and nothing else.
pub open spec fn is_numeral(word: Seq<u8>) -> bool {
    word.len() > 0 && all_digits(word)
}

/// The number that the digits of `word` write in base ten, most significant
/// digit first. It has a meaning only where every byte of `word` is a digit.
pub open spec fn decimal_value(word: Seq<u8>) -> nat
    decreases word.len(),
{
    if word.len() == 0 {
        0
    } else {
        10 * decimal_value(word.drop_last()) + (word.last() - DIGIT_ZERO) as nat
    }
}

/// The count that `word` stands for: its decimal value when it is a numeral
/// and that value fits 64 bits, nothing otherwise.
pub open spec fn numeral_value(word: Seq<u8>) -> Option<u64> {
    if is_numeral(word) && decimal_value(word) <= u64::MAX {
        Some(decimal_value(word) as u64)
    } else {
        None
    }
}

/// The number of affected rows that `tag` reports: the count its last word
/// stands for, and zero when the last word stands for none.
pub open spec fn row_count(tag: Seq<u8>) -> u64 {
    match numeral_value(last_word(tag)) {
        Some(n) => n,
        None => 0,
    }
}

/// The last word of `tag` is the space-free suffix that starts the tag or
/// follows a space.
pub proof fn lemma_last_word_is_suffix(tag: Seq<u8>, start: int)
    requires
        0 <= start <= tag.len(),
        start > 0 ==> tag[start - 1] == SPACE,
        forall|i: int| start <= i < tag.len() ==> tag[i] != SPACE,
    ensures
        last_word(tag) == tag.skip(start),
    decreases tag.len(),
{
    if start < tag.len() {
        lemma_last_word_is_suffix(tag.drop_last(), start);
        assert(tag.skip(start) =~= tag.drop_last().skip(start).push(tag.last()));
    } else {
        assert(tag.skip(start) =~= Seq::<u8>::empty());
    }
}

/// The digits at the front of a numeral write a number that is no larger
/// than the one the whole numeral writes.
pub proof fn lemma_decimal_value_grows(word: Seq<u8>, len: int)
    requires
        0 <= len <= word.len(),
        all_digits(word),
    ensures
        decimal_value(word.take(len)) <= decimal_value(word),
    decreases word.len() - len,
{
    if len == word.len() {
        assert(word.take(len) =~= word);
    } else {
        lemma_decimal_value_grows(word.drop_last(), len);
        assert(word.drop_last().take(len) =~= word.take(len));
    }
}

/// Finds the last word of a command tag.
pub fn find_last_word(tag: &[u8]) -> (word: &[u8])
    ensures
        word@ == last_word(tag@),
{
    let mut start: usize = tag.len();
    while start > 0 && tag[start - 1] != SPACE
        invariant
            start <= tag@.len(),
            forall|i: int| start <= i < tag@.len() ==> tag@[i] != SPACE,
        decreases start,
    {
        start -= 1;
    }
    proof {
        lemma_last_word_is_suffix(tag@, start as int);
    }
    &tag[start..tag.len()]
}

/// Reads a word as a decimal count of at most 64 bits.
pub fn parse_numeral(word: &[u8]) -> (count: Option<u64>)
    ensures
        count == numeral_value(word@),
{
    if word.len() == 0 {
        return None;
    }
    let mut value: u64 = 0;
    let mut i: usize = 0;
    while i < word.len()
        invariant
            i <= word@.len(),
            all_digits(word@.take(i as int)),
            value == decimal_value(word@.take(i as int)),
        decreases word@.len() - i,
    {
        let b = word[i];
        if b < DIGIT_ZERO || b > DIGIT_NINE {
            return None;
        }
        let digit: u64 = (b - DIGIT_ZERO) as u64;
        proof {
            assert(word@.take(i + 1).drop_last() =~= word@.take(i as int));
            if all_digits(word@) {
                lemma_decimal_value_grows(word@, i + 1);
            }
        }
        let shifted = match value.checked_mul(10) {
            Some(shifted) => shifted,
            None => { return None; },
        };
        value = match shifted.checked_add(digit) {
            Some(sum) => sum,
            None => { return None; },
        };
        i += 1;
    }
    proof {
        assert(word@.take(i as int) =~= word@);
    }
    Some(value)
}

/// Reads the number of affected rows off a command tag.
pub fn count_rows(tag: &[u8]) -> (rows: u64)
    ensures
        rows == row_count(tag@),
{
    match parse_numeral(find_last_word(tag)) {
        Some(n) => n,
        None => 0,
    }
}

} // verus!
