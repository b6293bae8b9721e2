//! The command-complete message: what the server sends when a SQL command
//! has finished, with the number of rows the command affected.

use vstd::prelude::*;
use vstd::utf8::{decode_utf8, valid_utf8};
use crate::buf::{
    get_str_nul, lemma_nul_offset, lemma_nul_offset_is, nul_offset, str_nul, until_nul, NUL,
};
use crate::error::DecodeError;
use crate::tag::{
    all_digits, count_rows, decimal_value, is_numeral, last_word, lemma_last_word_is_suffix,
    row_count, SPACE,
};
use crate::text::{lemma_row_count_of_tag, row_count_of_text};
use crate::utf8::{lemma_ascii_keeps_utf8, lemma_utf8_around_ascii};

verus! {

/// A decoded command-complete message.
#[derive(Debug)]
pub struct CommandComplete {
    affected_rows: u64,
}

impl View for CommandComplete {
    type V = u64;

    /// A message is its number of affected rows.
    closed spec fn view(&self) -> u64 {
        self.affected_rows
    }
}

/// What decoding the message body `body` gives: the row count of the command
/// tag at its front, or the reason why no tag can be read there.
pub open spec fn decoded(body: Seq<u8>) -> Result<u64, DecodeError> {
    match str_nul(body) {
        Ok(tag) => Ok(row_count(tag)),
        Err(e) => Err(e),
    }
}

impl CommandComplete {
    /// The number of rows that the completed command affected.
    #[inline]
    pub fn affected_rows(&self) -> (rows: u64)
        ensures
            rows == self@,
    {
        self.affected_rows
    }

    /// Decodes the message body at the front of `buf`.
    ///
    /// The tag is read up to its NUL byte. A tag without a row count decodes
    /// to zero rows; only a body without a NUL byte, or with a tag that is
    /// not well-formed UTF-8, fails to decode.
    pub fn decode(buf: &[u8]) -> (res: Result<CommandComplete, DecodeError>)
        ensures
            res matches Ok(message) ==> decoded(buf@) == Ok::<u64, DecodeError>(message@),
            res matches Err(e) ==> decoded(buf@) == Err::<u64, DecodeError>(e),
    {
        let mut buf = buf;
        CommandComplete::decode_from(&mut buf)
    }

    /// Decodes the message body at the front of `buf` and moves `buf` past
    /// it: past the first NUL byte, and no further. Where decoding fails
    /// `buf` stays as it was.
    pub fn decode_from(buf: &mut &[u8]) -> (res: Result<CommandComplete, DecodeError>)
        ensures
            res matches Ok(message) ==> decoded((*old(buf))@) == Ok::<u64, DecodeError>(message@),
            res matches Err(e) ==> decoded((*old(buf))@) == Err::<u64, DecodeError>(e),
            res is Ok ==> (*final(buf))@ == (*old(buf))@.skip(nul_offset((*old(buf))@) + 1),
            res is Err ==> *final(buf) == *old(buf),
    {
        match get_str_nul(buf) {
            Ok(tag) => Ok(CommandComplete { affected_rows: count_rows(tag) }),
            Err(e) => Err(e),
        }
    }
}

/// Decoding reads the row count off the text that the tag encodes: the last
/// of its words between single spaces, taken as a decimal number.
pub proof fn lemma_decoded_reads_the_text(body: Seq<u8>)
    ensures
        str_nul(body) matches Ok(tag) ==> decoded(body) == Ok::<u64, DecodeError>(
            row_count_of_text(decode_utf8(tag)),
        ),
        str_nul(body) matches Err(e) ==> decoded(body) == Err::<u64, DecodeError>(e),
{
    if str_nul(body) is Ok {
        lemma_row_count_of_tag(until_nul(body));
    }
}

/// Decoding stops at the first NUL byte. Of a body made of a NUL-free tag,
/// a NUL byte and more bytes, it reads the tag and leaves the bytes behind the
/// NUL byte, and these have no part in what it gives.
pub proof fn lemma_decoding_stops_at_the_terminator(tag: Seq<u8>, rest: Seq<u8>)
    requires
        !tag.contains(NUL),
    ensures
        nul_offset(tag + seq![NUL] + rest) == tag.len(),
        until_nul(tag + seq![NUL] + rest) == tag,
        (tag + seq![NUL] + rest).skip(nul_offset(tag + seq![NUL] + rest) + 1) == rest,
        decoded(tag + seq![NUL] + rest) == decoded(tag + seq![NUL]),
{
    let body = tag + seq![NUL] + rest;
    assert(forall|i: int| 0 <= i < tag.len() ==> body[i] == tag[i]);
    lemma_nul_offset_is(body, tag.len() as int);
    lemma_tag_then_nul(tag);
    assert(body.take(tag.len() as int) =~= tag);
    assert(body.skip(nul_offset(body) + 1) =~= rest);
}

/// A body made of a NUL-free tag and a NUL byte holds that tag at its front.
proof fn lemma_tag_then_nul(tag: Seq<u8>)
    requires
        !tag.contains(NUL),
    ensures
        nul_offset(tag + seq![NUL]) == tag.len(),
        until_nul(tag + seq![NUL]) == tag,
{
    let body = tag + seq![NUL];
    assert(forall|i: int| 0 <= i < tag.len() ==> body[i] == tag[i]);
    lemma_nul_offset_is(body, tag.len() as int);
    assert(body.take(tag.len() as int) =~= tag);
}

/// A body that ends in a space, a run of digits and the NUL byte decodes to
/// the number that the digits write, provided the number fits 64 bits. What
/// stands in front of the space must be well-formed UTF-8 without a NUL byte,
/// and is otherwise free. An empty run of digits counts as zero.
pub proof fn lemma_trailing_digits_are_the_count(head: Seq<u8>, digits: Seq<u8>)
    requires
        valid_utf8(head),
        !head.contains(NUL),
        all_digits(digits),
        decimal_value(digits) <= u64::MAX,
    ensures
        decoded(head + seq![SPACE] + digits + seq![NUL]) == Ok::<u64, DecodeError>(
            decimal_value(digits) as u64,
        ),
{
    let tail = seq![SPACE] + digits;
    let tag = head + seq![SPACE] + digits;
    let start = head.len() as int + 1;
    assert(tag =~= head + tail);
    assert(tag.skip(start) =~= digits);
    assert(forall|i: int| 0 < i < tail.len() ==> tail[i] == digits[i - 1]);
    lemma_ascii_keeps_utf8(head, tail);
    assert forall|i: int| 0 <= i < tag.len() implies tag[i] != NUL by {
        if i < head.len() {
            assert(head.contains(head[i]));
        }
    }
    lemma_tag_then_nul(tag);
    lemma_last_word_is_suffix(tag, start);
}

/// A body with a NUL byte and well-formed UTF-8 in front of it decodes, and
/// decodes to zero rows when the last word of its tag is no numeral, or is
/// one that does not fit 64 bits.
pub proof fn lemma_no_count_means_zero(body: Seq<u8>)
    requires
        body.contains(NUL),
        valid_utf8(until_nul(body)),
        !is_numeral(last_word(until_nul(body))) || decimal_value(last_word(until_nul(body)))
            > u64::MAX,
    ensures
        decoded(body) == Ok::<u64, DecodeError>(0),
{
    lemma_nul_offset(body);
}

/// Only the last word of a tag counts. A body whose tag ends in a space and
/// a word decodes as the body that holds that word alone, whatever stands in
/// front of the space, numbers included.
pub proof fn lemma_leading_words_are_ignored(head: Seq<u8>, word: Seq<u8>)
    requires
        valid_utf8(head + seq![SPACE] + word),
        !(head + seq![SPACE] + word).contains(NUL),
        !word.contains(SPACE),
    ensures
        decoded(head + seq![SPACE] + word + seq![NUL]) == decoded(word + seq![NUL]),
        decoded(word + seq![NUL]) == Ok::<u64, DecodeError>(row_count(word)),
{
    let tag = head + seq![SPACE] + word;
    let start = head.len() as int + 1;
    assert(tag.skip(start) =~= word);
    assert(word.skip(0) =~= word);
    assert forall|i: int| 0 <= i < word.len() implies word[i] != NUL && word[i] != SPACE by {
        assert(tag.contains(tag[start + i]));
        assert(word.contains(word[i]));
    }
    lemma_utf8_around_ascii(tag, start - 1);
    lemma_tag_then_nul(tag);
    lemma_tag_then_nul(word);
    lemma_last_word_is_suffix(tag, start);
    lemma_last_word_is_suffix(word, 0);
}

} // verus!
