//! Reading a NUL-terminated string off the front of a byte buffer.
//!
//! The buffer is a byte slice behind a mutable reference. A read that
//! succeeds moves the slice past what it read; one that fails leaves it
//! where it was.

use vstd::prelude::*;
use vstd::utf8::valid_utf8;
use crate::error::DecodeError;
use crate::utf8::is_utf8;

verus! {

/// The byte that ends a string.
pub const NUL: u8 = 0;

/// The number of bytes in front of the first NUL byte of `bytes`, and the
/// length of `bytes` when it holds no NUL byte.
pub open spec fn nul_offset(bytes: Seq<u8>) -> int
    decreases bytes.len(),
{
    if bytes.len() == 0 || bytes[0] == NUL {
        0
    } else {
        1 + nul_offset(bytes.drop_first())
    }
}

/// The bytes in front of the first NUL byte of `bytes`.
pub open spec fn until_nul(bytes: Seq<u8>) -> Seq<u8> {
    bytes.take(nul_offset(bytes))
}

/// The string at the front of `bytes`: the bytes in front of the first NUL
/// byte, provided there is a NUL byte and they are well-formed UTF-8.
pub open spec fn str_nul(bytes: Seq<u8>) -> Result<Seq<u8>, DecodeError> {
    if nul_offset(bytes) >= bytes.len() {
        Err(DecodeError::MissingTerminator)
    } else if !valid_utf8(until_nul(bytes)) {
        Err(DecodeError::InvalidText)
    } else {
        Ok(until_nul(bytes))
    }
}

/// `nul_offset` is the index of the first NUL byte: no byte in front of it is
/// NUL, and the byte at it is, unless it is the end of `bytes`, which it is
/// exactly when `bytes` holds no NUL byte.
pub proof fn lemma_nul_offset(bytes: Seq<u8>)
    ensures
        0 <= nul_offset(bytes) <= bytes.len(),
        forall|i: int| 0 <= i < nul_offset(bytes) ==> bytes[i] != NUL,
        nul_offset(bytes) < bytes.len() ==> bytes[nul_offset(bytes)] == NUL,
        nul_offset(bytes) < bytes.len() <==> bytes.contains(NUL),
    decreases bytes.len(),
{
    if bytes.len() > 0 && bytes[0] != NUL {
        let rest = bytes.drop_first();
        lemma_nul_offset(rest);
        assert(forall|i: int| 0 < i < bytes.len() ==> bytes[i] == rest[i - 1]);
    }
}

/// An index with no NUL byte in front of it, which is the end of `bytes` or
/// holds a NUL byte, is `nul_offset`.
pub proof fn lemma_nul_offset_is(bytes: Seq<u8>, at: int)
    requires
        0 <= at <= bytes.len(),
        forall|i: int| 0 <= i < at ==> bytes[i] != NUL,
        at < bytes.len() ==> bytes[at] == NUL,
    ensures
        nul_offset(bytes) == at,
{
    lemma_nul_offset(bytes);
}

/// Reads a NUL-terminated string off the front of `buf` and moves `buf` past
/// its NUL byte. Returns the string without the NUL byte.
///
/// Fails, and leaves `buf` as it was, when `buf` holds no NUL byte or the
/// bytes in front of the first one are not well-formed UTF-8.
pub fn get_str_nul<'a>(buf: &mut &'a [u8]) -> (res: Result<&'a [u8], DecodeError>)
    ensures
        res matches Ok(text) ==> str_nul((*old(buf))@) == Ok::<Seq<u8>, DecodeError>(text@),
        res matches Err(e) ==> str_nul((*old(buf))@) == Err::<Seq<u8>, DecodeError>(e),
        res is Ok ==> (*final(buf))@ == (*old(buf))@.skip(nul_offset((*old(buf))@) + 1),
        res is Err ==> *final(buf) == *old(buf),
{
    let bytes: &'a [u8] = *buf;
    let mut at: usize = 0;
    while at < bytes.len() && bytes[at] != NUL
        invariant
            at <= bytes@.len(),
            forall|i: int| 0 <= i < at ==> bytes@[i] != NUL,
        decreases bytes@.len() - at,
    {
        at += 1;
    }
    proof {
        lemma_nul_offset_is(bytes@, at as int);
    }
    if at == bytes.len() {
        return Err(DecodeError::MissingTerminator);
    }
    let text = &bytes[0..at];
    if !is_utf8(text) {
        return Err(DecodeError::InvalidText);
    }
    *buf = &bytes[at + 1..bytes.len()];
    Ok(text)
}

} // verus!
