//! A check that bytes are well-formed UTF-8, as `vstd::utf8` defines it:
//! every scalar has a leading byte and the continuation bytes that go with
//! it, is encoded in the shortest form, and is no surrogate.

use vstd::prelude::*;
use vstd::utf8::*;

verus! {

/// The number of bytes that the scalar at the start of `bytes` takes, where
/// `bytes` starts with a well-formed scalar, and zero where it does not.
spec fn first_scalar_width(bytes: Seq<u8>) -> int {
    if valid_first_scalar(bytes) {
        length_of_first_scalar(bytes)
    } else {
        0
    }
}

/// True when `b` has the form `10xxxxxx` of a continuation byte.
fn is_continuation(b: u8) -> (yes: bool)
    ensures
        yes == is_continuation_byte(b),
{
    0x80 <= b && b <= 0xbf
}

/// Measures the scalar that starts at `bytes[at]`.
fn scalar_width(bytes: &[u8], at: usize) -> (width: usize)
    requires
        at < bytes@.len(),
    ensures
        width == first_scalar_width(bytes@.skip(at as int)),
        at + width <= bytes@.len(),
{
    let left = bytes.len() - at;
    let b0 = bytes[at];
    if b0 <= 0x7f {
        1
    } else if 0xc0 <= b0 && b0 <= 0xdf {
        if left < 2 || !is_continuation(bytes[at + 1]) {
            return 0;
        }
        let b1 = bytes[at + 1];
        let scalar: u32 = ((b0 & 0x1f) as u32) << 6 | ((b1 & 0x3f) as u32);
        assert(scalar <= 0x7ff) by (bit_vector)
            requires
                scalar == ((b0 & 0x1f) as u32) << 6 | ((b1 & 0x3f) as u32),
        ;
        if 0x80 <= scalar {
            2
        } else {
            0
        }
    } else if 0xe0 <= b0 && b0 <= 0xef {
        if left < 3 || !is_continuation(bytes[at + 1]) || !is_continuation(bytes[at + 2]) {
            return 0;
        }
        let b1 = bytes[at + 1];
        let b2 = bytes[at + 2];
        let scalar: u32 = ((b0 & 0x0f) as u32) << 12 | ((b1 & 0x3f) as u32) << 6 | ((b2
            & 0x3f) as u32);
        if 0x800 <= scalar && !(0xd800 <= scalar && scalar <= 0xdfff) {
            3
        } else {
            0
        }
    } else if 0xf0 <= b0 && b0 <= 0xf7 {
        if left < 4 || !is_continuation(bytes[at + 1]) || !is_continuation(bytes[at + 2])
            || !is_continuation(bytes[at + 3]) {
            return 0;
        }
        let b1 = bytes[at + 1];
        let b2 = bytes[at + 2];
        let b3 = bytes[at + 3];
        let scalar: u32 = ((b0 & 0x07) as u32) << 18 | ((b1 & 0x3f) as u32) << 12 | ((b2
            & 0x3f) as u32) << 6 | ((b3 & 0x3f) as u32);
        if 0x10000 <= scalar && scalar <= 0x10ffff {
            4
        } else {
            0
        }
    } else {
        0
    }
}

/// Well-formed UTF-8 stays well-formed when ASCII bytes are appended.
pub proof fn lemma_ascii_keeps_utf8(head: Seq<u8>, tail: Seq<u8>)
    requires
        valid_utf8(head),
        forall|i: int| 0 <= i < tail.len() ==> tail[i] <= 0x7f,
    ensures
        valid_utf8(head + tail),
{
    let all = head + tail;
    assert(all.subrange(0, head.len() as int) =~= head);
    partial_valid_utf8_extend_ascii_block(all, head.len() as int, all.len() as int);
    assert(all.subrange(0, all.len() as int) =~= all);
}

/// Where well-formed UTF-8 holds an ASCII byte, the bytes in front of that
/// byte and the bytes behind it are well-formed UTF-8 too.
pub proof fn lemma_utf8_around_ascii(bytes: Seq<u8>, at: int)
    requires
        valid_utf8(bytes),
        0 <= at < bytes.len(),
        bytes[at] <= 0x7f,
    ensures
        valid_utf8(bytes.take(at)),
        valid_utf8(bytes.skip(at + 1)),
{
    is_char_boundary_iff_not_is_continuation_byte(bytes, at);
    valid_utf8_split(bytes, at);
    let rest = bytes.subrange(at, bytes.len() as int);
    assert(pop_first_scalar(rest) =~= bytes.skip(at + 1));
}

/// Tells whether `bytes` is well-formed UTF-8.
pub fn is_utf8(bytes: &[u8]) -> (ok: bool)
    ensures
        ok == valid_utf8(bytes@),
{
    let mut at: usize = 0;
    while at < bytes.len()
        invariant
            partial_valid_utf8(bytes@, at as int),
        decreases bytes@.len() - at,
    {
        let width = scalar_width(bytes, at);
        if width == 0 {
            proof {
                partial_valid_partial_invalid_utf8(bytes@, at as int);
            }
            return false;
        }
        proof {
            partial_valid_utf8_extend(bytes@, at as int);
        }
        at += width;
    }
    assert(bytes@.subrange(0, at as int) =~= bytes@);
    true
}

} // verus!
