use command_complete::utf8::is_utf8;

#[test]
fn empty_is_utf8() {
    assert!(is_utf8(b""));
}

#[test]
fn ascii_is_utf8() {
    assert!(is_utf8(b"INSERT 0 1"));
    assert!(is_utf8(b"\0\x01\x7f"));
    for b in 0u8..=0x7f {
        assert!(is_utf8(&[b]));
    }
}

#[test]
fn every_char_is_utf8() {
    let mut buf = [0u8; 4];
    for c in ['\u{80}', '\u{e9}', '\u{7ff}', '\u{800}', '\u{20ac}', '\u{d7ff}', '\u{e000}',
        '\u{fffd}', '\u{ffff}', '\u{10000}', '\u{1f600}', '\u{10ffff}'] {
        assert!(is_utf8(c.encode_utf8(&mut buf).as_bytes()));
    }
}

#[test]
fn lone_bytes_above_ascii_are_not_utf8() {
    for b in 0x80u8..=0xff {
        assert!(!is_utf8(&[b]));
    }
}

#[test]
fn continuation_without_a_lead_is_not_utf8() {
    assert!(!is_utf8(b"\x80"));
    assert!(!is_utf8(b"a\xbfb"));
}

#[test]
fn truncated_scalars_are_not_utf8() {
    assert!(!is_utf8(b"\xc3"));
    assert!(!is_utf8(b"\xe2\x82"));
    assert!(!is_utf8(b"\xf0\x9f\x98"));
    assert!(!is_utf8(b"ab\xe2\x82"));
    assert!(!is_utf8(b"\xe2\x82a"));
    assert!(!is_utf8(b"\xc3\xc3\xa9"));
}

#[test]
fn overlong_forms_are_not_utf8() {
    assert!(!is_utf8(b"\xc0\x80"));
    assert!(!is_utf8(b"\xc1\xbf"));
    assert!(!is_utf8(b"\xe0\x80\x80"));
    assert!(!is_utf8(b"\xe0\x9f\xbf"));
    assert!(!is_utf8(b"\xf0\x80\x80\x80"));
    assert!(!is_utf8(b"\xf0\x8f\xbf\xbf"));
    assert!(is_utf8(b"\xc2\x80"));
    assert!(is_utf8(b"\xe0\xa0\x80"));
    assert!(is_utf8(b"\xf0\x90\x80\x80"));
}

#[test]
fn surrogates_are_not_utf8() {
    assert!(!is_utf8(b"\xed\xa0\x80"));
    assert!(!is_utf8(b"\xed\xbf\xbf"));
    assert!(is_utf8(b"\xed\x9f\xbf"));
    assert!(is_utf8(b"\xee\x80\x80"));
}

#[test]
fn scalars_past_the_last_one_are_not_utf8() {
    assert!(is_utf8(b"\xf4\x8f\xbf\xbf"));
    assert!(!is_utf8(b"\xf4\x90\x80\x80"));
    assert!(!is_utf8(b"\xf5\x80\x80\x80"));
    assert!(!is_utf8(b"\xf7\xbf\xbf\xbf"));
    assert!(!is_utf8(b"\xf8\x88\x80\x80\x80"));
    assert!(!is_utf8(b"\xff"));
    assert!(!is_utf8(b"\xfe"));
}

#[test]
fn one_bad_byte_spoils_the_text() {
    assert!(is_utf8("gr\u{fc}n \u{1f600}".as_bytes()));
    assert!(!is_utf8(b"gr\xfcn"));
    assert!(!is_utf8(b"\xffabc"));
    assert!(!is_utf8(b"abc\xff"));
}

#[test]
fn agrees_with_std_on_every_pair_of_bytes() {
    for a in 0u8..=0xff {
        for b in 0u8..=0xff {
            let bytes = [a, b];
            assert_eq!(is_utf8(&bytes), std::str::from_utf8(&bytes).is_ok(), "{:?}", bytes);
        }
    }
}

#[test]
fn agrees_with_std_on_three_bytes_behind_a_lead() {
    for a in [0x7fu8, 0x80, 0xbf, 0xc2, 0xdf, 0xe0, 0xe1, 0xec, 0xed, 0xee, 0xef, 0xf0, 0xf4] {
        for b in 0u8..=0xff {
            for c in (0u8..=0xff).step_by(3) {
                let bytes = [a, b, c];
                assert_eq!(is_utf8(&bytes), std::str::from_utf8(&bytes).is_ok(), "{:?}", bytes);
            }
        }
    }
}

#[test]
fn agrees_with_std_on_four_bytes_at_the_edges() {
    let edges = [0x00u8, 0x7f, 0x80, 0x8f, 0x90, 0x9f, 0xa0, 0xbf, 0xc0, 0xff];
    for a in [0xe0u8, 0xed, 0xef, 0xf0, 0xf1, 0xf3, 0xf4, 0xf5, 0xf7, 0xf8] {
        for b in edges {
            for c in edges {
                for d in edges {
                    let bytes = [a, b, c, d];
                    assert_eq!(is_utf8(&bytes), std::str::from_utf8(&bytes).is_ok(), "{:?}", bytes);
                }
            }
        }
    }
}
