use command_complete::buf::{get_str_nul, NUL};
use command_complete::DecodeError;

#[test]
fn the_terminator_is_zero() {
    assert_eq!(NUL, b'\0');
}

#[test]
fn reads_up_to_the_terminator() {
    let mut buf: &[u8] = b"UPDATE 512\0";
    assert_eq!(get_str_nul(&mut buf), Ok(&b"UPDATE 512"[..]));
    assert!(buf.is_empty());
}

#[test]
fn reads_one_string_at_a_time() {
    let mut buf: &[u8] = b"one\0two\0\0rest";
    assert_eq!(get_str_nul(&mut buf), Ok(&b"one"[..]));
    assert_eq!(buf, &b"two\0\0rest"[..]);
    assert_eq!(get_str_nul(&mut buf), Ok(&b"two"[..]));
    assert_eq!(buf, &b"\0rest"[..]);
    assert_eq!(get_str_nul(&mut buf), Ok(&b""[..]));
    assert_eq!(buf, &b"rest"[..]);
    assert_eq!(get_str_nul(&mut buf), Err(DecodeError::MissingTerminator));
    assert_eq!(buf, &b"rest"[..]);
}

#[test]
fn fails_on_an_empty_buffer() {
    let mut buf: &[u8] = b"";
    assert_eq!(get_str_nul(&mut buf), Err(DecodeError::MissingTerminator));
    assert!(buf.is_empty());
}

#[test]
fn fails_on_bad_text_and_stays() {
    let mut buf: &[u8] = b"ab\xc0\x80\0cd\0";
    assert_eq!(get_str_nul(&mut buf), Err(DecodeError::InvalidText));
    assert_eq!(buf, &b"ab\xc0\x80\0cd\0"[..]);
}

#[test]
fn looks_no_further_than_the_terminator() {
    let mut buf: &[u8] = b"ok\0\xff\xff";
    assert_eq!(get_str_nul(&mut buf), Ok(&b"ok"[..]));
    assert_eq!(buf, &b"\xff\xff"[..]);
}

#[test]
fn reads_text_beyond_ascii() {
    let text = "na\u{ef}ve \u{20ac} \u{10348}";
    let mut bytes = text.as_bytes().to_vec();
    bytes.push(NUL);
    bytes.extend_from_slice(b"tail");
    let mut buf: &[u8] = &bytes;
    assert_eq!(get_str_nul(&mut buf), Ok(text.as_bytes()));
    assert_eq!(buf, &b"tail"[..]);
}

#[test]
fn errors_are_told_apart() {
    assert_ne!(DecodeError::MissingTerminator, DecodeError::InvalidText);
    assert_eq!(format!("{:?}", DecodeError::MissingTerminator), "MissingTerminator");
    assert_eq!(format!("{:?}", DecodeError::InvalidText), "InvalidText");
    let copy = DecodeError::InvalidText;
    assert_eq!(copy.clone(), DecodeError::InvalidText);
}
