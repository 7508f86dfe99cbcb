use loam_build::tree::{correlation_key, find_byte, line_key, same_bytes, split_line};

#[test]
fn key_is_name_marker_version() {
    assert_eq!(correlation_key("core", "1.0.0"), b"corev1.0.0".to_vec());
    assert_eq!(correlation_key("", ""), b"v".to_vec());
}

#[test]
fn line_key_joins_the_first_two_tokens() {
    assert_eq!(line_key(b"core v1.0.0 (/ws/core)"), Some(b"corev1.0.0".to_vec()));
    assert_eq!(line_key(b"serde v1.0.2"), Some(b"serdev1.0.2".to_vec()));
    assert_eq!(line_key(b"util v2.0.0 (*)"), Some(b"utilv2.0.0".to_vec()));
}

#[test]
fn line_without_a_space_has_no_key() {
    assert_eq!(line_key(b""), None);
    assert_eq!(line_key(b"core"), None);
}

#[test]
fn empty_tokens_count() {
    assert_eq!(line_key(b"core "), Some(b"core".to_vec()));
    assert_eq!(line_key(b" v1"), Some(b"v1".to_vec()));
    assert_eq!(line_key(b"a  b"), Some(b"a".to_vec()));
}

#[test]
fn find_byte_gives_the_first_place() {
    assert_eq!(find_byte(b"a b c", b' '), 1);
    assert_eq!(find_byte(b"abc", b' '), 3);
    assert_eq!(find_byte(b"", b' '), 0);
}

#[test]
fn split_line_cuts_at_the_newline() {
    assert_eq!(split_line(b"one\ntwo\n"), (&b"one"[..], &b"two\n"[..]));
    assert_eq!(split_line(b"two\n"), (&b"two"[..], &b""[..]));
    assert_eq!(split_line(b"last"), (&b"last"[..], &b""[..]));
    assert_eq!(split_line(b"\nrest"), (&b""[..], &b"rest"[..]));
    assert_eq!(split_line(b""), (&b""[..], &b""[..]));
}

#[test]
fn split_line_drops_a_return_before_the_newline() {
    assert_eq!(split_line(b"one\r\ntwo"), (&b"one"[..], &b"two"[..]));
    assert_eq!(split_line(b"\r\n"), (&b""[..], &b""[..]));
    assert_eq!(split_line(b"one\r"), (&b"one\r"[..], &b""[..]));
    assert_eq!(split_line(b"o\rne\n"), (&b"o\rne"[..], &b""[..]));
}

#[test]
fn same_bytes_compares_contents() {
    assert!(same_bytes(b"abc", b"abc"));
    assert!(!same_bytes(b"abc", b"abd"));
    assert!(!same_bytes(b"abc", b"ab"));
    assert!(same_bytes(b"", b""));
}
