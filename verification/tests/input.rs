use std::io::BufRead;
use symscan::input::{split_lines, string_is_ascii};
use symscan::{check_strings_ascii, get_input_lines_as_ascii, Error};

fn bytes_of(strings: &[&str]) -> Vec<Vec<u8>> {
    strings.iter().map(|s| s.as_bytes().to_vec()).collect()
}

#[test]
fn lib_test_get_input_lines_as_ascii() {
    let strings = get_input_lines_as_ascii(&b"foo\nbar\nbaz\n".to_vec()).unwrap();
    let expected: Vec<Vec<u8>> = vec!["foo".into(), "bar".into(), "baz".into()];
    assert_eq!(strings, expected);
}

#[test]
fn main_test_get_input_lines_as_ascii() {
    let strings = get_input_lines_as_ascii(&b"foo\nbar\nbaz\n".to_vec()).unwrap();
    let expected: Vec<Vec<u8>> = vec!["foo".into(), "bar".into(), "baz".into()];
    assert_eq!(strings, expected);
}

#[test]
fn the_last_line_needs_no_line_feed() {
    assert_eq!(split_lines(&b"foo\nbar".to_vec()), bytes_of(&["foo", "bar"]));
    assert_eq!(split_lines(&b"foo".to_vec()), bytes_of(&["foo"]));
}

#[test]
fn empty_text_has_no_line_and_empty_lines_count() {
    assert_eq!(split_lines(&Vec::new()), Vec::<Vec<u8>>::new());
    assert_eq!(split_lines(&b"\n".to_vec()), bytes_of(&[""]));
    assert_eq!(split_lines(&b"\n\nfoo\n\n".to_vec()), bytes_of(&["", "", "foo", ""]));
}

#[test]
fn a_carriage_return_before_the_line_feed_is_dropped() {
    assert_eq!(split_lines(&b"foo\r\nbar\r\n".to_vec()), bytes_of(&["foo", "bar"]));
    // only one, and only directly before the line feed
    assert_eq!(split_lines(&b"foo\r\r\nb\rar\n".to_vec()), bytes_of(&["foo\r", "b\rar"]));
    // not at the end of a last line without a line feed
    assert_eq!(split_lines(&b"foo\nbar\r".to_vec()), bytes_of(&["foo", "bar\r"]));
    assert_eq!(split_lines(&b"\r\n".to_vec()), bytes_of(&[""]));
}

#[test]
fn lines_are_cut_as_the_standard_reader_cuts_them() {
    for text in ["", "a", "a\n", "a\nb", "\n", "\r\n", "a\r\nb\r", "a\r\r\n\nb\n\n", "\r", "x\ry\n"] {
        let expected: Vec<Vec<u8>> =
            text.as_bytes().lines().map(|l| l.expect("valid text").into_bytes()).collect();
        assert_eq!(split_lines(&text.as_bytes().to_vec()), expected);
    }
}

#[test]
fn the_first_line_that_is_not_ascii_is_named() {
    let text = "foo\nb\u{e4}r\nbaz\nqu\u{fc}x\n".as_bytes().to_vec();
    let result = get_input_lines_as_ascii(&text);
    assert_eq!(
        result,
        Err(Error::NonAsciiInput { row_num: 1, offending_string: "b\u{e4}r".as_bytes().to_vec() })
    );
}

#[test]
fn ascii_is_every_byte_up_to_127() {
    assert!(string_is_ascii(&Vec::new()));
    assert!(string_is_ascii(&vec![0, 9, 65, 127]));
    assert!(!string_is_ascii(&vec![65, 128]));
    assert!(!string_is_ascii(&vec![255]));
}

#[test]
fn a_collection_is_accepted_if_every_string_is_ascii() {
    assert_eq!(check_strings_ascii(&bytes_of(&["fizz", "", "buzz"])), Ok(()));
    assert_eq!(check_strings_ascii(&Vec::new()), Ok(()));
    let strings = vec![b"ok".to_vec(), vec![b'a', 0x80], vec![0xff]];
    assert_eq!(
        check_strings_ascii(&strings),
        Err(Error::NonAsciiInput { row_num: 1, offending_string: vec![b'a', 0x80] })
    );
}
