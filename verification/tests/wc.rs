use cli_tools::wc::{count_bytes, count_chars, count_lines, count_words};

#[test]
fn test_count_bytes_ascii_file() {
    let result = count_bytes("hello".as_bytes());
    assert_eq!(result, 5);
}

#[test]
fn test_count_bytes_empty_file() {
    let result = count_bytes(&[]);
    assert_eq!(result, 0);
}

#[test]
fn test_count_bytes_multibyte_utf8() {
    let result = count_bytes("héllo".as_bytes());
    assert_eq!(result, 6);
}

#[test]
fn test_count_lines_with_trailing_newline() {
    let result = count_lines("hello\n");
    assert_eq!(result, 1);
}

#[test]
fn test_count_lines_without_trailing_newline() {
    let result = count_lines("hello");
    assert_eq!(result, 1);
}

#[test]
fn test_count_lines_empty_file() {
    let result = count_lines("");
    assert_eq!(result, 0);
}

#[test]
fn test_count_words_multiple_spaces_between_words() {
    let result = count_words("hello   world");
    assert_eq!(result, 2);
}

#[test]
fn test_count_words_leading_and_trailing_whitepsace() {
    let result = count_words("  hello   world   ");
    assert_eq!(result, 2);
}

#[test]
fn test_count_words_tabs_and_newlines_as_separators() {
    let result = count_words("hello  \nworld");
    assert_eq!(result, 2);
}

#[test]
fn test_count_words_empty_file() {
    let result = count_words("");
    assert_eq!(result, 0);
}

#[test]
fn test_count_chars_ascii_matches_byte_count() {
    let text = "hello";
    let byte_result = count_bytes(text.as_bytes());
    let char_result = count_chars(text);

    assert_eq!(byte_result, char_result);
    assert_eq!(char_result, 5);
}

#[test]
fn test_count_chars_multibyte_utf8_differs_from_byte_count() {
    let text = "héllo";
    let byte_result = count_bytes(text.as_bytes());
    let char_result = count_chars(text);

    assert_eq!(byte_result, 6);
    assert_eq!(char_result, 5);
    assert_ne!(byte_result, char_result);
}

#[test]
fn test_count_chars_empty_file() {
    let result = count_chars("");
    assert_eq!(result, 0);
}

#[test]
fn count_lines_takes_crlf_and_keeps_empty_lines() {
    assert_eq!(count_lines("a\r\nb\r\n"), 2);
    assert_eq!(count_lines("\n\n"), 2);
    assert_eq!(count_lines("a\n\nb"), 3);
    assert_eq!(count_lines("\r"), 1);
}

#[test]
fn count_lines_agrees_with_std_lines() {
    for text in ["", "x", "x\n", "x\ny", "\n", "x\r\ny\r", "a\n\n\nb\n"] {
        assert_eq!(count_lines(text), text.lines().count());
    }
}

#[test]
fn count_words_takes_unicode_white_space() {
    assert_eq!(count_words("a\u{00A0}b\u{2003}c\u{3000}d"), 4);
    assert_eq!(count_words("\t\n\u{000B}\u{000C}\r \u{0085}"), 0);
    assert_eq!(count_words("a\u{200B}b"), 1);
}

#[test]
fn count_words_agrees_with_std_split_whitespace() {
    for text in ["", " ", "a", " a b  c ", "x\u{2028}y\u{202F}z", "é ü\tö"] {
        assert_eq!(count_words(text), text.split_whitespace().count());
    }
}
