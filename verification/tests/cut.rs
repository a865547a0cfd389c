use cli_tools::cut::{parse_lines, CutError};

#[test]
fn parse_lines_picks_fields_in_the_order_asked() {
    let text = "a,b,c\nd,e,f\n";
    let out = parse_lines(&[3, 1], text, ",").unwrap();
    assert_eq!(out, vec![vec!["c", "a"], vec!["f", "d"]]);
}

#[test]
fn parse_lines_refuses_field_zero() {
    assert_eq!(parse_lines(&[1, 0], "a\tb", "\t"), Err(CutError::FieldZero));
    assert_eq!(parse_lines(&[0], "", "\t"), Err(CutError::FieldZero));
}

#[test]
fn parse_lines_refuses_a_missing_field() {
    assert_eq!(parse_lines(&[2], "a\tb\nc", "\t"), Err(CutError::MissingField));
}

#[test]
fn parse_lines_of_no_text_is_empty() {
    assert_eq!(parse_lines(&[5], "", ","), Ok(Vec::<Vec<&str>>::new()));
}

#[test]
fn parse_lines_takes_multi_character_delimiters() {
    let out = parse_lines(&[1, 2, 3], "x::y::::z", "::").unwrap();
    assert_eq!(out, vec![vec!["x", "y", ""]]);
}

#[test]
fn parse_lines_with_an_empty_delimiter_splits_between_characters() {
    let out = parse_lines(&[1, 2, 4], "ab", "").unwrap();
    assert_eq!(out, vec![vec!["", "a", ""]]);
}

#[test]
fn parse_lines_drops_carriage_returns_before_newlines() {
    let out = parse_lines(&[2], "1 2\r\n3 4\r", " ").unwrap();
    assert_eq!(out, vec![vec!["2"], vec!["4\r"]]);
}

#[test]
fn parse_lines_agrees_with_std_split() {
    let text = "α;β;;γ\n;;\nδ;;ε";
    let cols = [1, 3];
    let expected: Vec<Vec<&str>> = text
        .lines()
        .map(|l| cols.iter().map(|c| l.split(";").nth(c - 1).unwrap()).collect())
        .collect();
    assert_eq!(parse_lines(&cols, text, ";").unwrap(), expected);
}
