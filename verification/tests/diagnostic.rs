use compile_sysy::diagnostic::{format_expected_tokens, line_column};

#[test]
fn positions_count_lines_and_characters_from_one() {
    let text = "int a;\nint b;\n";
    assert_eq!(line_column(text, 0), (1, 1));
    assert_eq!(line_column(text, 4), (1, 5));
    assert_eq!(line_column(text, 7), (2, 1));
    assert_eq!(line_column(text, 11), (2, 5));
}

#[test]
fn offsets_past_the_end_stand_for_the_end() {
    let text = "ab\ncd";
    assert_eq!(line_column(text, 5), (2, 3));
    assert_eq!(line_column(text, 100), (2, 3));
}

#[test]
fn columns_count_characters_not_bytes() {
    let text = "é=1\nx";
    assert_eq!(line_column(text, 3), (1, 3));
    assert_eq!(line_column(text, 5), (2, 1));
    assert_eq!(line_column(text, 6), (2, 2));
}

#[test]
fn expected_tokens_are_listed_after_a_comma() {
    assert_eq!(format_expected_tokens(&vec![]), "");
    assert_eq!(
        format_expected_tokens(&vec!["\";\"".to_string(), "\")\"".to_string()]),
        ", expected one of: \";\", \")\""
    );
}
