use ben::error::CodecError;
use ben::json::{labels_from_items, parse_assignment_line};

#[test]
fn line_with_assignment_and_sample() {
    assert_eq!(
        parse_assignment_line("{\"assignment\": [1,1,1,2,2,2], \"sample\": 1}"),
        Ok(vec![1, 1, 1, 2, 2, 2])
    );
}

#[test]
fn line_without_sample_number() {
    assert_eq!(parse_assignment_line("{\"assignment\":[0,65535]}"), Ok(vec![0, 65535]));
}

#[test]
fn line_with_empty_assignment() {
    assert_eq!(parse_assignment_line("{\"assignment\": []}"), Ok(Vec::new()));
}

#[test]
fn line_that_is_not_json() {
    assert_eq!(parse_assignment_line("assignment 1 2 3"), Err(CodecError::Parse));
    assert_eq!(parse_assignment_line(""), Err(CodecError::Parse));
    assert_eq!(parse_assignment_line("{\"assignment\": [1,2"), Err(CodecError::Parse));
    assert_eq!(
        parse_assignment_line("{\"assignment\": [1,2]} trailing"),
        Err(CodecError::Parse)
    );
}

#[test]
fn line_without_assignment() {
    assert_eq!(parse_assignment_line("{\"sample\": 4}"), Err(CodecError::Parse));
    assert_eq!(parse_assignment_line("[1,2,3]"), Err(CodecError::Parse));
    assert_eq!(parse_assignment_line("null"), Err(CodecError::Parse));
}

#[test]
fn line_whose_assignment_is_no_array() {
    assert_eq!(parse_assignment_line("{\"assignment\": 5}"), Err(CodecError::Parse));
    assert_eq!(parse_assignment_line("{\"assignment\": \"1,2\"}"), Err(CodecError::Parse));
    assert_eq!(parse_assignment_line("{\"assignment\": {\"0\": 1}}"), Err(CodecError::Parse));
}

#[test]
fn line_with_element_that_is_no_label() {
    assert_eq!(parse_assignment_line("{\"assignment\": [1,-2]}"), Err(CodecError::Parse));
    assert_eq!(parse_assignment_line("{\"assignment\": [1.5]}"), Err(CodecError::Parse));
    assert_eq!(parse_assignment_line("{\"assignment\": [\"1\"]}"), Err(CodecError::Parse));
    assert_eq!(parse_assignment_line("{\"assignment\": [null]}"), Err(CodecError::Parse));
    assert_eq!(parse_assignment_line("{\"assignment\": [[1]]}"), Err(CodecError::Parse));
}

#[test]
fn label_is_the_low_sixteen_bits() {
    assert_eq!(
        parse_assignment_line("{\"assignment\": [65536, 65537, 131071, 18446744073709551615]}"),
        Ok(vec![0, 1, 65535, 65535])
    );
}

#[test]
fn labels_from_elements() {
    assert_eq!(labels_from_items(&vec![Some(1), Some(70000)]), Some(vec![1, 4464]));
    assert_eq!(labels_from_items(&vec![Some(1), None, Some(2)]), None);
    assert_eq!(labels_from_items(&Vec::new()), Some(Vec::new()));
}
