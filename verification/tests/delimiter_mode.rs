use id_parser::id::{Id, IdParseError};
use id_parser::parse::parse_delimiter;

#[test]
fn head_and_number_split_on_hash() {
    let r = parse_delimiter("binance#1");
    assert_eq!(r, Ok(Id::new(String::from("binance"), 1)));
}

#[test]
fn head_is_taken_verbatim() {
    let r = parse_delimiter("an odd label!#7");
    assert_eq!(r, Ok(Id::new(String::from("an odd label!"), 7)));
}

#[test]
fn empty_head_is_accepted() {
    let r = parse_delimiter("#7");
    assert_eq!(r, Ok(Id::new(String::new(), 7)));
}

#[test]
fn text_after_a_second_hash_is_ignored() {
    let r = parse_delimiter("binance#1#anything at all");
    assert_eq!(r, Ok(Id::new(String::from("binance"), 1)));
}

#[test]
fn no_hash_is_a_format_error() {
    assert_eq!(parse_delimiter("binance"), Err(IdParseError::FormatError));
}

#[test]
fn empty_string_is_a_format_error_without_hash() {
    assert_eq!(parse_delimiter(""), Err(IdParseError::FormatError));
}

#[test]
fn non_numeric_tail_is_a_range_error() {
    assert_eq!(parse_delimiter("binance#xyz"), Err(IdParseError::NumericRangeError));
}

#[test]
fn empty_tail_is_a_range_error() {
    assert_eq!(parse_delimiter("binance#"), Err(IdParseError::NumericRangeError));
}

#[test]
fn tail_above_255_is_a_range_error() {
    assert_eq!(parse_delimiter("binance#256"), Err(IdParseError::NumericRangeError));
}

#[test]
fn tail_with_sign_is_a_range_error() {
    assert_eq!(parse_delimiter("binance#+1"), Err(IdParseError::NumericRangeError));
}
