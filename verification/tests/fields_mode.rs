use id_parser::id::{Id, IdParseError};
use id_parser::parse::{parse_fields, FieldValue};

fn text(s: &str) -> FieldValue {
    FieldValue::Text(String::from(s))
}

fn num(n: u64) -> FieldValue {
    FieldValue::Int(n)
}

fn key(s: &str) -> String {
    String::from(s)
}

#[test]
fn exact_record_parses() {
    let fields = vec![(key("exchange_id"), text("binance")), (key("account_number"), num(1))];
    assert_eq!(parse_fields(&fields), Ok(Id::new(String::from("binance"), 1)));
}

#[test]
fn field_order_does_not_matter() {
    let fields = vec![(key("account_number"), num(9)), (key("exchange_id"), text("kraken"))];
    assert_eq!(parse_fields(&fields), Ok(Id::new(String::from("kraken"), 9)));
}

#[test]
fn missing_account_number_is_reported() {
    let fields = vec![(key("exchange_id"), text("binance"))];
    assert_eq!(
        parse_fields(&fields),
        Err(IdParseError::MissingFieldError(key("account_number")))
    );
}

#[test]
fn missing_exchange_id_is_reported() {
    let fields = vec![(key("account_number"), num(1))];
    assert_eq!(parse_fields(&fields), Err(IdParseError::MissingFieldError(key("exchange_id"))));
}

#[test]
fn empty_record_misses_exchange_id_first() {
    let fields: Vec<(String, FieldValue)> = vec![];
    assert_eq!(parse_fields(&fields), Err(IdParseError::MissingFieldError(key("exchange_id"))));
}

#[test]
fn repeated_exchange_id_is_a_duplicate() {
    let fields = vec![
        (key("exchange_id"), text("binance")),
        (key("exchange_id"), text("kraken")),
        (key("account_number"), num(1)),
    ];
    assert_eq!(parse_fields(&fields), Err(IdParseError::DuplicateFieldError(key("exchange_id"))));
}

#[test]
fn repeated_account_number_is_a_duplicate() {
    let fields = vec![
        (key("exchange_id"), text("binance")),
        (key("account_number"), num(1)),
        (key("account_number"), num(2)),
    ];
    assert_eq!(
        parse_fields(&fields),
        Err(IdParseError::DuplicateFieldError(key("account_number")))
    );
}

#[test]
fn unknown_key_is_named() {
    let fields = vec![
        (key("exchange_id"), text("binance")),
        (key("foo"), num(3)),
        (key("account_number"), num(1)),
    ];
    assert_eq!(parse_fields(&fields), Err(IdParseError::UnknownFieldError(key("foo"))));
}

#[test]
fn account_number_above_255_is_a_range_error() {
    let fields = vec![(key("exchange_id"), text("binance")), (key("account_number"), num(256))];
    assert_eq!(parse_fields(&fields), Err(IdParseError::NumericRangeError));
}

#[test]
fn textual_account_number_is_a_format_error() {
    let fields = vec![(key("exchange_id"), text("binance")), (key("account_number"), text("1"))];
    assert_eq!(parse_fields(&fields), Err(IdParseError::FormatError));
}

#[test]
fn numeric_exchange_id_is_a_format_error() {
    let fields = vec![(key("exchange_id"), num(4)), (key("account_number"), num(1))];
    assert_eq!(parse_fields(&fields), Err(IdParseError::FormatError));
}

#[test]
fn first_offending_field_decides() {
    let fields = vec![(key("foo"), num(3)), (key("exchange_id"), num(4))];
    assert_eq!(parse_fields(&fields), Err(IdParseError::UnknownFieldError(key("foo"))));
}
