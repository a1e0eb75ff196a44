use std::collections::hash_map::DefaultHasher;
use std::collections::HashMap;
use std::hash::{Hash, Hasher};

use id_parser::id::{Id, IdParseError};
use id_parser::parse::{parse_delimiter, parse_pattern};

fn hash_of(id: &Id) -> u64 {
    let mut h = DefaultHasher::new();
    id.hash(&mut h);
    h.finish()
}

#[test]
fn new_keeps_both_fields() {
    let id = Id::new(String::from("binance"), 3);
    assert_eq!(id.exchange_id, "binance");
    assert_eq!(id.account_number, 3);
}

#[test]
fn default_is_the_fixed_fallback() {
    let id = Id::default();
    assert_eq!(id, Id::new(String::from("test"), 0));
}

#[test]
fn equal_fields_compare_equal_and_hash_equal() {
    let a = Id::new(String::from("binance"), 1);
    let b = Id::new(String::from("binance"), 1);
    assert_eq!(a, b);
    assert_eq!(hash_of(&a), hash_of(&b));
}

#[test]
fn different_fields_compare_unequal() {
    let a = Id::new(String::from("binance"), 1);
    assert_ne!(a, Id::new(String::from("binance"), 2));
    assert_ne!(a, Id::new(String::from("kraken"), 1));
}

#[test]
fn usable_as_a_mapping_key() {
    let mut m: HashMap<Id, i32> = HashMap::new();
    m.insert(Id::new(String::from("binance"), 1), 10);
    m.insert(Id::new(String::from("binance"), 2), 20);
    assert_eq!(m.get(&Id::new(String::from("binance"), 1)), Some(&10));
    assert_eq!(m.get(&Id::new(String::from("binance"), 2)), Some(&20));
    assert_eq!(m.get(&Id::new(String::from("kraken"), 1)), None);
}

#[test]
fn pattern_text_round_trips() {
    let id = Id::new(String::from("binance"), 17);
    let text = id.to_text();
    assert_eq!(text, "binance17");
    assert_eq!(parse_pattern(&text), Ok(id));
}

#[test]
fn pattern_text_round_trips_at_the_edges() {
    for n in [0u8, 9, 10, 99, 100, 255] {
        let id = Id::new(String::from("x"), n);
        assert_eq!(parse_pattern(&id.to_text()), Ok(id));
    }
}

#[test]
fn delimited_text_round_trips() {
    let id = Id::new(String::from("an odd label"), 200);
    let text = id.to_delimited_text();
    assert_eq!(text, "an odd label#200");
    assert_eq!(parse_delimiter(&text), Ok(id));
}

#[test]
fn settings_carry_the_parsed_identifier() {
    let s = id_parser::id::Settings { test: 5, exchange_id: Id::new(String::from("binance"), 1) };
    let t = s.clone();
    assert_eq!(s.test, 5);
    assert_eq!(s.exchange_id, Id::new(String::from("binance"), 1));
    assert_eq!(s, t);
}

#[test]
fn messages_describe_the_error() {
    assert_eq!(IdParseError::FormatError.message(), "invalid format");
    assert_eq!(
        IdParseError::NumericRangeError.message(),
        "can't parse exchange account number"
    );
    assert_eq!(
        IdParseError::MissingFieldError(String::from("exchange_id")).message(),
        "missing field exchange_id"
    );
    assert_eq!(
        IdParseError::DuplicateFieldError(String::from("account_number")).message(),
        "duplicate field account_number"
    );
    assert_eq!(
        IdParseError::UnknownFieldError(String::from("foo")).message(),
        "unknown field foo, expected exchange_id or account_number"
    );
}
