//! The identifier type and its errors.

use vstd::prelude::*;
use vstd::std_specs::cmp::PartialEqSpec;

verus! {

/// A composite identifier: a textual exchange label plus a small
/// unsigned account number that tells apart several accounts under
/// the same exchange.
#[derive(Debug, Clone, Hash)]
pub struct Id {
    pub exchange_id: String,
    pub account_number: u8,
}

impl Id {
    /// Builds an identifier from its two fields.
    pub fn new(exchange_id: String, account_number: u8) -> (r: Self)
        ensures
            r.exchange_id == exchange_id,
            r.account_number == account_number,
    {
        Id { exchange_id, account_number }
    }
}

impl Default for Id {
    /// The fixed fallback identifier: exchange `"test"`, account number 0.
    fn default() -> (r: Self)
        ensures
            r.exchange_id@ == "test"@,
            r.account_number == 0,
    {
        Id { exchange_id: "test".to_owned(), account_number: 0 }
    }
}

impl PartialEq for Id {
    fn eq(&self, other: &Id) -> (r: bool) {
        self.exchange_id == other.exchange_id && self.account_number == other.account_number
    }
}

impl vstd::std_specs::cmp::PartialEqSpecImpl for Id {
    open spec fn obeys_eq_spec() -> bool {
        true
    }

    open spec fn eq_spec(&self, other: &Id) -> bool {
        self.exchange_id@ == other.exchange_id@ && self.account_number == other.account_number
    }
}

impl Eq for Id {}

/// Two identifiers compare equal exactly when both fields agree:
/// the exchange labels hold the same characters and the account
/// numbers are the same.
pub proof fn lemma_eq_by_fields(a: Id, b: Id)
    ensures
        a.eq_spec(&b) <==> (a.exchange_id@ == b.exchange_id@ && a.account_number
            == b.account_number),
{
}

/// Why a parse attempt failed.
#[derive(Debug, Clone, PartialEq, Eq)]
pub enum IdParseError {
    /// The text does not have the shape the active mode expects.
    FormatError,
    /// A numeric portion cannot be read as an integer in 0..=255.
    NumericRangeError,
    /// The named field was absent from a structured input.
    MissingFieldError(String),
    /// The named field was supplied more than once.
    DuplicateFieldError(String),
    /// The named field is outside the recognized set
    /// (`exchange_id`, `account_number`).
    UnknownFieldError(String),
}

impl IdParseError {
    /// What each error's description says.
    pub open spec fn message_spec(&self) -> Seq<char> {
        match self {
            IdParseError::FormatError => "invalid format"@,
            IdParseError::NumericRangeError => "can't parse exchange account number"@,
            IdParseError::MissingFieldError(f) => "missing field "@ + f@,
            IdParseError::DuplicateFieldError(f) => "duplicate field "@ + f@,
            IdParseError::UnknownFieldError(f) => "unknown field "@ + f@
                + ", expected exchange_id or account_number"@,
        }
    }

    /// A human-readable description of the error.
    pub fn message(&self) -> (r: String)
        ensures
            r@ == self.message_spec(),
    {
        match self {
            IdParseError::FormatError => "invalid format".to_owned(),
            IdParseError::NumericRangeError => "can't parse exchange account number".to_owned(),
            IdParseError::MissingFieldError(f) => {
                let mut r = "missing field ".to_owned();
                r.append(f.as_str());
                r
            },
            IdParseError::DuplicateFieldError(f) => {
                let mut r = "duplicate field ".to_owned();
                r.append(f.as_str());
                r
            },
            IdParseError::UnknownFieldError(f) => {
                let mut r = "unknown field ".to_owned();
                r.append(f.as_str());
                r.append(", expected exchange_id or account_number");
                r
            },
        }
    }
}

/// A record holding both identifier fields, as an application's
/// configuration layer would supply it.
#[derive(Debug, Clone, PartialEq)]
pub struct Settings {
    pub test: i32,
    pub exchange_id: Id,
}

} // verus!
