//! Parsing of composite exchange-account identifiers.
//!
//! An [`id::Id`] pairs a textual exchange label with a small unsigned
//! account number.  The [`parse`] module turns external representations
//! (a `letters+digits` string, a `#`-delimited string, or a record of
//! named fields) into an `Id`, or reports a descriptive error.

pub mod id;
pub mod parse;
pub mod text;
