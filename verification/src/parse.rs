//! The three input-encoding modes of the identifier parser.
//!
//! Each mode turns one external representation into an [`Id`] or
//! fails with an [`IdParseError`]; there is no partial success.

use vstd::prelude::*;
use crate::id::{Id, IdParseError};
use crate::text::{
    all_digits, all_letters, decimal_of, decimal_string, digit, digit_val, digits_val, is_digit,
    is_letter, lemma_decimal_of, letter, push_char,
};

verus! {

/// `i` splits `s` into a non-empty run of letters followed by a
/// non-empty run of digits.
pub open spec fn is_pattern_split(s: Seq<char>, i: int) -> bool {
    &&& 0 < i < s.len()
    &&& all_letters(s.take(i))
    &&& all_digits(s.skip(i))
}

/// `s` is one-or-more letters followed by one-or-more digits, with
/// nothing else.
pub open spec fn matches_pattern(s: Seq<char>) -> bool {
    exists|i: int| is_pattern_split(s, i)
}

/// The split point of a string that matches the pattern.
pub open spec fn pattern_split_at(s: Seq<char>) -> int {
    choose|i: int| is_pattern_split(s, i)
}

/// The letters portion of a string that matches the pattern.
pub open spec fn pattern_letters(s: Seq<char>) -> Seq<char> {
    s.take(pattern_split_at(s))
}

/// The digits portion of a string that matches the pattern.
pub open spec fn pattern_digits(s: Seq<char>) -> Seq<char> {
    s.skip(pattern_split_at(s))
}

/// A string has at most one letters/digits split, because no
/// character is both a letter and a digit.
pub proof fn lemma_pattern_split_unique(s: Seq<char>, i: int, j: int)
    requires
        is_pattern_split(s, i),
        is_pattern_split(s, j),
    ensures
        i == j,
{
    if i < j {
        assert(is_letter(s.take(j)[i]));
        assert(is_digit(s.skip(i)[0]));
        assert(s.take(j)[i] == s[i]);
        assert(s.skip(i)[0] == s[i]);
    } else if j < i {
        assert(is_letter(s.take(i)[j]));
        assert(is_digit(s.skip(j)[0]));
        assert(s.take(i)[j] == s[j]);
        assert(s.skip(j)[0] == s[j]);
    }
}

/// The value of the digit run `text[from..to]`, when it fits in a
/// `u8`; `None` when the run denotes a number above 255.
fn digit_run_value(text: &str, from: usize, to: usize) -> (r: Option<u8>)
    requires
        from <= to <= text@.len(),
        all_digits(text@.subrange(from as int, to as int)),
    ensures
        r is Some <==> digits_val(text@.subrange(from as int, to as int)) <= 255,
        r matches Some(v) ==> v as nat == digits_val(text@.subrange(from as int, to as int)),
{
    let ghost whole = text@.subrange(from as int, to as int);
    let mut val: u32 = 0;
    let mut j = from;
    while j < to
        invariant
            from <= j <= to <= text@.len(),
            all_digits(whole),
            whole == text@.subrange(from as int, to as int),
            val <= 2559,
            digits_val(text@.subrange(from as int, j as int)) <= 255 ==> val == digits_val(
                text@.subrange(from as int, j as int),
            ),
            digits_val(text@.subrange(from as int, j as int)) > 255 ==> val > 255,
        decreases to - j,
    {
        let c = text.get_char(j);
        proof {
            assert(whole[j - from] == text@[j as int]);
            assert(is_digit(c));
            let pre = text@.subrange(from as int, j as int);
            let post = text@.subrange(from as int, j + 1 as int);
            assert(post.drop_last() =~= pre);
            assert(post.last() == c);
            assert(digits_val(post) == digits_val(pre) * 10 + digit_val(c));
        }
        let d = (c as u32) - ('0' as u32);
        if val <= 255 {
            val = val * 10 + d;
        }
        j += 1;
    }
    proof {
        assert(text@.subrange(from as int, j as int) == whole);
    }
    if val <= 255 {
        Some(val as u8)
    } else {
        None
    }
}

/// Pattern-split mode: `text` must be one-or-more letters followed
/// by one-or-more digits.  The letters become the exchange label and
/// the digits, read in decimal, the account number.
pub fn parse_pattern(text: &str) -> (r: Result<Id, IdParseError>)
    ensures
        r is Ok <==> matches_pattern(text@) && digits_val(pattern_digits(text@)) <= 255,
        r matches Ok(id) ==> id.exchange_id@ == pattern_letters(text@) && id.account_number
            as nat == digits_val(pattern_digits(text@)),
        !matches_pattern(text@) ==> r == Err::<Id, IdParseError>(IdParseError::FormatError),
        matches_pattern(text@) && digits_val(pattern_digits(text@)) > 255 ==> r == Err::<
            Id,
            IdParseError,
        >(IdParseError::NumericRangeError),
{
    let ghost s = text@;
    let n = text.unicode_len();
    let mut i: usize = 0;
    while i < n && letter(text.get_char(i))
        invariant
            i <= n,
            n == s.len(),
            s == text@,
            forall|j: int| 0 <= j < i ==> is_letter(#[trigger] s[j]),
        decreases n - i,
    {
        i += 1;
    }
    if i == 0 {
        proof {
            assert forall|k: int| !is_pattern_split(s, k) by {
                if is_pattern_split(s, k) {
                    assert(is_letter(s.take(k)[0]));
                    assert(s.take(k)[0] == s[0]);
                }
            }
        }
        return Err(IdParseError::FormatError);
    }
    if i == n {
        proof {
            assert forall|k: int| !is_pattern_split(s, k) by {
                if is_pattern_split(s, k) {
                    assert(is_digit(s.skip(k)[s.len() - 1 - k]));
                    assert(s.skip(k)[s.len() - 1 - k] == s[s.len() - 1]);
                    assert(is_letter(s[s.len() - 1]));
                }
            }
        }
        return Err(IdParseError::FormatError);
    }
    // `i` now sits on the first non-letter; the rest must be digits.
    let mut j = i;
    while j < n
        invariant
            i <= j <= n,
            n == s.len(),
            s == text@,
            0 < i < n,
            !is_letter(s[i as int]),
            forall|k: int| 0 <= k < i ==> is_letter(#[trigger] s[k]),
            forall|k: int| i <= k < j ==> is_digit(#[trigger] s[k]),
        decreases n - j,
    {
        let c = text.get_char(j);
        if !digit(c) {
            proof {
                assert forall|k: int| !is_pattern_split(s, k) by {
                    if is_pattern_split(s, k) {
                        if k > i {
                            assert(is_letter(s.take(k)[i as int]));
                            assert(s.take(k)[i as int] == s[i as int]);
                        } else {
                            assert(is_digit(s.skip(k)[j - k]));
                            assert(s.skip(k)[j - k] == s[j as int]);
                        }
                    }
                }
            }
            return Err(IdParseError::FormatError);
        }
        j += 1;
    }
    proof {
        assert(s.take(i as int) =~= s.subrange(0, i as int));
        assert(is_pattern_split(s, i as int));
        assert(matches_pattern(s));
        lemma_pattern_split_unique(s, i as int, pattern_split_at(s));
        assert(pattern_split_at(s) == i as int);
        assert(pattern_digits(s) =~= s.subrange(i as int, n as int));
    }
    match digit_run_value(text, i, n) {
        Some(v) => {
            let exchange_id = text.substring_char(0, i).to_owned();
            proof {
                assert(pattern_letters(s) =~= s.subrange(0, i as int));
            }
            Ok(Id::new(exchange_id, v))
        },
        None => Err(IdParseError::NumericRangeError),
    }
}

/// Index of the first `#` in `s`, or `s.len()` when there is none.
pub open spec fn first_delim(s: Seq<char>) -> int
    decreases s.len(),
{
    if s.len() == 0 {
        0
    } else if s[0] == '#' {
        0
    } else {
        1 + first_delim(s.drop_first())
    }
}

/// `s` contains at least one `#`.
pub open spec fn has_delim(s: Seq<char>) -> bool {
    first_delim(s) < s.len()
}

/// `first_delim` lands on the first `#`, or past the end when the
/// string has none.
pub proof fn lemma_first_delim(s: Seq<char>)
    ensures
        0 <= first_delim(s) <= s.len(),
        forall|j: int| 0 <= j < first_delim(s) ==> s[j] != '#',
        first_delim(s) < s.len() ==> s[first_delim(s)] == '#',
    decreases s.len(),
{
    if s.len() == 0 {
    } else if s[0] == '#' {
    } else {
        lemma_first_delim(s.drop_first());
        assert forall|j: int| 0 <= j < first_delim(s) implies s[j] != '#' by {
            if j > 0 {
                assert(s.drop_first()[j - 1] == s[j]);
            }
        }
        if first_delim(s) < s.len() {
            assert(s.drop_first()[first_delim(s) - 1] == s[first_delim(s)]);
        }
    }
}

/// The text before the first `#`.
pub open spec fn delim_head(s: Seq<char>) -> Seq<char> {
    s.take(first_delim(s))
}

/// The text between the first `#` and the next `#` or the end; what
/// follows a second `#` is ignored.
pub open spec fn delim_number_part(s: Seq<char>) -> Seq<char>
    recommends
        has_delim(s),
{
    let rest = s.skip(first_delim(s) + 1);
    rest.take(first_delim(rest))
}

/// Delimiter-split mode accepts `s` when it has a `#` and the part
/// after it is a non-empty digit run whose value fits in 0..=255.
pub open spec fn delim_ok(s: Seq<char>) -> bool {
    &&& has_delim(s)
    &&& delim_number_part(s).len() > 0
    &&& all_digits(delim_number_part(s))
    &&& digits_val(delim_number_part(s)) <= 255
}

/// Delimiter-split mode: `text` is split on the first `#`; the part
/// before it becomes the exchange label verbatim, the part between
/// it and the next `#` (or the end) is read as the account number in
/// decimal.  Anything after a second `#` is ignored.
pub fn parse_delimiter(text: &str) -> (r: Result<Id, IdParseError>)
    ensures
        r is Ok <==> delim_ok(text@),
        r matches Ok(id) ==> id.exchange_id@ == delim_head(text@) && id.account_number as nat
            == digits_val(delim_number_part(text@)),
        !has_delim(text@) ==> r == Err::<Id, IdParseError>(IdParseError::FormatError),
        has_delim(text@) && !delim_ok(text@) ==> r == Err::<Id, IdParseError>(
            IdParseError::NumericRangeError,
        ),
{
    let ghost s = text@;
    let n = text.unicode_len();
    let mut i: usize = 0;
    while i < n && text.get_char(i) != '#'
        invariant
            i <= n,
            n == s.len(),
            s == text@,
            forall|j: int| 0 <= j < i ==> s[j] != '#',
        decreases n - i,
    {
        i += 1;
    }
    proof {
        lemma_first_delim(s);
        if i == n {
            assert(first_delim(s) == n);
        } else {
            assert(s[i as int] == '#');
            if first_delim(s) < i {
                assert(s[first_delim(s)] != '#');
            }
            assert(first_delim(s) == i as int);
        }
    }
    if i == n {
        return Err(IdParseError::FormatError);
    }
    // `i` sits on the first `#`; scan the digit run that follows it.
    let ghost rest = s.skip(i + 1);
    let mut j = i + 1;
    while j < n && text.get_char(j) != '#'
        invariant
            i < j <= n,
            n == s.len(),
            s == text@,
            rest == s.skip(i + 1),
            first_delim(s) == i as int,
            forall|k: int| i < k < j ==> s[k] != '#' && is_digit(#[trigger] s[k]),
        decreases n - j,
    {
        let c = text.get_char(j);
        if !digit(c) {
            proof {
                lemma_first_delim(rest);
                // The number part reaches strictly past the offending
                // character, which is neither `#` nor a digit.
                assert(first_delim(s) == i as int);
                assert(rest.len() == n - (i + 1));
                assert forall|k: int| 0 <= k < j - i implies rest[k] == s[i + 1 + k] by {}
                if first_delim(rest) < j - (i + 1) {
                    assert(rest[first_delim(rest)] == '#');
                    assert(s[i + 1 + first_delim(rest)] != '#');
                }
                if first_delim(rest) == j - (i + 1) {
                    assert(rest[first_delim(rest)] == '#');
                    assert(rest[j - (i + 1)] == s[j as int]);
                }
                assert(first_delim(rest) > j - (i + 1));
                assert(delim_number_part(s) == rest.take(first_delim(rest)));
                assert(delim_number_part(s)[j - (i + 1)] == rest[j - (i + 1)]);
                assert(delim_number_part(s)[j - (i + 1)] == s[j as int]);
                assert(!is_digit(delim_number_part(s)[j - (i + 1)]));
                assert(!all_digits(delim_number_part(s)));
            }
            return Err(IdParseError::NumericRangeError);
        }
        j += 1;
    }
    // The number part is exactly `s[i + 1 .. j]`.
    proof {
        lemma_first_delim(rest);
        assert forall|k: int| 0 <= k < j - i - 1 implies rest[k] == s[i + 1 + k] by {}
        if first_delim(rest) < j - (i + 1) {
            assert(rest[first_delim(rest)] == '#');
            assert(s[i + 1 + first_delim(rest)] != '#');
        }
        if j < n {
            assert(s[j as int] == '#');
            if first_delim(rest) > j - (i + 1) {
                assert(rest[j - (i + 1)] != '#');
            }
            assert(first_delim(rest) == j - (i + 1));
        } else {
            assert(first_delim(rest) <= rest.len());
            assert(rest.len() == n - (i + 1));
            if first_delim(rest) < j - (i + 1) {
                assert(false);
            }
            assert(first_delim(rest) == j - (i + 1));
        }
        assert(delim_number_part(s) =~= s.subrange(i + 1, j as int));
        assert(all_digits(delim_number_part(s)));
    }
    if j == i + 1 {
        // Empty digit run: nothing to read as a number.
        return Err(IdParseError::NumericRangeError);
    }
    match digit_run_value(text, i + 1, j) {
        Some(v) => {
            let exchange_id = text.substring_char(0, i).to_owned();
            proof {
                assert(delim_head(s) =~= s.subrange(0, i as int));
            }
            Ok(Id::new(exchange_id, v))
        },
        None => Err(IdParseError::NumericRangeError),
    }
}

/// A value attached to a named field in a structured input.
#[derive(Debug, Clone)]
pub enum FieldValue {
    Text(String),
    Int(u64),
}

/// The outcome the structured-fields mode owes, stated over
/// mathematical values.
pub enum FieldsOutcome {
    Accepted { exchange_id: Seq<char>, account_number: u8 },
    BadShape,
    OutOfRange,
    Missing(Seq<char>),
    Duplicate(Seq<char>),
    Unknown(Seq<char>),
}

/// Spec-level view of a partially accumulated exchange label.
pub open spec fn view_opt(s: Option<String>) -> Option<Seq<char>> {
    match s {
        Option::None => Option::None,
        Option::Some(x) => Option::Some(x@),
    }
}

/// Folds a stream of named fields left to right, starting from what
/// has been accumulated so far: the first offending field decides
/// the error, and completeness is checked only once the stream is
/// exhausted.
pub open spec fn fields_outcome(
    s: Seq<(String, FieldValue)>,
    ex: Option<Seq<char>>,
    acct: Option<u8>,
) -> FieldsOutcome
    decreases s.len(),
{
    if s.len() == 0 {
        match ex {
            Option::None => FieldsOutcome::Missing("exchange_id"@),
            Option::Some(e) => match acct {
                Option::None => FieldsOutcome::Missing("account_number"@),
                Option::Some(a) => FieldsOutcome::Accepted { exchange_id: e, account_number: a },
            },
        }
    } else {
        let k = s[0].0;
        let v = s[0].1;
        if k@ == "exchange_id"@ {
            if ex is Some {
                FieldsOutcome::Duplicate("exchange_id"@)
            } else {
                match v {
                    FieldValue::Text(t) => fields_outcome(s.drop_first(), Option::Some(t@), acct),
                    FieldValue::Int(_) => FieldsOutcome::BadShape,
                }
            }
        } else if k@ == "account_number"@ {
            if acct is Some {
                FieldsOutcome::Duplicate("account_number"@)
            } else {
                match v {
                    FieldValue::Int(m) => if m <= 255 {
                        fields_outcome(s.drop_first(), ex, Option::Some(m as u8))
                    } else {
                        FieldsOutcome::OutOfRange
                    },
                    FieldValue::Text(_) => FieldsOutcome::BadShape,
                }
            }
        } else {
            FieldsOutcome::Unknown(k@)
        }
    }
}

/// How an executable result realizes a spec-level outcome.
pub open spec fn outcome_matches(r: Result<Id, IdParseError>, o: FieldsOutcome) -> bool {
    match o {
        FieldsOutcome::Accepted { exchange_id, account_number } => r matches Ok(id)
            && id.exchange_id@ == exchange_id && id.account_number == account_number,
        FieldsOutcome::BadShape => r == Err::<Id, IdParseError>(IdParseError::FormatError),
        FieldsOutcome::OutOfRange => r == Err::<Id, IdParseError>(IdParseError::NumericRangeError),
        FieldsOutcome::Missing(name) => r matches Err(IdParseError::MissingFieldError(f)) && f@
            == name,
        FieldsOutcome::Duplicate(name) => r matches Err(IdParseError::DuplicateFieldError(f)) && f@
            == name,
        FieldsOutcome::Unknown(name) => r matches Err(IdParseError::UnknownFieldError(f)) && f@
            == name,
    }
}

/// Structured-fields mode: the input is a stream of named fields, of
/// which exactly `exchange_id` (text) and `account_number` (an
/// integer in 0..=255) are expected, each exactly once.
pub fn parse_fields(fields: &Vec<(String, FieldValue)>) -> (r: Result<Id, IdParseError>)
    ensures
        outcome_matches(r, fields_outcome(fields@, Option::None, Option::None)),
{
    let ghost whole = fields@;
    let mut ex: Option<String> = None;
    let mut acct: Option<u8> = None;
    let n = fields.len();
    let mut i: usize = 0;
    proof {
        assert(whole.skip(0) =~= whole);
    }
    while i < n
        invariant
            i <= n,
            n == whole.len(),
            whole == fields@,
            fields_outcome(whole, Option::None, Option::None) == fields_outcome(
                whole.skip(i as int),
                view_opt(ex),
                acct,
            ),
        decreases n - i,
    {
        let pair = &fields[i];
        let key = &pair.0;
        let value = &pair.1;
        proof {
            assert(whole.skip(i as int)[0] == whole[i as int]);
            assert(whole.skip(i as int).drop_first() =~= whole.skip(i + 1));
        }
        if crate::text::str_eq(key.as_str(), "exchange_id") {
            if ex.is_some() {
                return Err(IdParseError::DuplicateFieldError(key.clone()));
            }
            match value {
                FieldValue::Text(t) => {
                    ex = Some(t.clone());
                },
                FieldValue::Int(_) => {
                    return Err(IdParseError::FormatError);
                },
            }
        } else if crate::text::str_eq(key.as_str(), "account_number") {
            if acct.is_some() {
                return Err(IdParseError::DuplicateFieldError(key.clone()));
            }
            match value {
                FieldValue::Int(m) => {
                    if *m <= 255 {
                        acct = Some(*m as u8);
                    } else {
                        return Err(IdParseError::NumericRangeError);
                    }
                },
                FieldValue::Text(_) => {
                    return Err(IdParseError::FormatError);
                },
            }
        } else {
            return Err(IdParseError::UnknownFieldError(key.clone()));
        }
        i += 1;
    }
    proof {
        assert(whole.skip(i as int) =~= Seq::<(String, FieldValue)>::empty());
    }
    match ex {
        None => Err(IdParseError::MissingFieldError("exchange_id".to_owned())),
        Some(e) => match acct {
            None => Err(IdParseError::MissingFieldError("account_number".to_owned())),
            Some(a) => Ok(Id::new(e, a)),
        },
    }
}

/// The canonical pattern-mode text of an identifier: the exchange
/// label directly followed by the account number in decimal.
pub open spec fn pattern_text(id: Id) -> Seq<char> {
    id.exchange_id@ + decimal_of(id.account_number as nat)
}

/// The canonical delimiter-mode text of an identifier: the exchange
/// label, one `#`, and the account number in decimal.
pub open spec fn delimited_text(id: Id) -> Seq<char> {
    id.exchange_id@.push('#') + decimal_of(id.account_number as nat)
}

impl Id {
    /// Writes the canonical pattern-mode form of this identifier.
    pub fn to_text(&self) -> (r: String)
        ensures
            r@ == pattern_text(*self),
    {
        let mut r = self.exchange_id.clone();
        let d = decimal_string(self.account_number);
        r.append(d.as_str());
        r
    }

    /// Writes the canonical delimiter-mode form of this identifier.
    pub fn to_delimited_text(&self) -> (r: String)
        ensures
            r@ == delimited_text(*self),
    {
        let mut r = self.exchange_id.clone();
        push_char(&mut r, '#');
        let d = decimal_string(self.account_number);
        r.append(d.as_str());
        r
    }
}

/// Round trip for pattern-split mode: the canonical text of any
/// identifier whose label is one or more letters parses back to an
/// identifier with the very same fields.
pub proof fn lemma_pattern_round_trip(id: Id)
    requires
        id.exchange_id@.len() > 0,
        all_letters(id.exchange_id@),
    ensures
        matches_pattern(pattern_text(id)),
        digits_val(pattern_digits(pattern_text(id))) <= 255,
        pattern_letters(pattern_text(id)) == id.exchange_id@,
        digits_val(pattern_digits(pattern_text(id))) == id.account_number as nat,
{
    let e = id.exchange_id@;
    let d = decimal_of(id.account_number as nat);
    let s = pattern_text(id);
    lemma_decimal_of(id.account_number as nat);
    let i = e.len() as int;
    assert(s.take(i) =~= e);
    assert(s.skip(i) =~= d);
    assert(is_pattern_split(s, i));
    assert(matches_pattern(s));
    assert(is_pattern_split(s, pattern_split_at(s)));
    lemma_pattern_split_unique(s, i, pattern_split_at(s));
}

/// Round trip for delimiter-split mode: the delimited text of any
/// identifier whose label is free of `#` parses back to an
/// identifier with the very same fields.
pub proof fn lemma_delimiter_round_trip(id: Id)
    requires
        !id.exchange_id@.contains('#'),
    ensures
        delim_ok(delimited_text(id)),
        delim_head(delimited_text(id)) == id.exchange_id@,
        digits_val(delim_number_part(delimited_text(id))) == id.account_number as nat,
{
    let e = id.exchange_id@;
    let d = decimal_of(id.account_number as nat);
    let s = delimited_text(id);
    lemma_decimal_of(id.account_number as nat);
    lemma_first_delim(s);
    assert(s.len() == e.len() + 1 + d.len());
    assert(s[e.len() as int] == '#');
    assert forall|j: int| 0 <= j < e.len() implies s[j] != '#' by {
        assert(s[j] == e[j]);
        if e[j] == '#' {
            assert(e.contains('#'));
        }
    }
    if first_delim(s) < e.len() {
        assert(s[first_delim(s)] != '#');
    }
    assert(first_delim(s) == e.len());
    assert(has_delim(s));
    let rest = s.skip(e.len() as int + 1);
    assert(rest =~= d);
    lemma_first_delim(rest);
    assert forall|j: int| 0 <= j < rest.len() implies rest[j] != '#' by {
        assert(is_digit(rest[j]));
    }
    assert(first_delim(rest) == rest.len());
    assert(delim_number_part(s) =~= d);
    assert(delim_head(s) =~= e);
}

} // verus!
