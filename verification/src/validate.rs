//! Validators: pure functions that turn raw input text into `Priority` and
//! `Date` values, or report why they cannot.

use vstd::prelude::*;
use vstd::string::StrSliceExecFns;
use vstd::string::StringExecFns;
use crate::date::{valid_ymd, Date};
use crate::digits::{digit_of, digit_val, digits_end, find_digits_end, is_digit,
    lemma_digits_end_shape, num_val, parse_digits_u128};
use crate::task::Priority;

verus! {

/// A raw input field that no value can be built from.
#[derive(Clone, Copy, PartialEq, Eq, Structural, Debug)]
pub enum ValidationError {
    InvalidPriority,
    InvalidDate,
}

/// The exact token that names each priority.
pub open spec fn priority_token(p: Priority) -> Seq<char> {
    match p {
        Priority::Low => seq!['l', 'o', 'w'],
        Priority::Medium => seq!['m', 'e', 'd', 'i', 'u', 'm'],
        Priority::High => seq!['h', 'i', 'g', 'h'],
    }
}

/// The text has the fixed shape `dd-mm-yyyy`.
pub open spec fn date_text_wf(s: Seq<char>) -> bool {
    &&& s.len() == 10
    &&& is_digit(s[0])
    &&& is_digit(s[1])
    &&& s[2] == '-'
    &&& is_digit(s[3])
    &&& is_digit(s[4])
    &&& s[5] == '-'
    &&& is_digit(s[6])
    &&& is_digit(s[7])
    &&& is_digit(s[8])
    &&& is_digit(s[9])
}

pub open spec fn text_day(s: Seq<char>) -> int {
    digit_val(s[0]) * 10 + digit_val(s[1])
}

pub open spec fn text_month(s: Seq<char>) -> int {
    digit_val(s[3]) * 10 + digit_val(s[4])
}

pub open spec fn text_year(s: Seq<char>) -> int {
    digit_val(s[6]) * 1000 + digit_val(s[7]) * 100 + digit_val(s[8]) * 10 + digit_val(s[9])
}

/// The date a well-formed `dd-mm-yyyy` text denotes.
pub open spec fn date_of_text(s: Seq<char>) -> Date {
    Date { year: text_year(s) as u16, month: text_month(s) as u8, day: text_day(s) as u8 }
}

/// The text has the right shape and denotes a real calendar date.
pub open spec fn date_text_valid(s: Seq<char>) -> bool {
    date_text_wf(s) && valid_ymd(text_year(s), text_month(s), text_day(s))
}

/// Accepts exactly the tokens `low`, `medium` and `high`, case-sensitively.
pub fn validate_priority(priority: &str) -> (r: Result<Priority, ValidationError>)
    ensures
        r matches Ok(p) ==> priority@ == priority_token(p),
        r is Err ==> (forall|p: Priority| priority@ != priority_token(p)),
        r matches Err(e) ==> e == ValidationError::InvalidPriority,
{
    proof {
        reveal_strlit("low");
        reveal_strlit("medium");
        reveal_strlit("high");
        assert("low"@ =~= priority_token(Priority::Low));
        assert("medium"@ =~= priority_token(Priority::Medium));
        assert("high"@ =~= priority_token(Priority::High));
    }
    let p = String::from_str(priority);
    if p == String::from_str("low") {
        Ok(Priority::Low)
    } else if p == String::from_str("medium") {
        Ok(Priority::Medium)
    } else if p == String::from_str("high") {
        Ok(Priority::High)
    } else {
        Err(ValidationError::InvalidPriority)
    }
}

/// Reads a `dd-mm-yyyy` text as a date, `None` when the shape is wrong or the
/// calendar date does not exist.
pub fn parse_date_text(s: &str) -> (r: Option<Date>)
    ensures
        r is Some <==> date_text_valid(s@),
        r matches Some(d) ==> d == date_of_text(s@) && d.wf(),
{
    if s.unicode_len() != 10 {
        return None;
    }
    let c0 = s.get_char(0);
    let c1 = s.get_char(1);
    let c2 = s.get_char(2);
    let c3 = s.get_char(3);
    let c4 = s.get_char(4);
    let c5 = s.get_char(5);
    let c6 = s.get_char(6);
    let c7 = s.get_char(7);
    let c8 = s.get_char(8);
    let c9 = s.get_char(9);
    let shape_ok = ('0' <= c0 && c0 <= '9') && ('0' <= c1 && c1 <= '9') && c2 == '-' && ('0'
        <= c3 && c3 <= '9') && ('0' <= c4 && c4 <= '9') && c5 == '-' && ('0' <= c6 && c6 <= '9')
        && ('0' <= c7 && c7 <= '9') && ('0' <= c8 && c8 <= '9') && ('0' <= c9 && c9 <= '9');
    if !shape_ok {
        return None;
    }
    let day = digit_of(c0) * 10 + digit_of(c1);
    let month = digit_of(c3) * 10 + digit_of(c4);
    let year = digit_of(c6) as u16 * 1000 + digit_of(c7) as u16 * 100 + digit_of(c8) as u16 * 10
        + digit_of(c9) as u16;
    Date::new(year, month, day)
}

/// Accepts exactly the `dd-mm-yyyy` texts that denote a real calendar date;
/// anything else is `InvalidDate`.
pub fn handle_date(date: &str) -> (r: Result<Date, ValidationError>)
    ensures
        r is Ok <==> date_text_valid(date@),
        r matches Ok(d) ==> d == date_of_text(date@) && d.wf(),
        r matches Err(e) ==> e == ValidationError::InvalidDate,
{
    match parse_date_text(date) {
        Some(d) => Ok(d),
        None => Err(ValidationError::InvalidDate),
    }
}

/// Reads a task id given as a plain run of decimal digits.
pub fn parse_task_id(s: &str) -> (r: Option<u128>)
    ensures
        r is Some <==> (s@.len() > 0 && (forall|k: int| 0 <= k < s@.len() ==> is_digit(
            #[trigger] s@[k],
        )) && num_val(s@, 0, s@.len() as int) <= u128::MAX),
        r matches Some(n) ==> n == num_val(s@, 0, s@.len() as int),
{
    let len = s.unicode_len();
    if len == 0 {
        return None;
    }
    let e = find_digits_end(s, 0);
    proof {
        lemma_digits_end_shape(s@, 0);
    }
    if e != len {
        return None;
    }
    parse_digits_u128(s, 0, len)
}

} // verus!
