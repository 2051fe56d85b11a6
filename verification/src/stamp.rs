//! Fresh ids and points in time.

use vstd::prelude::*;

#[allow(unused_imports)]
use crate::text::ascii_digit;

verus! {

pub open spec fn hex_digit(c: char) -> bool {
    ascii_digit(c) || ('a' <= c && c <= 'f')
}

/// The shape of a random UUID: 36 characters, lower case hex digits in groups of 8, 4, 4, 4 and
/// 12 with hyphens between them, and the version digit 4.
pub open spec fn uuid_shape(s: Seq<char>) -> bool {
    &&& s.len() == 36
    &&& forall|i: int|
        0 <= i < 36 ==> if i == 8 || i == 13 || i == 18 || i == 23 {
            #[trigger] s[i] == '-'
        } else {
            hex_digit(s[i])
        }
    &&& s[14] == '4'
}

/// The RFC 3339 text, in UTC, of the point in time that a text names, if it names one.
pub uninterp spec fn utc_text(text: Seq<char>) -> Option<Seq<char>>;

/// A year of four digits: the text starts with a digit, not with a sign.
pub open spec fn four_digit_year(s: Seq<char>) -> bool {
    s.len() > 0 && ascii_digit(s[0])
}

pub open spec fn all_digits(s: Seq<char>) -> bool {
    forall|i: int| 0 <= i < s.len() ==> ascii_digit(#[trigger] s[i])
}

/// A year as RFC 3339 and ISO 8601 write it: four digits, or a sign and four to six digits.
pub open spec fn year_shape(s: Seq<char>) -> bool {
    ||| s.len() == 4 && all_digits(s)
    ||| 5 <= s.len() <= 7 && (s[0] == '+' || s[0] == '-') && all_digits(s.skip(1))
}

/// A month, a day and a time of day after the year, as in `-12-19T16:39:57`.
pub open spec fn day_time_shape(s: Seq<char>) -> bool {
    &&& s.len() == 15
    &&& s[0] == '-' && all_digits(s.subrange(1, 3))
    &&& s[3] == '-' && all_digits(s.subrange(4, 6))
    &&& s[6] == 'T' && all_digits(s.subrange(7, 9))
    &&& s[9] == ':' && all_digits(s.subrange(10, 12))
    &&& s[12] == ':' && all_digits(s.subrange(13, 15))
}

/// The fraction of a second: none, or a point and the digits down to thousandths, millionths or
/// billionths.
pub open spec fn fraction_shape(s: Seq<char>) -> bool {
    ||| s.len() == 0
    ||| (s.len() == 4 || s.len() == 7 || s.len() == 10) && s[0] == '.' && all_digits(s.skip(1))
}

/// The RFC 3339 text of a point in time in UTC, such as `1996-12-19T16:39:57+00:00`.
pub open spec fn utc_shape(s: Seq<char>) -> bool {
    exists|year: Seq<char>, day_time: Seq<char>, fraction: Seq<char>|
        #![trigger year_shape(year), day_time_shape(day_time), fraction_shape(fraction)]
        year_shape(year) && day_time_shape(day_time) && fraction_shape(fraction) && s == year
            + day_time + fraction + "+00:00"@
}

/// A point in time as it is written: in the form of RFC 3339, in UTC, and read again as itself
/// where the year has four digits.
pub open spec fn is_stamp(s: Seq<char>) -> bool {
    &&& utc_shape(s)
    &&& four_digit_year(s) ==> utc_text(s) == Some(s)
}

/// Calls `uuid::Uuid::new_v4`, which draws the id at random, and writes it.
#[verifier::external_body]
pub(crate) fn fresh_id() -> (r: String)
    ensures
        uuid_shape(r@),
{
    uuid::Uuid::new_v4().to_string()
}

/// Calls `chrono::Utc::now` and writes the time as RFC 3339 with `chrono::DateTime::to_rfc3339`:
/// the year, the date and time of day, the fraction of the second in as many digits as it needs,
/// and the offset of UTC. The text names the time that it was written for. That this is the
/// present is left unsaid.
#[verifier::external_body]
pub(crate) fn now() -> (r: String)
    ensures
        is_stamp(r@),
{
    chrono::Utc::now().to_rfc3339()
}

/// Parses a point in time as `chrono::DateTime<chrono::Utc>` does and writes it with
/// `chrono::DateTime::to_rfc3339`, in the same form as the present. What was written names the
/// same time again.
#[verifier::external_body]
fn read_time(text: &str) -> (r: Option<String>)
    ensures
        match r {
            Some(t) => utc_text(text@) == Some(t@) && is_stamp(t@),
            None => utc_text(text@) is None,
        },
{
    text.parse::<chrono::DateTime<chrono::Utc>>().ok().map(|t| t.to_rfc3339())
}

/// The UTC text of a point in time; the present where the text names none.
pub fn ts(text: &str) -> (r: String)
    ensures
        utc_text(text@) matches Some(t) ==> r@ == t,
        is_stamp(r@),
{
    match read_time(text) {
        Some(t) => t,
        None => now(),
    }
}

} // verus!
