//! Identifiers and clock readings from outside crates: random ids from `uuid`
//! and local time from `chrono`. Their values depend on chance and on the
//! clock, so little is stated of them.

use vstd::prelude::*;

verus! {

/// An instant read from the local clock: whole seconds since the Unix epoch
/// and the nanoseconds past them (above 999,999,999 only in a leap second).
#[derive(Debug, Clone, Copy, PartialEq, Eq)]
pub struct LocalTime {
    pub secs: i64,
    pub nanos: u32,
}

/// A fresh random identifier: `uuid::Uuid::new_v4()` written by its
/// `Display` impl, which is the hyphenated lowercase form of 36 characters
/// with hyphens at positions 8, 13, 18 and 23. Which identifier comes out is
/// left open.
#[verifier::external_body]
pub fn new_id() -> (id: String)
    ensures
        id@.len() == 36,
        id@[8] == '-' && id@[13] == '-' && id@[18] == '-' && id@[23] == '-',
{
    uuid::Uuid::new_v4().to_string()
}

/// The current instant: `chrono::Local::now()`, taken apart by
/// `timestamp` and `timestamp_subsec_nanos`. Which instant comes out is left
/// open; chrono keeps the nanoseconds below two billion.
#[verifier::external_body]
pub fn local_now() -> (now: LocalTime)
    ensures
        now.nanos < 2_000_000_000,
{
    let now = chrono::Local::now();
    LocalTime { secs: now.timestamp(), nanos: now.timestamp_subsec_nanos() }
}

/// Whether `c` is one of the ASCII digits `0` to `9`.
pub open spec fn is_ascii_digit(c: char) -> bool {
    '0' <= c && c <= '9'
}

/// Whether every character of `s` is an ASCII digit.
pub open spec fn all_digits(s: Seq<char>) -> bool {
    forall|i: int| 0 <= i < s.len() ==> #[trigger] is_ascii_digit(s[i])
}

/// The year of an RFC 3339 text as chrono writes it: four digits, or, for a
/// year outside 0 to 9999, a sign and at least four digits.
pub open spec fn rfc3339_year(y: Seq<char>) -> bool {
    ||| y.len() == 4 && all_digits(y)
    ||| y.len() >= 5 && (y[0] == '+' || y[0] == '-') && all_digits(y.drop_first())
}

/// The fraction of a second after the seconds: none, or a point followed by
/// three, six or nine digits.
pub open spec fn rfc3339_fraction(f: Seq<char>) -> bool {
    ||| f.len() == 0
    ||| (f.len() == 4 || f.len() == 7 || f.len() == 10) && f[0] == '.' && all_digits(
        f.drop_first(),
    )
}

/// Whether `s` is `YEAR-MM-DDTHH:MM:SS[.FRACTION]+HH:MM` (or `-HH:MM`), the
/// year taking the first `y` characters.
pub open spec fn rfc3339_with_year_len(s: Seq<char>, y: int) -> bool {
    let n = s.len() as int;
    &&& 4 <= y && y + 21 <= n
    &&& rfc3339_year(s.subrange(0, y))
    &&& s[y] == '-' && is_ascii_digit(s[y + 1]) && is_ascii_digit(s[y + 2])
    &&& s[y + 3] == '-' && is_ascii_digit(s[y + 4]) && is_ascii_digit(s[y + 5])
    &&& s[y + 6] == 'T' && is_ascii_digit(s[y + 7]) && is_ascii_digit(s[y + 8])
    &&& s[y + 9] == ':' && is_ascii_digit(s[y + 10]) && is_ascii_digit(s[y + 11])
    &&& s[y + 12] == ':' && is_ascii_digit(s[y + 13]) && is_ascii_digit(s[y + 14])
    &&& rfc3339_fraction(s.subrange(y + 15, n - 6))
    &&& (s[n - 6] == '+' || s[n - 6] == '-') && is_ascii_digit(s[n - 5]) && is_ascii_digit(
        s[n - 4],
    )
    &&& s[n - 3] == ':' && is_ascii_digit(s[n - 2]) && is_ascii_digit(s[n - 1])
}

/// Whether `s` has the shape of every text that `DateTime::to_rfc3339`
/// writes: date, `T`, time to the second, an optional fraction and the offset
/// from UTC in hours and minutes.
pub open spec fn is_rfc3339_text(s: Seq<char>) -> bool {
    exists|y: int| #[trigger] rfc3339_with_year_len(s, y)
}

/// The current local time as RFC 3339 text: `chrono::Local::now()` written by
/// `DateTime::to_rfc3339`, which calls `write_rfc3339` with automatic
/// sub-second digits and an offset with a colon and no `Z`. Which instant
/// and which offset come out depends on the clock and the machine's time
/// zone and is left open; the shape of the text is stated.
#[verifier::external_body]
pub fn local_now_rfc3339() -> (text: String)
    ensures
        is_rfc3339_text(text@),
{
    chrono::Local::now().to_rfc3339()
}

} // verus!
