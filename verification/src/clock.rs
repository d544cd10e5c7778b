//! The current time, as chrono renders it.

use crate::text::zero_pad;
use vstd::prelude::*;

verus! {

/// Whether chrono can hold year `y` (-262144 to 262143).
pub open spec fn chrono_year(y: int) -> bool {
    -262144 <= y <= 262143
}

/// How chrono's `%Y` writes year `y`: zero-padded to 4 digits, with an
/// initial sign for years before 0 or after 9999.
pub open spec fn year_text(y: int) -> Seq<char> {
    if 0 <= y <= 9999 {
        zero_pad(y as nat, 4)
    } else if y < 0 {
        seq!['-'] + zero_pad((-y) as nat, 4)
    } else {
        seq!['+'] + zero_pad(y as nat, 4)
    }
}

/// How chrono's `%Y-%m-%d` writes a date: the year as `%Y` writes it, then
/// the month (1 to 12) and the day (1 to 31), each zero-padded to 2 digits.
pub open spec fn date_text(y: int, m: int, d: int) -> Seq<char> {
    year_text(y) + seq!['-'] + zero_pad(m as nat, 2) + seq!['-'] + zero_pad(d as nat, 2)
}

/// `s` is a year as `%Y` writes it.
pub open spec fn is_year_text(s: Seq<char>) -> bool {
    exists|y: int| chrono_year(y) && s == #[trigger] year_text(y)
}

/// `chrono::Utc::now().format(pattern)` rendered to a `String`, for the
/// pattern `%Y` (other patterns can make the rendering fail). Which moment is
/// rendered depends on the call; what is promised is only the shape chrono
/// documents: a year (chrono holds -262144 to 262143).
#[verifier::external_body]
pub(crate) fn utc_now_format(pattern: &str) -> (r: String)
    requires
        pattern@ == "%Y"@,
    ensures
        is_year_text(r@),
{
    chrono::Utc::now().format(pattern).to_string()
}

/// How chrono writes a time of day: hour, minute and second, each
/// zero-padded to 2 digits, separated by colons.
pub open spec fn time_text(h: int, m: int, s: int) -> Seq<char> {
    zero_pad(h as nat, 2) + seq![':'] + zero_pad(m as nat, 2) + seq![':'] + zero_pad(s as nat, 2)
}

/// The fraction of a second `to_rfc3339` writes: nothing, or a dot and 3, 6
/// or 9 digits.
pub open spec fn is_fraction(f: Seq<char>) -> bool {
    f.len() == 0 || (f[0] == '.' && (f.len() == 4 || f.len() == 7 || f.len() == 10) && forall|i: int|
        1 <= i < f.len() ==> '0' <= #[trigger] f[i] <= '9')
}

/// A UTC timestamp as `to_rfc3339` writes it.
pub open spec fn rfc3339_text(y: int, mo: int, d: int, h: int, mi: int, s: int, f: Seq<char>) -> Seq<
    char,
> {
    date_text(y, mo, d) + seq!['T'] + time_text(h, mi, s) + f + "+00:00"@
}

/// `s` is a UTC timestamp as `to_rfc3339` writes it: the date as `%Y-%m-%d`
/// writes it, `T`, the time (hour 0 to 23, minute 0 to 59, second 0 to 60,
/// a leap second being 60), any fraction of a second, then `+00:00`.
pub open spec fn is_rfc3339_utc(s: Seq<char>) -> bool {
    exists|y: int, mo: int, d: int, h: int, mi: int, sec: int, f: Seq<char>|
        {
            &&& chrono_year(y)
            &&& 1 <= mo <= 12
            &&& 1 <= d <= 31
            &&& 0 <= h <= 23
            &&& 0 <= mi <= 59
            &&& 0 <= sec <= 60
            &&& is_fraction(f)
            &&& s == #[trigger] rfc3339_text(y, mo, d, h, mi, sec, f)
        }
}

/// `chrono::Utc::now().to_rfc3339()`. Which moment is written depends on the
/// call; what is promised is only the shape chrono writes for a UTC time.
#[verifier::external_body]
pub(crate) fn utc_now_rfc3339() -> (r: String)
    ensures
        is_rfc3339_utc(r@),
{
    chrono::Utc::now().to_rfc3339()
}

/// The current UTC year as `%Y` renders it.
pub fn current_year() -> (r: String)
    ensures
        is_year_text(r@),
{
    utc_now_format("%Y")
}

} // verus!
