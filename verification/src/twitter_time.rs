//! Moments written the way the search endpoint of the timeline service
//! reads them: year, month, day, hour and minute in UTC, twelve digits.

use vstd::prelude::*;

verus! {

/// The last second of the year 9999, in seconds since the Unix epoch.
pub const LAST_SECOND_OF_YEAR_9999: u64 = 253402300799;

/// The text that the `time` crate produces for the moment `seconds` after
/// the Unix epoch: the moment is read by `time::strptime` from its decimal
/// digits with the format `%s`, which takes it as a time in UTC, and then
/// written by `time::Tm::strftime` with the format `%Y%m%d%H%M`.
pub uninterp spec fn utc_minute_text(seconds: u64) -> Seq<char>;

/// Twelve decimal digits: four for the year, and two each for the month,
/// the day, the hour and the minute.
pub open spec fn is_minute_stamp(text: Seq<char>) -> bool {
    &&& text.len() == 12
    &&& forall|i: int| 0 <= i < text.len() ==> '0' <= #[trigger] text[i] <= '9'
}

/// Calls `time::strptime` with the format `%s` on the decimal digits of
/// `seconds`, and `time::Tm::strftime` with the format `%Y%m%d%H%M` on the
/// time it returns.
///
/// Trusted: the text is the one named [`utc_minute_text`], and it is made
/// of twelve digits, since up to the end of the year 9999 the year is
/// written with four digits and each of the other four fields is padded to
/// two. Neither call fails for such a moment: the digits read are at most
/// twelve, the time is broken down in UTC, and the format holds only
/// fields that `strftime` knows. This is said of targets on which the
/// `time_t` of C is 64 bits wide, as the `time` crate hands the seconds to
/// C in that type.
#[verifier::external_body]
pub(crate) fn utc_minute_stamp(seconds: u64) -> (r: String)
    requires
        seconds <= LAST_SECOND_OF_YEAR_9999,
    ensures
        r@ == utc_minute_text(seconds),
        is_minute_stamp(r@),
{
    let tm = time::strptime(&format!("{}", seconds), "%s").expect("Parsing tm from snowflake");
    format!("{}", tm.strftime("%Y%m%d%H%M").expect("Formatting tm as twitter time"))
}

} // verus!
