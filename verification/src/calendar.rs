//! Dates and times of the proleptic Gregorian calendar, through `chrono`.
//!
//! A moment is a count of seconds since 1970-01-01T00:00:00Z, and a day a count of
//! days in which January 1 of the year 1 is day 1.

use crate::text::text_before;
use vstd::prelude::*;

verus! {

/// -262143-01-01T00:00:00Z, the first moment that `chrono` holds.
pub const FIRST_SECOND: i64 = -8_334_601_228_800;

/// +262142-12-31T23:59:59Z, the last whole second that `chrono` holds.
pub const LAST_SECOND: i64 = 8_210_266_876_799;

/// -262143-01-01, the first day that `chrono` holds.
pub const FIRST_DAY: i32 = -95_746_129;

/// +262142-12-31, the last day that `chrono` holds.
pub const LAST_DAY: i32 = 95_745_399;

/// 0000-01-01T00:00:00Z.
pub const YEAR_ZERO: i64 = -62_167_219_200;

/// 9999-12-31T23:59:59Z.
pub const YEAR_9999_END: i64 = 253_402_300_799;

pub const SCAN_TIME_FORMAT: &'static str = "%Y-%m-%dT%H:%M:%SZ";

pub const FRAME_ID_FORMAT: &'static str = "%Y%m%dT%H%M%SZ";

pub const DAY_PATH_FORMAT: &'static str = "%Y/%m/%d";

pub open spec fn is_moment(secs: int) -> bool {
    FIRST_SECOND <= secs <= LAST_SECOND
}

pub open spec fn is_day(day: int) -> bool {
    FIRST_DAY <= day <= LAST_DAY
}

/// A moment whose year has four digits and no sign.
pub open spec fn has_plain_year(secs: int) -> bool {
    YEAR_ZERO <= secs <= YEAR_9999_END
}

/// The moment that `NaiveDateTime::parse_from_str` reads from a text.
pub uninterp spec fn moment_of(text: Seq<char>, format: Seq<char>) -> Option<i64>;

/// The text that `NaiveDateTime::format` gives a moment.
pub uninterp spec fn moment_text(secs: i64, format: Seq<char>) -> Seq<char>;

/// The text that `NaiveDate::format` gives a day.
pub uninterp spec fn day_text(day: i32, format: Seq<char>) -> Seq<char>;

/// The text that `DateTime::to_rfc3339_opts` gives a moment in whole seconds and
/// with a `Z`.
pub uninterp spec fn rfc3339_text(secs: i64) -> Seq<char>;

/// Calls `chrono::NaiveDateTime::parse_from_str` and counts the seconds of what it
/// read. The claim is that the result depends on the two texts alone and lies in
/// the range of `chrono`; which texts a format accepts is not stated.
#[verifier::external_body]
pub(crate) fn parse_moment(text: &str, format: &str) -> (r: Option<i64>)
    ensures
        r == moment_of(text@, format@),
        r matches Some(secs) ==> is_moment(secs as int),
{
    chrono::NaiveDateTime::parse_from_str(text, format).ok().map(|t| t.and_utc().timestamp())
}

/// Calls `chrono::NaiveDateTime::format` with one of the two formats of a frame.
/// The claim is that the text depends on the moment and the format alone.
#[verifier::external_body]
pub(crate) fn format_moment(secs: i64, format: &str) -> (r: String)
    requires
        is_moment(secs as int),
        format@ == SCAN_TIME_FORMAT@ || format@ == FRAME_ID_FORMAT@,
    ensures
        r@ == moment_text(secs, format@),
{
    chrono::DateTime::from_timestamp(secs, 0).unwrap().naive_utc().format(format).to_string()
}

/// Calls `chrono::NaiveDate::format` with the format of a day's path. The claim is
/// that the text depends on the day and the format alone.
#[verifier::external_body]
pub(crate) fn format_day(day: i32, format: &str) -> (r: String)
    requires
        is_day(day as int),
        format@ == DAY_PATH_FORMAT@,
    ensures
        r@ == day_text(day, format@),
{
    chrono::NaiveDate::from_num_days_from_ce_opt(day).unwrap().format(format).to_string()
}

/// Calls `chrono::NaiveDate::pred_opt`, which gives the day before, and nothing
/// before the first day.
#[verifier::external_body]
pub(crate) fn day_before(day: i32) -> (r: Option<i32>)
    requires
        is_day(day as int),
    ensures
        r == (if day == FIRST_DAY {
            None::<i32>
        } else {
            Some((day - 1) as i32)
        }),
{
    let date = chrono::NaiveDate::from_num_days_from_ce_opt(day).unwrap();
    date.pred_opt().map(|d| chrono::Datelike::num_days_from_ce(&d))
}

/// Calls `chrono::DateTime::from_timestamp` and `to_rfc3339_opts`. There is a text
/// exactly for the moments in the range of `chrono`; it depends on the moment alone;
/// and among moments whose year has four digits the later one has the later text,
/// since every field has a fixed width and the larger ones come first.
#[verifier::external_body]
pub(crate) fn format_rfc3339(secs: i64) -> (r: Option<String>)
    ensures
        r is Some <==> is_moment(secs as int),
        r matches Some(text) ==> text@ == rfc3339_text(secs),
        r matches Some(text) ==> forall|earlier: i64|
            has_plain_year(earlier as int) && earlier < secs && has_plain_year(secs as int)
                ==> text_before(#[trigger] rfc3339_text(earlier), text@),
{
    chrono::DateTime::from_timestamp(secs, 0)
        .map(|t| t.to_rfc3339_opts(chrono::SecondsFormat::Secs, true))
}

/// A moment in the range of `chrono`, in whole seconds.
#[derive(Clone, Copy, Debug, PartialEq, Eq)]
pub struct Stamp {
    secs: i64,
}

impl Stamp {
    #[verifier::type_invariant]
    spec fn in_range(self) -> bool {
        is_moment(self.secs as int)
    }

    pub closed spec fn secs(&self) -> i64 {
        self.secs
    }

    pub fn at(secs: i64) -> (r: Option<Stamp>)
        ensures
            r is Some <==> is_moment(secs as int),
            r matches Some(stamp) ==> stamp.secs() == secs,
    {
        if FIRST_SECOND <= secs && secs <= LAST_SECOND {
            Some(Stamp { secs })
        } else {
            None
        }
    }

    /// Seconds since 1970.
    pub fn seconds(&self) -> (r: i64)
        ensures
            r == self.secs(),
            is_moment(r as int),
    {
        proof {
            use_type_invariant(self);
        }
        self.secs
    }
}

} // verus!
