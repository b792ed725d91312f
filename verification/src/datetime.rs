//! Timestamps as the store and the wire carry them: unix seconds, valid
//! exactly when the calendar library can represent them.

use vstd::prelude::*;
use crate::numfmt::int_str;
use crate::numfmt::i64_to_string;

verus! {

/// The lowest unix timestamp (in seconds) that chrono's calendar can
/// represent: the start of its minimum date.
pub const MIN_TIMESTAMP: i64 = -8334601228800;

/// The highest unix timestamp (in seconds) that chrono's calendar can
/// represent: the last second of its maximum date.
pub const MAX_TIMESTAMP: i64 = 8210266876799;

/// True when the calendar library can turn `ts` seconds into a date.
pub open spec fn timestamp_in_range(ts: int) -> bool {
    MIN_TIMESTAMP <= ts <= MAX_TIMESTAMP
}

/// Relies on chrono::DateTime::<Utc>::from_timestamp with zero
/// nanoseconds: it returns Some exactly when the timestamp falls in the
/// range bounded by chrono's minimum and maximum dates.
#[verifier::external_body]
pub(crate) fn chrono_accepts_timestamp(date: i64) -> (r: bool)
    ensures
        r == timestamp_in_range(date as int),
{
    chrono::DateTime::<chrono::Utc>::from_timestamp(date, 0).is_some()
}

/// Relies on chrono::Utc::now: nothing is known of the clock reading,
/// except that the timestamp of an existing date always lies in the
/// representable range. chrono panics if the system clock reads before
/// 1970; that failure is environmental, not input-driven.
#[verifier::external_body]
pub fn now_timestamp() -> (r: i64)
    ensures
        timestamp_in_range(r as int),
{
    chrono::Utc::now().timestamp()
}

/// A timestamp that the calendar library has accepted, ready for the
/// store.
#[derive(Debug, Clone, Copy, PartialEq, Eq)]
pub struct DateTimeSql(pub i64);

/// A timestamp the calendar library rejected, carried for reporting.
#[derive(Debug, Clone, Copy, PartialEq, Eq)]
pub struct DateTimeSqlError(pub i64);

impl DateTimeSql {
    /// Every accepted timestamp lies in the representable range.
    pub open spec fn wf(self) -> bool {
        timestamp_in_range(self.0 as int)
    }

    /// Validates a raw timestamp against the calendar.
    pub fn new(date: i64) -> (r: Option<DateTimeSql>)
        ensures
            r == (if timestamp_in_range(date as int) {
                Some(DateTimeSql(date))
            } else {
                None::<DateTimeSql>
            }),
            r matches Some(d) ==> d.wf(),
    {
        if chrono_accepts_timestamp(date) {
            Some(DateTimeSql(date))
        } else {
            None
        }
    }

    /// Validates a raw timestamp, handing back the seconds unchanged when
    /// the calendar accepts them.
    pub fn parse(date: i64) -> (r: Option<i64>)
        ensures
            r == (if timestamp_in_range(date as int) {
                Some(date)
            } else {
                None::<i64>
            }),
    {
        if chrono_accepts_timestamp(date) {
            Some(date)
        } else {
            None
        }
    }
}

impl DateTimeSqlError {
    /// The rejected timestamp, rendered for an error report.
    pub fn message(&self) -> (r: String)
        ensures
            r@ == "DateTimeSqlError("@ + int_str(self.0 as int) + ")"@,
    {
        let mut out = String::from_str("DateTimeSqlError(");
        let digits = i64_to_string(self.0);
        out.append(digits.as_str());
        out.append(")");
        out
    }
}

} // verus!
