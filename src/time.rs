use vstd::prelude::*;

use crate::error::BlameError;

verus! {

/// Whether chrono can represent the instant `seconds` after the Unix epoch.
pub uninterp spec fn utc_timestamp_valid(seconds: int) -> bool;

/// An offset from UTC, in seconds, that a fixed time zone may have.
pub open spec fn utc_offset_in_range(seconds: int) -> bool {
    -86_400 < seconds < 86_400
}

/// The moment a commit was made: seconds since the Unix epoch, and the
/// fixed UTC offset (in seconds) of the time zone it was recorded in.
#[derive(Clone, Copy, Debug, PartialEq, Eq, Structural)]
pub struct CommitTime {
    pub seconds: i64,
    pub offset_seconds: i32,
}

impl CommitTime {
    /// Both parts denote a date and a time zone that chrono can represent.
    pub open spec fn valid(self) -> bool {
        utc_offset_in_range(self.offset_seconds as int) && utc_timestamp_valid(self.seconds as int)
    }
}

/// What `commit_time` returns for these seconds and this offset.
pub open spec fn commit_time_spec(seconds: int, offset_seconds: int) -> Result<CommitTime, BlameError> {
    if !utc_offset_in_range(offset_seconds) {
        Err(BlameError::InvalidTimezone)
    } else if !utc_timestamp_valid(seconds) {
        Err(BlameError::TimestampOutOfRange)
    } else {
        Ok(CommitTime { seconds: seconds as i64, offset_seconds: offset_seconds as i32 })
    }
}

/// Relies on chrono::FixedOffset::east_opt, which accepts exactly the offsets
/// strictly between minus one day and one day.
#[verifier::external_body]
fn fixed_offset_accepts(seconds: i32) -> (r: bool)
    ensures
        r == utc_offset_in_range(seconds as int),
{
    chrono::FixedOffset::east_opt(seconds).is_some()
}

/// Relies on chrono::DateTime::from_timestamp: whether an instant can be
/// represented depends on its seconds alone.
#[verifier::external_body]
fn timestamp_representable(seconds: i64) -> (r: bool)
    ensures
        r == utc_timestamp_valid(seconds as int),
{
    chrono::DateTime::from_timestamp(seconds, 0).is_some()
}

/// Checks a timestamp and a UTC offset (in seconds) and pairs them.
pub fn commit_time(seconds: i64, offset_seconds: i64) -> (r: Result<CommitTime, BlameError>)
    ensures
        r == commit_time_spec(seconds as int, offset_seconds as int),
        r matches Ok(t) ==> t.valid(),
{
    if offset_seconds < i32::MIN as i64 || offset_seconds > i32::MAX as i64 {
        return Err(BlameError::InvalidTimezone);
    }
    let offset = offset_seconds as i32;
    if !fixed_offset_accepts(offset) {
        return Err(BlameError::InvalidTimezone);
    }
    if !timestamp_representable(seconds) {
        return Err(BlameError::TimestampOutOfRange);
    }
    Ok(CommitTime { seconds, offset_seconds: offset })
}

/// The time of a signature read from a repository, whose offset is kept in minutes.
pub fn git_time_to_commit_time(seconds: i64, offset_minutes: i32) -> (r: Result<CommitTime, BlameError>)
    ensures
        r == commit_time_spec(seconds as int, offset_minutes as int * 60),
{
    commit_time(seconds, offset_minutes as i64 * 60)
}

} // verus!
