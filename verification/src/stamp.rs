//! Points in time, in UTC.
use chrono::{DateTime, TimeDelta, Utc};
use vstd::prelude::*;

verus! {

/// The first second that a calendar date can be given for.
pub const FIRST_SECOND: i64 = -8_334_601_228_800;

/// The last second that a calendar date can be given for.
pub const LAST_SECOND: i64 = 8_210_266_876_799;

/// A point in time: seconds since the epoch, and nanoseconds within the second.
/// Within a leap second the nanoseconds run on past one second.
#[derive(Clone, Copy, Debug, PartialEq, Eq, Structural)]
pub struct Timestamp {
    pub secs: i64,
    pub nanos: u32,
}

impl Timestamp {
    /// A calendar date can be given for this point in time.
    pub open spec fn valid(self) -> bool {
        &&& FIRST_SECOND <= self.secs <= LAST_SECOND
        &&& self.nanos < 2_000_000_000
        &&& self.nanos >= 1_000_000_000 ==> self.secs % 60 == 59
    }

    /// A valid point in time that lies in no leap second.
    pub open spec fn plain(self) -> bool {
        self.valid() && self.nanos < 1_000_000_000
    }

    /// The position of this point in time among all others.
    pub open spec fn rank(self) -> int {
        self.secs * 0x1_0000_0000 + self.nanos
    }

    /// This point in time lies before `other`.
    pub open spec fn precedes(self, other: Timestamp) -> bool {
        self.secs < other.secs || (self.secs == other.secs && self.nanos < other.nanos)
    }

    /// This point in time lies before `other`.
    pub fn is_before(&self, other: &Timestamp) -> (r: bool)
        ensures
            r == self.precedes(*other),
    {
        self.secs < other.secs || (self.secs == other.secs && self.nanos < other.nanos)
    }

    /// The position of this point in time among all others.
    pub fn sort_key(&self) -> (r: i128)
        ensures
            r == self.rank(),
    {
        self.secs as i128 * 0x1_0000_0000 + self.nanos as i128
    }

    /// A calendar date can be given for this point in time.
    pub fn is_valid(&self) -> (r: bool)
        ensures
            r == self.valid(),
    {
        FIRST_SECOND <= self.secs && self.secs <= LAST_SECOND && self.nanos < 2_000_000_000 && (
        self.nanos < 1_000_000_000 || self.ends_minute())
    }

    fn ends_minute(&self) -> (r: bool)
        ensures
            r == (self.secs % 60 == 59),
    {
        let part: i64 = self.secs % 60;
        part == 59 || part == -1
    }
}

/// The rank orders points in time as `precedes` does.
pub proof fn rank_orders(a: Timestamp, b: Timestamp)
    ensures
        a.precedes(b) <==> a.rank() < b.rank(),
        a == b <==> a.rank() == b.rank(),
{
}

/// The RFC 3339 text of a point in time, as `DateTime::to_rfc3339` writes it.
pub uninterp spec fn rfc3339_text(secs: i64, nanos: u32) -> Seq<char>;

/// The text of a point in time in the pattern `%Y-%m-%dT%H:%M:%SZ`, as
/// `DateTime::format` writes it.
pub uninterp spec fn clock_text(secs: i64, nanos: u32) -> Seq<char>;

/// What `str::parse` reads a text as, as a point in time: seconds and nanoseconds.
pub uninterp spec fn parsed_time(s: Seq<char>) -> Option<(i64, u32)>;

/// The whole seconds, rounded towards zero, by which the first point in time lies
/// behind the second, as `DateTime::signed_duration_since` counts them.
pub uninterp spec fn seconds_between(secs: i64, nanos: u32, since: i64, since_nanos: u32) -> i64;

/// `a / b`, rounded towards zero, for `b` above zero.
pub open spec fn towards_zero(a: int, b: int) -> int {
    if a >= 0 {
        a / b
    } else {
        -((-a) / b)
    }
}

/// The current time, read by `Utc::now`. It lies after the epoch and in no leap second.
#[verifier::external_body]
pub(crate) fn now() -> (r: Timestamp)
    ensures
        r.plain(),
        r.secs >= 0,
{
    let t = Utc::now();
    Timestamp { secs: t.timestamp(), nanos: t.timestamp_subsec_nanos() }
}

/// Writes a point in time with `DateTime::to_rfc3339`. The text parses back to the same point
/// in time: years outside 0 to 9999 are written and read with a sign, and a leap second is
/// written and read as second 60.
#[verifier::external_body]
pub(crate) fn to_rfc3339(t: Timestamp) -> (r: String)
    requires
        t.valid(),
    ensures
        r@ == rfc3339_text(t.secs, t.nanos),
        parsed_time(r@) == Some((t.secs, t.nanos)),
{
    DateTime::<Utc>::from_timestamp(t.secs, t.nanos).unwrap().to_rfc3339()
}

/// Writes a point in time with `DateTime::format`, in the pattern `%Y-%m-%dT%H:%M:%SZ`.
#[verifier::external_body]
pub(crate) fn to_clock(t: Timestamp) -> (r: String)
    requires
        t.valid(),
    ensures
        r@ == clock_text(t.secs, t.nanos),
{
    let t = DateTime::<Utc>::from_timestamp(t.secs, t.nanos).unwrap();
    t.format("%Y-%m-%dT%H:%M:%SZ").to_string()
}

/// Reads a point in time with `str::parse` into a `DateTime<Utc>`. A calendar date can be
/// given for whatever it reads.
#[verifier::external_body]
pub(crate) fn parse_time(s: &str) -> (r: Option<Timestamp>)
    ensures
        r is Some <==> parsed_time(s@) is Some,
        r matches Some(t) ==> t.valid() && parsed_time(s@) == Some((t.secs, t.nanos)),
{
    s.parse::<DateTime<Utc>>().ok().map(
        |t| Timestamp { secs: t.timestamp(), nanos: t.timestamp_subsec_nanos() },
    )
}

/// Moves a point in time by whole seconds with `DateTime::checked_add_signed`, on which the
/// operators `+` and `-` of `DateTime` rest. `None` where no calendar date can be given for
/// the result.
#[verifier::external_body]
pub(crate) fn shifted(t: Timestamp, seconds: i64) -> (r: Option<Timestamp>)
    requires
        t.plain(),
    ensures
        r == if FIRST_SECOND <= t.secs + seconds <= LAST_SECOND {
            Some(Timestamp { secs: (t.secs + seconds) as i64, nanos: t.nanos })
        } else {
            None
        },
{
    let delta = TimeDelta::try_seconds(seconds)?;
    DateTime::<Utc>::from_timestamp(t.secs, t.nanos).unwrap().checked_add_signed(delta).map(
        |m| Timestamp { secs: m.timestamp(), nanos: m.timestamp_subsec_nanos() },
    )
}

/// The whole seconds by which `t` lies behind `since`, counted by
/// `DateTime::signed_duration_since` and `TimeDelta::num_seconds`. Outside leap seconds they
/// are the difference, rounded towards zero.
#[verifier::external_body]
pub(crate) fn seconds_since(t: Timestamp, since: Timestamp) -> (r: i64)
    requires
        t.valid(),
        since.valid(),
    ensures
        r == seconds_between(t.secs, t.nanos, since.secs, since.nanos),
        t.plain() && since.plain() ==> r == towards_zero(
            (t.secs - since.secs) * 1_000_000_000 + (t.nanos - since.nanos),
            1_000_000_000,
        ),
{
    DateTime::<Utc>::from_timestamp(t.secs, t.nanos).unwrap().signed_duration_since(
        DateTime::<Utc>::from_timestamp(since.secs, since.nanos).unwrap(),
    ).num_seconds()
}

/// The seconds that have passed since `since`, never below zero.
pub open spec fn elapsed(t: Timestamp, since: Timestamp) -> int {
    let n = seconds_between(t.secs, t.nanos, since.secs, since.nanos);
    if n < 0 {
        0
    } else {
        n as int
    }
}

/// The seconds that have passed since `since`, never below zero.
pub fn elapsed_seconds(t: Timestamp, since: Timestamp) -> (r: i64)
    requires
        t.valid(),
        since.valid(),
    ensures
        r == elapsed(t, since),
        t.plain() && since.plain() && t.secs < since.secs ==> r == 0,
        t.plain() && since.plain() && t.secs >= since.secs ==> r == if t.nanos >= since.nanos {
            t.secs - since.secs
        } else if t.secs > since.secs {
            t.secs - since.secs - 1
        } else {
            0
        },
{
    let n: i64 = seconds_since(t, since);
    proof {
        let d = (t.secs - since.secs) * 1_000_000_000 + (t.nanos - since.nanos);
        if t.plain() && since.plain() && t.secs < since.secs {
            assert(d < 0);
        }
        if t.plain() && since.plain() && t.secs >= since.secs {
            let s = t.secs - since.secs;
            let f = t.nanos - since.nanos;
            if f >= 0 {
                assert(d / 1_000_000_000 == s) by (nonlinear_arith)
                    requires
                        d == s * 1_000_000_000 + f,
                        0 <= f < 1_000_000_000,
                ;
            } else if s > 0 {
                assert(d / 1_000_000_000 == s - 1) by (nonlinear_arith)
                    requires
                        d == s * 1_000_000_000 + f,
                        -1_000_000_000 < f < 0,
                ;
            } else {
                assert((-d) / 1_000_000_000 == 0) by (nonlinear_arith)
                    requires
                        d == f,
                        -1_000_000_000 < f < 0,
                ;
            }
        }
    }
    if n < 0 {
        0
    } else {
        n
    }
}

/// Points in time follow one another by their seconds, and within a second by their nanoseconds;
/// of two different ones, exactly one lies before the other.
pub proof fn time_has_one_direction(a: Timestamp, b: Timestamp)
    ensures
        a.secs < b.secs ==> a.precedes(b),
        a.secs == b.secs && a.nanos < b.nanos ==> a.precedes(b),
        !(a.precedes(b) && b.precedes(a)),
        a.precedes(b) || b.precedes(a) <==> a != b,
{
}

/// Time that has passed is never negative, and is the whole seconds between wherever those are
/// not.
pub proof fn passed_time_is_never_negative(t: Timestamp, since: Timestamp)
    ensures
        ({
            let n = seconds_between(t.secs, t.nanos, since.secs, since.nanos);
            &&& elapsed(t, since) >= 0
            &&& n >= 0 ==> elapsed(t, since) == n
            &&& n <= 0 ==> elapsed(t, since) == 0
        }),
{
}

/// A calendar date can be given from the year -262143 to the year 262142; within the last second
/// of a minute, the nanoseconds may run on for a second more.
pub proof fn the_calendar_has_ends(t: Timestamp)
    ensures
        t.valid() <==> -8_334_601_228_800 <= t.secs <= 8_210_266_876_799 && (t.nanos
            < 1_000_000_000 || (t.nanos < 2_000_000_000 && (t.secs - 59) % 60 == 0)),
        t.plain() <==> -8_334_601_228_800 <= t.secs <= 8_210_266_876_799 && t.nanos
            < 1_000_000_000,
{
}

} // verus!
