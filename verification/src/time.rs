//! Points in time and the spans between them, held as plain integers.
//!
//! The calendar itself is chrono's: reading a timestamp from text, writing
//! one out, asking the clock and subtracting two moments are calls into it.
//! Those calls are the functions marked `external_body` below; what their
//! contracts say is taken on trust from chrono, everything else is proved.

use chrono::DateTime;
use chrono::NaiveDateTime;
use chrono::Utc;
use vstd::prelude::*;

verus! {

/// Nanoseconds in one second.
pub const NANOS_PER_SECOND: i64 = 1_000_000_000;

/// Seconds in one minute.
pub const SECONDS_PER_MINUTE: i64 = 60;

/// Seconds in one hour.
pub const SECONDS_PER_HOUR: i64 = 3_600;

/// Seconds in one day.
pub const SECONDS_PER_DAY: i64 = 86_400;

/// Seconds from 1970-01-01T00:00:00 to the first moment of the calendar,
/// -262143-01-01T00:00:00.
pub const FIRST_SECOND: i64 = -8_334_601_228_800;

/// Seconds from 1970-01-01T00:00:00 to the last second of the calendar,
/// +262142-12-31T23:59:59.
pub const LAST_SECOND: i64 = 8_210_266_876_799;

/// A moment on the calendar, in mathematical integers.
pub struct Instant {
    /// Whole seconds since 1970-01-01T00:00:00, leap seconds not counted.
    pub seconds: int,
    /// Nanoseconds past that second: a billion or more inside a leap second.
    pub nanos: int,
}

impl Instant {
    /// Whether the calendar has this moment. A leap second can only follow
    /// the last second of a minute.
    pub open spec fn valid(self) -> bool {
        &&& FIRST_SECOND <= self.seconds <= LAST_SECOND
        &&& 0 <= self.nanos < 2 * NANOS_PER_SECOND
        &&& self.nanos >= NANOS_PER_SECOND ==> self.seconds % 60 == 59
    }

    /// The second of its day, from 0 to 86399.
    pub open spec fn second_of_day(self) -> int {
        self.seconds % (SECONDS_PER_DAY as int)
    }

    /// Whether the moment lies inside a leap second.
    pub open spec fn in_leap_second(self) -> bool {
        self.nanos >= NANOS_PER_SECOND
    }
}

/// Nanoseconds from `then` to `now`, negative where `then` is the later one.
///
/// Leap seconds are unknown to the calendar, so none is counted, with one
/// exception: where one of the two moments lies inside a leap second and the
/// other is at a later second of its day, that leap second is counted whole.
pub open spec fn nanos_between(now: Instant, then: Instant) -> int {
    let leap: int = if now.second_of_day() > then.second_of_day() && then.in_leap_second() {
        1
    } else if now.second_of_day() < then.second_of_day() && now.in_leap_second() {
        -1
    } else {
        0
    };
    (now.seconds - then.seconds + leap) * NANOS_PER_SECOND + (now.nanos - then.nanos)
}

/// `n / d` rounded toward zero, for a positive `d`.
pub open spec fn truncated_quotient(n: int, d: int) -> int {
    if n >= 0 {
        n / d
    } else {
        -((-n) / d)
    }
}

/// The whole seconds in a span of `nanos` nanoseconds.
pub open spec fn whole_seconds(nanos: int) -> int {
    truncated_quotient(nanos, NANOS_PER_SECOND as int)
}

/// The whole minutes in a span of `nanos` nanoseconds.
pub open spec fn whole_minutes(nanos: int) -> int {
    truncated_quotient(nanos, SECONDS_PER_MINUTE * NANOS_PER_SECOND)
}

/// The whole hours in a span of `nanos` nanoseconds.
pub open spec fn whole_hours(nanos: int) -> int {
    truncated_quotient(nanos, SECONDS_PER_HOUR * NANOS_PER_SECOND)
}

/// The whole days in a span of `nanos` nanoseconds.
pub open spec fn whole_days(nanos: int) -> int {
    truncated_quotient(nanos, SECONDS_PER_DAY * NANOS_PER_SECOND)
}

/// The moment that a text names when read as `%Y-%m-%dT%H:%M:%S%.f`, or
/// nothing where the text is no such timestamp.
pub uninterp spec fn parsed_instant(text: Seq<char>) -> Option<Instant>;

/// A moment written out as `%Y-%m-%dT%H:%M:%S%.f`.
pub uninterp spec fn instant_text(moment: Instant) -> Seq<char>;

/// A moment at which a task was done.
#[derive(Clone, Copy, Debug, PartialEq, Eq, Structural)]
pub struct Timestamp {
    secs: i64,
    nanos: u32,
}

impl View for Timestamp {
    type V = Instant;

    closed spec fn view(&self) -> Instant {
        Instant { seconds: self.secs as int, nanos: self.nanos as int }
    }
}

impl DeepView for Timestamp {
    type V = Instant;

    open spec fn deep_view(&self) -> Instant {
        self@
    }
}

impl Timestamp {
    /// Every timestamp is a moment of the calendar.
    #[verifier::type_invariant]
    pub closed spec fn wf(self) -> bool {
        self@.valid()
    }

    /// The timestamp `seconds` after 1970-01-01T00:00:00 and `nanos`
    /// nanoseconds into that second, where the calendar has that moment.
    pub fn new(seconds: i64, nanos: u32) -> (made: Option<Timestamp>)
        ensures
            made is Some <==> (Instant { seconds: seconds as int, nanos: nanos as int }).valid(),
            made matches Some(t) ==> t@ == (Instant { seconds: seconds as int, nanos: nanos as int }),
    {
        if seconds < FIRST_SECOND || seconds > LAST_SECOND || nanos >= 2_000_000_000 {
            return None;
        }
        let since_first: i64 = seconds - FIRST_SECOND;
        if nanos >= 1_000_000_000 && since_first % 60 != 59 {
            return None;
        }
        Some(Timestamp { secs: seconds, nanos })
    }

    /// Whole seconds since 1970-01-01T00:00:00.
    pub fn seconds(&self) -> (seconds: i64)
        ensures
            seconds == self@.seconds,
    {
        self.secs
    }

    /// Nanoseconds past the whole second.
    pub fn subsec_nanos(&self) -> (nanos: u32)
        ensures
            nanos == self@.nanos,
    {
        self.nanos
    }

    /// How long after `earlier` this moment is.
    pub fn elapsed_since(&self, earlier: &Timestamp) -> (span: Elapsed)
        ensures
            span.wf(),
            span@ == nanos_between(self@, earlier@),
    {
        proof {
            use_type_invariant(self);
            use_type_invariant(earlier);
        }
        span_between(*self, *earlier)
    }

    /// The view of a timestamp is a moment of the calendar.
    pub proof fn lemma_valid(self)
        requires
            self.wf(),
        ensures
            self@.valid(),
    {
    }
}

/// A signed span of time, to the nanosecond.
#[derive(Clone, Copy, Debug, PartialEq, Eq, Structural)]
pub struct Elapsed {
    secs: i64,
    nanos: i32,
}

impl View for Elapsed {
    type V = int;

    /// The span in nanoseconds.
    closed spec fn view(&self) -> int {
        self.secs * NANOS_PER_SECOND + self.nanos
    }
}

impl Elapsed {
    /// The two parts have the same sign, and the nanoseconds stay under one
    /// second.
    #[verifier::type_invariant]
    pub closed spec fn wf(self) -> bool {
        &&& -NANOS_PER_SECOND < self.nanos < NANOS_PER_SECOND
        &&& self.secs > 0 ==> self.nanos >= 0
        &&& self.secs < 0 ==> self.nanos <= 0
    }

    /// The whole seconds in the span, rounded toward zero.
    pub fn num_seconds(&self) -> (count: i64)
        ensures
            count == whole_seconds(self@),
    {
        proof {
            use_type_invariant(self);
        }
        self.secs
    }

    /// The whole minutes in the span, rounded toward zero.
    pub fn num_minutes(&self) -> (count: i64)
        ensures
            count == whole_minutes(self@),
    {
        proof {
            use_type_invariant(self);
        }
        self.secs / SECONDS_PER_MINUTE
    }

    /// The whole hours in the span, rounded toward zero.
    pub fn num_hours(&self) -> (count: i64)
        ensures
            count == whole_hours(self@),
    {
        proof {
            use_type_invariant(self);
        }
        self.secs / SECONDS_PER_HOUR
    }

    /// The whole days in the span, rounded toward zero.
    pub fn num_days(&self) -> (count: i64)
        ensures
            count == whole_days(self@),
    {
        proof {
            use_type_invariant(self);
        }
        self.secs / SECONDS_PER_DAY
    }

    /// The nanoseconds left over after the whole seconds, with the sign of
    /// the span.
    pub fn subsec_nanos(&self) -> (nanos: i32)
        ensures
            nanos == self@ - whole_seconds(self@) * NANOS_PER_SECOND,
    {
        proof {
            use_type_invariant(self);
        }
        self.nanos
    }

    /// Whether this span is shorter than `other`; a negative span is shorter
    /// than any positive one.
    pub fn shorter_than(&self, other: &Elapsed) -> (shorter: bool)
        ensures
            shorter == (self@ < other@),
    {
        proof {
            use_type_invariant(self);
            use_type_invariant(other);
        }
        self.secs < other.secs || (self.secs == other.secs && self.nanos < other.nanos)
    }

    /// A span counts fewer seconds than a 64-bit number can hold.
    pub proof fn lemma_bounded(self)
        requires
            self.wf(),
        ensures
            -0x8000_0000_0000_0001 * NANOS_PER_SECOND < self@ < 0x8000_0000_0000_0000
                * NANOS_PER_SECOND,
    {
    }
}

/// The error that chrono's parser reports.
#[verifier::external_type_specification]
#[verifier::external_body]
pub struct ExParseError(chrono::format::ParseError);

/// Reads a timestamp with chrono's `FromStr` for `NaiveDateTime`, which
/// takes the format `%Y-%m-%dT%H:%M:%S%.f`, and splits the result into
/// seconds and nanoseconds with `DateTime::timestamp` and
/// `DateTime::timestamp_subsec_nanos`.
///
/// Trusted: whether the text is accepted, and as which moment, depends on
/// the text alone; a moment that comes back is one of the calendar.
#[verifier::external_body]
pub(crate) fn parse_timestamp(text: &str) -> (parsed: Result<
    Timestamp,
    chrono::format::ParseError,
>)
    ensures
        parsed is Ok <==> parsed_instant(text@) is Some,
        parsed matches Ok(moment) ==> moment.wf() && parsed_instant(text@) == Some(moment@),
{
    match text.parse::<NaiveDateTime>() {
        Ok(moment) => Ok(
            Timestamp {
                secs: moment.and_utc().timestamp(),
                nanos: moment.and_utc().timestamp_subsec_nanos(),
            },
        ),
        Err(error) => Err(error),
    }
}

/// Writes a timestamp with chrono's `Debug` for `NaiveDateTime`, which gives
/// the format `%Y-%m-%dT%H:%M:%S%.f`; the moment is handed over with
/// `DateTime::from_timestamp`.
///
/// Trusted: the text depends on the moment alone, and chrono's parser reads
/// it back as the same moment.
#[verifier::external_body]
pub(crate) fn format_timestamp(moment: Timestamp) -> (text: String)
    requires
        moment.wf(),
    ensures
        text@ == instant_text(moment@),
        parsed_instant(text@) == Some(moment@),
{
    format!("{:?}", DateTime::from_timestamp(moment.secs, moment.nanos).unwrap().naive_utc())
}

/// Subtracts one moment from another with chrono's
/// `NaiveDateTime::signed_duration_since`, and splits the result with
/// `TimeDelta::num_seconds` and `TimeDelta::subsec_nanos`. The moments are
/// handed over with `DateTime::from_timestamp`.
///
/// Trusted: the difference is the one `nanos_between` states, and the two
/// parts that come back have the same sign.
#[verifier::external_body]
fn span_between(now: Timestamp, then: Timestamp) -> (span: Elapsed)
    requires
        now.wf(),
        then.wf(),
    ensures
        span.wf(),
        span@ == nanos_between(now@, then@),
{
    let later = DateTime::from_timestamp(now.secs, now.nanos).unwrap().naive_utc();
    let earlier = DateTime::from_timestamp(then.secs, then.nanos).unwrap().naive_utc();
    let span = later.signed_duration_since(earlier);
    Elapsed { secs: span.num_seconds(), nanos: span.subsec_nanos() }
}

/// The current moment, which is what "now" means throughout this library.
///
/// Asks chrono's `Utc::now` and drops the time zone with
/// `DateTime::naive_utc`. Trusted: whatever the clock says, the moment is
/// one of the calendar.
#[verifier::external_body]
pub fn now() -> (moment: Timestamp)
    ensures
        moment.wf(),
{
    let moment = Utc::now().naive_utc();
    Timestamp {
        secs: moment.and_utc().timestamp(),
        nanos: moment.and_utc().timestamp_subsec_nanos(),
    }
}

} // verus!
