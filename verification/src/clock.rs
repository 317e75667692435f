//! Points in time.
//!
//! A point in time is a whole second since the start of 1970 in UTC, with the
//! nanoseconds that have passed of it. Nanoseconds from one thousand million on
//! stand for the leap second that follows the last second of a minute. Reading
//! the clock, and turning a point in time into text or back, is done by
//! `chrono`.

use vstd::prelude::*;

verus! {

/// The first second that a `chrono` date and time can hold.
pub const MIN_SECS: i64 = -8_334_601_228_800;

/// The last second that a `chrono` date and time can hold.
pub const MAX_SECS: i64 = 8_210_266_876_799;

/// The first millisecond that a `chrono` date and time can hold.
pub const MIN_MILLIS: i64 = -8_334_601_228_800_000;

/// The last millisecond that a `chrono` date and time can hold.
pub const MAX_MILLIS: i64 = 8_210_266_876_799_999;

/// Nanoseconds of a second.
pub const SECOND_NANOS: u32 = 1_000_000_000;

/// Nanoseconds of a millisecond.
pub const MILLI_NANOS: u32 = 1_000_000;

/// Seconds of a day.
pub const DAY_SECS: i64 = 86_400;

/// A point in time as mathematical values.
pub struct MomentModel {
    pub secs: int,
    pub nanos: int,
}

impl MomentModel {
    /// Whether a `chrono` date and time can hold this point in time.
    pub open spec fn is_valid(self) -> bool {
        &&& MIN_SECS <= self.secs <= MAX_SECS
        &&& 0 <= self.nanos < 2 * SECOND_NANOS
        &&& self.nanos >= SECOND_NANOS ==> self.secs % 60 == 59
    }

    /// Whether this point in time comes before the other.
    pub open spec fn before(self, other: MomentModel) -> bool {
        self.secs < other.secs || (self.secs == other.secs && self.nanos < other.nanos)
    }

    /// The milliseconds since the start of 1970.
    pub open spec fn millis(self) -> int {
        self.secs * 1000 + self.nanos / MILLI_NANOS as int
    }

    /// The point in time so many milliseconds after the start of 1970.
    pub open spec fn of_millis(millis: int) -> MomentModel {
        MomentModel { secs: millis / 1000, nanos: (millis % 1000) * MILLI_NANOS }
    }

    /// This point in time without what is finer than a millisecond.
    pub open spec fn to_millis(self) -> MomentModel {
        MomentModel::of_millis(self.millis())
    }

    /// The same time of the day, so many days earlier.
    pub open spec fn days_before(self, days: int) -> MomentModel {
        MomentModel { secs: self.secs - days * DAY_SECS, nanos: self.nanos }
    }

    /// The date and time in RFC 3339.
    pub open spec fn stamp(self) -> Seq<char> {
        rfc3339_of(self.secs, self.nanos)
    }

    /// The date, as in `2026-01-31`.
    pub open spec fn date(self) -> Seq<char> {
        date_of(self.secs)
    }
}

/// Whether a `chrono` date and time can hold the point in time so many
/// milliseconds after the start of 1970.
pub open spec fn representable(millis: int) -> bool {
    MIN_MILLIS <= millis <= MAX_MILLIS
}

/// Whether a `chrono` date and time can hold the point in time so many
/// milliseconds after the start of 1970.
pub fn is_representable(millis: i64) -> (r: bool)
    ensures
        r == representable(millis as int),
{
    MIN_MILLIS <= millis && millis <= MAX_MILLIS
}

/// A point in time in milliseconds is the one that was put in, but for what is
/// finer than a millisecond. A leap second is the second that follows it.
pub proof fn milliseconds_are_kept(at: MomentModel)
    requires
        at.is_valid(),
    ensures
        at.nanos < SECOND_NANOS ==> at.to_millis() == (MomentModel {
            secs: at.secs,
            nanos: at.nanos - at.nanos % MILLI_NANOS as int,
        }),
        at.nanos >= SECOND_NANOS ==> at.to_millis().secs == at.secs + 1,
        at.to_millis().millis() == at.millis(),
{
}

/// A character of a date and time in RFC 3339: a digit, a sign, `:`, `.` or
/// `T`.
pub open spec fn is_stamp_char(c: char) -> bool {
    ('0' <= c && c <= '9') || c == '+' || c == '-' || c == ':' || c == '.' || c == 'T'
}

/// What `DateTime::to_rfc3339` of `chrono` writes for a point in time in UTC.
pub uninterp spec fn rfc3339_of(secs: int, nanos: int) -> Seq<char>;

/// The second in UTC, and the nanoseconds of it, of the date and time that
/// `DateTime::parse_from_rfc3339` of `chrono` reads from a text; `None` where it
/// reads none.
pub uninterp spec fn rfc3339_read(text: Seq<char>) -> Option<(i64, u32)>;

/// The point in time that a text in RFC 3339 stands for.
pub open spec fn moment_read(text: Seq<char>) -> Option<MomentModel> {
    match rfc3339_read(text) {
        Some((secs, nanos)) => {
            let at = MomentModel { secs: secs as int, nanos: nanos as int };
            if at.is_valid() {
                Some(at)
            } else {
                None
            }
        },
        None => None,
    }
}

/// What `DateTime::format` of `chrono` writes for a second in UTC with the
/// pattern `%Y-%m-%d`.
pub uninterp spec fn date_of(secs: int) -> Seq<char>;

/// The number of the day that `NaiveDate::parse_from_str` of `chrono` reads from
/// a text with the pattern `%Y-%m-%d`, where the first day of the year 1 has
/// the number 1; `None` where it reads no date.
pub uninterp spec fn day_number_of(text: Seq<char>) -> Option<i32>;

/// The number of the first day of 1970.
pub const EPOCH_DAY: i64 = 719_163;

/// The second at which the day that a text stands for starts, in UTC.
pub open spec fn day_start_of(text: Seq<char>) -> Option<int> {
    match day_number_of(text) {
        Some(n) => Some((n - EPOCH_DAY) * DAY_SECS),
        None => None,
    }
}

/// `Utc::now` of `chrono`, as its second and the nanoseconds of it. It depends
/// on the machine's clock; all that is claimed is that the second is one that
/// `chrono` can hold and that the nanoseconds are fewer than those of a second,
/// as the function takes them from the time since the start of 1970.
#[verifier::external_body]
fn utc_now() -> (r: (i64, u32))
    ensures
        MIN_SECS <= r.0 <= MAX_SECS,
        r.1 < SECOND_NANOS,
{
    let at = chrono::Utc::now();
    (at.timestamp(), at.timestamp_subsec_nanos())
}

/// `DateTime::to_rfc3339` of `chrono`. The text depends on the point in time
/// alone and is called `rfc3339_of`; it consists of digits, signs, `:`, `.`
/// and `T`.
#[verifier::external_body]
fn utc_rfc3339(secs: i64, nanos: u32) -> (r: String)
    requires
        (MomentModel { secs: secs as int, nanos: nanos as int }).is_valid(),
    ensures
        r@ == rfc3339_of(secs as int, nanos as int),
        forall|i: int| 0 <= i < r@.len() ==> is_stamp_char(#[trigger] r@[i]),
{
    chrono::DateTime::from_timestamp(secs, nanos).unwrap().to_rfc3339()
}

/// `DateTime::parse_from_rfc3339` of `chrono`, the date and time given by its
/// second in UTC and the nanoseconds of it. It depends on the text alone and is
/// called `rfc3339_read`.
#[verifier::external_body]
fn utc_read(text: &str) -> (r: Option<(i64, u32)>)
    ensures
        r == rfc3339_read(text@),
{
    match chrono::DateTime::parse_from_rfc3339(text) {
        Ok(at) => Some((at.timestamp(), at.timestamp_subsec_nanos())),
        Err(_) => None,
    }
}

/// `DateTime::format` of `chrono` with the pattern `%Y-%m-%d`. The text
/// depends on the second alone and is called `date_of`.
#[verifier::external_body]
fn utc_date(secs: i64) -> (r: String)
    requires
        MIN_SECS <= secs <= MAX_SECS,
    ensures
        r@ == date_of(secs as int),
{
    chrono::DateTime::from_timestamp(secs, 0).unwrap().format("%Y-%m-%d").to_string()
}

/// `NaiveDate::parse_from_str` of `chrono` with the pattern `%Y-%m-%d`, the date
/// given by `Datelike::num_days_from_ce`. It depends on the text alone and is
/// called `day_number_of`.
#[verifier::external_body]
fn day_number(text: &str) -> (r: Option<i32>)
    ensures
        r == day_number_of(text@),
{
    match chrono::NaiveDate::parse_from_str(text, "%Y-%m-%d") {
        Ok(day) => Some(chrono::Datelike::num_days_from_ce(&day)),
        Err(_) => None,
    }
}

/// The second at which the day that a text stands for starts, in UTC.
pub fn day_start(text: &str) -> (r: Option<i64>)
    ensures
        match r {
            Some(start) => day_start_of(text@) == Some(start as int),
            None => day_start_of(text@) is None,
        },
{
    match day_number(text) {
        Some(n) => Some((n as i64 - EPOCH_DAY) * DAY_SECS),
        None => None,
    }
}

/// A point in time that a `chrono` date and time can hold.
#[derive(Clone, Copy, Debug, PartialEq, Eq, Structural)]
pub struct Moment {
    secs: i64,
    nanos: u32,
}

impl View for Moment {
    type V = MomentModel;

    closed spec fn view(&self) -> MomentModel {
        MomentModel { secs: self.secs as int, nanos: self.nanos as int }
    }
}

/// A point in time that may be missing, as mathematical values.
pub open spec fn moment_of(v: Option<Moment>) -> Option<MomentModel> {
    match v {
        Some(at) => Some(at@),
        None => None,
    }
}

impl Moment {
    /// Every point in time is valid.
    #[verifier::type_invariant]
    pub open spec fn wf(self) -> bool {
        self@.is_valid()
    }

    /// The point in time in a second, where a date and time can hold it.
    pub fn new(secs: i64, nanos: u32) -> (r: Option<Self>)
        ensures
            match r {
                Some(at) => at@ == (MomentModel { secs: secs as int, nanos: nanos as int })
                    && at@.is_valid(),
                None => !(MomentModel { secs: secs as int, nanos: nanos as int }).is_valid(),
            },
    {
        if secs < MIN_SECS || secs > MAX_SECS || nanos >= 2 * SECOND_NANOS {
            None
        } else if nanos >= SECOND_NANOS && (secs - MIN_SECS) % 60 != 59 {
            None
        } else {
            Some(Moment { secs, nanos })
        }
    }

    /// The current point in time.
    pub fn now() -> (r: Self)
        ensures
            r@.is_valid(),
            r@.nanos < SECOND_NANOS,
    {
        let (secs, nanos) = utc_now();
        Moment { secs, nanos }
    }

    /// The second.
    pub fn secs(&self) -> (r: i64)
        ensures
            r == self@.secs,
            self@.is_valid(),
    {
        proof {
            use_type_invariant(self);
        }
        self.secs
    }

    /// The nanoseconds of the second.
    pub fn nanos(&self) -> (r: u32)
        ensures
            r == self@.nanos,
            self@.is_valid(),
    {
        proof {
            use_type_invariant(self);
        }
        self.nanos
    }

    /// Whether this point in time comes before the other.
    pub fn before(&self, other: &Moment) -> (r: bool)
        ensures
            r == self@.before(other@),
    {
        self.secs < other.secs || (self.secs == other.secs && self.nanos < other.nanos)
    }

    /// The milliseconds since the start of 1970.
    pub fn millis(&self) -> (r: i64)
        ensures
            r == self@.millis(),
    {
        proof {
            use_type_invariant(self);
        }
        self.secs * 1000 + (self.nanos / MILLI_NANOS) as i64
    }

    /// The point in time so many milliseconds after the start of 1970, where a
    /// date and time can hold it.
    pub fn of_millis(millis: i64) -> (r: Option<Self>)
        ensures
            match r {
                Some(at) => representable(millis as int) && at@ == MomentModel::of_millis(
                    millis as int,
                ) && at@.is_valid(),
                None => !representable(millis as int),
            },
    {
        if is_representable(millis) {
            let from_start: i64 = millis - MIN_MILLIS;
            let secs: i64 = from_start / 1000 + MIN_SECS;
            let nanos: u32 = (from_start % 1000) as u32 * MILLI_NANOS;
            Some(Moment { secs, nanos })
        } else {
            None
        }
    }

    /// The date and time in RFC 3339.
    pub fn to_rfc3339(&self) -> (r: String)
        ensures
            r@ == self@.stamp(),
            forall|i: int| 0 <= i < r@.len() ==> is_stamp_char(#[trigger] r@[i]),
    {
        proof {
            use_type_invariant(self);
        }
        utc_rfc3339(self.secs, self.nanos)
    }

    /// The point in time that a text in RFC 3339 stands for.
    pub fn from_rfc3339(text: &str) -> (r: Option<Self>)
        ensures
            moment_of(r) == moment_read(text@),
    {
        match utc_read(text) {
            Some((secs, nanos)) => Moment::new(secs, nanos),
            None => None,
        }
    }

    /// The date, as in `2026-01-31`.
    pub fn to_date(&self) -> (r: String)
        ensures
            r@ == self@.date(),
    {
        proof {
            use_type_invariant(self);
        }
        utc_date(self.secs)
    }
}

} // verus!
