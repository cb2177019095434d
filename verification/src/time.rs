use crate::wall_clock::{ClockView, Lookup, WallClock};
use chrono::{DateTime, Datelike, NaiveDate, NaiveDateTime};
use vstd::prelude::*;

verus! {

/// The first and the last second, counted from 1970-01-01T00:00:00, of the
/// years that a timestamp can lie in (-262143 to 262142).
pub const FIRST_SECOND: i64 = -8_334_601_228_800;

pub const LAST_SECOND: i64 = 8_210_266_876_799;

/// How far a time inside a daylight-saving gap is moved to find an offset.
pub const GAP_SECONDS: i64 = 3600;

/// What a wall clock shows.
#[derive(Clone, Copy, Debug, PartialEq, Eq, Structural)]
pub struct LocalTime {
    pub year: i32,
    pub month: u32,
    pub day: u32,
    pub hour: u32,
    pub minute: u32,
    pub second: u32,
}

pub open spec fn is_leap(year: int) -> bool {
    year % 4 == 0 && (year % 100 != 0 || year % 400 == 0)
}

pub open spec fn days_in_month(year: int, month: int) -> int {
    if month == 2 {
        if is_leap(year) {
            29
        } else {
            28
        }
    } else if month == 4 || month == 6 || month == 9 || month == 11 {
        30
    } else {
        31
    }
}

/// Days of the year before the first of `month`.
pub open spec fn days_before_month(year: int, month: int) -> int
    decreases month,
{
    if month <= 1 {
        0
    } else {
        days_before_month(year, month - 1) + days_in_month(year, month - 1)
    }
}

/// Days from 1970-01-01 to the given date of the Gregorian calendar.
pub open spec fn day_number(year: int, month: int, day: int) -> int {
    let y = year - 1;
    365 * y + y / 4 - y / 100 + y / 400 + days_before_month(year, month) + day - 719_163
}

pub open spec fn is_date(year: int, month: int, day: int) -> bool {
    1 <= month <= 12 && 1 <= day <= days_in_month(year, month)
}

pub open spec fn is_time_of_day(hour: int, minute: int, second: int) -> bool {
    &&& 0 <= hour < 24
    &&& 0 <= minute < 60
    &&& 0 <= second < 60
}

/// Seconds from 1970-01-01T00:00:00 to the given date and time of day, with no
/// regard to any time zone.
pub open spec fn civil_seconds(
    year: int,
    month: int,
    day: int,
    hour: int,
    minute: int,
    second: int,
) -> int {
    day_number(year, month, day) * 86_400 + hour * 3600 + minute * 60 + second
}

pub proof fn lemma_days_before_month(year: int, month: int)
    requires
        1 <= month <= 12,
    ensures
        0 <= days_before_month(year, month) <= 31 * (month - 1),
    decreases month,
{
    if month > 1 {
        lemma_days_before_month(year, month - 1);
    }
}

/// A date of our times is in range of a timestamp.
pub proof fn lemma_civil_bounds(
    year: int,
    month: int,
    day: int,
    hour: int,
    minute: int,
    second: int,
)
    requires
        1 <= year <= 9999,
        is_date(year, month, day),
        is_time_of_day(hour, minute, second),
    ensures
        FIRST_SECOND <= civil_seconds(year, month, day, hour, minute, second) <= LAST_SECOND,
{
    lemma_days_before_month(year, month);
}

/// The same as a timestamp, where the date and the time of day exist.
pub open spec fn civil_timestamp(
    year: i32,
    month: u32,
    day: u32,
    hour: u32,
    minute: u32,
    second: u32,
) -> Option<i64> {
    if is_date(year as int, month as int, day as int) && is_time_of_day(
        hour as int,
        minute as int,
        second as int,
    ) {
        Some(
            civil_seconds(
                year as int,
                month as int,
                day as int,
                hour as int,
                minute as int,
                second as int,
            ) as i64,
        )
    } else {
        None
    }
}

/// The day of the week of a day number, Sunday being zero.
pub open spec fn weekday_of(days: int) -> int {
    (days + 4) % 7
}

impl LocalTime {
    /// Whether this is a date and a time of day that exist.
    pub open spec fn valid(self) -> bool {
        &&& is_date(self.year as int, self.month as int, self.day as int)
        &&& is_time_of_day(self.hour as int, self.minute as int, self.second as int)
    }

    /// Seconds from 1970-01-01T00:00:00 as the clock counts them.
    pub open spec fn seconds(self) -> int {
        civil_seconds(
            self.year as int,
            self.month as int,
            self.day as int,
            self.hour as int,
            self.minute as int,
            self.second as int,
        )
    }
}

/// `chrono::NaiveDate::from_ymd_opt` followed by `and_hms_opt`: a date and a
/// time of day, where they exist, as seconds from 1970-01-01T00:00:00. A leap
/// second is none of the times of day.
#[verifier::external_body]
pub(crate) fn civil_time(
    year: i32,
    month: u32,
    day: u32,
    hour: u32,
    minute: u32,
    second: u32,
) -> (t: Option<i64>)
    requires
        1 <= year <= 9999,
    ensures
        t == civil_timestamp(year, month, day, hour, minute, second),
{
    let date = NaiveDate::from_ymd_opt(year, month, day)?;
    Some(date.and_hms_opt(hour, minute, second)?.and_utc().timestamp())
}

/// `chrono::Datelike::weekday` of a date that exists, counted from Sunday.
#[verifier::external_body]
pub(crate) fn weekday_from_sunday(year: i32, month: u32, day: u32) -> (w: u8)
    requires
        1 <= year <= 9999,
        is_date(year as int, month as int, day as int),
    ensures
        w == weekday_of(day_number(year as int, month as int, day as int)),
{
    let date = NaiveDate::from_ymd_opt(year, month, day).unwrap();
    date.weekday().num_days_from_sunday() as u8
}

/// Whether `chrono::DateTime::from_timestamp` takes `t`: it does in the years
/// that a timestamp can lie in.
#[verifier::external_body]
pub(crate) fn is_timestamp(t: i64) -> (b: bool)
    ensures
        b == (FIRST_SECOND <= t && t <= LAST_SECOND),
{
    DateTime::from_timestamp(t, 0).is_some()
}

/// An instant: seconds from 1970-01-01T00:00:00Z, and nanoseconds past them.
/// A leap second counts on past the whole second before it.
#[derive(Clone, Copy, Debug, PartialEq, Eq, Structural)]
pub struct Moment {
    pub seconds: i64,
    pub nanos: u32,
}

impl Moment {
    /// Whether a timestamp can be this: only the last second of a minute can be
    /// followed by a leap second.
    pub open spec fn valid(self) -> bool {
        &&& FIRST_SECOND <= self.seconds <= LAST_SECOND
        &&& self.nanos < 2_000_000_000
        &&& self.nanos >= 1_000_000_000 ==> (self.seconds as int) % 60 == 59
    }

    /// Whether a timestamp can be this.
    pub fn is_valid(self) -> (b: bool)
        ensures
            b == self.valid(),
    {
        let ends_minute = matches!(self.seconds.checked_rem_euclid(60), Some(59));
        FIRST_SECOND <= self.seconds && self.seconds <= LAST_SECOND && self.nanos < 2_000_000_000
            && (self.nanos < 1_000_000_000 || ends_minute)
    }
}

/// What `chrono::DateTime::parse_from_rfc3339` makes of a text: the instant in
/// seconds from 1970-01-01T00:00:00Z and nanoseconds past them, or the message of
/// its error.
pub uninterp spec fn rfc3339(s: Seq<char>) -> Result<(int, int), Seq<char>>;

/// `chrono::DateTime::parse_from_rfc3339`. The result depends on the text alone;
/// it is an instant that a timestamp can be.
#[verifier::external_body]
pub(crate) fn rfc3339_moment(s: &str) -> (r: Result<Moment, String>)
    ensures
        r is Ok <==> rfc3339(s@) is Ok,
        r matches Ok(t) ==> t.valid() && rfc3339(s@)->Ok_0.0 == t.seconds && rfc3339(s@)->Ok_0.1
            == t.nanos,
        r matches Err(e) ==> rfc3339(s@)->Err_0 == e@,
{
    let t = DateTime::parse_from_rfc3339(s).map_err(|e| e.to_string())?;
    Ok(Moment { seconds: t.timestamp(), nanos: t.timestamp_subsec_nanos() })
}

/// What `chrono::NaiveDateTime::parse_from_str` makes of a text and a format:
/// the date and time as seconds from 1970-01-01T00:00:00.
pub uninterp spec fn naive_time(s: Seq<char>, format: Seq<char>) -> Option<int>;

/// `chrono::NaiveDateTime::parse_from_str`, in whole seconds. The result
/// depends on the text and the format alone; it lies in the years that a
/// timestamp can lie in.
#[verifier::external_body]
pub(crate) fn naive_seconds(s: &str, format: &str) -> (r: Option<i64>)
    ensures
        r is Some <==> naive_time(s@, format@) is Some,
        r matches Some(t) ==> naive_time(s@, format@)->0 == t && FIRST_SECOND <= t <= LAST_SECOND,
{
    NaiveDateTime::parse_from_str(s, format).ok().map(|t| t.and_utc().timestamp())
}

/// Decide what instant a wall-clock time names: the one at which the clock
/// shows it, or, inside a gap, an hour before the one at which the clock shows
/// an hour more.
pub fn resolve_local(exact: Option<i64>, hour_later: Option<i64>) -> (t: Option<i64>)
    requires
        hour_later matches Some(h) ==> h >= FIRST_SECOND,
    ensures
        t == (match (exact, hour_later) {
            (Some(e), _) => Some(e),
            (None, Some(h)) => Some((h - GAP_SECONDS) as i64),
            (None, None) => None,
        }),
{
    match exact {
        Some(e) => Some(e),
        None => match hour_later {
            Some(h) => Some(h - GAP_SECONDS),
            None => None,
        },
    }
}

/// Whether `asked` is what a clock is asked, and can answer, where the
/// wall-clock time `naive` is resolved: for that time, and, where the clock never
/// shows it, for an hour more.
pub open spec fn asks_for(asked: Seq<Lookup>, naive: i64) -> bool {
    &&& asked.len() > 0
    &&& asked[0].naive == naive
    &&& if asked[0].found is None && naive <= LAST_SECOND - GAP_SECONDS {
        asked.len() == 2 && asked[1].naive == naive + GAP_SECONDS
    } else {
        asked.len() == 1
    }
    &&& forall|i: int| 0 <= i < asked.len() ==> (#[trigger] asked[i]).plausible()
}

/// The instant that a wall-clock time names by what a clock answered: the one at
/// which it shows the time, or else an hour before the one at which it shows an
/// hour more.
pub open spec fn resolution(asked: Seq<Lookup>) -> Option<i64> {
    if asked[0].found is Some {
        asked[0].found
    } else if asked.len() > 1 && asked[1].found is Some {
        Some((asked[1].found->0 - GAP_SECONDS) as i64)
    } else {
        None
    }
}

/// What was asked between two states of a clock.
pub open spec fn asked_between(before: ClockView, after: ClockView) -> Seq<Lookup> {
    after.asked.skip(before.asked.len() as int)
}

/// Whether a clock was asked for the wall-clock time `naive`, and nothing else.
pub open spec fn looked_up(before: ClockView, after: ClockView, naive: i64) -> bool {
    &&& before.asked.len() <= after.asked.len()
    &&& after.asked.take(before.asked.len() as int) == before.asked
    &&& asks_for(asked_between(before, after), naive)
    &&& after.shown == before.shown
    &&& after.written == before.written
}

/// Whether a clock was asked what it shows at the instant `epoch`, and nothing
/// else.
pub open spec fn shown_at(before: ClockView, after: ClockView, epoch: i64) -> bool {
    &&& after.shown.len() == before.shown.len() + 1
    &&& after.shown.drop_last() == before.shown
    &&& after.shown.last().epoch == epoch
    &&& after.shown.last().plausible()
    &&& after.asked == before.asked
    &&& after.written == before.written
}

/// Whether a clock was asked to write the instant `at`, and nothing else.
pub open spec fn written_at(before: ClockView, after: ClockView, at: Moment) -> bool {
    &&& after.written.len() == before.written.len() + 1
    &&& after.written.drop_last() == before.written
    &&& after.written.last().at == at
    &&& after.written.last().plausible()
    &&& after.asked == before.asked
    &&& after.shown == before.shown
}

/// Write an instant in RFC 3339, as `clock` shows it.
pub fn local_rfc3339(clock: &mut WallClock, at: Moment) -> (s: String)
    requires
        at.valid(),
    ensures
        written_at(old(clock)@, final(clock)@, at),
        s@ == final(clock)@.written.last().text,
{
    let s = clock.write(at);
    assert(clock@.written.drop_last() =~= old(clock)@.written);
    s
}

/// Ask `clock` what it shows at the instant `epoch`.
pub fn local_fields(clock: &mut WallClock, epoch: i64) -> (t: LocalTime)
    requires
        FIRST_SECOND <= epoch <= LAST_SECOND,
    ensures
        shown_at(old(clock)@, final(clock)@, epoch),
        t == final(clock)@.shown.last().shown,
        t.valid(),
{
    let t = clock.fields(epoch);
    assert(clock@.shown.drop_last() =~= old(clock)@.shown);
    t
}

/// Resolve a wall-clock time by asking `clock`.
pub fn resolve_on(clock: &mut WallClock, naive: i64) -> (t: Option<i64>)
    requires
        FIRST_SECOND <= naive <= LAST_SECOND,
    ensures
        looked_up(old(clock)@, final(clock)@, naive),
        t == resolution(asked_between(old(clock)@, final(clock)@)),
        t matches Some(e) ==> -86_400 < e - naive < 86_400,
{
    let ghost before = clock@.asked;
    let exact = clock.earliest(naive);
    let hour_later = if exact.is_none() && naive <= LAST_SECOND - GAP_SECONDS {
        clock.earliest(naive + GAP_SECONDS)
    } else {
        None
    };
    assert(clock@.asked.take(before.len() as int) =~= before);
    resolve_local(exact, hour_later)
}

/// Resolve a wall-clock time, in seconds from 1970-01-01T00:00:00, to an
/// instant, tolerating daylight-saving transitions: ambiguous times take the
/// first of their two offsets, and times inside a gap are resolved via the
/// offset in effect one hour later. Which instant it is, and whether there is
/// one, follows from what the system's clock answers, and so from its time zone;
/// it is always within a day of the same reading of a UTC clock. `resolve_on`
/// says how it follows from the answers.
pub fn local_datetime(naive: i64) -> (t: Option<i64>)
    requires
        FIRST_SECOND <= naive <= LAST_SECOND,
    ensures
        exists|asked: Seq<Lookup>| #[trigger] asks_for(asked, naive) && t == resolution(asked),
        t matches Some(e) ==> -86_400 < e - naive < 86_400,
{
    let mut clock = WallClock::new();
    let ghost before = clock@;
    let t = resolve_on(&mut clock, naive);
    assert(asks_for(asked_between(before, clock@), naive));
    t
}

/// The ways in which a time may be written besides RFC 3339, in the order in
/// which they are tried.
pub open spec fn time_formats() -> Seq<Seq<char>> {
    seq![
        "%Y-%m-%d %H:%M:%S"@,
        "%Y-%m-%dT%H:%M:%S"@,
        "%Y/%m/%d %H:%M:%S"@,
        "%Y-%m-%d %H:%M"@,
        "%Y/%m/%d %H:%M"@,
    ]
}

/// The wall-clock time that `s` spells in the first of `formats` that fits.
pub open spec fn first_fit(s: Seq<char>, formats: Seq<Seq<char>>) -> Option<int>
    decreases formats.len(),
{
    if formats.len() == 0 {
        None
    } else {
        match naive_time(s, formats[0]) {
            Some(t) => Some(t),
            None => first_fit(s, formats.drop_first()),
        }
    }
}

/// Find the first format that fits.
pub fn naive_in_any_format(s: &str) -> (t: Option<i64>)
    ensures
        t is Some <==> first_fit(s@, time_formats()) is Some,
        t matches Some(n) ==> first_fit(s@, time_formats())->0 == n && FIRST_SECOND <= n
            <= LAST_SECOND,
{
    let formats = vec![
        "%Y-%m-%d %H:%M:%S",
        "%Y-%m-%dT%H:%M:%S",
        "%Y/%m/%d %H:%M:%S",
        "%Y-%m-%d %H:%M",
        "%Y/%m/%d %H:%M",
    ];
    let ghost all = time_formats();
    let mut i: usize = 0;
    proof {
        assert(all.skip(0) =~= all);
    }
    while i < formats.len()
        invariant
            i <= formats@.len(),
            formats@.len() == all.len(),
            forall|k: int| 0 <= k < all.len() ==> all[k] == formats@[k]@,
            first_fit(s@, all) == first_fit(s@, all.skip(i as int)),
            all == time_formats(),
        decreases formats@.len() - i,
    {
        proof {
            assert(all.skip(i as int).drop_first() =~= all.skip(i + 1));
        }
        if let Some(t) = naive_seconds(s, formats[i]) {
            return Some(t);
        }
        i = i + 1;
    }
    None
}

/// Why a time could not be used.
#[derive(Clone, Copy, Debug, PartialEq, Eq, Structural)]
pub enum TimeError {
    /// No format fits the text.
    Unrecognized,
    /// The system's clock never shows the time.
    Nonexistent,
}

impl TimeError {
    pub open spec fn text(self, s: Seq<char>) -> Seq<char> {
        "unrecognized time format: "@ + s
    }

    /// What is wrong with the time that was given as `s`, in words.
    pub fn message(self, s: &str) -> (t: String)
        ensures
            t@ == self.text(s@),
    {
        let mut t = "unrecognized time format: ".to_owned();
        t.append(s);
        t
    }
}

/// Whether `r` is what a time in the words `s` names, by what a clock was asked
/// and answered: nothing where it is written in RFC 3339, or in no format that is
/// known.
pub open spec fn time_read(
    before: ClockView,
    after: ClockView,
    s: Seq<char>,
    r: Result<Moment, TimeError>,
) -> bool {
    match rfc3339(s) {
        Ok(t) => r == Ok::<Moment, TimeError>(
            Moment { seconds: t.0 as i64, nanos: t.1 as u32 },
        ) && after == before,
        Err(_) => match first_fit(s, time_formats()) {
            None => r == Err::<Moment, TimeError>(TimeError::Unrecognized) && after == before,
            Some(naive) => {
                &&& looked_up(before, after, naive as i64)
                &&& r == (match resolution(asked_between(before, after)) {
                    Some(t) => Ok::<Moment, TimeError>(Moment { seconds: t, nanos: 0 }),
                    None => Err(TimeError::Nonexistent),
                })
                &&& r matches Ok(t) ==> -86_400 < t.seconds - naive < 86_400
            },
        },
    }
}

/// Read a time as `--set-rtc` takes it: RFC 3339, or one of the formats above on
/// `clock`.
pub fn parse_time_on(clock: &mut WallClock, s: &str) -> (r: Result<Moment, TimeError>)
    ensures
        time_read(old(clock)@, final(clock)@, s@, r),
{
    if let Ok(t) = rfc3339_moment(s) {
        return Ok(t);
    }
    match naive_in_any_format(s) {
        Some(naive) => match resolve_on(clock, naive) {
            Some(seconds) => Ok(Moment { seconds, nanos: 0 }),
            None => Err(TimeError::Nonexistent),
        },
        None => Err(TimeError::Unrecognized),
    }
}

/// Read a time as `--set-rtc` takes it: RFC 3339, or one of the formats above
/// on the system's clock. Where the clock decides, `parse_time_on` says how.
pub fn parse_time(s: &str) -> (r: Result<Moment, TimeError>)
    ensures
        exists|after: ClockView| #[trigger] time_read(ClockView::unasked(), after, s@, r),
{
    let mut clock = WallClock::new();
    let r = parse_time_on(&mut clock, s);
    assert(time_read(ClockView::unasked(), clock@, s@, r));
    r
}

/// The calendar goes from one day to the next: the day after is one more, over
/// the end of a month and the end of a year too, and 1970-01-01 is where counting
/// starts. Months have 31 and 30 days by turns, starting over with August, but for
/// February.
#[verifier::rlimit(40)]
pub proof fn days_follow_each_other(year: int, month: int, day: int)
    requires
        is_date(year, month, day),
    ensures
        day_number(1970, 1, 1) == 0,
        day < days_in_month(year, month) ==> is_date(year, month, day + 1) && day_number(
            year,
            month,
            day + 1,
        ) == day_number(year, month, day) + 1,
        day == days_in_month(year, month) && month < 12 ==> day_number(year, month + 1, 1)
            == day_number(year, month, day) + 1,
        day == days_in_month(year, month) && month == 12 ==> day_number(year + 1, 1, 1)
            == day_number(year, month, day) + 1,
        month != 2 ==> days_in_month(year, month) == 30 + (month + month / 8) % 2,
        month == 2 ==> days_in_month(year, month) == day_number(year, 3, 1) - day_number(
            year,
            2,
            1,
        ),
        day_number(year + 400, month, day) == day_number(year, month, day) + 146_097,
{
    assert(day_number(1970, 1, 1) == 0);
    lemma_months(year);
    lemma_leap_days(year);
    assert(days_before_month(year + 1, 1) == 0);
    lemma_four_centuries(year, month, day);
    assert(month != 2 ==> days_in_month(year, month) == 30 + (month + month / 8) % 2);
}

/// The days of a year before its March and its December.
proof fn lemma_months(year: int)
    ensures
        days_before_month(year, 1) == 0,
        days_before_month(year, 3) == days_before_month(year, 2) + days_in_month(year, 2),
        days_before_month(year, 12) == 334 + if is_leap(year) {
            1int
        } else {
            0
        },
{
    reveal_with_fuel(days_before_month, 13);
}

/// How the leap days before a year go on with the year.
proof fn lemma_leap_days(year: int)
    ensures
        year / 4 - year / 100 + year / 400 == (year - 1) / 4 - (year - 1) / 100 + (year - 1) / 400
            + if is_leap(year) {
            1int
        } else {
            0
        },
{
    let y = year - 1;
    let one = |d: int| if year % d == 0 {
        1int
    } else {
        0
    };
    assert(year / 4 == y / 4 + one(4));
    assert(year / 100 == y / 100 + one(100));
    assert(year / 400 == y / 400 + one(400));
    assert(year % 400 == 0 ==> year % 100 == 0);
    assert(year % 100 == 0 ==> year % 4 == 0);
}

/// The calendar repeats itself after four centuries.
proof fn lemma_four_centuries(year: int, month: int, day: int)
    ensures
        day_number(year + 400, month, day) == day_number(year, month, day) + 146_097,
{
    let y = year - 1;
    assert((year + 400) % 4 == year % 4);
    assert((year + 400) % 100 == year % 100);
    assert((year + 400) % 400 == year % 400);
    lemma_same_year(year, year + 400, month);
    assert((y + 400) / 4 == y / 4 + 100);
    assert((y + 400) / 100 == y / 100 + 4);
    assert((y + 400) / 400 == y / 400 + 1);
}

proof fn lemma_same_year(a: int, b: int, month: int)
    requires
        is_leap(a) == is_leap(b),
    ensures
        days_before_month(a, month) == days_before_month(b, month),
    decreases month,
{
    if month > 1 {
        lemma_same_year(a, b, month - 1);
    }
}

/// The days of the week follow each other with the dates, seven to a week, and
/// 1970-01-01 was a Thursday, the fourth from Sunday.
pub proof fn weekdays_follow_each_other(days: int)
    ensures
        weekday_of(0) == 4,
        0 <= weekday_of(days) < 7,
        weekday_of(days) == 6 ==> weekday_of(days + 1) == 0,
        weekday_of(days) < 6 ==> weekday_of(days + 1) == weekday_of(days) + 1,
{
}

/// Time of day goes from one second to the next, through the minutes and the
/// hours, to the midnight at which the next day starts.
pub proof fn seconds_follow_each_other(
    year: int,
    month: int,
    day: int,
    hour: int,
    minute: int,
    second: int,
)
    requires
        is_date(year, month, day),
        is_time_of_day(hour, minute, second),
    ensures
        civil_seconds(1970, 1, 1, 0, 0, 0) == 0,
        civil_seconds(year, month, day, hour, minute, 59) + 1 == (if minute < 59 {
            civil_seconds(year, month, day, hour, minute + 1, 0)
        } else if hour < 23 {
            civil_seconds(year, month, day, hour + 1, 0, 0)
        } else {
            (day_number(year, month, day) + 1) * 86_400
        }),
        civil_seconds(year, month, day, hour, minute, second) - civil_seconds(
            year,
            month,
            day,
            hour,
            minute,
            0,
        ) == second,
        civil_seconds(year, month, day, 0, 0, 0) == day_number(year, month, day) * 86_400,
{
    reveal_with_fuel(days_before_month, 2);
}

/// A timestamp lies between the first second of one year and the last of another;
/// only at the end of a minute can it be within a leap second.
#[verifier::rlimit(40)]
pub proof fn timestamps_lie_in_their_years(m: Moment)
    ensures
        FIRST_SECOND == civil_seconds(-262_143, 1, 1, 0, 0, 0),
        LAST_SECOND == civil_seconds(262_142, 12, 31, 23, 59, 59),
        m.valid() ==> FIRST_SECOND <= m.seconds <= LAST_SECOND,
        FIRST_SECOND <= m.seconds <= LAST_SECOND && m.nanos < 1_000_000_000 ==> m.valid(),
        FIRST_SECOND <= m.seconds <= LAST_SECOND && 1_000_000_000 <= m.nanos < 2_000_000_000 ==> (
        m.valid() <==> exists|minute: int| #[trigger] (minute * 60) + 59 == m.seconds),
        m.nanos >= 2_000_000_000 ==> !m.valid(),
{
    reveal_with_fuel(days_before_month, 13);
    let s = m.seconds as int;
    assert(s == s / 60 * 60 + s % 60);
    if s % 60 == 59 {
        let q = s / 60;
        assert((q * 60) + 59 == s);
    }
    if exists|minute: int| #[trigger] (minute * 60) + 59 == s {
        let q = choose|minute: int| #[trigger] (minute * 60) + 59 == s;
        assert(s % 60 == 59);
    }
}

/// The instant that a wall-clock time is taken for is at an offset from UTC that
/// the clock answered with: for the time itself where the clock ever shows it, and
/// for an hour later where it does not. There is none only where the clock shows
/// neither.
pub proof fn an_instant_is_at_an_offset_that_was_answered(asked: Seq<Lookup>, naive: i64)
    requires
        asks_for(asked, naive),
        FIRST_SECOND <= naive <= LAST_SECOND,
    ensures
        resolution(asked) matches Some(e) ==> exists|i: int|
            {
                &&& 0 <= i < asked.len()
                &&& (#[trigger] asked[i]).found matches Some(f) && naive - e == asked[i].naive - f
                &&& forall|j: int| 0 <= j < i ==> (#[trigger] asked[j]).found is None
                &&& asked[i].naive == naive + 3600 * i
            },
        resolution(asked) is None <==> forall|i: int|
            0 <= i < asked.len() ==> (#[trigger] asked[i]).found is None,
        asked.len() <= 2,
{
    assert(asked[0].plausible());
    if asked[0].found is Some {
        assert(asked[0].found is Some);
    } else if asked.len() > 1 {
        assert(asked[1].plausible());
        if asked[1].found is Some {
            assert(asked[0].found is None);
        }
    }
}

/// A time can be written with or without seconds, with dashes or slashes, and
/// with a `T` between date and time; whichever of these fits first is what it
/// means, and what fits none of them is no time.
pub proof fn the_first_format_that_fits_counts(s: Seq<char>, i: int)
    requires
        0 <= i < time_formats().len(),
        forall|j: int| 0 <= j < i ==> naive_time(s, #[trigger] time_formats()[j]) is None,
    ensures
        naive_time(s, time_formats()[i]) is Some ==> first_fit(s, time_formats()) == naive_time(
            s,
            time_formats()[i],
        ),
        i == time_formats().len() - 1 && naive_time(s, time_formats()[i]) is None ==> first_fit(
            s,
            time_formats(),
        ) is None,
        time_formats().contains("%Y-%m-%d %H:%M:%S"@),
        time_formats().contains("%Y-%m-%dT%H:%M:%S"@),
        time_formats().contains("%Y/%m/%d %H:%M:%S"@),
        time_formats().contains("%Y-%m-%d %H:%M"@),
        time_formats().contains("%Y/%m/%d %H:%M"@),
        time_formats().len() == 5,
{
    let all = time_formats();
    assert(all[0] == "%Y-%m-%d %H:%M:%S"@);
    assert(all[1] == "%Y-%m-%dT%H:%M:%S"@);
    assert(all[2] == "%Y/%m/%d %H:%M:%S"@);
    assert(all[3] == "%Y-%m-%d %H:%M"@);
    assert(all[4] == "%Y/%m/%d %H:%M"@);
    lemma_first_fit(s, all, i);
}

proof fn lemma_first_fit(s: Seq<char>, formats: Seq<Seq<char>>, i: int)
    requires
        0 <= i < formats.len(),
        forall|j: int| 0 <= j < i ==> naive_time(s, #[trigger] formats[j]) is None,
    ensures
        naive_time(s, formats[i]) is Some ==> first_fit(s, formats) == naive_time(s, formats[i]),
        i == formats.len() - 1 && naive_time(s, formats[i]) is None ==> first_fit(s, formats)
            is None,
    decreases i,
{
    if i > 0 {
        let rest = formats.drop_first();
        assert(naive_time(s, formats[0]) is None);
        assert forall|j: int| 0 <= j < i - 1 implies naive_time(s, #[trigger] rest[j]) is None by {
            assert(rest[j] == formats[j + 1]);
        }
        lemma_first_fit(s, rest, i - 1);
    } else if formats.len() == 1 {
        assert(first_fit(s, formats.drop_first()) is None);
    }
}

/// A text in RFC 3339 means the instant that it says, whatever the clock; only
/// where it is not is a clock asked, and only for a time that it may show.
pub proof fn a_time_with_an_offset_needs_no_clock(
    before: ClockView,
    after: ClockView,
    s: Seq<char>,
    r: Result<Moment, TimeError>,
)
    requires
        time_read(before, after, s, r),
    ensures
        rfc3339(s) matches Ok(t) ==> after == before && r is Ok && (
        FIRST_SECOND <= t.0 <= LAST_SECOND && 0 <= t.1 < 2_000_000_000 ==> r->Ok_0.seconds == t.0
            && r->Ok_0.nanos == t.1),
        after.asked.len() > before.asked.len() ==> rfc3339(s) is Err && first_fit(s, time_formats())
            is Some,
        r is Err && rfc3339(s) is Err && first_fit(s, time_formats()) is None ==> r->Err_0
            is Unrecognized,
        r == Err::<Moment, TimeError>(TimeError::Nonexistent) ==> after.asked.len()
            > before.asked.len() && forall|i: int|
            before.asked.len() <= i < after.asked.len() ==> (#[trigger] after.asked[i]).found
                is None,
        rfc3339(s) is Err && r is Ok ==> r->Ok_0.nanos == 0,
{
    if r == Err::<Moment, TimeError>(TimeError::Nonexistent) {
        let asked = asked_between(before, after);
        let n = before.asked.len() as int;
        assert forall|i: int| n <= i < after.asked.len() implies (#[trigger] after.asked[i]).found
            is None by {
            assert(asked[i - n] == after.asked[i]);
        }
    }
}

} // verus!
