use crate::time::{self, LocalTime, Moment, FIRST_SECOND, LAST_SECOND};
use chrono::{DateTime, Datelike, Local, TimeZone, Timelike};
use vstd::prelude::*;

verus! {

/// A wall-clock time that the system's clock was asked about, and the instant
/// that it takes it for, or `None` where it never shows it.
pub struct Lookup {
    pub naive: i64,
    pub found: Option<i64>,
}

impl Lookup {
    /// Whether a clock can answer so: an offset from UTC is always less than a
    /// day, and an instant is one that a timestamp can be.
    pub open spec fn plausible(self) -> bool {
        self.found matches Some(e) ==> FIRST_SECOND <= e <= LAST_SECOND && -86_400 < e - self.naive
            < 86_400
    }
}

/// An instant that the system's clock was asked about, and what it shows then.
pub struct Showing {
    pub epoch: i64,
    pub shown: LocalTime,
}

impl Showing {
    /// Whether a clock can answer so: what it shows exists, and is within a day
    /// of what a UTC clock shows.
    pub open spec fn plausible(self) -> bool {
        &&& self.shown.valid()
        &&& -86_400 < self.shown.seconds() - self.epoch < 86_400
    }
}

/// An instant that was written as the system's clock shows it, and how.
pub struct Writing {
    pub at: Moment,
    pub text: Seq<char>,
}

impl Writing {
    /// Whether it can be written so: where the text reads back at all, it reads
    /// as the same instant, but for the seconds of an offset that is not a whole
    /// number of minutes, which are rounded off. A leap second that such an offset
    /// moves off the end of its minute reads as the second after it.
    pub open spec fn plausible(self) -> bool {
        time::rfc3339(self.text) matches Ok(t) ==> {
            &&& -30 <= t.0 - self.at.seconds <= 30 + self.at.nanos / 1_000_000_000
            &&& t.1 % 1_000_000_000 == self.at.nanos % 1_000_000_000
        }
    }
}

/// What a clock was asked and answered, in order of each kind of question.
#[verifier::ext_equal]
pub struct ClockView {
    pub asked: Seq<Lookup>,
    pub shown: Seq<Showing>,
    pub written: Seq<Writing>,
}

impl ClockView {
    /// Nothing was asked yet.
    pub open spec fn unasked() -> ClockView {
        ClockView { asked: Seq::empty(), shown: Seq::empty(), written: Seq::empty() }
    }
}

/// The system's clock. It stands for the record of everything that it was asked
/// and answered, in order: only a question adds to it.
pub struct WallClock {
    asked: Ghost<Seq<Lookup>>,
    shown: Ghost<Seq<Showing>>,
    written: Ghost<Seq<Writing>>,
}

impl View for WallClock {
    type V = ClockView;

    closed spec fn view(&self) -> ClockView {
        ClockView { asked: self.asked@, shown: self.shown@, written: self.written@ }
    }
}

impl WallClock {
    pub fn new() -> (c: WallClock)
        ensures
            c@ == ClockView::unasked(),
    {
        WallClock {
            asked: Ghost(Seq::empty()),
            shown: Ghost(Seq::empty()),
            written: Ghost(Seq::empty()),
        }
    }

    /// The instant at which the system's clock shows `naive`, by
    /// `chrono::Local::from_local_datetime` and `earliest`, which takes the
    /// first of two that chrono gives; `None` where it never does. Which instant
    /// that is, and whether there is one, follows from the system's time zone,
    /// so no more is promised of it than that an offset from UTC is less than a
    /// day; what was asked and answered is on record.
    #[verifier::external_body]
    pub(crate) fn earliest(&mut self, naive: i64) -> (t: Option<i64>)
        requires
            FIRST_SECOND <= naive <= LAST_SECOND,
        ensures
            (Lookup { naive, found: t }).plausible(),
            final(self)@ == (ClockView {
                asked: old(self)@.asked.push(Lookup { naive, found: t }),
                ..old(self)@
            }),
    {
        let naive = DateTime::from_timestamp(naive, 0)?.naive_utc();
        Local.from_local_datetime(&naive).earliest().map(|t| t.timestamp())
    }

    /// What the system's clock shows at the instant `epoch`, by
    /// `chrono::Local::timestamp_opt`. The offset follows from the system's time
    /// zone, so no more is promised of it than that it is less than a day; what
    /// was asked and answered is on record.
    #[verifier::external_body]
    pub(crate) fn fields(&mut self, epoch: i64) -> (t: LocalTime)
        requires
            FIRST_SECOND <= epoch <= LAST_SECOND,
        ensures
            (Showing { epoch, shown: t }).plausible(),
            final(self)@ == (ClockView {
                shown: old(self)@.shown.push(Showing { epoch, shown: t }),
                ..old(self)@
            }),
    {
        let t = Local.timestamp_opt(epoch, 0).unwrap();
        let (year, month, day) = (t.year(), t.month(), t.day());
        LocalTime { year, month, day, hour: t.hour(), minute: t.minute(), second: t.second() }
    }

    /// `chrono::DateTime::to_rfc3339` of an instant on the system's clock, with as
    /// much of the nanoseconds as it takes. How it is written, and whether it
    /// reads back, follows from the system's time zone, so no more is promised of
    /// the text than what it reads as, if it does; what was asked and written is
    /// on record.
    #[verifier::external_body]
    pub(crate) fn write(&mut self, at: Moment) -> (s: String)
        requires
            at.valid(),
        ensures
            (Writing { at, text: s@ }).plausible(),
            final(self)@ == (ClockView {
                written: old(self)@.written.push(Writing { at, text: s@ }),
                ..old(self)@
            }),
    {
        Local.timestamp_opt(at.seconds, at.nanos).unwrap().to_rfc3339()
    }
}

} // verus!
