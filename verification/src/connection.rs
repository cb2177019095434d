use crate::addr::BDAddr;
use crate::cli::LogLevel;
use crate::config;
use crate::log::{self, Log};
use crate::payload::{self, FRAME_OVERHEAD, HEADER};
use crate::text;
use crate::time;
use crate::wall_clock::{ClockView, WallClock};
use vstd::prelude::*;
use vstd::slice::slice_subrange;
use vstd::string::*;

verus! {

/// Shortest frame that can carry a full measurement (through the 6-byte date
/// at offset 23). Also what distinguishes a measurement reply from the much
/// shorter status reply to a one-shot command.
pub const MEASUREMENT_FRAME_MIN_LEN: usize = 29;

/// Largest frame the device ever sends. Used only to bound the reassembly
/// buffer, so a desynchronized stream cannot grow it without limit.
pub const MAX_FRAME_LEN: usize = 256;

/// How many bits of each channel stand behind the point.
pub const VOLTAGE_BITS: u32 = 24;

pub const AMPERE_BITS: u32 = 30;

pub const WATTAGE_BITS: u32 = 24;

/// What the device measured. Voltage, current and power are counts of 2^-24 V,
/// 2^-30 A and 2^-24 W, as the device sends them; the time is in seconds from
/// 1970-01-01T00:00:00Z.
#[derive(Clone, Copy, Debug, PartialEq, Eq, Structural)]
pub struct Measurement {
    pub voltage: u64,
    pub ampere: u64,
    pub wattage: u64,
    pub timestamp: i64,
}

/// What a channel cannot reach.
pub const CHANNEL_LIMIT: u64 = 0x1_0000_0000_0000;

impl Measurement {
    /// Whether each channel is one that a frame can carry.
    pub open spec fn in_range(self) -> bool {
        &&& self.voltage < CHANNEL_LIMIT
        &&& self.ampere < CHANNEL_LIMIT
        &&& self.wattage < CHANNEL_LIMIT
    }

    /// Whether `r` is the power factor, a numerator over a denominator.
    pub open spec fn has_factor(self, r: Option<(u128, u128)>) -> bool {
        &&& r is Some <==> self.voltage > 0 && self.ampere > 0
        &&& r matches Some((n, d)) ==> n == self.wattage * 0x4000_0000 && d == self.voltage
            * self.ampere && d > 0
    }

    /// Power factor, wattage / (voltage * ampere), as a numerator and a
    /// denominator. The device does not report it; there is none when voltage
    /// or ampere is zero.
    pub fn power_factor(&self) -> (r: Option<(u128, u128)>)
        requires
            self.in_range(),
        ensures
            r is Some <==> self.voltage > 0 && self.ampere > 0,
            r matches Some((n, d)) ==> n == self.wattage * 0x4000_0000 && d == self.voltage
                * self.ampere && d > 0,
            self.has_factor(r),
    {
        if self.voltage > 0 && self.ampere > 0 {
            let (v, a) = (self.voltage as u128, self.ampere as u128);
            assert(0 < v * a <= 0x1_0000_0000_0000 * 0x1_0000_0000_0000) by (nonlinear_arith)
                requires
                    0 < v <= 0x1_0000_0000_0000,
                    0 < a <= 0x1_0000_0000_0000,
            ;
            Some((self.wattage as u128 * 0x4000_0000, v * a))
        } else {
            None
        }
    }
}

/// What the bytes after the header say of the length of the payload.
pub open spec fn declared(buf: Seq<u8>) -> nat {
    (buf[1] as nat) * 256 + (buf[2] as nat)
}

/// Whether `buf` holds all of the frame that it starts with.
pub open spec fn complete(buf: Seq<u8>) -> bool {
    buf.len() >= FRAME_OVERHEAD && buf.len() - FRAME_OVERHEAD >= declared(buf)
}

/// What the buffer holds with more data taken in: a header starts a frame anew.
pub open spec fn joined(buf: Seq<u8>, data: Seq<u8>) -> Seq<u8> {
    if buf.len() > 0 && data.len() > 0 && data[0] == HEADER {
        data
    } else {
        buf + data
    }
}

/// The frame that comes out when data is taken in.
pub open spec fn emitted(buf: Seq<u8>, data: Seq<u8>) -> Option<Seq<u8>> {
    let all = joined(buf, data);
    if complete(all) {
        Some(all.take((declared(all) + FRAME_OVERHEAD) as int))
    } else {
        None
    }
}

/// Whether what has been buffered is given up as too long for any frame.
pub open spec fn overflows(buf: Seq<u8>, data: Seq<u8>) -> bool {
    let all = joined(buf, data);
    !complete(all) && all.len() > MAX_FRAME_LEN
}

/// What stays in the buffer when data is taken in.
pub open spec fn kept(buf: Seq<u8>, data: Seq<u8>) -> Seq<u8> {
    let all = joined(buf, data);
    if complete(all) || all.len() > MAX_FRAME_LEN {
        Seq::empty()
    } else {
        all
    }
}

/// Puts frames together from the pieces in which they arrive.
#[derive(Debug)]
pub struct FrameAssembler {
    buf: Vec<u8>,
    discarded: bool,
}

impl View for FrameAssembler {
    type V = Seq<u8>;

    /// The bytes of a frame that is not complete yet.
    closed spec fn view(&self) -> Seq<u8> {
        self.buf@
    }
}

impl FrameAssembler {
    /// Whether no more is buffered than a frame can hold.
    pub open spec fn wf(self) -> bool {
        self@.len() <= MAX_FRAME_LEN
    }

    /// Whether the last data taken in made the buffer overflow.
    pub closed spec fn overflowed(self) -> bool {
        self.discarded
    }

    pub fn new() -> (a: FrameAssembler)
        ensures
            a.wf(),
            a@ == Seq::<u8>::empty(),
            !a.overflowed(),
    {
        FrameAssembler { buf: Vec::new(), discarded: false }
    }

    /// Take in `data`, and hand out the frame that it completes, if any.
    pub fn feed(&mut self, data: &[u8]) -> (frame: Option<Vec<u8>>)
        ensures
            final(self).wf(),
            final(self)@ == kept(old(self)@, data@),
            final(self).overflowed() == overflows(old(self)@, data@),
            frame is Some <==> emitted(old(self)@, data@) is Some,
            frame matches Some(f) ==> f@ == emitted(old(self)@, data@)->0,
    {
        let ghost start = self.buf@;
        self.discarded = false;
        if self.buf.len() > 0 && data.len() > 0 && data[0] == HEADER {
            self.buf = Vec::new();
        }
        let ghost base = self.buf@;
        let mut i: usize = 0;
        while i < data.len()
            invariant
                i <= data@.len(),
                self.buf@ == base + data@.take(i as int),
                !self.discarded,
            decreases data@.len() - i,
        {
            self.buf.push(data[i]);
            i = i + 1;
        }
        proof {
            assert(data@.take(i as int) =~= data@);
            assert(self.buf@ =~= joined(start, data@));
        }
        let n: usize = self.buf.len();
        if n >= FRAME_OVERHEAD {
            let payload: usize = self.buf[1] as usize * 256 + self.buf[2] as usize;
            // `>=` rather than `==`: a desynchronized stream can overshoot the
            // declared length, and waiting for an exact match would wedge the
            // assembler until the next header arrives.
            if n - FRAME_OVERHEAD >= payload {
                let mut frame: Vec<u8> = Vec::new();
                std::mem::swap(&mut frame, &mut self.buf);
                frame.truncate(payload + FRAME_OVERHEAD);
                return Some(frame);
            }
        }
        // A bogus length field would otherwise let the buffer grow forever.
        if n > MAX_FRAME_LEN {
            self.buf = Vec::new();
            self.discarded = true;
        }
        None
    }

    /// Whether the last data taken in made the buffer overflow, so that what it
    /// held was given up.
    pub fn discarded(&self) -> (b: bool)
        ensures
            b == self.overflowed(),
    {
        self.discarded
    }

    /// How many bytes are buffered.
    pub fn buffered(&self) -> (n: usize)
        ensures
            n == self@.len(),
    {
        self.buf.len()
    }

    /// Forget a frame that is not complete.
    pub fn clear(&mut self)
        ensures
            final(self)@ == Seq::<u8>::empty(),
            final(self).wf(),
            !final(self).overflowed(),
    {
        self.buf = Vec::new();
        self.discarded = false;
    }
}

/// A frame that arrives whole comes out as it was sent.
pub proof fn whole_frame_comes_out(payload: Seq<u8>)
    requires
        payload.len() <= 0xffff,
    ensures
        emitted(Seq::empty(), crate::payload::frame(payload)) == Some(
            crate::payload::frame(payload),
        ),
        kept(Seq::empty(), crate::payload::frame(payload)) == Seq::<u8>::empty(),
{
    let f = crate::payload::frame(payload);
    assert(joined(Seq::empty(), f) =~= f);
    lemma_declared(payload);
    assert(f.take(f.len() as int) =~= f);
}

proof fn lemma_declared(payload: Seq<u8>)
    requires
        payload.len() <= 0xffff,
    ensures
        declared(crate::payload::frame(payload)) == payload.len(),
        crate::payload::frame(payload).len() == payload.len() + FRAME_OVERHEAD,
        crate::payload::frame(payload)[0] == HEADER,
{
    let n = payload.len();
    assert(n / 256 < 256);
    assert(n / 256 % 256 == n / 256);
}

/// A frame that arrives in two pieces comes out with the second, provided that
/// the second does not itself look like the start of a frame and that the first
/// is not too long to be buffered.
pub proof fn split_frame_comes_out(payload: Seq<u8>, at: int)
    requires
        payload.len() <= 0xffff,
        0 < at < payload.len() + FRAME_OVERHEAD,
        at <= MAX_FRAME_LEN,
        crate::payload::frame(payload)[at] != HEADER,
    ensures
        ({
            let f = crate::payload::frame(payload);
            let (a, b) = (f.take(at), f.skip(at));
            &&& emitted(Seq::empty(), a) is None
            &&& !overflows(Seq::empty(), a)
            &&& emitted(kept(Seq::empty(), a), b) == Some(f)
            &&& kept(kept(Seq::empty(), a), b) == Seq::<u8>::empty()
        }),
{
    let f = crate::payload::frame(payload);
    let (a, b) = (f.take(at), f.skip(at));
    lemma_declared(payload);
    assert(joined(Seq::empty(), a) =~= a);
    if a.len() >= FRAME_OVERHEAD {
        assert(a[1] == f[1] && a[2] == f[2]);
    }
    assert(b[0] == f[at]);
    assert(a + b =~= f);
    assert(f.take(f.len() as int) =~= f);
}

/// The pieces of a frame, one after another.
pub open spec fn concatenated(pieces: Seq<Seq<u8>>) -> Seq<u8>
    decreases pieces.len(),
{
    if pieces.len() == 0 {
        Seq::empty()
    } else {
        concatenated(pieces.drop_last()) + pieces.last()
    }
}

/// What is buffered once `pieces` were taken in, one after another.
pub open spec fn kept_of(pieces: Seq<Seq<u8>>) -> Seq<u8>
    decreases pieces.len(),
{
    if pieces.len() == 0 {
        Seq::empty()
    } else {
        kept(kept_of(pieces.drop_last()), pieces.last())
    }
}

/// Whether `pieces` make up `frame`: none but the first that holds anything looks
/// like the start of a frame, and all but the last can be buffered.
pub open spec fn cut_up(frame: Seq<u8>, pieces: Seq<Seq<u8>>) -> bool {
    &&& pieces.len() > 0
    &&& pieces.last().len() > 0
    &&& concatenated(pieces) == frame
    &&& concatenated(pieces.drop_last()).len() <= MAX_FRAME_LEN
    &&& forall|i: int|
        #![trigger pieces[i]]
        0 <= i < pieces.len() && pieces[i].len() > 0 && concatenated(pieces.take(i)).len() > 0
            ==> pieces[i][0] != HEADER
}

/// Until the last piece of a frame has come, all that came is buffered, and
/// nothing comes out.
proof fn lemma_buffering(payload: Seq<u8>, pieces: Seq<Seq<u8>>, k: int)
    requires
        payload.len() <= 0xffff,
        cut_up(crate::payload::frame(payload), pieces),
        0 <= k < pieces.len(),
    ensures
        kept_of(pieces.take(k)) == concatenated(pieces.take(k)),
        concatenated(pieces.take(k)).len() <= concatenated(pieces.drop_last()).len(),
        k > 0 ==> emitted(kept_of(pieces.take(k - 1)), pieces[k - 1]) is None,
        k > 0 ==> !overflows(kept_of(pieces.take(k - 1)), pieces[k - 1]),
    decreases k,
{
    let f = crate::payload::frame(payload);
    let so_far = concatenated(pieces.take(k));
    lemma_prefix(pieces, k);
    lemma_prefix(pieces.drop_last(), k);
    assert(pieces.drop_last().take(k) =~= pieces.take(k));
    if k > 0 {
        lemma_buffering(payload, pieces, k - 1);
        assert(pieces.take(k).drop_last() =~= pieces.take(k - 1));
        assert(pieces.take(k).last() == pieces[k - 1]);
        let (buf, data) = (kept_of(pieces.take(k - 1)), pieces[k - 1]);
        assert(joined(buf, data) =~= so_far);
        lemma_declared(payload);
        lemma_prefix(pieces, pieces.len() - 1);
        assert(pieces.take(pieces.len() - 1) =~= pieces.drop_last());
        if so_far.len() >= FRAME_OVERHEAD {
            assert(so_far[1] == f[1] && so_far[2] == f[2]);
        }
        assert(!complete(so_far));
    }
}

/// What the first of some pieces make up begins what all of them do.
proof fn lemma_prefix(pieces: Seq<Seq<u8>>, k: int)
    requires
        0 <= k <= pieces.len(),
    ensures
        concatenated(pieces.take(k)).len() <= concatenated(pieces).len(),
        concatenated(pieces).take(concatenated(pieces.take(k)).len() as int) == concatenated(
            pieces.take(k),
        ),
    decreases pieces.len(),
{
    if k == pieces.len() {
        assert(pieces.take(k) =~= pieces);
        assert(concatenated(pieces).take(concatenated(pieces).len() as int) =~= concatenated(
            pieces,
        ));
    } else {
        lemma_prefix(pieces.drop_last(), k);
        assert(pieces.drop_last().take(k) =~= pieces.take(k));
        let n = concatenated(pieces.take(k)).len() as int;
        assert(concatenated(pieces).take(n) =~= concatenated(pieces.drop_last()).take(n));
    }
}

/// A frame that arrives in any number of pieces comes out with the last of them,
/// and not before, and leaves nothing behind, provided that no later piece itself
/// looks like the start of a frame and that what comes before the last is not too
/// long to be buffered.
pub proof fn frame_in_pieces_comes_out(payload: Seq<u8>, pieces: Seq<Seq<u8>>)
    requires
        payload.len() <= 0xffff,
        cut_up(crate::payload::frame(payload), pieces),
    ensures
        forall|k: int|
            #![trigger pieces[k]]
            0 <= k < pieces.len() - 1 ==> emitted(kept_of(pieces.take(k)), pieces[k]) is None
                && !overflows(kept_of(pieces.take(k)), pieces[k]),
        emitted(kept_of(pieces.drop_last()), pieces.last()) == Some(crate::payload::frame(payload)),
        kept_of(pieces) == Seq::<u8>::empty(),
{
    let f = crate::payload::frame(payload);
    let n = pieces.len() - 1;
    assert forall|k: int| #![trigger pieces[k]] 0 <= k < n implies emitted(
        kept_of(pieces.take(k)),
        pieces[k],
    ) is None && !overflows(kept_of(pieces.take(k)), pieces[k]) by {
        lemma_buffering(payload, pieces, k + 1);
    }
    lemma_buffering(payload, pieces, n);
    assert(pieces.take(n) =~= pieces.drop_last());
    assert(pieces[n] == pieces.last());
    assert(joined(kept_of(pieces.drop_last()), pieces.last()) =~= f);
    lemma_declared(payload);
    assert(f.take(f.len() as int) =~= f);
}

/// A fresh header in the middle of a frame abandons what was buffered.
pub proof fn header_restarts(buf: Seq<u8>, data: Seq<u8>)
    requires
        data.len() > 0,
        data[0] == HEADER,
    ensures
        emitted(buf, data) == emitted(Seq::empty(), data),
        kept(buf, data) == kept(Seq::empty(), data),
{
    assert(Seq::<u8>::empty() + data =~= data);
    assert(buf.len() == 0 ==> buf + data =~= data);
}

/// A frame that comes out has exactly the length that it declares.
pub proof fn emitted_length(buf: Seq<u8>, data: Seq<u8>)
    requires
        emitted(buf, data) is Some,
    ensures
        emitted(buf, data)->0.len() == declared(emitted(buf, data)->0) + FRAME_OVERHEAD,
{
}

/// What six bytes say, least significant first.
pub open spec fn u48(b: Seq<u8>) -> nat {
    (b[0] + b[1] * 0x100 + b[2] * 0x1_0000 + b[3] * 0x100_0000 + b[4] * 0x1_0000_0000 + b[5]
        * 0x100_0000_0000) as nat
}

/// Read six bytes, least significant first.
pub fn u48_le(payload: &[u8]) -> (n: u64)
    requires
        payload@.len() >= 6,
    ensures
        n == u48(payload@),
        n < CHANNEL_LIMIT,
{
    payload[0] as u64 + payload[1] as u64 * 0x100 + payload[2] as u64 * 0x1_0000 + payload[3] as u64
        * 0x100_0000 + payload[4] as u64 * 0x1_0000_0000 + payload[5] as u64 * 0x100_0000_0000
}

/// Why a frame is not a measurement.
#[derive(Clone, Copy, Debug, PartialEq, Eq, Structural)]
pub enum MeasureError {
    /// The frame has only so many bytes.
    TooShort(usize),
    InvalidTimestamp,
}

impl MeasureError {
    pub open spec fn text(self) -> Seq<char> {
        match self {
            MeasureError::TooShort(n) => "frame too short: "@ + text::decimal(n as nat)
                + " bytes"@,
            MeasureError::InvalidTimestamp => "invalid timestamp in frame"@,
        }
    }

    /// What is wrong, in words.
    pub fn message(self) -> (s: String)
        ensures
            s@ == self.text(),
    {
        match self {
            MeasureError::TooShort(n) => {
                let mut s = "frame too short: ".to_owned();
                s.append(text::decimal_string(n as u64).as_str());
                s.append(" bytes");
                s
            },
            MeasureError::InvalidTimestamp => "invalid timestamp in frame".to_owned(),
        }
    }
}

/// What the clock of the device showed when it sent a measurement, in seconds
/// from 1970-01-01T00:00:00, where that is a time at all: second, minute, hour,
/// day, month from zero, year from 1900.
pub open spec fn device_clock(frame: Seq<u8>) -> Option<i64> {
    time::civil_timestamp(
        (1900 + frame[28]) as i32,
        (frame[27] + 1) as u32,
        frame[26] as u32,
        frame[25] as u32,
        frame[24] as u32,
        frame[23] as u32,
    )
}

/// What a frame measures, given the instant of its time.
pub open spec fn measured(frame: Seq<u8>, instant: Option<i64>) -> Result<
    Measurement,
    MeasureError,
> {
    if frame.len() < MEASUREMENT_FRAME_MIN_LEN {
        Err(MeasureError::TooShort(frame.len() as usize))
    } else {
        match instant {
            None => Err(MeasureError::InvalidTimestamp),
            Some(timestamp) => Ok(
                Measurement {
                    voltage: u48(frame.subrange(5, 11)) as u64,
                    ampere: u48(frame.subrange(11, 17)) as u64,
                    wattage: u48(frame.subrange(17, 23)) as u64,
                    timestamp,
                },
            ),
        }
    }
}

/// Read the channels of a measurement, given the instant of its time.
pub fn measure_at(frame: &[u8], instant: Option<i64>) -> (r: Result<Measurement, MeasureError>)
    ensures
        r == measured(frame@, instant),
        r matches Ok(m) ==> m.in_range(),
{
    if frame.len() < MEASUREMENT_FRAME_MIN_LEN {
        return Err(MeasureError::TooShort(frame.len()));
    }
    match instant {
        None => Err(MeasureError::InvalidTimestamp),
        Some(timestamp) => Ok(
            Measurement {
                voltage: u48_le(slice_subrange(frame, 5, 11)),
                ampere: u48_le(slice_subrange(frame, 11, 17)),
                wattage: u48_le(slice_subrange(frame, 17, 23)),
                timestamp,
            },
        ),
    }
}

/// Read what the clock of the device showed.
pub fn read_clock(frame: &[u8]) -> (t: Option<i64>)
    requires
        frame@.len() >= MEASUREMENT_FRAME_MIN_LEN,
    ensures
        t == device_clock(frame@),
        t matches Some(n) ==> time::FIRST_SECOND <= n <= time::LAST_SECOND,
{
    let year: i32 = 1900 + frame[28] as i32;
    let month: u32 = frame[27] as u32 + 1;
    let t = time::civil_time(
        year,
        month,
        frame[26] as u32,
        frame[25] as u32,
        frame[24] as u32,
        frame[23] as u32,
    );
    proof {
        if t is Some {
            time::lemma_civil_bounds(
                year as int,
                month as int,
                frame@[26] as int,
                frame@[25] as int,
                frame@[24] as int,
                frame@[23] as int,
            );
        }
    }
    t
}

/// Whether a clock was asked for what reading a measurement out of `frame`
/// takes, and nothing else: for the time that the device's clock showed, where
/// it showed one.
pub open spec fn read_on(before: ClockView, after: ClockView, frame: Seq<u8>) -> bool {
    if frame.len() >= MEASUREMENT_FRAME_MIN_LEN && device_clock(frame) is Some {
        time::looked_up(before, after, device_clock(frame)->0)
    } else {
        after == before
    }
}

/// The measurement that `frame` carries, by what a clock answered.
pub open spec fn reading(before: ClockView, after: ClockView, frame: Seq<u8>) -> Result<
    Measurement,
    MeasureError,
> {
    measured(
        frame,
        if device_clock(frame) is Some {
            time::resolution(time::asked_between(before, after))
        } else {
            None
        },
    )
}

/// Read a measurement out of a frame, its time on `clock`. Which instant that
/// is follows from what the clock answers; it is always within a day of the same
/// reading of a UTC clock.
pub fn read_measure_on(clock: &mut WallClock, frame: &[u8]) -> (r: Result<
    Measurement,
    MeasureError,
>)
    ensures
        read_on(old(clock)@, final(clock)@, frame@),
        r == reading(old(clock)@, final(clock)@, frame@),
        r matches Ok(m) ==> {
            &&& m.in_range()
            &&& device_clock(frame@) is Some
            &&& -86_400 < m.timestamp - device_clock(frame@)->0 < 86_400
        },
{
    if frame.len() < MEASUREMENT_FRAME_MIN_LEN {
        return measure_at(frame, None);
    }
    match read_clock(frame) {
        Some(naive) => measure_at(frame, time::resolve_on(clock, naive)),
        None => measure_at(frame, None),
    }
}

/// Read a measurement out of a frame. The time is read on the system's clock,
/// so which instant it is follows from the system's time zone; it is always
/// within a day of the same reading of a UTC clock. `read_measure_on` says how it
/// follows.
pub fn read_measure(frame: &[u8]) -> (r: Result<Measurement, MeasureError>)
    ensures
        r matches Ok(m) ==> {
            &&& m.in_range()
            &&& device_clock(frame@) is Some
            &&& -86_400 < m.timestamp - device_clock(frame@)->0 < 86_400
        },
        exists|after: ClockView|
            #[trigger]
            read_on(ClockView::unasked(), after, frame@) && r == reading(
                ClockView::unasked(),
                after,
                frame@,
            ),
{
    let mut clock = WallClock::new();
    let r = read_measure_on(&mut clock, frame);
    assert(read_on(ClockView::unasked(), clock@, frame@));
    r
}

pub open spec fn parse_failure(e: MeasureError) -> Seq<char> {
    "Failed to parse measurement: "@ + e.text()
}

/// A measurement, or the message to log where there is none.
pub open spec fn logged(r: Result<Measurement, MeasureError>) -> Result<Measurement, Seq<char>> {
    match r {
        Ok(m) => Ok(m),
        Err(e) => Err(parse_failure(e)),
    }
}

pub open spec fn outcome_text(r: Result<Measurement, String>) -> Result<Measurement, Seq<char>> {
    match r {
        Ok(m) => Ok(m),
        Err(e) => Err(e@),
    }
}

/// Put the failure to read a measurement in words.
pub fn measurement_or_message(r: Result<Measurement, MeasureError>) -> (t: Result<
    Measurement,
    String,
>)
    ensures
        outcome_text(t) == logged(r),
{
    match r {
        Ok(m) => Ok(m),
        Err(e) => {
            let mut s = "Failed to parse measurement: ".to_owned();
            s.append(e.message().as_str());
            Err(s)
        },
    }
}

/// Parse a reassembled frame into a measurement, its time on `clock`. On failure
/// it yields the message to log, so that callers can skip the frame and keep
/// streaming.
pub fn try_measurement_on(clock: &mut WallClock, frame: &[u8]) -> (r: Result<Measurement, String>)
    ensures
        read_on(old(clock)@, final(clock)@, frame@),
        outcome_text(r) == logged(reading(old(clock)@, final(clock)@, frame@)),
        r matches Ok(m) ==> {
            &&& m.in_range()
            &&& device_clock(frame@) is Some
            &&& -86_400 < m.timestamp - device_clock(frame@)->0 < 86_400
        },
{
    measurement_or_message(read_measure_on(clock, frame))
}

/// Parse a reassembled frame into a measurement, its time on the system's clock.
/// `try_measurement_on` says how it follows from what that answers.
pub fn try_measurement(frame: &[u8]) -> (r: Result<Measurement, String>)
    ensures
        r matches Ok(m) ==> {
            &&& m.in_range()
            &&& device_clock(frame@) is Some
            &&& -86_400 < m.timestamp - device_clock(frame@)->0 < 86_400
        },
        exists|after: ClockView|
            #[trigger]
            read_on(ClockView::unasked(), after, frame@) && outcome_text(r) == logged(
                reading(ClockView::unasked(), after, frame@),
            ),
{
    let mut clock = WallClock::new();
    let r = try_measurement_on(&mut clock, frame);
    assert(read_on(ClockView::unasked(), clock@, frame@));
    r
}

/// What a request is answered with.
#[derive(Clone, Copy, Debug, PartialEq, Eq, Structural)]
pub enum FrameKind {
    /// A frame long enough to carry a measurement.
    Measurement,
    /// The much shorter status reply to a one-shot command.
    Command,
}

impl FrameKind {
    /// Whether a frame of `len` bytes is of this kind.
    pub open spec fn fits(self, len: nat) -> bool {
        match self {
            FrameKind::Measurement => len >= MEASUREMENT_FRAME_MIN_LEN,
            FrameKind::Command => len < MEASUREMENT_FRAME_MIN_LEN,
        }
    }

    /// Whether `frame` is of this kind.
    pub fn matches(self, frame: &[u8]) -> (b: bool)
        ensures
            b == self.fits(frame@.len()),
    {
        match self {
            FrameKind::Measurement => frame.len() >= MEASUREMENT_FRAME_MIN_LEN,
            FrameKind::Command => frame.len() < MEASUREMENT_FRAME_MIN_LEN,
        }
    }
}

/// Every frame is of exactly one kind: the reply to a command is never taken
/// for a measurement, nor a measurement for the reply.
pub proof fn kinds_are_exclusive(len: nat)
    ensures
        FrameKind::Measurement.fits(len) != FrameKind::Command.fits(len),
{
}

/// The status byte of the reply to a command; zero means that the device
/// accepted it.
pub open spec fn status_byte(frame: Seq<u8>) -> Option<u8> {
    if frame.len() > 4 {
        Some(frame[4])
    } else {
        None
    }
}

/// The status byte of the reply to a command.
pub fn command_status(frame: &[u8]) -> (r: Option<u8>)
    ensures
        r == status_byte(frame@),
{
    if frame.len() > 4 {
        Some(frame[4])
    } else {
        None
    }
}

/// What is said of a command that the device answered with `code`.
pub open spec fn report_text(action: Seq<char>, code: u8) -> Seq<char> {
    if code == 0 {
        action + " succeeded"@
    } else {
        action + " failed, CODE: 0x"@ + text::pad(text::number(code as nat, 16), 2)
    }
}

/// Report how a command went: an informational message where the device
/// accepted it, an error where it did not.
pub fn report_command(action: &str, code: u8) -> (r: Result<String, String>)
    ensures
        r is Ok <==> code == 0,
        r matches Ok(s) ==> s@ == report_text(action@, code),
        r matches Err(s) ==> s@ == report_text(action@, code),
{
    let mut s = action.to_owned();
    if code == 0 {
        s.append(" succeeded");
        Ok(s)
    } else {
        s.append(" failed, CODE: 0x");
        s.append(text::padded_string(code as u64, 16, 2).as_str());
        Err(s)
    }
}

/// Whether `r` reports how a command went by the frame that it was answered with.
pub open spec fn frame_reported(
    action: Seq<char>,
    frame: Seq<u8>,
    r: Result<String, String>,
) -> bool {
    match status_byte(frame) {
        Some(code) => if code == 0 {
            r matches Ok(s) && s@ == report_text(action, code)
        } else {
            r matches Err(s) && s@ == report_text(action, code)
        },
        None => r matches Err(s) && s@ == action + " failed, frame too short"@,
    }
}

/// Report how a command went by the frame that it was answered with.
pub fn report_frame(action: &str, frame: &[u8]) -> (r: Result<String, String>)
    ensures
        r is Ok <==> status_byte(frame@) == Some(0u8),
        r matches Ok(s) ==> s@ == report_text(action@, 0),
        r matches Err(s) ==> s@ == (match status_byte(frame@) {
            Some(code) => report_text(action@, code),
            None => action@ + " failed, frame too short"@,
        }),
        frame_reported(action@, frame@, r),
{
    match command_status(frame) {
        Some(code) => report_command(action, code),
        None => {
            let mut s = action.to_owned();
            s.append(" failed, frame too short");
            Err(s)
        },
    }
}

/// TX/RX characteristics of the Nordic UART service the device exposes.
pub const C_TX: u128 = 0x6e400002_b5a3_f393_e0a9_e50e24dcca9e;

pub const C_RX: u128 = 0x6e400003_b5a3_f393_e0a9_e50e24dcca9e;

/// Where `uuid` first stands among `uuids`, or their number where it does not.
pub open spec fn index_of(uuids: Seq<u128>, uuid: u128) -> nat
    decreases uuids.len(),
{
    if uuids.len() == 0 || uuids[0] == uuid {
        0
    } else {
        1 + index_of(uuids.drop_first(), uuid)
    }
}

fn find_uuid(uuids: &Vec<u128>, uuid: u128) -> (i: usize)
    ensures
        i == index_of(uuids@, uuid),
        i <= uuids@.len(),
{
    let mut i: usize = 0;
    proof {
        assert(uuids@.skip(0) =~= uuids@);
    }
    while i < uuids.len() && uuids[i] != uuid
        invariant
            i <= uuids@.len(),
            index_of(uuids@, uuid) == i + index_of(uuids@.skip(i as int), uuid),
        decreases uuids@.len() - i,
    {
        proof {
            assert(uuids@.skip(i as int).drop_first() =~= uuids@.skip(i + 1));
        }
        i = i + 1;
    }
    i
}

/// Whether `r` says where the two characteristics stand, or which is missing.
pub open spec fn characteristics_found(
    uuids: Seq<u128>,
    r: Result<(usize, usize), String>,
) -> bool {
    let (tx, rx) = (index_of(uuids, C_TX), index_of(uuids, C_RX));
    if tx >= uuids.len() {
        r matches Err(e) && e@ == "characteristic 6e400002-b5a3-f393-e0a9-e50e24dcca9e not found"@
    } else if rx >= uuids.len() {
        r matches Err(e) && e@ == "characteristic 6e400003-b5a3-f393-e0a9-e50e24dcca9e not found"@
    } else {
        r matches Ok(found) && found.0 == tx && found.1 == rx
    }
}

/// Find the two characteristics among those of a device: where they stand, TX
/// before RX, or what is wrong, in words.
pub fn find_characteristics(uuids: &Vec<u128>) -> (r: Result<(usize, usize), String>)
    ensures
        ({
            let (tx, rx) = (index_of(uuids@, C_TX), index_of(uuids@, C_RX));
            let n = uuids@.len();
            &&& r is Ok <==> tx < n && rx < n
            &&& r matches Ok(found) ==> found.0 == tx && found.1 == rx && uuids@[tx as int] == C_TX
                && uuids@[rx as int] == C_RX
            &&& r matches Err(e) ==> e@ == (if tx >= n {
                "characteristic 6e400002-b5a3-f393-e0a9-e50e24dcca9e not found"@
            } else {
                "characteristic 6e400003-b5a3-f393-e0a9-e50e24dcca9e not found"@
            })
        }),
        characteristics_found(uuids@, r),
{
    let tx: usize = find_uuid(uuids, C_TX);
    if tx >= uuids.len() {
        return Err("characteristic 6e400002-b5a3-f393-e0a9-e50e24dcca9e not found".to_owned());
    }
    let rx: usize = find_uuid(uuids, C_RX);
    if rx >= uuids.len() {
        return Err("characteristic 6e400003-b5a3-f393-e0a9-e50e24dcca9e not found".to_owned());
    }
    proof {
        lemma_index_of(uuids@, C_TX);
        lemma_index_of(uuids@, C_RX);
    }
    Ok((tx, rx))
}

proof fn lemma_index_of(uuids: Seq<u128>, uuid: u128)
    ensures
        index_of(uuids, uuid) < uuids.len() ==> uuids[index_of(uuids, uuid) as int] == uuid,
    decreases uuids.len(),
{
    if uuids.len() > 0 && uuids[0] != uuid {
        lemma_index_of(uuids.drop_first(), uuid);
    }
}

/// The name of the adapter of an index.
pub open spec fn adapter(index: nat) -> Seq<char> {
    "hci"@ + text::decimal(index)
}

/// The name of the adapter of an index.
pub fn adapter_name(index: usize) -> (s: String)
    ensures
        s@ == "hci"@ + text::decimal(index as nat),
        s@ == adapter(index as nat),
{
    let mut s = "hci".to_owned();
    s.append(text::decimal_string(index as u64).as_str());
    s
}

/// Whether what an adapter says of itself makes it the adapter `name`: it says
/// its name, followed by more after a space if by anything.
pub open spec fn names_adapter(info: Seq<char>, name: Seq<char>) -> bool {
    info == name || (info.len() > name.len() && info.take(name.len() as int) == name
        && info[name.len() as int] == ' ')
}

/// Whether what an adapter says of itself makes it the adapter `name`.
pub fn is_adapter(info: &str, name: &str) -> (b: bool)
    ensures
        b == names_adapter(info@, name@),
{
    let (i, n) = (text::chars(info), text::chars(name));
    let k: usize = n.len();
    if i.len() <= k {
        return text::same(i.as_slice(), n.as_slice());
    }
    proof {
        assert(i@.take(k as int) =~= i@.subrange(0, k as int));
    }
    text::same(slice_subrange(i.as_slice(), 0, k), n.as_slice()) && i[k] == ' '
}

pub const CONNECT_RETRIES: u32 = 5;

pub const WRITE_RETRIES: u32 = 5;

/// What to do about a connection attempt that ended.
#[derive(Clone, Copy, Debug, PartialEq, Eq, Structural)]
pub enum ConnectStep {
    /// The link is up.
    Connected,
    /// Drop what is left of the link, wait a second and try for the `n`th time.
    Retry(u32),
    /// Drop what is left of the link and report the failure.
    GiveUp,
}

/// What follows the `attempt`th attempt to connect, the first being one.
pub open spec fn connect_step(attempt: u32, ok: bool) -> ConnectStep {
    if ok {
        ConnectStep::Connected
    } else if attempt < CONNECT_RETRIES {
        ConnectStep::Retry((attempt + 1) as u32)
    } else {
        ConnectStep::GiveUp
    }
}

/// Whether a link comes up from the `attempt`th attempt on, when the attempts go
/// as `tries` says.
pub open spec fn connects(attempt: u32, tries: spec_fn(u32) -> bool) -> bool
    decreases CONNECT_RETRIES - attempt,
{
    match connect_step(attempt, tries(attempt)) {
        ConnectStep::Connected => true,
        ConnectStep::Retry(n) => attempt < n <= CONNECT_RETRIES && connects(n, tries),
        ConnectStep::GiveUp => false,
    }
}

/// A link comes up if and only if one of five attempts succeeds.
pub proof fn connecting_is_tried_five_times(tries: spec_fn(u32) -> bool)
    ensures
        connects(1, tries) <==> exists|n: u32| 1 <= n <= 5 && #[trigger] tries(n),
{
    reveal_with_fuel(connects, 6);
    assert(tries(1) || tries(2) || tries(3) || tries(4) || tries(5) <==> connects(1, tries));
}

/// Decide what follows the `attempt`th attempt to connect, the first being one.
pub fn after_connect(attempt: u32, ok: bool) -> (s: ConnectStep)
    requires
        1 <= attempt <= CONNECT_RETRIES,
    ensures
        s == (if ok {
            ConnectStep::Connected
        } else if attempt < CONNECT_RETRIES {
            ConnectStep::Retry((attempt + 1) as u32)
        } else {
            ConnectStep::GiveUp
        }),
        s matches ConnectStep::Retry(n) ==> attempt < n <= CONNECT_RETRIES,
        s == connect_step(attempt, ok),
{
    if ok {
        ConnectStep::Connected
    } else if attempt < CONNECT_RETRIES {
        ConnectStep::Retry(attempt + 1)
    } else {
        ConnectStep::GiveUp
    }
}

pub open spec fn attempts_text(what: Seq<char>, attempts: nat) -> Seq<char> {
    what + " failed after "@ + text::decimal(attempts) + " attempts"@
}

/// What is said when every attempt failed: `connect failed after 5 attempts`.
pub fn attempts_message(what: &str, attempts: u32) -> (s: String)
    ensures
        s@ == attempts_text(what@, attempts as nat),
{
    let mut s = what.to_owned();
    s.append(" failed after ");
    s.append(text::decimal_string(attempts as u64).as_str());
    s.append(" attempts");
    s
}

/// A write that is retried through reconnects.
#[derive(Clone, Copy, Debug, PartialEq, Eq, Structural)]
pub struct WriteRetry {
    /// Which attempt is being made, the first being one.
    pub attempt: u32,
    /// Whether the link was re-established along the way.
    pub reconnected: bool,
}

/// What to do about a write that was attempted.
#[derive(Clone, Copy, Debug, PartialEq, Eq, Structural)]
pub enum WriteStep {
    /// The write went through; whether the link was re-established on the way.
    Done { reconnected: bool },
    /// Re-establish the link.
    Reconnect,
    /// Report the failure.
    GiveUp,
}

impl WriteRetry {
    pub open spec fn wf(self) -> bool {
        1 <= self.attempt <= WRITE_RETRIES
    }

    /// The first attempt.
    pub open spec fn first() -> WriteRetry {
        WriteRetry { attempt: 1, reconnected: false }
    }

    pub fn new() -> (w: WriteRetry)
        ensures
            w == WriteRetry::first(),
            w.wf(),
    {
        WriteRetry { attempt: 1, reconnected: false }
    }

    /// What follows a write.
    pub open spec fn after_write(self, ok: bool) -> WriteStep {
        if ok {
            WriteStep::Done { reconnected: self.reconnected }
        } else if self.attempt < WRITE_RETRIES {
            WriteStep::Reconnect
        } else {
            WriteStep::GiveUp
        }
    }

    /// Decide what follows a write.
    pub fn written(&self, ok: bool) -> (s: WriteStep)
        requires
            self.wf(),
        ensures
            s == self.after_write(ok),
    {
        if ok {
            WriteStep::Done { reconnected: self.reconnected }
        } else if self.attempt < WRITE_RETRIES {
            WriteStep::Reconnect
        } else {
            WriteStep::GiveUp
        }
    }

    /// The next attempt, after the link was re-established or not.
    pub open spec fn next(self, ok: bool) -> WriteRetry {
        WriteRetry { attempt: (self.attempt + 1) as u32, reconnected: self.reconnected || ok }
    }

    /// Go on to the next attempt, after the link was re-established or not. A
    /// failure to do so is followed by a pause of a second.
    pub fn reconnect(&mut self, ok: bool)
        requires
            old(self).wf(),
            old(self).attempt < WRITE_RETRIES,
        ensures
            *final(self) == old(self).next(ok),
            final(self).wf(),
    {
        self.attempt = self.attempt + 1;
        self.reconnected = self.reconnected || ok;
    }

    /// How a write ends when its attempts go as `writes` says and the reconnects
    /// between them as `reconnects` says, each counted from zero.
    pub open spec fn outcome(
        self,
        writes: spec_fn(nat) -> bool,
        reconnects: spec_fn(nat) -> bool,
    ) -> WriteStep
        decreases WRITE_RETRIES - self.attempt,
    {
        let n = (self.attempt - 1) as nat;
        match self.after_write(writes(n)) {
            WriteStep::Reconnect => if self.attempt < WRITE_RETRIES {
                self.next(reconnects(n)).outcome(writes, reconnects)
            } else {
                WriteStep::GiveUp
            },
            s => s,
        }
    }

    /// A write goes through if and only if one of the first five attempts does,
    /// and it reports a reconnect if and only if one of those before that
    /// attempt succeeded.
    pub proof fn write_ends(
        writes: spec_fn(nat) -> bool,
        reconnects: spec_fn(nat) -> bool,
        good: nat,
    )
        requires
            forall|i: nat| i < good ==> !(#[trigger] writes(i)),
            good < 5 ==> writes(good),
        ensures
            WriteRetry::first().outcome(writes, reconnects) == (if good < 5 {
                WriteStep::Done { reconnected: exists|i: nat| i < good && #[trigger] reconnects(i) }
            } else {
                WriteStep::GiveUp
            }),
    {
        let w = WriteRetry::first();
        assert(!(exists|i: nat| i < 0 && #[trigger] reconnects(i)));
        WriteRetry::lemma_outcome(w, writes, reconnects, good);
    }

    proof fn lemma_outcome(
        w: WriteRetry,
        writes: spec_fn(nat) -> bool,
        reconnects: spec_fn(nat) -> bool,
        good: nat,
    )
        requires
            w.wf(),
            w.attempt - 1 <= good,
            forall|i: nat| i < good ==> !(#[trigger] writes(i)),
            good < WRITE_RETRIES ==> writes(good),
            w.reconnected == exists|i: nat| i < w.attempt - 1 && #[trigger] reconnects(i),
        ensures
            w.outcome(writes, reconnects) == (if good < WRITE_RETRIES {
                WriteStep::Done { reconnected: exists|i: nat| i < good && #[trigger] reconnects(i) }
            } else {
                WriteStep::GiveUp
            }),
        decreases WRITE_RETRIES - w.attempt,
    {
        let n = (w.attempt - 1) as nat;
        if n < good && w.attempt < WRITE_RETRIES {
            let next = w.next(reconnects(n));
            assert(next.reconnected == exists|i: nat| i < next.attempt - 1 && #[trigger] reconnects(
                i,
            )) by {
                if w.reconnected {
                    let i = choose|i: nat| i < w.attempt - 1 && #[trigger] reconnects(i);
                    assert(i < next.attempt - 1 && reconnects(i));
                }
                if exists|i: nat| i < next.attempt - 1 && #[trigger] reconnects(i) {
                    let i = choose|i: nat| i < next.attempt - 1 && #[trigger] reconnects(i);
                    if i < n {
                        assert(i < w.attempt - 1 && reconnects(i));
                    }
                }
            }
            WriteRetry::lemma_outcome(next, writes, reconnects, good);
        }
    }
}

/// What to do in the search for a device.
#[derive(Clone, Copy, Debug, PartialEq, Eq, Structural)]
pub enum FindStep {
    /// The device is known: stop scanning, where a scan runs.
    Found,
    /// Start a scan, then look again.
    Scan,
    /// Wait half a second, then look again.
    Wait,
    /// Stop the scan and report that there is no such device.
    NotFound,
}

/// What follows a look at the devices that are known.
pub open spec fn find_step(found: bool, scanning: bool, expired: bool) -> FindStep {
    if found {
        FindStep::Found
    } else if !scanning {
        FindStep::Scan
    } else if expired {
        FindStep::NotFound
    } else {
        FindStep::Wait
    }
}

/// A device that is known is found, scan or no scan; one that is not is given up
/// only once a scan has run its time, and a scan is started only where none runs.
pub proof fn a_device_is_given_up_only_after_a_scan(found: bool, scanning: bool, expired: bool)
    ensures
        find_step(found, scanning, expired) is Found <==> found,
        find_step(found, scanning, expired) is NotFound <==> !found && scanning && expired,
        find_step(found, scanning, expired) is Scan ==> !scanning,
        find_step(found, scanning, expired) is Wait ==> scanning && !expired,
{
}

/// Decide what follows a look at the devices that are known: whether the one
/// that is searched is among them, whether a scan runs already, and whether its
/// time is up.
pub fn after_lookup(found: bool, scanning: bool, expired: bool) -> (s: FindStep)
    ensures
        s == (if found {
            FindStep::Found
        } else if !scanning {
            FindStep::Scan
        } else if expired {
            FindStep::NotFound
        } else {
            FindStep::Wait
        }),
        s == find_step(found, scanning, expired),
{
    if found {
        FindStep::Found
    } else if !scanning {
        FindStep::Scan
    } else if expired {
        FindStep::NotFound
    } else {
        FindStep::Wait
    }
}

/// A device discovered during a scan.
#[derive(Debug)]
pub struct ScannedDevice {
    pub addr: BDAddr,
    pub name: Option<String>,
    pub rssi: i16,
}

/// What a scan knows of a device.
pub struct Sighting {
    pub name: Option<Seq<char>>,
    pub rssi: i16,
}

/// Whether an advertised name marks a device as a watt checker.
pub open spec fn names_watt_checker(name: Option<Seq<char>>) -> bool {
    name matches Some(n) && text::contains_word(n, "BTWATTCH2"@)
}

impl ScannedDevice {
    pub open spec fn sighting(self) -> Sighting {
        Sighting { name: config::text_of(self.name), rssi: self.rssi }
    }

    /// Whether the device's advertised name marks it as a watt checker. One
    /// that has not sent its name yet is not recognised.
    pub fn is_watt_checker(&self) -> (b: bool)
        ensures
            b == names_watt_checker(config::text_of(self.name)),
    {
        match &self.name {
            Some(name) => text::contains(name.as_str(), "BTWATTCH2"),
            None => false,
        }
    }
}

/// What a scan has found so far: each device once.
#[derive(Debug)]
pub struct ScanResults {
    found: Vec<ScannedDevice>,
}

/// The devices by their addresses.
pub open spec fn sightings(found: Seq<ScannedDevice>) -> Map<BDAddr, Sighting>
    decreases found.len(),
{
    if found.len() == 0 {
        Map::empty()
    } else {
        sightings(found.drop_last()).insert(found.last().addr, found.last().sighting())
    }
}

/// Whether no device occurs twice.
pub open spec fn distinct(found: Seq<ScannedDevice>) -> bool {
    forall|i: int, j: int|
        0 <= i < j < found.len() ==> (#[trigger] found[i]).addr != (#[trigger] found[j]).addr
}

/// Whether the properties of a device are worth asking for.
pub open spec fn worth_asking(known: Map<BDAddr, Sighting>, addr: BDAddr) -> bool {
    !(known.dom().contains(addr) && known[addr].name is Some)
}

/// What is known once a device said something of itself.
pub open spec fn sighted(
    known: Map<BDAddr, Sighting>,
    addr: BDAddr,
    name: Option<Seq<char>>,
    rssi: Option<i16>,
) -> Map<BDAddr, Sighting> {
    match rssi {
        Some(rssi) => known.insert(addr, Sighting { name, rssi }),
        None => known,
    }
}

/// A device that has a signal strength is known from then on by what it said
/// last; one that has none is not taken in; and no other device is disturbed. A
/// device is asked again until it has said its name.
pub proof fn a_scan_knows_what_was_said_last(
    known: Map<BDAddr, Sighting>,
    addr: BDAddr,
    other: BDAddr,
    name: Option<Seq<char>>,
    rssi: i16,
)
    requires
        other != addr,
    ensures
        sighted(known, addr, name, None) == known,
        ({
            let after = sighted(known, addr, name, Some(rssi));
            &&& after.dom().contains(addr)
            &&& after[addr].name == name
            &&& after[addr].rssi == rssi
            &&& worth_asking(after, addr) <==> name is None
            &&& after.dom().contains(other) <==> known.dom().contains(other)
            &&& known.dom().contains(other) ==> after[other] == known[other]
            &&& worth_asking(after, other) == worth_asking(known, other)
        }),
        !known.dom().contains(addr) ==> worth_asking(known, addr),
{
}

proof fn lemma_sightings(found: Seq<ScannedDevice>)
    requires
        distinct(found),
    ensures
        forall|i: int|
            #![trigger found[i]]
            0 <= i < found.len() ==> sightings(found).dom().contains(found[i].addr) && sightings(
                found,
            )[found[i].addr] == found[i].sighting(),
        forall|a: BDAddr| #[trigger]
            sightings(found).dom().contains(a) ==> exists|i: int|
                0 <= i < found.len() && (#[trigger] found[i]).addr == a,
    decreases found.len(),
{
    if found.len() > 0 {
        let rest = found.drop_last();
        lemma_sightings(rest);
        let last = found.len() - 1;
        assert forall|i: int| #![trigger found[i]] 0 <= i < found.len() implies sightings(
            found,
        ).dom().contains(found[i].addr) && sightings(found)[found[i].addr]
            == found[i].sighting() by {
            if i < last {
                assert(rest[i] == found[i]);
                assert(found[i].addr != found[last].addr);
            }
        }
        assert forall|a: BDAddr| #[trigger]
            sightings(found).dom().contains(a) implies exists|i: int|
            0 <= i < found.len() && (#[trigger] found[i]).addr == a by {
            if a == found[last].addr {
            } else {
                let i = choose|i: int| 0 <= i < rest.len() && (#[trigger] rest[i]).addr == a;
                assert(found[i].addr == a);
            }
        }
    }
}

impl View for ScanResults {
    type V = Map<BDAddr, Sighting>;

    closed spec fn view(&self) -> Map<BDAddr, Sighting> {
        sightings(self.found@)
    }
}

impl ScanResults {
    pub closed spec fn wf(self) -> bool {
        distinct(self.found@)
    }

    pub fn new() -> (r: ScanResults)
        ensures
            r.wf(),
            r@ == Map::<BDAddr, Sighting>::empty(),
    {
        ScanResults { found: Vec::new() }
    }

    fn find(&self, addr: BDAddr) -> (i: usize)
        requires
            self.wf(),
        ensures
            i <= self.found@.len(),
            i < self.found@.len() <==> self@.dom().contains(addr),
            i < self.found@.len() ==> self.found@[i as int].addr == addr && self@[addr]
                == self.found@[i as int].sighting(),
    {
        proof {
            lemma_sightings(self.found@);
        }
        let mut i: usize = 0;
        while i < self.found.len() && self.found[i].addr != addr
            invariant
                i <= self.found@.len(),
                forall|j: int| 0 <= j < i ==> (#[trigger] self.found@[j]).addr != addr,
            decreases self.found@.len() - i,
        {
            i = i + 1;
        }
        i
    }

    /// Whether the properties of a device are worth asking for. Advertisements
    /// are fragmented: the name often arrives in a later scan response, so a
    /// device is asked again until it has one, and then left alone.
    pub fn wants(&self, addr: BDAddr) -> (b: bool)
        requires
            self.wf(),
        ensures
            b == !(self@.dom().contains(addr) && self@[addr].name is Some),
            b == worth_asking(self@, addr),
    {
        let i: usize = self.find(addr);
        !(i < self.found.len() && self.found[i].name.is_some())
    }

    /// Take in what a device says of itself. Only one that is currently
    /// advertising has a signal strength; the others are merely remembered from
    /// earlier, and are left out.
    pub fn record(&mut self, addr: BDAddr, name: Option<String>, rssi: Option<i16>)
        requires
            old(self).wf(),
        ensures
            final(self).wf(),
            final(self)@ == (match rssi {
                Some(rssi) => old(self)@.insert(
                    addr,
                    Sighting { name: config::text_of(name), rssi },
                ),
                None => old(self)@,
            }),
            final(self)@ == sighted(old(self)@, addr, config::text_of(name), rssi),
    {
        let rssi: i16 = match rssi {
            Some(rssi) => rssi,
            None => return ,
        };
        let i: usize = self.find(addr);
        let device = ScannedDevice { addr, name, rssi };
        let ghost before = self.found@;
        proof {
            lemma_sightings(before);
        }
        if i < self.found.len() {
            self.found.set(i, device);
            proof {
                let after = self.found@;
                assert(after =~= before.update(i as int, device));
                assert(distinct(after)) by {
                    assert forall|j: int, k: int| 0 <= j < k < after.len() implies (
                    #[trigger] after[j]).addr != (#[trigger] after[k]).addr by {
                        assert(after[j].addr == before[j].addr && after[k].addr == before[k].addr);
                    }
                }
                lemma_sightings(after);
                let (m, n) = (sightings(before).insert(addr, device.sighting()), sightings(after));
                assert(after[i as int] == device);
                assert forall|a: BDAddr| #[trigger] m.dom().contains(a) implies n.dom().contains(a)
                    && m[a] == n[a] by {
                    if a != addr {
                        let j = choose|j: int|
                            0 <= j < before.len() && (#[trigger] before[j]).addr == a;
                        assert(after[j] == before[j]);
                    }
                }
                assert forall|a: BDAddr| #[trigger] n.dom().contains(a) implies m.dom().contains(
                    a,
                ) by {
                    let j = choose|j: int| 0 <= j < after.len() && (#[trigger] after[j]).addr == a;
                    assert(before[j].addr == a);
                }
                assert(m =~= n);
            }
        } else {
            self.found.push(device);
            proof {
                let after = self.found@;
                assert(after.drop_last() =~= before);
                assert forall|j: int, k: int| 0 <= j < k < after.len() implies (
                #[trigger] after[j]).addr != (#[trigger] after[k]).addr by {
                    assert(after[j] == before[j]);
                    if k < before.len() {
                        assert(after[k] == before[k]);
                    }
                }
            }
        }
    }

    /// The devices found, each once.
    pub fn into_devices(self) -> (v: Vec<ScannedDevice>)
        requires
            self.wf(),
        ensures
            distinct(v@),
            sightings(v@) == self@,
    {
        self.found
    }
}

/// What happened on the link during a session.
#[derive(Clone, Copy, Debug, PartialEq, Eq, Structural)]
pub enum LinkEvent {
    /// It is time for the next request.
    Ticked,
    /// The request was written; whether the link was re-established on the way.
    Written { reconnected: bool },
    /// The stream of notifications ended.
    Ended,
    /// The link was re-established, and its notifications subscribed to.
    Relinked,
}

/// What has to be done on the link.
#[derive(Debug, PartialEq, Eq)]
pub enum LinkStep {
    /// Nothing: wait for what happens next.
    Rest,
    /// Write these bytes.
    Write(Vec<u8>),
    /// Subscribe to notifications anew.
    Listen,
    /// Re-establish the link, and subscribe to its notifications.
    Reconnect,
}

/// What has to be done on the link.
pub enum LinkStepView {
    Rest,
    Write(Seq<u8>),
    Listen,
    Reconnect,
}

impl View for LinkStep {
    type V = LinkStepView;

    open spec fn view(&self) -> LinkStepView {
        match self {
            LinkStep::Rest => LinkStepView::Rest,
            LinkStep::Write(bytes) => LinkStepView::Write(bytes@),
            LinkStep::Listen => LinkStepView::Listen,
            LinkStep::Reconnect => LinkStepView::Reconnect,
        }
    }
}

/// What a frame means to a session.
#[derive(Debug, PartialEq, Eq)]
pub enum Heard {
    /// How the command went, which ends the session.
    Report(Result<String, String>),
    Measurement(Measurement),
    /// Why the frame is no measurement, in words; the session goes on.
    Failure(String),
}

/// Whether `heard` is what `frame` means to a session: to that of a command how
/// it went, and to any other a measurement, or why it is none. Its time is read
/// on the session's clock, which a command leaves alone.
pub open spec fn hears(
    action: Option<Seq<char>>,
    before: ClockView,
    after: ClockView,
    frame: Seq<u8>,
    heard: Heard,
) -> bool {
    match action {
        Some(action) => {
            &&& after == before
            &&& match status_byte(frame) {
                Some(code) => if code == 0 {
                    heard matches Heard::Report(Ok(s)) && s@ == report_text(action, code)
                } else {
                    heard matches Heard::Report(Err(s)) && s@ == report_text(action, code)
                },
                None => heard matches Heard::Report(Err(s)) && s@ == action
                    + " failed, frame too short"@,
            }
        },
        None => {
            &&& read_on(before, after, frame)
            &&& match reading(before, after, frame) {
                Ok(m) => heard == Heard::Measurement(m),
                Err(e) => heard matches Heard::Failure(s) && s@ == parse_failure(e),
            }
        },
    }
}

/// Whether a session takes in a notification and hears `heard` in it.
pub open spec fn session_notified(
    before: SessionView,
    after: SessionView,
    characteristic: u128,
    data: Seq<u8>,
    heard: Option<Heard>,
) -> bool {
    if characteristic != C_RX {
        after == before && heard is None
    } else {
        &&& after == (SessionView {
            buffer: kept(before.buffer, data),
            clock: after.clock,
            ..before
        })
        &&& match emitted(before.buffer, data) {
            Some(frame) => heard matches Some(h) && hears(
                before.action,
                before.clock,
                after.clock,
                frame,
                h,
            ),
            None => heard is None && after.clock == before.clock,
        }
    }
}

/// The request that is written every interval, the frames that come in reply,
/// and what is made of them.
pub struct Session {
    request: Vec<u8>,
    action: Option<String>,
    assembler: FrameAssembler,
    clock: WallClock,
}

/// The state of a session.
#[verifier::ext_equal]
pub struct SessionView {
    /// What is written every interval.
    pub request: Seq<u8>,
    /// The command that it is, in words, unless it asks for measurements.
    pub action: Option<Seq<char>>,
    /// The bytes of a frame that is not complete yet.
    pub buffer: Seq<u8>,
    /// What the system's clock was asked for the measurements so far.
    pub clock: ClockView,
}

impl View for Session {
    type V = SessionView;

    closed spec fn view(&self) -> SessionView {
        SessionView {
            request: self.request@,
            action: config::text_of(self.action),
            buffer: self.assembler@,
            clock: self.clock@,
        }
    }
}

impl SessionView {
    /// A session that writes `request`, before anything happened.
    pub open spec fn starting(request: Seq<u8>, action: Option<Seq<char>>) -> SessionView {
        SessionView { request, action, buffer: Seq::empty(), clock: ClockView::unasked() }
    }

    /// The session after something happened on the link. A fresh link loses
    /// what was received of a frame.
    pub open spec fn after(self, event: LinkEvent) -> SessionView {
        if event == LinkEvent::Relinked {
            SessionView { buffer: Seq::empty(), ..self }
        } else {
            self
        }
    }

    /// What has to be done about something that happened on the link. A link
    /// that was re-established during a write has lost its subscription.
    pub open spec fn step(self, event: LinkEvent) -> LinkStepView {
        match event {
            LinkEvent::Ticked => LinkStepView::Write(self.request),
            LinkEvent::Written { reconnected } => if reconnected {
                LinkStepView::Listen
            } else {
                LinkStepView::Rest
            },
            LinkEvent::Ended => LinkStepView::Reconnect,
            LinkEvent::Relinked => LinkStepView::Rest,
        }
    }
}

impl Session {
    pub closed spec fn wf(self) -> bool {
        self.assembler.wf()
    }

    /// Whether the last notification made the buffer of a frame overflow.
    pub closed spec fn overflowed(self) -> bool {
        self.assembler.overflowed()
    }

    /// A session that writes `request`: a command, which `action` names, or,
    /// without a name, the request for a measurement.
    pub fn new(request: Vec<u8>, action: Option<String>) -> (s: Session)
        ensures
            s.wf(),
            !s.overflowed(),
            s@ == (SessionView {
                request: request@,
                action: config::text_of(action),
                buffer: Seq::empty(),
                clock: ClockView::unasked(),
            }),
            s@ == SessionView::starting(request@, config::text_of(action)),
    {
        Session { request, action, assembler: FrameAssembler::new(), clock: WallClock::new() }
    }

    /// Decide what follows something that happened on the link.
    pub fn follow(&mut self, event: LinkEvent) -> (step: LinkStep)
        requires
            old(self).wf(),
        ensures
            final(self).wf(),
            final(self)@ == old(self)@.after(event),
            final(self).overflowed() == (old(self).overflowed() && event != LinkEvent::Relinked),
            step@ == old(self)@.step(event),
    {
        match event {
            LinkEvent::Ticked => LinkStep::Write(payload::copied(&self.request)),
            LinkEvent::Written { reconnected } => if reconnected {
                LinkStep::Listen
            } else {
                LinkStep::Rest
            },
            LinkEvent::Ended => LinkStep::Reconnect,
            LinkEvent::Relinked => {
                self.assembler.clear();
                LinkStep::Rest
            },
        }
    }

    /// Take in a notification, and say what the frame that it completes means,
    /// if it completes any. Those of other characteristics are passed over.
    pub fn notified(&mut self, characteristic: u128, data: &[u8]) -> (heard: Option<Heard>)
        requires
            old(self).wf(),
        ensures
            final(self).wf(),
            characteristic != C_RX ==> heard is None && *final(self) == *old(self),
            characteristic == C_RX ==> {
                &&& final(self)@ == (SessionView {
                    buffer: kept(old(self)@.buffer, data@),
                    clock: final(self)@.clock,
                    ..old(self)@
                })
                &&& final(self).overflowed() == overflows(old(self)@.buffer, data@)
                &&& match emitted(old(self)@.buffer, data@) {
                    Some(frame) => heard is Some && hears(
                        old(self)@.action,
                        old(self)@.clock,
                        final(self)@.clock,
                        frame,
                        heard->0,
                    ),
                    None => heard is None && final(self)@.clock == old(self)@.clock,
                }
            },
            session_notified(old(self)@, final(self)@, characteristic, data@, heard),
    {
        if characteristic != C_RX {
            return None;
        }
        let frame = match self.assembler.feed(data) {
            Some(frame) => frame,
            None => return None,
        };
        Some(
            match &self.action {
                Some(action) => Heard::Report(report_frame(action.as_str(), frame.as_slice())),
                None => match try_measurement_on(&mut self.clock, frame.as_slice()) {
                    Ok(m) => Heard::Measurement(m),
                    Err(e) => Heard::Failure(e),
                },
            },
        )
    }

    /// Whether the last notification made the buffer of a frame overflow, so
    /// that what it held was given up.
    pub fn discarded(&self) -> (b: bool)
        ensures
            b == self.overflowed(),
    {
        self.assembler.discarded()
    }
}

/// Set the verbosity of informational (`[INFO]`) output.
pub fn set_log_level(log: &mut Log, level: LogLevel)
    ensures
        final(log).info == (level == LogLevel::Info),
{
    log::set_debug(log, level == LogLevel::Info);
}

/// Whether informational output is wanted.
pub fn info_enabled(log: &Log) -> (b: bool)
    ensures
        b == log.info,
{
    log::enabled(log)
}

/// A channel is read least significant byte first: each of its six bytes stands
/// where it belongs.
pub proof fn channels_are_little_endian(b: Seq<u8>)
    requires
        b.len() >= 6,
    ensures
        u48(b) < 0x1_0000_0000_0000,
        u48(b) % 0x100 == b[0],
        u48(b) / 0x100 % 0x100 == b[1],
        u48(b) / 0x1_0000 % 0x100 == b[2],
        u48(b) / 0x100_0000 % 0x100 == b[3],
        u48(b) / 0x1_0000_0000 % 0x100 == b[4],
        u48(b) / 0x100_0000_0000 == b[5],
{
    let n = u48(b) as int;
    let (b0, b1, b2, b3, b4, b5) = (
        b[0] as int,
        b[1] as int,
        b[2] as int,
        b[3] as int,
        b[4] as int,
        b[5] as int,
    );
    let n1 = b1 + 0x100 * (b2 + 0x100 * (b3 + 0x100 * (b4 + 0x100 * b5)));
    let n2 = b2 + 0x100 * (b3 + 0x100 * (b4 + 0x100 * b5));
    let n3 = b3 + 0x100 * (b4 + 0x100 * b5);
    let n4 = b4 + 0x100 * b5;
    assert(n == b0 + 0x100 * n1);
    assert(n / 0x100 == n1);
    assert(n / 0x1_0000 == n2);
    assert(n / 0x100_0000 == n3);
    assert(n / 0x1_0000_0000 == n4);
    assert(n / 0x100_0000_0000 == b5);
}

/// Every number of 48 bits reads back from its bytes.
pub proof fn channels_read_back(n: nat)
    requires
        n < 0x1_0000_0000_0000,
    ensures
        u48(
            seq![
                (n % 0x100) as u8,
                (n / 0x100 % 0x100) as u8,
                (n / 0x1_0000 % 0x100) as u8,
                (n / 0x100_0000 % 0x100) as u8,
                (n / 0x1_0000_0000 % 0x100) as u8,
                (n / 0x100_0000_0000 % 0x100) as u8,
            ],
        ) == n,
{
    let n = n as int;
    assert(n / 0x1_0000 == n / 0x100 / 0x100);
    assert(n / 0x100_0000 == n / 0x1_0000 / 0x100);
    assert(n / 0x1_0000_0000 == n / 0x100_0000 / 0x100);
    assert(n / 0x100_0000_0000 == n / 0x1_0000_0000 / 0x100);
    assert(n / 0x100_0000_0000 < 0x100);
}

/// A measurement is read out of its frame byte by byte: the voltage from the
/// sixth byte on, then the current, then the power, six bytes each.
pub proof fn measurements_are_read_byte_by_byte(frame: Seq<u8>, instant: i64)
    requires
        frame.len() >= 29,
    ensures
        measured(frame, Some(instant)) matches Ok(m) && {
            &&& m.timestamp == instant
            &&& m.in_range()
            &&& m.voltage % 0x100 == frame[5]
            &&& m.voltage / 0x100 % 0x100 == frame[6]
            &&& m.voltage / 0x1_0000 % 0x100 == frame[7]
            &&& m.voltage / 0x100_0000 % 0x100 == frame[8]
            &&& m.voltage / 0x1_0000_0000 % 0x100 == frame[9]
            &&& m.voltage / 0x100_0000_0000 == frame[10]
            &&& m.ampere % 0x100 == frame[11]
            &&& m.ampere / 0x100 % 0x100 == frame[12]
            &&& m.ampere / 0x1_0000 % 0x100 == frame[13]
            &&& m.ampere / 0x100_0000 % 0x100 == frame[14]
            &&& m.ampere / 0x1_0000_0000 % 0x100 == frame[15]
            &&& m.ampere / 0x100_0000_0000 == frame[16]
            &&& m.wattage % 0x100 == frame[17]
            &&& m.wattage / 0x100 % 0x100 == frame[18]
            &&& m.wattage / 0x1_0000 % 0x100 == frame[19]
            &&& m.wattage / 0x100_0000 % 0x100 == frame[20]
            &&& m.wattage / 0x1_0000_0000 % 0x100 == frame[21]
            &&& m.wattage / 0x100_0000_0000 == frame[22]
        },
{
    channels_are_little_endian(frame.subrange(5, 11));
    channels_are_little_endian(frame.subrange(11, 17));
    channels_are_little_endian(frame.subrange(17, 23));
}

/// What follows a frame in the data that completes it is cut off: the frame comes
/// out as it was sent, and nothing is left behind.
pub proof fn what_follows_a_frame_is_cut_off(
    buf: Seq<u8>,
    data: Seq<u8>,
    payload: Seq<u8>,
    extra: Seq<u8>,
)
    requires
        payload.len() <= 0xffff,
        joined(buf, data) == crate::payload::frame(payload) + extra,
    ensures
        emitted(buf, data) == Some(crate::payload::frame(payload)),
        kept(buf, data) == Seq::<u8>::empty(),
        !overflows(buf, data),
{
    let f = crate::payload::frame(payload);
    let all = f + extra;
    lemma_declared(payload);
    assert(all[1] == f[1] && all[2] == f[2]);
    assert(all.take(f.len() as int) =~= f);
}

/// Nothing comes out before a frame is complete: until then what has come is
/// kept, up to 256 bytes, and beyond that it is given up as a whole.
pub proof fn bytes_are_kept_until_a_frame_is_complete(buf: Seq<u8>, data: Seq<u8>)
    requires
        buf.len() == 0 || data.len() == 0 || data[0] != 0xaa,
    ensures
        ({
            let all = buf + data;
            let whole = all.len() >= 4 && all.len() >= all[1] * 256 + all[2] + 4;
            &&& emitted(buf, data) is Some <==> whole
            &&& emitted(buf, data) matches Some(f) ==> f == all.take(all[1] * 256 + all[2] + 4)
            &&& kept(buf, data) == if whole || all.len() > 256 {
                Seq::empty()
            } else {
                all
            }
            &&& overflows(buf, data) <==> !whole && all.len() > 256
        }),
{
}

/// The reply to a command carries its status: the byte after the one that repeats
/// the command. It is taken for the reply to a command, and for no measurement.
pub proof fn a_reply_carries_its_status(command: u8, code: u8, instant: i64)
    ensures
        ({
            let reply = crate::payload::frame(seq![command, code]);
            &&& status_byte(reply) == Some(code)
            &&& FrameKind::Command.fits(reply.len())
            &&& measured(reply, Some(instant)) is Err
        }),
{
    crate::payload::frame_carries_the_payload(seq![command, code]);
    let reply = crate::payload::frame(seq![command, code]);
    assert(reply.subrange(3, 5)[1] == reply[4]);
}

/// A frame is awaited as a measurement just where one can be read out of it.
pub proof fn a_frame_is_a_measurement_where_it_can_be_read(frame: Seq<u8>, instant: i64)
    ensures
        FrameKind::Measurement.fits(frame.len()) <==> measured(frame, Some(instant)) is Ok,
        FrameKind::Measurement.fits(frame.len()) <==> frame.len() >= 29,
        frame.len() < 29 && frame.len() <= usize::MAX ==> measured(frame, Some(instant)) == Err::<
            Measurement,
            MeasureError,
        >(MeasureError::TooShort(frame.len() as usize)),
        frame.len() >= 29 ==> measured(frame, None) == Err::<Measurement, MeasureError>(
            MeasureError::InvalidTimestamp,
        ),
{
}

/// A status that is not zero can be read off the report, as two hexadecimal
/// digits at its end; zero is reported as success.
pub proof fn a_failure_names_its_code(action: Seq<char>, code: u8)
    ensures
        code == 0 ==> report_text(action, code) == action + " succeeded"@,
        code != 0 ==> ({
            let s = report_text(action, code);
            let n = (action + " failed, CODE: 0x"@).len() as int;
            &&& s.len() == n + 2
            &&& s.take(n) == action + " failed, CODE: 0x"@
            &&& text::digits(s.skip(n), 16, 255) == Ok::<nat, text::IntError>(code as nat)
        }),
{
    if code != 0 {
        let number = text::number(code as nat, 16);
        let digits = text::pad(number, 2);
        let head = action + " failed, CODE: 0x"@;
        reveal_with_fuel(text::power, 3);
        text::lemma_number_reads_back(code as nat, 16, 255);
        text::lemma_number_width(code as nat, 16, 2);
        text::lemma_padding_keeps_the_number(number, 2, 16, 255);
        assert(report_text(action, code).skip(head.len() as int) =~= digits);
        assert(report_text(action, code).take(head.len() as int) =~= head);
    }
}

/// What is looked for among characteristics is found where it first stands.
pub proof fn the_first_of_its_kind_is_found(uuids: Seq<u128>, uuid: u128)
    ensures
        index_of(uuids, uuid) <= uuids.len(),
        index_of(uuids, uuid) < uuids.len() ==> uuids[index_of(uuids, uuid) as int] == uuid,
        forall|i: int| 0 <= i < index_of(uuids, uuid) ==> uuids[i] != uuid,
    decreases uuids.len(),
{
    if uuids.len() > 0 && uuids[0] != uuid {
        let rest = uuids.drop_first();
        the_first_of_its_kind_is_found(rest, uuid);
        assert forall|i: int| 0 <= i < index_of(uuids, uuid) implies uuids[i] != uuid by {
            if i > 0 {
                assert(rest[i - 1] != uuid);
            }
        }
    }
}

/// An adapter is told from one whose name goes on: only a space may follow.
pub proof fn adapters_are_told_apart(name: Seq<char>, next: char, rest: Seq<char>)
    ensures
        names_adapter(name, name),
        names_adapter(name + seq![next] + rest, name) <==> next == ' ',
{
    let info = name + seq![next] + rest;
    assert(info.take(name.len() as int) =~= name);
    assert(info[name.len() as int] == next);
}

/// A watt checker is recognised by its name, wherever in it the model stands, and
/// a device without a name is not.
pub proof fn a_watt_checker_is_known_by_its_name(before: Seq<char>, after: Seq<char>)
    ensures
        names_watt_checker(Some(before + "BTWATTCH2"@ + after)),
        !names_watt_checker(None),
        before.len() < 9 ==> !names_watt_checker(Some(before)),
        names_watt_checker(Some(after)) ==> text::holds(after, "BTWATTCH2"@),
{
    reveal_strlit("BTWATTCH2");
    if names_watt_checker(Some(after)) {
        let k = choose|k: int|
            0 <= k <= after.len() - "BTWATTCH2"@.len() && #[trigger] after.subrange(
                k,
                k + "BTWATTCH2"@.len(),
            ) == "BTWATTCH2"@;
        let (a, b) = (after.take(k), after.skip(k + 9));
        assert(after =~= a + after.subrange(k, k + 9) + b);
        text::lemma_holds(after, a, "BTWATTCH2"@, b);
    }
    let name = before + "BTWATTCH2"@ + after;
    let n = before.len() as int;
    assert(name.subrange(n, n + "BTWATTCH2"@.len()) =~= "BTWATTCH2"@);
}

/// A session writes its request on every tick, and on nothing else; a link that
/// was re-established by a write is subscribed to anew; one whose notifications
/// ended is re-established; and only a fresh link loses what was received of a
/// frame.
pub proof fn a_session_keeps_asking(s: SessionView, event: LinkEvent)
    ensures
        s.step(LinkEvent::Ticked) == LinkStepView::Write(s.request),
        s.step(event) is Write ==> event == LinkEvent::Ticked,
        s.step(LinkEvent::Written { reconnected: true }) is Listen,
        s.step(LinkEvent::Written { reconnected: false }) is Rest,
        s.step(LinkEvent::Ended) is Reconnect,
        s.step(LinkEvent::Relinked) is Rest,
        s.after(event).request == s.request,
        s.after(event).action == s.action,
        s.after(event).clock == s.clock,
        s.after(LinkEvent::Relinked).buffer.len() == 0,
        event != LinkEvent::Relinked ==> s.after(event).buffer == s.buffer,
{
}

/// The reply to a command tells how it went: well where its status is zero, and
/// badly otherwise.
pub proof fn a_session_hears_how_its_command_went(
    action: Seq<char>,
    clock: ClockView,
    command: u8,
    code: u8,
    heard: Heard,
)
    requires
        hears(Some(action), clock, clock, crate::payload::frame(seq![command, code]), heard),
    ensures
        heard matches Heard::Report(r) && (r is Ok <==> code == 0),
{
    a_reply_carries_its_status(command, code, 0);
}

/// Whoever waits for measurements hears each that comes, at the instant at which
/// the clock shows what the device's clock showed.
pub proof fn a_session_hears_measurements(
    before: ClockView,
    after: ClockView,
    frame: Seq<u8>,
    heard: Heard,
    t: i64,
)
    requires
        hears(None, before, after, frame, heard),
        frame.len() >= 29,
        device_clock(frame) is Some,
        time::asked_between(before, after)[0].found == Some(t),
    ensures
        heard matches Heard::Measurement(m) && m.timestamp == t && measured(frame, Some(t)) == Ok::<
            Measurement,
            MeasureError,
        >(m),
        time::asked_between(before, after)[0].naive == device_clock(frame)->0,
{
}

/// A load that draws as many watts as it has volts times amperes has a power
/// factor of one, one that draws none has a factor of zero, and a factor goes with
/// the power that is drawn. A volt and a watt are 2^24 units, an ampere is 2^30.
pub proof fn a_factor_is_power_over_apparent_power(
    m: Measurement,
    r: Option<(u128, u128)>,
    half: Measurement,
    h: Option<(u128, u128)>,
)
    requires
        m.in_range(),
        half.in_range(),
        m.has_factor(r),
        half.has_factor(h),
    ensures
        r is None <==> m.voltage == 0 || m.ampere == 0,
        r matches Some((n, d)) ==> {
            &&& m.wattage * 0x100_0000 * 0x4000_0000 == m.voltage * m.ampere * 0x100_0000 <==> n == d
            &&& m.wattage == 0 <==> n == 0
        },
        r is Some && half.voltage == m.voltage && half.ampere == m.ampere && 2 * half.wattage
            == m.wattage ==> {
            &&& r matches Some((n, d))
            &&& h matches Some((k, e))
            &&& e == d
            &&& 2 * k == n
        },
{
}

/// What is found among the characteristics of a device are the two that it is
/// written to and heard from, each where it first stands; the one that is missing
/// is named, the first where both are.
pub proof fn both_characteristics_are_found(uuids: Seq<u128>, r: Result<(usize, usize), String>)
    requires
        characteristics_found(uuids, r),
    ensures
        r is Ok <==> uuids.contains(0x6e400002_b5a3_f393_e0a9_e50e24dcca9e) && uuids.contains(
            0x6e400003_b5a3_f393_e0a9_e50e24dcca9e,
        ),
        r matches Ok(found) ==> {
            &&& found.0 < uuids.len() && uuids[found.0 as int]
                == 0x6e400002_b5a3_f393_e0a9_e50e24dcca9e
            &&& found.1 < uuids.len() && uuids[found.1 as int]
                == 0x6e400003_b5a3_f393_e0a9_e50e24dcca9e
            &&& forall|i: int|
                0 <= i < found.0 ==> uuids[i] != 0x6e400002_b5a3_f393_e0a9_e50e24dcca9e
            &&& forall|i: int|
                0 <= i < found.1 ==> uuids[i] != 0x6e400003_b5a3_f393_e0a9_e50e24dcca9e
        },
        !uuids.contains(0x6e400002_b5a3_f393_e0a9_e50e24dcca9e) ==> r is Err && r->Err_0@
            == "characteristic 6e400002-b5a3-f393-e0a9-e50e24dcca9e not found"@,
        uuids.contains(0x6e400002_b5a3_f393_e0a9_e50e24dcca9e) && !uuids.contains(
            0x6e400003_b5a3_f393_e0a9_e50e24dcca9e,
        ) ==> r is Err && r->Err_0@
            == "characteristic 6e400003-b5a3-f393-e0a9-e50e24dcca9e not found"@,
{
    the_first_of_its_kind_is_found(uuids, C_TX);
    the_first_of_its_kind_is_found(uuids, C_RX);
    let (tx, rx) = (index_of(uuids, C_TX) as int, index_of(uuids, C_RX) as int);
    if tx < uuids.len() {
        assert(uuids.contains(uuids[tx]));
    }
    if rx < uuids.len() {
        assert(uuids.contains(uuids[rx]));
    }
}

/// A reply reports success if and only if the status that it carries is zero; one
/// that is too short to carry any is a failure.
pub proof fn a_reply_reports_its_status(
    action: Seq<char>,
    frame: Seq<u8>,
    r: Result<String, String>,
)
    requires
        frame_reported(action, frame, r),
    ensures
        frame.len() < 5 ==> r is Err && r->Err_0@ == action + " failed, frame too short"@,
        frame.len() >= 5 ==> (r is Ok <==> frame[4] == 0),
        r matches Ok(s) ==> s@ == action + " succeeded"@,
        frame.len() >= 5 && frame[4] != 0 ==> r is Err && text::digits(
            r->Err_0@.skip((action + " failed, CODE: 0x"@).len() as int),
            16,
            255,
        ) == Ok::<nat, text::IntError>(frame[4] as nat),
{
    if frame.len() >= 5 {
        a_failure_names_its_code(action, frame[4]);
    }
}

/// A session starts with nothing received, and its first tick writes the request
/// that it was made for. It hears only what comes from the characteristic that the
/// device answers on: the reply to its request, whole or in two pieces, and
/// anything else passes it by.
pub proof fn a_session_hears_the_reply_to_its_request(
    request: Seq<u8>,
    action: Seq<char>,
    payload: Seq<u8>,
    at: int,
    characteristic: u128,
    first: SessionView,
    after: SessionView,
    nothing: Option<Heard>,
    heard: Option<Heard>,
)
    requires
        2 <= payload.len() <= 250,
        0 < at < payload.len() + 4,
        crate::payload::frame(payload)[at] != 0xaa,
        session_notified(
            SessionView::starting(request, Some(action)),
            first,
            characteristic,
            crate::payload::frame(payload).take(at),
            nothing,
        ),
        session_notified(
            first,
            after,
            characteristic,
            crate::payload::frame(payload).skip(at),
            heard,
        ),
    ensures
        SessionView::starting(request, Some(action)).step(LinkEvent::Ticked)
            == LinkStepView::Write(request),
        nothing is None,
        first.request == request,
        characteristic != 0x6e400003_b5a3_f393_e0a9_e50e24dcca9e ==> heard is None && after
            == SessionView::starting(request, Some(action)),
        characteristic == 0x6e400003_b5a3_f393_e0a9_e50e24dcca9e ==> {
            &&& heard matches Some(Heard::Report(r))
            &&& r is Ok <==> payload[1] == 0
            &&& after.buffer.len() == 0
            &&& first.buffer == crate::payload::frame(payload).take(at)
        },
{
    if characteristic == C_RX {
        split_frame_comes_out(payload, at);
        let f = crate::payload::frame(payload);
        assert(f[4] == payload[1]);
    }
}

/// Adapters are named by their number, and an adapter that goes by a name and
/// says more of itself is that of this number alone.
pub proof fn an_adapter_is_that_of_its_number(i: nat, j: nat, more: Seq<char>)
    ensures
        names_adapter(adapter(i) + seq![' '] + more, adapter(j)) <==> i == j,
        names_adapter(adapter(i), adapter(j)) <==> i == j,
        text::lacks(adapter(i), ' '),
{
    reveal_strlit("hci");
    let (a, b) = (adapter(i), adapter(j));
    text::lemma_decimal_digits(i);
    text::lemma_decimal_digits(j);
    assert(text::lacks(a, ' ')) by {
        assert forall|k: int| 0 <= k < a.len() implies #[trigger] a[k] != ' ' by {
            if k >= 3 {
                assert(a[k] == text::decimal(i)[k - 3]);
            }
        }
    }
    assert(text::lacks(b, ' ')) by {
        assert forall|k: int| 0 <= k < b.len() implies #[trigger] b[k] != ' ' by {
            if k >= 3 {
                assert(b[k] == text::decimal(j)[k - 3]);
            }
        }
    }
    let long = a + seq![' '] + more;
    let end = seq![' '];
    assert(long.take(a.len() as int) =~= a);
    if a == b {
        assert(text::decimal(i) =~= a.skip(3));
        assert(text::decimal(j) =~= b.skip(3));
        text::lemma_decimal_ends(i, end, j, end);
    }
    if names_adapter(long, b) {
        let n = b.len() as int;
        if long == b {
            assert(b[a.len() as int] == ' ');
        } else if n < a.len() {
            assert(long[n] == a[n]);
        } else if n > a.len() {
            assert(long.take(n)[a.len() as int] == ' ');
            assert(b[a.len() as int] == ' ');
        }
        assert(a == b);
    }
    if names_adapter(a, b) && a != b {
        assert(a[b.len() as int] == ' ');
    }
}

} // verus!
