pub use crate::crc8::crc8;
use crate::text;
use crate::time::{self, LocalTime};
use vstd::prelude::*;
use vstd::string::*;

verus! {

/// Every frame, in both directions, starts with this byte.
pub const HEADER: u8 = 0xAA;

/// Length of the header (1) + size field (2) + CRC (1).
pub const FRAME_OVERHEAD: usize = 4;

pub const RTC_TIMER: u8 = 0x01;

pub const MONITORING: u8 = 0x08;

pub const SWITCH: u8 = 0xA7;

/// The years that the single byte of the wire format can carry.
pub const FIRST_YEAR: i32 = 1900;

pub const LAST_YEAR: i32 = 2155;

/// The frame that carries `payload`: header, size in big-endian order, payload,
/// checksum.
pub open spec fn frame(payload: Seq<u8>) -> Seq<u8> {
    seq![HEADER, (payload.len() / 256 % 256) as u8, (payload.len() % 256) as u8] + payload
        + seq![crate::crc8::crc(payload)]
}

/// Frame `payload` for the wire.
pub fn generate(payload: &[u8]) -> (bytes: Vec<u8>)
    ensures
        bytes@ == frame(payload@),
{
    let mut bytes: Vec<u8> = Vec::new();
    bytes.push(HEADER);
    let n: usize = payload.len();
    bytes.push((n / 256 % 256) as u8);
    bytes.push((n % 256) as u8);
    let mut i: usize = 0;
    while i < payload.len()
        invariant
            i <= payload@.len(),
            bytes@ == seq![
                HEADER,
                (payload@.len() / 256 % 256) as u8,
                (payload@.len() % 256) as u8,
            ] + payload@.take(i as int),
        decreases payload@.len() - i,
    {
        bytes.push(payload[i]);
        i = i + 1;
    }
    bytes.push(crc8(payload));
    bytes
}

/// The time cannot be put into a frame.
#[derive(Clone, Copy, Debug, PartialEq, Eq, Structural)]
pub struct YearOutOfRange {
    pub year: i32,
}

impl YearOutOfRange {
    pub open spec fn text(self) -> Seq<char> {
        "year "@ + text::integer(self.year as int) + " does not fit in the device's clock"@
    }

    /// What is wrong, in words.
    pub fn message(self) -> (s: String)
        ensures
            s@ == self.text(),
    {
        let mut s = "year ".to_owned();
        s.append(text::integer_string(self.year as i64).as_str());
        s.append(" does not fit in the device's clock");
        s
    }
}

/// What the payload that sets the clock holds: command, second, minute, hour,
/// day, month from zero, year from 1900, day of the week from Sunday.
pub open spec fn rtc_payload(t: LocalTime) -> Seq<u8> {
    seq![
        RTC_TIMER,
        t.second as u8,
        t.minute as u8,
        t.hour as u8,
        t.day as u8,
        (t.month - 1) as u8,
        (t.year - 1900) as u8,
        time::weekday_of(time::day_number(t.year as int, t.month as int, t.day as int)) as u8,
    ]
}

/// The frame that sets the device's clock to `time`. The wire format carries
/// the year in a single byte, so a year that does not fit is refused rather
/// than set wrongly.
pub fn rtc(time: &LocalTime) -> (r: Result<Vec<u8>, YearOutOfRange>)
    requires
        time.valid(),
    ensures
        r is Ok <==> FIRST_YEAR <= time.year <= LAST_YEAR,
        r matches Ok(bytes) ==> bytes@ == frame(rtc_payload(*time)),
        r matches Err(e) ==> e.year == time.year,
{
    if time.year < FIRST_YEAR || time.year > LAST_YEAR {
        return Err(YearOutOfRange { year: time.year });
    }
    let payload: Vec<u8> = vec![
        RTC_TIMER,
        time.second as u8,
        time.minute as u8,
        time.hour as u8,
        time.day as u8,
        (time.month - 1) as u8,
        (time.year - 1900) as u8,
        time::weekday_from_sunday(time.year, time.month, time.day),
    ];
    assert(payload@ =~= rtc_payload(*time));
    Ok(generate(payload.as_slice()))
}

/// The frame that asks for a measurement.
pub fn monitoring() -> (bytes: Vec<u8>)
    ensures
        bytes@ == frame(seq![MONITORING]),
{
    let payload: Vec<u8> = vec![MONITORING];
    assert(payload@ =~= seq![MONITORING]);
    generate(payload.as_slice())
}

/// The frame that closes the switch.
pub fn on() -> (bytes: Vec<u8>)
    ensures
        bytes@ == frame(seq![SWITCH, 0x01]),
{
    let payload: Vec<u8> = vec![SWITCH, 0x01];
    assert(payload@ =~= seq![SWITCH, 0x01]);
    generate(payload.as_slice())
}

/// The frame that opens the switch.
pub fn off() -> (bytes: Vec<u8>)
    ensures
        bytes@ == frame(seq![SWITCH, 0x00]),
{
    let payload: Vec<u8> = vec![SWITCH, 0x00];
    assert(payload@ =~= seq![SWITCH, 0x00]);
    generate(payload.as_slice())
}

/// The frame that blinks the LED.
pub fn blink_led() -> (bytes: Vec<u8>)
    ensures
        bytes@ == frame(seq![0x3E, 0x01, 0x02, 0x02, 0x0F]),
{
    let payload: Vec<u8> = vec![0x3E, 0x01, 0x02, 0x02, 0x0F];
    assert(payload@ =~= seq![0x3E, 0x01, 0x02, 0x02, 0x0F]);
    generate(payload.as_slice())
}

/// The same bytes once more.
pub(crate) fn copied(bytes: &Vec<u8>) -> (v: Vec<u8>)
    ensures
        v@ == bytes@,
{
    let mut v: Vec<u8> = Vec::new();
    let mut i: usize = 0;
    while i < bytes.len()
        invariant
            i <= bytes@.len(),
            v@ == bytes@.take(i as int),
        decreases bytes@.len() - i,
    {
        v.push(bytes[i]);
        i = i + 1;
    }
    assert(bytes@.take(i as int) =~= bytes@);
    v
}

/// A frame says what it carries: it starts with its header, then comes the number
/// of bytes of the payload, most significant first, then the payload as it is,
/// and the last byte leaves no remainder.
pub proof fn frame_carries_the_payload(payload: Seq<u8>)
    requires
        payload.len() <= 0xffff,
    ensures
        ({
            let f = frame(payload);
            let n = payload.len() as int;
            &&& f.len() == n + 4
            &&& f[0] == 0xaa
            &&& f[1] * 256 + f[2] == n
            &&& f.subrange(3, n + 3) == payload
            &&& crate::crc8::crc(f.subrange(3, n + 4)) == 0
        }),
{
    let f = frame(payload);
    let n = payload.len() as int;
    assert(n / 256 < 256);
    assert(f.subrange(3, n + 3) =~= payload);
    assert(f.subrange(3, n + 4) =~= payload.push(crate::crc8::crc(payload)));
    crate::crc8::crc_of_payload_and_checksum_is_zero(payload);
}

/// Setting the clock and reading it are inverse: a measurement that carries what
/// was set shows the time that was set, to the second. The day of the week goes
/// with the date: 1970-01-01 was a Thursday.
pub proof fn what_is_set_reads_back(t: LocalTime, measurement: Seq<u8>)
    requires
        t.valid(),
        1900 <= t.year <= 2155,
        measurement.len() >= 29,
        measurement.subrange(23, 29) == rtc_payload(t).subrange(1, 7),
    ensures
        rtc_payload(t).len() == 8,
        rtc_payload(t)[0] == 0x01,
        crate::connection::device_clock(measurement) == Some(t.seconds() as i64),
        rtc_payload(t)[7] == (t.seconds() / 86_400 + 4) % 7,
{
    let p = rtc_payload(t);
    let (carried, set) = (measurement.subrange(23, 29), p.subrange(1, 7));
    assert(carried[0] == set[0] && carried[1] == set[1] && carried[2] == set[2] && carried[3]
        == set[3] && carried[4] == set[4] && carried[5] == set[5]);
    let (h, m, s) = (t.hour as int, t.minute as int, t.second as int);
    let d = time::day_number(t.year as int, t.month as int, t.day as int);
    assert((d * 86_400 + h * 3600 + m * 60 + s) / 86_400 == d);
}

} // verus!
