use btwattch2::addr::{AddrError, BDAddr};
use btwattch2::connection::{
    adapter_name, after_connect, after_lookup, attempts_message, command_status,
    find_characteristics, info_enabled, is_adapter, measure_at, read_clock, read_measure,
    read_measure_on, try_measurement_on,
    report_command, report_frame, set_log_level, try_measurement, u48_le, ConnectStep, FindStep,
    FrameAssembler, FrameKind, Heard, LinkEvent, LinkStep, MeasureError, Measurement, ScanResults,
    Session, WriteRetry, WriteStep, C_RX, C_TX, MAX_FRAME_LEN,
};
use btwattch2::cli::LogLevel;
use btwattch2::log::{enabled, set_debug, Log};
use btwattch2::payload::{blink_led, generate, monitoring, off, on, rtc, HEADER};
use btwattch2::text::IntError;
use btwattch2::time::{local_datetime, resolve_local, resolve_on, LocalTime};
use btwattch2::wall_clock::WallClock;
use chrono::{Datelike, Local, TimeZone, Timelike};

#[test]
fn crc8_crc8_of_monitoring_command() {
    assert_eq!(btwattch2::crc8::crc8(&[0x08]), 0xB3);
}

#[test]
fn crc8_crc8_of_empty_payload() {
    assert_eq!(btwattch2::crc8::crc8(&[]), 0x00);
}

#[test]
fn payload_crc8_of_monitoring_command() {
    assert_eq!(btwattch2::payload::crc8(&[0x08]), 0xB3);
}

#[test]
fn payload_crc8_of_empty_payload() {
    assert_eq!(btwattch2::payload::crc8(&[]), 0x00);
}

#[test]
fn a_payload_and_its_checksum_leave_no_remainder() {
    let mut bytes = vec![1, 2, 3, 0xFF, 0xAA];
    bytes.push(btwattch2::crc8::crc8(&bytes));
    assert_eq!(btwattch2::crc8::crc8(&bytes), 0);
}

#[test]
fn one_damaged_byte_changes_the_checksum() {
    let good = [9, 8, 7, 6];
    for at in 0..4 {
        for value in 0..=255 {
            let mut bad = good;
            bad[at] = value;
            let same = btwattch2::crc8::crc8(&bad) == btwattch2::crc8::crc8(&good);
            assert_eq!(same, bad == good);
        }
    }
}

#[test]
fn monitoring_frame() {
    assert_eq!(monitoring(), vec![0xAA, 0x00, 0x01, 0x08, 0xB3]);
}

#[test]
fn command_frames() {
    assert_eq!(on()[..5], [0xAA, 0x00, 0x02, 0xA7, 0x01]);
    assert_eq!(off()[..5], [0xAA, 0x00, 0x02, 0xA7, 0x00]);
    assert_eq!(blink_led()[..8], [0xAA, 0x00, 0x05, 0x3E, 0x01, 0x02, 0x02, 0x0F]);
    let long = generate(&[7; 300]);
    assert_eq!(long[..4], [0xAA, 0x01, 0x2C, 7]);
    assert_eq!(long.len(), 304);
}

#[test]
fn rtc_frame_layout() {
    let time = Local.with_ymd_and_hms(2021, 1, 2, 3, 4, 5).unwrap();
    let frame = rtc(&LocalTime {
        year: time.year(),
        month: time.month(),
        day: time.day(),
        hour: time.hour(),
        minute: time.minute(),
        second: time.second(),
    })
    .unwrap();

    // header + size (BE) + payload (8 bytes) + crc
    assert_eq!(frame.len(), 12);
    assert_eq!(&frame[..3], &[0xAA, 0x00, 0x08]);
    // [cmd, sec, min, hour, day, mon - 1, year - 1900, wday]
    assert_eq!(&frame[3..11], &[0x01, 5, 4, 3, 2, 0, 121, 6]);
    assert_eq!(frame[11], btwattch2::payload::crc8(&frame[3..11]));
}

#[test]
fn a_year_that_does_not_fit_is_refused() {
    let at = |year| LocalTime { year, month: 2, day: 28, hour: 0, minute: 0, second: 0 };
    assert_eq!(rtc(&at(1900)).unwrap()[9], 0);
    assert_eq!(rtc(&at(2155)).unwrap()[9], 255);
    assert_eq!(
        rtc(&at(2156)).unwrap_err().message(),
        "year 2156 does not fit in the device's clock"
    );
    assert_eq!(
        rtc(&at(-5)).unwrap_err().message(),
        "year -5 does not fit in the device's clock"
    );
    // 2000-02-28 was a Monday.
    assert_eq!(rtc(&at(2000)).unwrap()[10], 1);
}

#[test]
fn u48_le_is_little_endian() {
    assert_eq!(u48_le(&[0x01, 0x00, 0x00, 0x00, 0x00, 0x00]), 1);
    assert_eq!(u48_le(&[0x00, 0x00, 0x00, 0x00, 0x00, 0x01]), 1 << 40);
    assert_eq!(u48_le(&[0xFF; 7]), (1 << 48) - 1);
}

fn measurement_frame() -> Vec<u8> {
    let mut frame = vec![0u8; 30];
    frame[0] = HEADER;
    // voltage = 100.5 * 2^24, little-endian
    frame[5..11].copy_from_slice(&(100 * (1u64 << 24) + (1 << 23)).to_le_bytes()[..6]);
    // ampere = 1.25 * 2^30
    frame[11..17].copy_from_slice(&((1u64 << 30) + (1 << 28)).to_le_bytes()[..6]);
    // wattage = 2^24
    frame[17..23].copy_from_slice(&(1u64 << 24).to_le_bytes()[..6]);
    // 2021-01-02 03:04:05 => [sec, min, hour, day, mon, year - 1900]
    frame[23..29].copy_from_slice(&[5, 4, 3, 2, 0, 121]);
    frame
}

#[test]
fn read_measure_parses_frame() {
    let frame = measurement_frame();
    let m = read_measure(&frame).unwrap();
    let voltage = m.voltage as f64 / (1u64 << 24) as f64;
    let ampere = m.ampere as f64 / (1u64 << 30) as f64;
    let wattage = m.wattage as f64 / (1u64 << 24) as f64;
    assert_eq!(voltage, 100.5);
    assert_eq!(ampere, 1.25);
    assert_eq!(wattage, 1.0);
    let (n, d) = m.power_factor().unwrap();
    let power_factor = n as f64 / d as f64;
    assert!((power_factor - 1.0 / (100.5 * 1.25)).abs() < 1e-12);
    let timestamp = Local.timestamp_opt(m.timestamp, 0).unwrap();
    assert_eq!(
        (
            timestamp.year(),
            timestamp.month(),
            timestamp.day(),
            timestamp.hour(),
            timestamp.minute(),
            timestamp.second()
        ),
        (2021, 1, 2, 3, 4, 5)
    );
}

#[test]
fn there_is_no_power_factor_without_voltage_or_current() {
    let m = Measurement { voltage: 0, ampere: 5, wattage: 5, timestamp: 0 };
    assert_eq!(m.power_factor(), None);
    let m = Measurement { voltage: 5, ampere: 0, wattage: 5, timestamp: 0 };
    assert_eq!(m.power_factor(), None);
    let m = Measurement { voltage: 2, ampere: 3, wattage: 5, timestamp: 0 };
    assert_eq!(m.power_factor(), Some((5 << 30, 6)));
}

#[test]
fn read_measure_rejects_short_frame() {
    assert!(read_measure(&[0xAA, 0x00, 0x00, 0x00]).is_err());
    assert_eq!(
        read_measure(&[0xAA; 28]),
        Err(MeasureError::TooShort(28))
    );
    assert_eq!(
        try_measurement(&[0xAA; 4]).unwrap_err(),
        "Failed to parse measurement: frame too short: 4 bytes"
    );
}

#[test]
fn read_measure_rejects_a_date_that_does_not_exist() {
    let mut frame = measurement_frame();
    assert_eq!(read_clock(&frame), Some(1609556645));
    frame[26] = 31;
    frame[27] = 1;
    assert_eq!(read_clock(&frame), None);
    assert_eq!(read_measure(&frame), Err(MeasureError::InvalidTimestamp));
    assert_eq!(
        try_measurement(&frame).unwrap_err(),
        "Failed to parse measurement: invalid timestamp in frame"
    );
    // A leap second is no time of day.
    let mut frame = measurement_frame();
    frame[23] = 60;
    assert_eq!(read_clock(&frame), None);
    // 2000 was a leap year, 1900 was not.
    frame[23..29].copy_from_slice(&[0, 0, 0, 29, 1, 100]);
    assert_eq!(read_clock(&frame), Some(951782400));
    frame[28] = 0;
    assert_eq!(read_clock(&frame), None);
}

#[test]
fn a_measurement_is_read_on_the_clock_that_is_given() {
    let mut frame = measurement_frame();
    let mut clock = WallClock::new();
    let read = read_measure_on(&mut clock, &frame).unwrap();
    let time = Local.with_ymd_and_hms(2021, 1, 2, 3, 4, 5).unwrap();
    assert_eq!(read.timestamp, time.timestamp());
    assert_eq!(Ok(read), try_measurement_on(&mut clock, &frame));
    assert_eq!(
        read_measure_on(&mut clock, &frame[..28]),
        Err(MeasureError::TooShort(28))
    );
    frame[27] = 12;
    assert_eq!(
        try_measurement_on(&mut clock, &frame).unwrap_err(),
        "Failed to parse measurement: invalid timestamp in frame"
    );
}

#[test]
fn the_instant_of_a_measurement_is_the_one_given() {
    let frame = measurement_frame();
    assert_eq!(measure_at(&frame, Some(77)).unwrap().timestamp, 77);
    assert_eq!(measure_at(&frame, None), Err(MeasureError::InvalidTimestamp));
    assert_eq!(measure_at(&frame[..20], Some(77)), Err(MeasureError::TooShort(20)));
}

#[test]
fn a_time_in_a_gap_is_an_hour_before_the_next_hour() {
    assert_eq!(resolve_local(Some(5), Some(100_000)), Some(5));
    assert_eq!(resolve_local(None, Some(100_000)), Some(96_400));
    assert_eq!(resolve_local(None, None), None);
}

#[test]
fn a_wall_clock_time_is_resolved_on_the_systems_clock() {
    let time = Local.with_ymd_and_hms(2021, 6, 15, 12, 0, 0).unwrap();
    let naive = time.naive_local().and_utc().timestamp();
    let mut clock = WallClock::new();
    assert_eq!(resolve_on(&mut clock, naive), Some(time.timestamp()));
    assert_eq!(local_datetime(naive), Some(time.timestamp()));
}

#[test]
fn frame_assembler_reassembles_split_frame() {
    let mut a = FrameAssembler::new();
    assert_eq!(a.feed(&[HEADER, 0x00, 0x03, 0x01]), None);
    assert_eq!(
        a.feed(&[0x02, 0x03, 0xFF]),
        Some(vec![HEADER, 0x00, 0x03, 0x01, 0x02, 0x03, 0xFF])
    );
}

#[test]
fn frame_assembler_restarts_on_new_header() {
    let mut a = FrameAssembler::new();
    assert_eq!(a.feed(&[HEADER, 0x00, 0x08, 0x01]), None);
    // A fresh header mid-frame abandons the partial one.
    assert_eq!(
        a.feed(&[HEADER, 0x00, 0x01, 0x08, 0xB3]),
        Some(vec![HEADER, 0x00, 0x01, 0x08, 0xB3])
    );
}

#[test]
fn frame_assembler_discards_oversized_buffer() {
    let mut a = FrameAssembler::new();
    // Declares a payload far longer than any real frame.
    a.feed(&[HEADER, 0xFF, 0xFF]);
    let mut discarded = false;
    for _ in 0..MAX_FRAME_LEN {
        a.feed(&[0x00]);
        discarded = discarded || a.discarded();
    }
    assert!(a.buffered() <= MAX_FRAME_LEN);
    assert!(discarded);
}

#[test]
fn a_generated_frame_comes_out_whole_or_in_pieces() {
    let frame = generate(&[1, 2, 3, 4, 5]);
    let mut a = FrameAssembler::new();
    assert_eq!(a.feed(&frame), Some(frame.clone()));
    for at in 1..frame.len() {
        assert_eq!(a.feed(&frame[..at]), None);
        assert_eq!(a.feed(&frame[at..]), Some(frame.clone()));
    }
    // Byte by byte, with nothing in between.
    let (last, rest) = frame.split_last().unwrap();
    for byte in rest {
        assert_eq!(a.feed(&[*byte]), None);
        assert_eq!(a.feed(&[]), None);
        assert!(!a.discarded());
    }
    assert_eq!(a.feed(&[*last]), Some(frame.clone()));
    assert_eq!(a.buffered(), 0);
}

#[test]
fn what_follows_a_frame_is_cut_off() {
    let mut a = FrameAssembler::new();
    assert_eq!(
        a.feed(&[HEADER, 0, 1, 8, 0xB3, 1, 2, 3]),
        Some(vec![HEADER, 0, 1, 8, 0xB3])
    );
    assert_eq!(a.buffered(), 0);
    a.feed(&[HEADER, 0]);
    a.clear();
    assert_eq!(a.buffered(), 0);
    let mut data = vec![0xFF; MAX_FRAME_LEN + 1];
    data[0] = HEADER;
    assert_eq!(a.feed(&data), None);
    assert!(a.discarded());
    a.clear();
    assert!(!a.discarded());
}

#[test]
fn a_session_writes_its_request_until_it_is_answered() {
    let mut s = Session::new(on(), Some("Power on".to_string()));
    assert_eq!(s.follow(LinkEvent::Ticked), LinkStep::Write(on()));
    assert_eq!(s.follow(LinkEvent::Written { reconnected: false }), LinkStep::Rest);
    assert_eq!(s.follow(LinkEvent::Written { reconnected: true }), LinkStep::Listen);
    assert_eq!(s.notified(C_TX, &generate(&[0xA7, 0])), None);
    // What was received of a frame is lost with the link.
    assert_eq!(s.notified(C_RX, &[HEADER, 0]), None);
    assert_eq!(s.follow(LinkEvent::Ended), LinkStep::Reconnect);
    assert_eq!(s.follow(LinkEvent::Relinked), LinkStep::Rest);
    assert_eq!(s.notified(C_RX, &[2, 0xA7, 0, 0]), None);
    assert_eq!(
        s.notified(C_RX, &generate(&[0xA7, 0])),
        Some(Heard::Report(Ok("Power on succeeded".to_string())))
    );
    assert_eq!(
        s.notified(C_RX, &generate(&[0xA7, 9])),
        Some(Heard::Report(Err("Power on failed, CODE: 0x09".to_string())))
    );
    assert_eq!(
        s.notified(C_RX, &[HEADER, 0, 0, 0]),
        Some(Heard::Report(Err("Power on failed, frame too short".to_string())))
    );
}

#[test]
fn a_session_of_measurements_skips_what_it_cannot_read() {
    let mut s = Session::new(monitoring(), None);
    assert_eq!(
        s.notified(C_RX, &monitoring()),
        Some(Heard::Failure(
            "Failed to parse measurement: frame too short: 5 bytes".to_string()
        ))
    );
    let frame = generate(&measurement_frame()[3..29]);
    match s.notified(C_RX, &frame) {
        Some(Heard::Measurement(m)) => assert_eq!(m.wattage, 1 << 24),
        other => panic!("{other:?} is no measurement"),
    }
    assert!(!s.discarded());
    let mut data = vec![0u8; 257];
    data[..3].copy_from_slice(&[HEADER, 0xFF, 0xFF]);
    assert_eq!(s.notified(C_RX, &data), None);
    assert!(s.discarded());
}

#[test]
fn frames_are_told_apart_by_their_length() {
    assert!(FrameKind::Measurement.matches(&[0; 29]));
    assert!(!FrameKind::Measurement.matches(&[0; 28]));
    assert!(FrameKind::Command.matches(&[0; 28]));
    assert!(!FrameKind::Command.matches(&[0; 29]));
}

#[test]
fn a_command_is_reported_by_its_status_byte() {
    assert_eq!(command_status(&[1, 2, 3, 4]), None);
    assert_eq!(command_status(&[1, 2, 3, 4, 5]), Some(5));
    assert_eq!(report_command("Blink", 0), Ok("Blink succeeded".to_string()));
    assert_eq!(
        report_command("Power on", 5),
        Err("Power on failed, CODE: 0x05".to_string())
    );
    assert_eq!(
        report_frame("Power off", &[0, 0, 0, 0, 0xAB]),
        Err("Power off failed, CODE: 0xab".to_string())
    );
    assert_eq!(
        report_frame("RTC set", &[0, 0]),
        Err("RTC set failed, frame too short".to_string())
    );
}

#[test]
fn the_characteristics_are_found_by_their_uuid() {
    assert_eq!(find_characteristics(&vec![1, C_RX, C_TX, C_RX]), Ok((2, 1)));
    assert_eq!(
        find_characteristics(&vec![C_RX]).unwrap_err(),
        "characteristic 6e400002-b5a3-f393-e0a9-e50e24dcca9e not found"
    );
    assert_eq!(
        find_characteristics(&vec![C_TX]).unwrap_err(),
        "characteristic 6e400003-b5a3-f393-e0a9-e50e24dcca9e not found"
    );
    let tx = uuid::Uuid::from_u128(C_TX);
    assert_eq!(tx.to_string(), "6e400002-b5a3-f393-e0a9-e50e24dcca9e");
    let rx = uuid::Uuid::from_u128(C_RX);
    assert_eq!(rx.to_string(), "6e400003-b5a3-f393-e0a9-e50e24dcca9e");
}

#[test]
fn an_adapter_says_its_name_first() {
    assert_eq!(adapter_name(1), "hci1");
    assert!(is_adapter("hci1", "hci1"));
    assert!(is_adapter("hci1 (usb:v1D6Bp0246d0540)", "hci1"));
    assert!(!is_adapter("hci10", "hci1"));
    assert!(!is_adapter("hci", "hci1"));
    assert!(!is_adapter("xhci1", "hci1"));
}

#[test]
fn connecting_is_retried_five_times() {
    assert_eq!(after_connect(1, true), ConnectStep::Connected);
    for attempt in 1..5 {
        assert_eq!(after_connect(attempt, false), ConnectStep::Retry(attempt + 1));
    }
    assert_eq!(after_connect(5, false), ConnectStep::GiveUp);
    assert_eq!(attempts_message("connect", 5), "connect failed after 5 attempts");
}

#[test]
fn writing_is_retried_through_reconnects() {
    let mut w = WriteRetry::new();
    assert_eq!(w.written(true), WriteStep::Done { reconnected: false });
    assert_eq!(w.written(false), WriteStep::Reconnect);
    w.reconnect(false);
    assert_eq!(w.written(true), WriteStep::Done { reconnected: false });
    w.reconnect(true);
    assert_eq!(w.written(true), WriteStep::Done { reconnected: true });
    w.reconnect(false);
    assert_eq!(w.written(true), WriteStep::Done { reconnected: true });
    w.reconnect(false);
    assert_eq!(w.attempt, 5);
    assert_eq!(w.written(false), WriteStep::GiveUp);
}

#[test]
fn a_device_is_searched_until_time_is_up() {
    assert_eq!(after_lookup(true, false, false), FindStep::Found);
    assert_eq!(after_lookup(false, false, true), FindStep::Scan);
    assert_eq!(after_lookup(false, true, false), FindStep::Wait);
    assert_eq!(after_lookup(false, true, true), FindStep::NotFound);
    assert_eq!(after_lookup(true, true, true), FindStep::Found);
}

#[test]
fn a_scan_keeps_each_advertising_device_once() {
    let a = BDAddr::parse("CB:DF:6B:12:34:56").unwrap();
    let b = BDAddr::parse("F4:12:00:AB:CD:EF").unwrap();
    let mut r = ScanResults::new();
    assert!(r.wants(a));
    r.record(a, None, Some(-70));
    assert!(r.wants(a));
    r.record(b, Some("remembered".to_string()), None);
    assert!(r.wants(b));
    r.record(a, Some("RS-BTWATTCH2".to_string()), Some(-62));
    assert!(!r.wants(a));
    r.record(b, None, Some(-88));
    let devices = r.into_devices();
    assert_eq!(devices.len(), 2);
    assert_eq!(devices[0].addr, a);
    assert_eq!(devices[0].rssi, -62);
    assert!(devices[0].is_watt_checker());
    assert_eq!(devices[1].addr, b);
    assert!(!devices[1].is_watt_checker());
}

#[test]
fn the_log_level_decides_what_is_printed() {
    let mut log = Log { info: false };
    set_log_level(&mut log, LogLevel::Info);
    assert!(info_enabled(&log));
    set_log_level(&mut log, LogLevel::Off);
    assert!(!enabled(&log));
    set_debug(&mut log, true);
    assert!(enabled(&log));
}

#[test]
fn an_address_reads_back_as_it_is_written() {
    for text in ["CB:DF:6B:12:34:56", "00:00:00:00:00:00", "FF:FF:FF:FF:FF:FF"] {
        assert_eq!(BDAddr::parse(text).unwrap().display(), text);
    }
    assert_eq!(
        BDAddr::parse("cbdf6b123456").unwrap().display(),
        "CB:DF:6B:12:34:56"
    );
    assert_eq!(BDAddr::parse("1:2:3:4:5:+6"), Ok(BDAddr(1, 2, 3, 4, 5, 6)));
}

#[test]
fn a_text_that_is_no_address_is_refused_with_its_reason() {
    for (text, expected) in [
        ("", AddrError::IncorrectByteCount),
        ("cbdf6b12345", AddrError::IncorrectByteCount),
        ("CB:DF:6B:12:34", AddrError::IncorrectByteCount),
        ("CB:DF:6B:12:34:56:78", AddrError::IncorrectByteCount),
        ("CB:DF:6B:12:34:", AddrError::InvalidDigit(IntError::Empty)),
        ("CB:DF:6B:12:34:5G", AddrError::InvalidDigit(IntError::InvalidDigit)),
        ("CB:DF:100:12:34:56", AddrError::InvalidDigit(IntError::TooLarge)),
        ("cbdf6b12345g", AddrError::InvalidDigit(IntError::InvalidDigit)),
        ("ééé12345", AddrError::IncorrectByteCount),
    ] {
        assert_eq!(BDAddr::parse(text), Err(expected), "parsing {text:?}");
    }
    assert_eq!(
        BDAddr::parse(":").unwrap_err().message(),
        "Invalid digit in address: cannot parse integer from empty string"
    );
}
