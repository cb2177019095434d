use btwattch2::addr::BDAddr;
use btwattch2::agent::protocol::{AgentStatus, Request, Response};
use btwattch2::agent::server::rtc_frame;
use btwattch2::agent::{AgentPaths, DaemonInfo};
use btwattch2::cli::{Cli, ConnectOpts, LogLevel, Mode, OutputFormat, ScanMode, Settings};
use btwattch2::connection::{Measurement, ScannedDevice};
use btwattch2::output::{
    metrics_exposition, ChannelText, Printer, Quantity, Rendered, Stats, StreamRenderer,
    SummaryText,
};
use btwattch2::payload::{blink_led, off, on};
use btwattch2::report::{
    clock_reply, command_reply, daemon_work, direct_work, ensure_addr_matches, format_duration,
    format_seconds, goes_through_agent, plan, print_agent_status, print_rtc_drift, print_scan,
    rtc_drift, rtc_report, scan_window, status_report, stop_report, warn_ignored_flags,
    DaemonWork, DirectWork, Plan,
};
use btwattch2::time::Moment;
use btwattch2::wall_clock::WallClock;

fn rendered() -> Rendered {
    Rendered {
        voltage: "104.807".to_string(),
        ampere: "1.12".to_string(),
        wattage: "104.895".to_string(),
        power_factor: "0.89361234".to_string(),
        power_factor_rounded: "0.8936".to_string(),
        energy: "0.0291234".to_string(),
        energy_rounded: "0.029".to_string(),
        epoch: 1609304963,
    }
}

#[test]
fn plain_is_for_people() {
    let mut p = Printer::new(OutputFormat::Plain, "btwattch2");
    let line = "V = 104.807, A = 1.12, W = 104.895, PF = 0.8936, Wh = 0.029\n";
    assert_eq!(p.print(&rendered()), line);
    assert_eq!(p.print(&rendered()), line);
}

#[test]
fn json_is_an_object_per_line() {
    let mut p = Printer::new(OutputFormat::Json, "btwattch2");
    assert_eq!(
        p.print(&rendered()),
        "{\"time\":1609304963,\"voltage\":104.807,\"ampere\":1.12,\"wattage\":104.895,\
         \"power_factor\":0.89361234,\"energy_wh\":0.0291234}\n"
    );
}

#[test]
fn csv_has_its_header_once() {
    let mut p = Printer::new(OutputFormat::Csv, "btwattch2");
    let row = "1609304963,104.807,1.12,104.895,0.89361234,0.0291234\n";
    assert_eq!(
        p.print(&rendered()),
        format!("time,voltage,ampere,wattage,power_factor,energy_wh\n{row}")
    );
    assert_eq!(p.print(&rendered()), row);
}

#[test]
fn ltsv_labels_its_values() {
    let mut p = Printer::new(OutputFormat::Ltsv, "btwattch2");
    assert_eq!(
        p.print(&rendered()),
        "time:1609304963\tvoltage:104.807\tampere:1.12\twattage:104.895\t\
         power_factor:0.89361234\tenergy_wh:0.0291234\n"
    );
}

#[test]
fn mackerel_has_a_line_per_metric() {
    let mut p = Printer::new(OutputFormat::Mackerel, "wattchecker1");
    assert_eq!(
        p.print(&rendered()),
        "wattchecker1.voltage\t104.807\t1609304963\n\
         wattchecker1.ampere\t1.12\t1609304963\n\
         wattchecker1.wattage\t104.895\t1609304963\n\
         wattchecker1.power_factor\t0.89361234\t1609304963\n"
    );
}

#[test]
fn prometheus_declares_its_gauges_once() {
    let mut p = Printer::new(OutputFormat::Prometheus, "w");
    let first = p.print(&rendered());
    let second = p.print(&rendered());
    assert_eq!(
        second,
        "w_voltage 104.807 1609304963000\n\
         w_ampere 1.12 1609304963000\n\
         w_wattage 104.895 1609304963000\n\
         w_power_factor 0.89361234 1609304963000\n\
         w_energy_wh 0.0291234 1609304963000\n"
    );
    assert_eq!(
        first,
        format!(
            "# HELP w_voltage Instantaneous voltage in volts\n\
             # TYPE w_voltage gauge\n\
             # HELP w_ampere Instantaneous current in amperes\n\
             # TYPE w_ampere gauge\n\
             # HELP w_wattage Instantaneous power in watts\n\
             # TYPE w_wattage gauge\n\
             # HELP w_power_factor Power factor (wattage / (voltage * ampere))\n\
             # TYPE w_power_factor gauge\n\
             # HELP w_energy_wh Energy accumulated this session in watt-hours\n\
             # TYPE w_energy_wh gauge\n{second}"
        )
    );
}

#[test]
fn a_scrape_carries_no_time_per_sample() {
    let text = metrics_exposition("w", Some(&rendered()), true);
    assert!(text.starts_with(
        "# HELP w_voltage Instantaneous voltage in volts\n# TYPE w_voltage gauge\n\
         w_voltage 104.807\n"
    ));
    assert!(text.ends_with(
        "# TYPE w_last_sample_timestamp_seconds gauge\n\
         w_last_sample_timestamp_seconds 1609304963\n# TYPE w_up gauge\nw_up 1\n"
    ));
    assert_eq!(
        metrics_exposition("w", None, false),
        "# TYPE w_up gauge\nw_up 0\n"
    );
}

fn measurement(wattage: u64) -> Measurement {
    Measurement {
        voltage: 100 << 24,
        ampere: 1 << 30,
        wattage: wattage << 24,
        timestamp: 1609304963,
    }
}

/// Watt-hours of an energy in 2^-24 W times nanoseconds.
fn watt_hours(energy: u128) -> f64 {
    energy as f64 / (1u64 << 24) as f64 / 1e9 / 3600.0
}

#[test]
fn first_sample_contributes_no_energy() {
    let mut stats = Stats::new();
    assert_eq!(watt_hours(stats.record(&measurement(3600), 5)), 0.0);
}

#[test]
fn energy_integrates_elapsed_time() {
    let mut stats = Stats::new();
    stats.record(&measurement(3600), 1_000_000_000);
    // 3600 W for >= 20 ms is >= 0.02 Wh.
    let energy = stats.record(&measurement(3600), 1_020_000_000);
    assert!(watt_hours(energy) >= 0.02);
    assert_eq!(energy, (3600u128 << 24) * 20_000_000);
    // A long gap is accounted for at its real length.
    let energy = stats.record(&measurement(1), 3_601_020_000_000);
    assert_eq!(watt_hours(energy), 0.02 + 1.0);
    assert_eq!(stats.energy(), energy);
}

#[test]
fn statistics_keep_the_extremes_and_the_sum() {
    let mut stats = Stats::new();
    for (at, w) in [(1, 7), (2, 3), (3, 9)] {
        stats.record(&measurement(w), at);
    }
    let c = stats.channel(Quantity::Wattage);
    assert_eq!((c.min, c.max, c.sum), (3 << 24, 9 << 24, 19 << 24));
    let c = stats.channel(Quantity::Voltage);
    assert_eq!((c.min, c.max, c.sum), (100 << 24, 100 << 24, 300 << 24));
    assert_eq!(stats.channel(Quantity::Ampere).sum, 3 << 30);
    assert_eq!(stats.count(), 3);
}

fn summary_text() -> SummaryText {
    let channel = |n: &str| ChannelText {
        min: format!("{n}.000"),
        max: format!("{n}.500"),
        avg: format!("{n}.250"),
    };
    SummaryText {
        voltage: channel("1"),
        ampere: channel("2"),
        wattage: channel("3"),
        power_factor: channel("0"),
        energy: "0.020".to_string(),
    }
}

#[test]
fn a_run_ends_with_a_summary() {
    let mut stats = Stats::new();
    assert_eq!(stats.print_summary(&summary_text()), None);
    stats.record(&measurement(1), 1);
    assert_eq!(
        stats.print_summary(&summary_text()).unwrap(),
        "--- summary (1-sample run) ---\n\
         voltage: min=1.000  max=1.500  avg=1.250\n\
         ampere: min=2.000  max=2.500  avg=2.250\n\
         wattage: min=3.000  max=3.500  avg=3.250\n\
         power_factor: min=0.000  max=0.500  avg=0.250\n\
         energy: 0.020 Wh\n"
    );
}

#[test]
fn a_stream_stops_when_it_has_enough() {
    let mut r = StreamRenderer::new(OutputFormat::Csv, "x", Some(2), LogLevel::Info);
    assert!(!r.finished());
    r.sample(&measurement(1), 1);
    assert!(r.record(&rendered()).starts_with("time,"));
    assert!(!r.finished());
    assert_eq!(r.sample(&measurement(1), 11), 10 << 24);
    assert!(r.record(&rendered()).starts_with("1609304963,"));
    assert!(r.finished());
    assert_eq!(r.stats().count(), 2);
    assert!(r.summary(&summary_text()).unwrap().contains("2-sample run"));

    let mut quiet = StreamRenderer::new(OutputFormat::Csv, "x", None, LogLevel::Off);
    quiet.sample(&measurement(1), 1);
    assert!(!quiet.finished());
    assert_eq!(quiet.summary(&summary_text()), None);
}

/// Status output is meant to be pasteable back into `--interval`.
#[test]
fn seconds_are_spelled_the_way_the_flag_accepts() {
    for (seconds, expected) in [
        (1.0, "1s"),
        (2.0, "2s"),
        (1.5, "1.5s"),
        (0.5, "500ms"),
        (0.9, "900ms"),
        (0.01, "10ms"),
    ] {
        let nanos = (seconds * 1e9) as u64;
        assert_eq!(format_seconds(nanos), expected, "formatting {seconds}");
    }
    assert_eq!(format_seconds(899_999_999), "900ms");
    assert_eq!(format_seconds(499_999), "0ns");
    assert_eq!(format_seconds(500_000), "1ms");
}

#[test]
fn an_uptime_drops_the_units_that_read_as_zero() {
    for (seconds, expected) in [
        (4, "4s"),
        (64, "1m 4s"),
        (3600, "1h 0m 0s"),
        (11524, "3h 12m 4s"),
    ] {
        assert_eq!(format_duration(seconds), expected, "formatting {seconds}");
    }
}

fn status() -> AgentStatus {
    AgentStatus {
        uptime_seconds: 11524,
        interval_nanos: 1_000_000_000,
        connected: true,
        samples: 11524,
        last_sample_age_nanos: Some(900_000_000),
        reconnects: 3,
        clients: 1,
        metrics_listen: Some("127.0.0.1:9101".to_string()),
    }
}

#[test]
fn a_running_agent_reports_itself() {
    let paths = AgentPaths {
        socket: "/run/btwattch2/btwattch2.sock".to_string(),
        pid: "/run/btwattch2/btwattch2.pid".to_string(),
    };
    let daemon = DaemonInfo {
        addr: BDAddr::parse("CB:DF:6B:12:34:56").ok(),
        status: Some(status()),
    };
    assert_eq!(
        status_report(&paths, Some("2417\n"), Some(&daemon)),
        "Agent is running (pid 2417)\n\
         Socket:      /run/btwattch2/btwattch2.sock\n\
         Attached to: CB:DF:6B:12:34:56\n\
         Link:        connected\n\
         Interval:    1s\n\
         Uptime:      3h 12m 4s\n\
         Samples:     11524 (last 900ms ago)\n\
         Reconnects:  3\n\
         Clients:     1\n\
         Metrics:     http://127.0.0.1:9101/metrics\n"
    );
    let bare = DaemonInfo { addr: None, status: None };
    for pid in [None, Some(" \n")] {
        assert_eq!(
            status_report(&paths, pid, Some(&bare)),
            "Agent is running (pid unknown)\nSocket:      /run/btwattch2/btwattch2.sock\n"
        );
    }
    assert_eq!(
        status_report(&paths, Some("1"), None),
        "Agent is not running (/run/btwattch2/btwattch2.sock)\n"
    );
    let idle = AgentStatus::default();
    assert_eq!(
        print_agent_status(&idle),
        "Link:        disconnected\nInterval:    0ns\nUptime:      0s\n\
         Samples:     0 (none yet)\nReconnects:  0\nClients:     0\n"
    );
}

#[test]
fn an_agent_with_another_device_is_refused() {
    let want = BDAddr::parse("CB:DF:6B:AA:BB:CC").ok();
    let have = BDAddr::parse("CB:DF:6B:12:34:56").ok();
    assert_eq!(
        ensure_addr_matches(want, have, "/run/btwattch2/btwattch2.sock").unwrap_err(),
        "the agent on /run/btwattch2/btwattch2.sock is attached to CB:DF:6B:12:34:56, but \
         --addr asks for CB:DF:6B:AA:BB:CC; stop that agent or point --socket at the one \
         holding it"
    );
    assert!(ensure_addr_matches(want, want, "x").is_ok());
    assert!(ensure_addr_matches(None, have, "x").is_ok());
    assert!(ensure_addr_matches(want, None, "x").is_ok());
    let cli = Cli { connect: ConnectOpts { addr: want, ..ConnectOpts::default() }, ..cli() };
    let daemon = DaemonInfo { addr: have, status: None };
    assert!(goes_through_agent(&cli, Some(&daemon), "x").is_err());
    assert_eq!(goes_through_agent(&cli, None, "x"), Ok(false));
    let daemon = DaemonInfo { addr: want, status: None };
    assert_eq!(goes_through_agent(&cli, Some(&daemon), "x"), Ok(true));
}

fn cli() -> Cli {
    Cli {
        connect: ConnectOpts::default(),
        config: None,
        device: None,
        socket: None,
        pid_file: None,
        on: false,
        off: false,
        set_rtc: None,
        set_rtc_now: false,
        test_led: false,
        metric_name: None,
        scan: false,
        scan_all: false,
        get_rtc: false,
        format: None,
        count: None,
        duration: None,
        debug: false,
        quiet: false,
        log_level: None,
        command: None,
    }
}

#[test]
fn ignored_flags_are_named() {
    assert!(warn_ignored_flags(&cli()).is_empty());
    let mut cli = cli();
    cli.connect.index = Some(1);
    assert_eq!(
        warn_ignored_flags(&cli),
        vec![
            "[WARN] --index is ignored while the agent is running; \
             the value it was started with applies"
        ]
    );
    cli.connect.interval = btwattch2::cli::parse_interval("2s").ok();
    assert_eq!(warn_ignored_flags(&cli).len(), 2);
    assert!(warn_ignored_flags(&cli)[0].contains("--interval"));
}

#[test]
fn a_drift_drops_fractions_of_a_second() {
    assert_eq!(rtc_drift(100, 102, 0), -2);
    assert_eq!(rtc_drift(100, 102, 999_999_999), -2);
    assert_eq!(rtc_drift(102, 100, 0), 2);
    assert_eq!(rtc_drift(102, 100, 1), 1);
    assert_eq!(rtc_drift(100, 100, 5), 0);
    assert_eq!(
        rtc_report("a", "b", -2),
        "device_time = a\nsystem_time = b\ndrift_seconds = -2\n"
    );
}

#[test]
fn the_time_that_is_sent_is_the_time_that_is_set() {
    let mut clock = WallClock::new();
    let at = Moment { seconds: 1623758400, nanos: 999_999_999 };
    let DaemonWork::Command { request: Request::SetRtc { time }, .. } =
        daemon_work(&Mode::SetRtc(at), &mut clock)
    else {
        panic!("setting the clock is a command");
    };
    let DirectWork::Command { payload, .. } = direct_work(&Mode::SetRtc(at), &mut clock) else {
        panic!("a time of our days can be set");
    };
    assert_eq!(rtc_frame(&mut clock, &time), Ok(payload));
}

#[test]
fn uptimes_are_told_apart() {
    let mut texts: Vec<String> = (0..8000).map(format_duration).collect();
    assert_eq!(texts[0], "0s");
    assert!(texts[1..].iter().all(|t| !t.starts_with('0')));
    texts.sort();
    texts.dedup();
    assert_eq!(texts.len(), 8000);
}

#[test]
fn stopping_an_agent_is_reported() {
    assert_eq!(stop_report(true), "Agent stopped");
    assert_eq!(stop_report(false), "Agent is not running");
}

#[test]
fn a_drift_is_reported_with_both_times() {
    let m = measurement(1);
    let mut clock = WallClock::new();
    let report = print_rtc_drift(&mut clock, &m, m.timestamp + 2, 500_000_000);
    let lines: Vec<&str> = report.lines().collect();
    let read = |line: &str, key: &str| {
        chrono::DateTime::parse_from_rfc3339(line.strip_prefix(key).unwrap()).unwrap()
    };
    assert_eq!(read(lines[0], "device_time = ").timestamp(), m.timestamp);
    let system = read(lines[1], "system_time = ");
    assert_eq!(system.timestamp_millis(), m.timestamp * 1000 + 2500);
    assert_eq!(lines[2], "drift_seconds = -2");
    // To the nanosecond, and without a fraction where there is none.
    let report = print_rtc_drift(&mut clock, &m, m.timestamp, 7);
    let lines: Vec<&str> = report.lines().collect();
    assert!(!lines[0].contains('.'));
    assert!(lines[1].contains(".000000007"));
}

fn devices() -> Vec<ScannedDevice> {
    vec![
        ScannedDevice {
            addr: BDAddr::parse("CB:DF:6B:12:34:56").unwrap(),
            name: Some("RS-BTWATTCH2".to_string()),
            rssi: -62,
        },
        ScannedDevice {
            addr: BDAddr::parse("F4:12:00:AB:CD:EF").unwrap(),
            name: None,
            rssi: -88,
        },
    ]
}

#[test]
fn a_scan_lists_watt_checkers_or_everything() {
    let report = print_scan(&devices(), ScanMode::WattCheckers, true);
    assert_eq!(report.listing, "CB:DF:6B:12:34:56\tRS-BTWATTCH2\trssi=-62\n");
    assert_eq!(
        report.note.as_deref(),
        Some("[INFO] 1 other device(s) hidden; use --scan-all to list them")
    );
    assert_eq!(print_scan(&devices(), ScanMode::WattCheckers, false).note, None);
    let all = print_scan(&devices(), ScanMode::Everything, true);
    assert_eq!(
        all.listing,
        "CB:DF:6B:12:34:56\tRS-BTWATTCH2\trssi=-62\nF4:12:00:AB:CD:EF\t(unknown)\trssi=-88\n"
    );
    assert_eq!(all.note, None);
    let none = print_scan(&vec![], ScanMode::Everything, true);
    assert_eq!(none.listing, "No devices found.\n");
}

#[test]
fn an_agent_is_asked_for_what_the_mode_says() {
    let mut clock = WallClock::new();
    assert!(matches!(
        daemon_work(&Mode::Power(true), &mut clock),
        DaemonWork::Command { request: Request::Power { on: true }, action: "Power on" }
    ));
    assert!(matches!(
        daemon_work(&Mode::Power(false), &mut clock),
        DaemonWork::Command { request: Request::Power { on: false }, action: "Power off" }
    ));
    assert!(matches!(
        daemon_work(&Mode::TestLed, &mut clock),
        DaemonWork::Command { request: Request::TestLed, action: "Blink" }
    ));
    assert!(matches!(daemon_work(&Mode::GetRtc, &mut clock), DaemonWork::ReadClock));
    assert!(matches!(daemon_work(&Mode::Monitor, &mut clock), DaemonWork::Stream));
    let DaemonWork::Command { request: Request::SetRtc { time }, action } =
        daemon_work(&Mode::SetRtc(Moment { seconds: 1609304963, nanos: 250_000_000 }), &mut clock)
    else {
        panic!("setting the clock is a command");
    };
    assert_eq!(action, "RTC set");
    let read = chrono::DateTime::parse_from_rfc3339(&time).unwrap();
    assert_eq!(read.timestamp_millis(), 1609304963250);
}

#[test]
fn the_link_is_given_what_the_mode_says() {
    let mut clock = WallClock::new();
    assert!(matches!(
        direct_work(&Mode::Power(true), &mut clock),
        DirectWork::Command { payload, action: "Power on" } if payload == on()
    ));
    assert!(matches!(
        direct_work(&Mode::Power(false), &mut clock),
        DirectWork::Command { payload, action: "Power off" } if payload == off()
    ));
    assert!(matches!(
        direct_work(&Mode::TestLed, &mut clock),
        DirectWork::Command { payload, action: "Blink" } if payload == blink_led()
    ));
    assert!(matches!(direct_work(&Mode::GetRtc, &mut clock), DirectWork::ReadClock));
    assert!(matches!(
        direct_work(&Mode::Metric("x".to_string()), &mut clock),
        DirectWork::Stream
    ));
    let DirectWork::Command { payload, action } =
        direct_work(&Mode::SetRtc(Moment { seconds: 1623758400, nanos: 0 }), &mut clock)
    else {
        panic!("a time of our days can be set");
    };
    assert_eq!(action, "RTC set");
    assert_eq!(&payload[8..10], &[5, 121]);
    assert!(matches!(
        direct_work(&Mode::SetRtc(Moment { seconds: 8_000_000_000, nanos: 0 }), &mut clock),
        DirectWork::Refused(reason) if reason == "year 2223 does not fit in the device's clock"
    ));
}

#[test]
fn replies_of_an_agent_are_understood() {
    assert_eq!(
        command_reply("Blink", &Response::CommandResult { code: 0 }),
        Ok("Blink succeeded".to_string())
    );
    assert_eq!(
        command_reply("Blink", &Response::CommandResult { code: 0x1f }),
        Err("Blink failed, CODE: 0x1f".to_string())
    );
    assert_eq!(
        command_reply("Blink", &Response::Done),
        Err("agent returned an unexpected command response".to_string())
    );
    let m = measurement(5);
    assert_eq!(clock_reply(&Response::from_measurement(&m)), Ok(m));
    assert_eq!(
        clock_reply(&Response::StreamEnd),
        Err("agent returned an unexpected RTC response".to_string())
    );
}

#[test]
fn an_invocation_is_planned_in_order() {
    let settings = Settings::default();
    let mode = Mode::Monitor;
    assert!(matches!(plan(&cli(), &settings, &mode), Plan::Operate));
    let scan = Cli { scan: true, ..cli() };
    assert!(matches!(
        plan(&scan, &settings, &mode),
        Plan::Scan { mode: ScanMode::WattCheckers, index: 0, seconds: 10 }
    ));
    let scan = Cli { scan_all: true, duration: Some(3), ..cli() };
    assert_eq!(scan_window(&scan), 3);
    assert!(matches!(
        plan(&scan, &settings, &mode),
        Plan::Scan { mode: ScanMode::Everything, index: 0, seconds: 3 }
    ));
    let bad = Cli {
        format: Some(OutputFormat::Prometheus),
        metric_name: Some("a.b".to_string()),
        ..cli()
    };
    assert!(matches!(
        plan(&bad, &settings, &Mode::Metric("a.b".to_string())),
        Plan::BadPrefix(_)
    ));
    let agent = Cli {
        command: Some(btwattch2::cli::Command::Agent {
            action: btwattch2::cli::AgentAction::Status,
        }),
        ..bad
    };
    assert!(matches!(
        plan(&agent, &settings, &Mode::Metric("a.b".to_string())),
        Plan::Agent
    ));
}
