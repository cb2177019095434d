use btwattch2::addr::BDAddr;
use btwattch2::cli::{
    default_config_path, local_datetime, parse_config, parse_interval, parse_metric_name,
    parse_time, prometheus_char, unquote, AgentAction, Cli, Command, ConnectOpts, FileConfig,
    Interval, Load, LogLevel, Mode, OutputFormat, ScanMode, Settings, SettingsError, SocketMode,
    DEFAULT_INDEX,
};
use btwattch2::config::{listen_values, ConfigError, ConfigErrorKind, Endpoint};
use btwattch2::interval::IntervalError;
use btwattch2::signal::{sigpipe_for, Sigpipe};
use btwattch2::text::IntError;
use btwattch2::time::{parse_time_on, Moment, TimeError};
use btwattch2::wall_clock::WallClock;
use chrono::{Local, NaiveDateTime, TimeZone};

fn empty_cli() -> Cli {
    Cli {
        connect: ConnectOpts::default(),
        config: None,
        device: None,
        socket: None,
        pid_file: None,
        on: false,
        off: false,
        set_rtc: None,
        set_rtc_now: false,
        test_led: false,
        metric_name: None,
        scan: false,
        scan_all: false,
        get_rtc: false,
        format: None,
        count: None,
        duration: None,
        debug: false,
        quiet: false,
        log_level: None,
        command: None,
    }
}

fn try_parse_cli(args: &[&str]) -> Result<Cli, String> {
    let mut cli = empty_cli();
    let mut words = args.iter().copied();
    while let Some(word) = words.next() {
        match word {
            "-n" => {
                let text = words.next().unwrap();
                cli.connect.interval = Some(parse_interval(text).map_err(|e| e.message(text))?);
            }
            "-a" => {
                cli.connect.addr =
                    Some(BDAddr::parse(words.next().unwrap()).map_err(|e| e.message())?);
            }
            "-d" => cli.debug = true,
            "-q" => cli.quiet = true,
            "--log-level" => {
                cli.log_level = match words.next().unwrap() {
                    "info" => Some(LogLevel::Info),
                    _ => Some(LogLevel::Off),
                }
            }
            "--metric-name" => cli.metric_name = Some(parse_metric_name(words.next().unwrap())?),
            "--format" => {
                cli.format = match words.next().unwrap() {
                    "json" => Some(OutputFormat::Json),
                    "prometheus" => Some(OutputFormat::Prometheus),
                    _ => Some(OutputFormat::Plain),
                }
            }
            "--duration" => cli.duration = Some(words.next().unwrap().parse().unwrap()),
            "--count" => cli.count = Some(words.next().unwrap().parse().unwrap()),
            "--device" => cli.device = Some(words.next().unwrap().to_string()),
            "--socket" => cli.socket = Some(words.next().unwrap().to_string()),
            "--scan" => cli.scan = true,
            "--scan-all" => cli.scan_all = true,
            "agent" => {
                let action = match words.next().unwrap() {
                    "start" => AgentAction::Start { metrics_listen: None },
                    "stop" => AgentAction::Stop,
                    _ => AgentAction::Status,
                };
                cli.command = Some(Command::Agent { action });
            }
            "--metrics-listen" => {
                let metrics_listen = Some(words.next().unwrap().to_string());
                cli.command = Some(Command::Agent {
                    action: AgentAction::Start { metrics_listen },
                });
            }
            other => return Err(other.to_string()),
        }
    }
    if cli.has_one_mode() {
        Ok(cli)
    } else {
        Err("more than one mode".to_string())
    }
}

fn parse_cli(args: &[&str]) -> Cli {
    try_parse_cli(args).unwrap()
}

fn interval(text: &str) -> Interval {
    parse_interval(text).unwrap()
}

fn addr(text: &str) -> Option<BDAddr> {
    BDAddr::parse(text).ok()
}

fn endpoints() -> Vec<Endpoint> {
    vec![
        Endpoint {
            spelling: "127.0.0.1:9101".to_string(),
            canonical: "127.0.0.1:9101".to_string(),
        },
        Endpoint {
            spelling: "[0:0::1]:80".to_string(),
            canonical: "[::1]:80".to_string(),
        },
    ]
}

/// Parse `text` as the config file at a throwaway path.
fn config(text: &str) -> Result<FileConfig, ConfigError> {
    parse_config(text, "config.toml".to_string(), &endpoints())
}

/// Resolve `args` against the config file `text`.
fn settings(args: &[&str], text: &str) -> Result<Settings, SettingsError> {
    let file = config(text).unwrap();
    parse_cli(args).settings(Some(&file))
}

fn mode(cli: &Cli) -> Mode {
    cli.mode(Moment { seconds: 0, nanos: 0 })
}

#[test]
fn unquote_strips_one_pair_only() {
    assert_eq!(unquote("\"abc\""), "abc");
    assert_eq!(unquote("abc"), "abc");
    // Leftover quotes are kept so the value fails to parse with a message
    // naming the line, rather than being silently accepted.
    assert_eq!(unquote("\"\"abc\"\""), "\"abc\"");
    assert_eq!(unquote("\"abc"), "\"abc");
    assert_eq!(unquote("\""), "\"");
}

#[test]
fn metric_name_accepts_backend_safe_names() {
    // `:` is legal in a Prometheus metric name, so it must survive here too.
    for name in ["wattchecker1", "_x", "a.b-c_1", "job:power", ":x"] {
        assert_eq!(parse_metric_name(name).unwrap(), name);
    }
}

#[test]
fn metric_name_rejects_injection_and_bad_leading_chars() {
    // A newline would forge extra lines in every line-oriented format.
    for name in ["", "1abc", "a b", "a\nb.wattage\t0\t0", "a\tb", ".x"] {
        assert!(parse_metric_name(name).is_err(), "accepted {name:?}");
    }
}

#[test]
fn a_rejected_metric_name_is_quoted() {
    assert_eq!(
        parse_metric_name("a\tb").unwrap_err(),
        "invalid metric name \"a\\tb\": use a letter, `_`, or `:`, followed by letters, \
         digits, `_`, `:`, `.`, or `-`"
    );
}

#[test]
fn prometheus_characters_are_letters_digits_underscore_and_colon() {
    for c in ['a', 'Z', '0', '_', ':'] {
        assert!(prometheus_char(c));
    }
    for c in ['.', '-', ' ', 'é', '\n'] {
        assert!(!prometheus_char(c));
    }
}

#[test]
fn prometheus_rejects_a_prefix_it_cannot_express() {
    let cli = parse_cli(&["--format", "prometheus", "--metric-name", "a.b"]);
    let error = cli.validate_prefix(&mode(&cli)).unwrap_err();
    assert_eq!(
        error.message(),
        "metric name \"a.b\" contains '.', which a Prometheus metric name cannot; \
         use letters, digits, `_`, or `:`"
    );
}

#[test]
fn prometheus_rejects_a_prefix_that_starts_with_a_digit() {
    let error = OutputFormat::Prometheus.validate_prefix("1abc").unwrap_err();
    assert_eq!(error.bad, '1');
    assert_eq!(
        error.message(),
        "metric name \"1abc\" starts with '1', which a Prometheus metric name cannot; \
         use letters, digits, `_`, or `:`"
    );
    // The digit comes first, whatever follows.
    assert_eq!(OutputFormat::Prometheus.validate_prefix("9.b").unwrap_err().bad, '9');
    assert_eq!(OutputFormat::Prometheus.validate_prefix("a1.b").unwrap_err().bad, '.');
    for prefix in ["a1", "_1", ":1abc"] {
        assert!(OutputFormat::Prometheus.validate_prefix(prefix).is_ok());
    }
    assert!(OutputFormat::Mackerel.validate_prefix("1abc").is_ok());
}

#[test]
fn prometheus_accepts_underscored_prefixes_and_the_default() {
    for args in [
        vec!["--format", "prometheus", "--metric-name", "a_b1"],
        vec!["--format", "prometheus"],
    ] {
        let cli = parse_cli(&args);
        assert!(cli.validate_prefix(&mode(&cli)).is_ok());
    }
}

/// A dotted name is fine for Mackerel, so only Prometheus may reject it.
#[test]
fn other_formats_accept_a_dotted_prefix() {
    let cli = parse_cli(&["--metric-name", "a.b"]);
    assert!(cli.validate_prefix(&mode(&cli)).is_ok());
}

#[test]
fn cli_overlays_the_config_file() {
    let text = "index = 1\naddr = \"CB:DF:6B:12:34:56\"\ninterval = 9";
    let settings = settings(&["-n", "3"], text).unwrap();
    let resolved = parse_cli(&["-n", "3"])
        .connection_config(&settings)
        .unwrap();
    assert_eq!(resolved.interval, interval("3"));
    assert_eq!(resolved.index, 1);
    assert_eq!(Some(resolved.addr), addr("CB:DF:6B:12:34:56"));
}

#[test]
fn connection_config_needs_an_address() {
    let error = parse_cli(&[])
        .connection_config(&Settings::default())
        .unwrap_err();
    assert_eq!(
        error.message(),
        "no device address given; pass --addr or set it in the config file"
    );
}

#[test]
fn connection_config_defaults_the_interval_and_index() {
    let settings = Settings {
        connect: ConnectOpts {
            addr: addr("CB:DF:6B:12:34:56"),
            ..ConnectOpts::default()
        },
        ..Settings::default()
    };
    let resolved = parse_cli(&[]).connection_config(&settings).unwrap();
    assert_eq!(resolved.interval, Interval::default_interval());
    assert_eq!(resolved.interval, interval("1s"));
    assert_eq!(resolved.index, DEFAULT_INDEX);
}

#[test]
fn metric_mode_takes_one_sample_unless_told_otherwise() {
    let cli = parse_cli(&["--metric-name", "x"]);
    assert_eq!(cli.sample_count(&mode(&cli)), Some(1));

    let cli = parse_cli(&["--metric-name", "x", "--duration", "10"]);
    assert_eq!(cli.sample_count(&mode(&cli)), None);

    // Monitor mode streams until stopped.
    let cli = parse_cli(&[]);
    assert_eq!(cli.sample_count(&mode(&cli)), None);
}

#[test]
fn log_level_precedence() {
    assert_eq!(parse_cli(&[]).log_level(false), LogLevel::Info);
    // Metric mode stays quiet so only metrics reach mackerel-agent.
    assert_eq!(parse_cli(&[]).log_level(true), LogLevel::Off);
    assert_eq!(parse_cli(&["-d"]).log_level(true), LogLevel::Info);
    assert_eq!(parse_cli(&["-q"]).log_level(false), LogLevel::Off);
    // --quiet beats --debug, and --log-level beats both.
    assert_eq!(parse_cli(&["-d", "-q"]).log_level(false), LogLevel::Off);
    assert_eq!(
        parse_cli(&["-q", "--log-level", "info"]).log_level(true),
        LogLevel::Info
    );
}

#[test]
fn output_format_defaults_to_mackerel_only_for_metric_mode() {
    assert_eq!(parse_cli(&[]).output_format(), OutputFormat::Plain);
    assert_eq!(
        parse_cli(&["--metric-name", "x"]).output_format(),
        OutputFormat::Mackerel
    );
    assert_eq!(
        parse_cli(&["--metric-name", "x", "--format", "json"]).output_format(),
        OutputFormat::Json
    );
}

#[test]
fn parse_time_accepts_every_documented_format() {
    let naive = NaiveDateTime::parse_from_str("2021-01-02 03:04:05", "%Y-%m-%d %H:%M:%S").unwrap();
    let seconds = local_datetime(naive.and_utc().timestamp()).unwrap();
    let expected = Moment { seconds, nanos: 0 };
    for s in [
        "2021-01-02 03:04:05",
        "2021-01-02T03:04:05",
        "2021/01/02 03:04:05",
    ] {
        assert_eq!(parse_time(s).unwrap(), expected, "parsing {s}");
    }
    assert_eq!(parse_time("yesterday"), Err(TimeError::Unrecognized));
    assert_eq!(
        TimeError::Unrecognized.message("yesterday"),
        "unrecognized time format: yesterday"
    );
    assert_eq!(
        seconds,
        Local
            .with_ymd_and_hms(2021, 1, 2, 3, 4, 5)
            .unwrap()
            .timestamp()
    );
}

#[test]
fn a_time_may_leave_the_seconds_out_or_name_its_offset() {
    let expected = parse_time("2021-01-02 03:04:00").unwrap();
    assert_eq!(parse_time("2021-01-02 03:04"), Ok(expected));
    assert_eq!(parse_time("2021/01/02 03:04"), Ok(expected));
    assert_eq!(parse_time("2020-12-30T05:09:23Z"), Ok(Moment { seconds: 1609304963, nanos: 0 }));
    assert_eq!(parse_time("2020-12-30T14:09:23+09:00"), Ok(Moment { seconds: 1609304963, nanos: 0 }));
    assert_eq!(
        parse_time("2020-12-30T05:09:23.25Z"),
        Ok(Moment { seconds: 1609304963, nanos: 250_000_000 })
    );
    // A leap second counts on past the whole second before it.
    let leap = Moment { seconds: 1483228799, nanos: 1_500_000_000 };
    assert_eq!(parse_time("2016-12-31T23:59:60.5Z"), Ok(leap));
    assert!(leap.is_valid());
    assert!(!Moment { seconds: 1483228798, ..leap }.is_valid());
    assert!(!Moment { seconds: -2, ..leap }.is_valid());
    assert!(Moment { seconds: -1, ..leap }.is_valid());
    assert!(!Moment { seconds: i64::MAX, nanos: 0 }.is_valid());
    let mut clock = WallClock::new();
    assert_eq!(parse_time_on(&mut clock, "2021/01/02 03:04"), Ok(expected));
    assert_eq!(parse_time_on(&mut clock, "2020-12-30T05:09:23Z"), Ok(Moment { seconds: 1609304963, nanos: 0 }));
    assert_eq!(parse_time_on(&mut clock, "yesterday"), Err(TimeError::Unrecognized));
}

/// Drives the SIGPIPE choice, so only the long-running daemon may say yes:
/// a CLI wants a closed pipe to be fatal, the agent must survive one.
#[test]
fn only_agent_start_is_the_daemon() {
    let start = parse_cli(&["agent", "start"]);
    assert!(start.is_agent_start());
    assert_eq!(sigpipe_for(&start), Sigpipe::Ignored);
    for args in [
        vec!["agent", "stop"],
        vec!["agent", "status"],
        vec!["--scan"],
        vec![],
    ] {
        let cli = parse_cli(&args);
        assert!(!cli.is_agent_start(), "claimed {args:?}");
        assert_eq!(sigpipe_for(&cli), Sigpipe::Fatal);
    }
}

#[test]
fn explicit_addr_ignores_the_config_file() {
    let text = "addr = \"CB:DF:6B:12:34:56\"";
    // Only what the command line asked for counts, so a configured address
    // never makes a running agent look like the wrong device.
    assert_eq!(parse_cli(&[]).explicit_addr(), None);
    assert_eq!(
        parse_cli(&["-a", "CB:DF:6B:AA:BB:CC"]).explicit_addr(),
        addr("CB:DF:6B:AA:BB:CC")
    );
    assert_eq!(
        settings(&[], text).unwrap().connect.addr,
        addr("CB:DF:6B:12:34:56")
    );
}

#[test]
fn interval_accepts_sub_second_periods() {
    for (text, expected) in [
        ("1", 1_000_000_000),
        ("2s", 2_000_000_000),
        ("0.5", 500_000_000),
        ("0.5s", 500_000_000),
        ("500ms", 500_000_000),
        (" 250 ms ", 250_000_000),
    ] {
        assert_eq!(interval(text).duration(), expected, "parsing {text:?}");
    }
}

/// Zero would stop the timer, and the rest are values that would otherwise be
/// silently truncated or accepted as nonsense.
#[test]
fn interval_rejects_zero_and_junk() {
    for text in [
        "0", "0s", "0ms", "1ms", "-1", "", "abc", "1m", "NaN", "inf",
    ] {
        assert!(parse_interval(text).is_err(), "accepted {text:?}");
    }
    assert!(try_parse_cli(&["-n", "0"]).is_err());
}

#[test]
fn every_way_of_being_no_interval_has_its_error() {
    for (text, expected) in [
        ("abc", IntervalError::NotANumber),
        ("1.2.3", IntervalError::NotANumber),
        (".", IntervalError::NotANumber),
        ("1e", IntervalError::NotANumber),
        ("ms", IntervalError::NotANumber),
        ("-1", IntervalError::Negative),
        ("-inf", IntervalError::Negative),
        ("NaN", IntervalError::TooBigOrNan),
        ("-nan", IntervalError::TooBigOrNan),
        ("Infinity", IntervalError::TooBigOrNan),
        ("1e400", IntervalError::TooBigOrNan),
        ("18446744073709551616", IntervalError::TooBigOrNan),
        ("0", IntervalError::TooShort),
        ("-0", IntervalError::TooShort),
        ("9.9ms", IntervalError::TooShort),
        ("1e-999999999999999999999999999999999999999999", IntervalError::TooShort),
        ("86400.001", IntervalError::TooLong),
        ("2e5s", IntervalError::TooLong),
    ] {
        assert_eq!(parse_interval(text), Err(expected), "parsing {text:?}");
    }
}

#[test]
fn interval_bounds_are_inclusive() {
    assert_eq!(interval("10ms").duration(), 10_000_000);
    assert_eq!(interval("86400").duration(), 86_400_000_000_000);
    assert_eq!(Interval::from_nanos(9_999_999), None);
    assert_eq!(Interval::from_nanos(10_000_000), Some(interval("10ms")));
}

#[test]
fn interval_reads_numbers_as_they_are_written() {
    for (text, expected) in [
        ("+2", 2_000_000_000),
        ("2.", 2_000_000_000),
        (".5", 500_000_000),
        ("1.5e3ms", 1_500_000_000),
        ("15E-1", 1_500_000_000),
        ("1e+1", 10_000_000_000),
        ("0.0000000000000000000000000000000000000001e40", 1_000_000_000),
        ("0.0100000004", 10_000_000),
        ("0.0100000006", 10_000_001),
        ("0.0100000015", 10_000_002),
        ("0.01000000250001", 10_000_003),
        ("12.3456789ms", 12_345_679),
    ] {
        assert_eq!(interval(text).duration(), expected, "parsing {text:?}");
    }
}

/// The format is what the parser accepts, so status output can be pasted back
/// into `--interval`.
#[test]
fn interval_display_round_trips() {
    for text in ["1s", "500ms", "1.5s"] {
        let parsed = interval(text);
        assert_eq!(parsed.display(), text);
        assert_eq!(interval(text), parsed);
    }
    for nanos in [10_000_000, 12_345_678, 999_999_999, 1_000_000_001, 86_400_000_000_000] {
        let i = Interval::from_nanos(nanos).unwrap();
        assert_eq!(interval(&i.display()), i);
    }
    assert_eq!(Interval::from_nanos(12_345_678).unwrap().display(), "12.345678ms");
    assert_eq!(Interval::from_nanos(1_000_000_001).unwrap().display(), "1.000000001s");
}

#[test]
fn interval_errors_are_worded() {
    assert_eq!(
        IntervalError::NotANumber.message("abc"),
        "invalid interval \"abc\": expected 0.5, 500ms, or 2s"
    );
    assert_eq!(
        IntervalError::TooShort.message("1ms"),
        "interval \"1ms\" is shorter than the 10ms minimum"
    );
    assert_eq!(
        IntervalError::Negative.message("-1"),
        "invalid interval \"-1\": cannot convert float seconds to Duration: value is negative"
    );
}

#[test]
fn a_file_without_sections_is_the_whole_configuration() {
    let cfg = config("addr = \"CB:DF:6B:12:34:56\"\ninterval = 500ms").unwrap();
    let profile = cfg.profile(None).unwrap();
    assert_eq!(profile.connect.addr, addr("CB:DF:6B:12:34:56"));
    assert_eq!(profile.connect.interval, Some(interval("500ms")));
}

#[test]
fn a_device_section_inherits_the_top_level_keys() {
    let cfg = config(
        "interval = 2s\n\
         [devices.living]\n\
         addr = \"CB:DF:6B:12:34:56\"\n\
         [devices.rack]\n\
         addr = \"CB:DF:6B:AA:BB:CC\"\n\
         interval = 500ms\n\
         socket = \"/run/btwattch2/rack.sock\"\n\
         metrics_listen = \"127.0.0.1:9101\"\n",
    )
    .unwrap();

    let living = cfg.profile(Some("living")).unwrap();
    assert_eq!(living.connect.addr, addr("CB:DF:6B:12:34:56"));
    assert_eq!(living.connect.interval, Some(interval("2s")));
    assert_eq!(living.socket, None);

    // The section wins over the inherited default.
    let rack = cfg.profile(Some("rack")).unwrap();
    assert_eq!(rack.connect.interval, Some(interval("500ms")));
    assert_eq!(rack.socket, Some("/run/btwattch2/rack.sock".to_string()));
    assert_eq!(rack.metrics_listen, Some("127.0.0.1:9101".to_string()));
}

#[test]
fn default_selects_a_section_when_no_device_is_named() {
    let cfg = config(
        "default = \"rack\"\n\
         [devices.living]\n\
         addr = \"CB:DF:6B:12:34:56\"\n\
         [devices.rack]\n\
         addr = \"CB:DF:6B:AA:BB:CC\"\n",
    )
    .unwrap();
    assert_eq!(
        cfg.profile(None).unwrap().connect.addr,
        addr("CB:DF:6B:AA:BB:CC")
    );
    // --device still overrides it.
    assert_eq!(
        cfg.profile(Some("living")).unwrap().connect.addr,
        addr("CB:DF:6B:12:34:56")
    );
}

/// Every way of naming a device that does not exist has to fail loudly:
/// falling back to the defaults would operate some other meter.
#[test]
fn a_missing_profile_is_an_error() {
    let cfg = config("[devices.living]\naddr = \"CB:DF:6B:12:34:56\"").unwrap();
    let err = cfg.profile(Some("rack")).unwrap_err().message();
    assert!(err.contains("known devices: living"), "{err}");
    assert_eq!(
        err,
        "unknown device \"rack\" in config.toml; known devices: living"
    );

    assert!(config("default = \"rack\"").is_err());
    assert!(settings(&["--device", "rack"], "addr = \"CB:DF:6B:12:34:56\"").is_err());
    let err = parse_cli(&["--device", "rack"]).settings(None).unwrap_err();
    assert_eq!(
        err.message(),
        "--device rack needs a config file defining [devices.rack], and none was found"
    );
}

#[test]
fn config_rejects_malformed_sections_and_keys() {
    for text in [
        "[devices.living",
        "[wattage]",
        "[devices.]",
        "[devices.living]\nunknown = 1",
        "[devices.living]\ndefault = \"living\"",
        "metrics_listen = \"not-an-address\"",
        "interval = 0",
        "addr = nonsense",
        "just a line",
    ] {
        assert!(config(text).is_err(), "accepted {text:?}");
    }
}

#[test]
fn config_errors_name_their_line_and_cause() {
    for (text, kind, message, cause) in [
        (
            "\n[devices.living",
            ConfigErrorKind::UnterminatedSection,
            "config.toml:2: unterminated section header: [devices.living",
            None,
        ),
        (
            "[ wattage ]",
            ConfigErrorKind::UnknownSection,
            "config.toml:1: unknown section [wattage]; only [devices.<name>] is understood",
            None,
        ),
        (
            "[devices.\"\"]",
            ConfigErrorKind::UnnamedSection,
            "config.toml:1: a [devices.<name>] section needs a name",
            None,
        ),
        (
            "# a comment\r\n\r\njust a line\r\n",
            ConfigErrorKind::NotAPair,
            "config.toml:3: expected `key = value`, got: just a line",
            None,
        ),
        (
            "[devices.a]\ndefault = a",
            ConfigErrorKind::MisplacedDefault,
            "config.toml:2: `default` belongs before the first [devices.<name>] section",
            None,
        ),
        (
            "index = -1",
            ConfigErrorKind::InvalidIndex(IntError::InvalidDigit),
            "config.toml:1: invalid index: -1",
            Some("invalid digit found in string"),
        ),
        (
            "interval = 0",
            ConfigErrorKind::InvalidInterval(IntervalError::TooShort),
            "config.toml:1: invalid interval",
            Some("interval \"0\" is shorter than the 10ms minimum"),
        ),
        (
            "socket_mode = 0999",
            ConfigErrorKind::InvalidSocketMode,
            "config.toml:1: invalid socket_mode: 0999",
            None,
        ),
        (
            "metrics_listen = \"here\"",
            ConfigErrorKind::InvalidMetricsListen,
            "config.toml:1: invalid metrics_listen: here",
            Some("invalid socket address syntax"),
        ),
        (
            "colour = red",
            ConfigErrorKind::UnknownKey,
            "config.toml:1: unknown key: colour",
            None,
        ),
        (
            "default = rack\n[devices.b]\n[devices.a]",
            ConfigErrorKind::UnknownDefault,
            "config.toml: default = \"rack\" names no [devices.rack] section; \
             known devices: a, b",
            None,
        ),
        (
            "default = rack",
            ConfigErrorKind::UnknownDefault,
            "config.toml: default = \"rack\" names no [devices.rack] section; \
             the file defines no [devices.*] sections",
            None,
        ),
    ] {
        let e = config(text).unwrap_err();
        assert_eq!(e.kind, kind, "parsing {text:?}");
        assert_eq!(e.message("config.toml"), message);
        assert_eq!(e.cause().as_deref(), cause);
    }
    let e = config("addr = CB:DF:6B").unwrap_err();
    assert_eq!(
        e.message("c"),
        "c:1: invalid addr CB:DF:6B: Bluetooth address has to be 6 bytes long"
    );
}

#[test]
fn a_repeated_section_adds_to_the_first() {
    let cfg = config(
        "[devices.a]\nindex = 3\n[devices.b]\nindex = 4\n[ devices. \"a\" ]\nsocket = /run/a",
    );
    // The name is only recognised directly behind the bracket's white space.
    let cfg = cfg.unwrap();
    let a = cfg.profile(Some("a")).unwrap();
    assert_eq!(a.connect.index, Some(3));
    assert_eq!(a.socket, Some("/run/a".to_string()));
    assert_eq!(cfg.profile(Some("b")).unwrap().connect.index, Some(4));
    assert_eq!(cfg.device_names(), "known devices: a, b");
}

#[test]
fn devices_are_listed_in_order() {
    let cfg = config("[devices.b]\n[devices.ab]\n[devices.a]\n[devices.B]\n[devices.é]").unwrap();
    assert_eq!(cfg.device_names(), "known devices: B, a, ab, b, é");
}

#[test]
fn the_values_of_metrics_listen_are_found() {
    let text = "metrics_listen = \"127.0.0.1:9101\"\n# metrics_listen = x\n\
                [devices.a]\nmetrics_listen = [::1]:80\nsocket = y";
    assert_eq!(listen_values(text), vec!["127.0.0.1:9101", "[::1]:80"]);
    let cfg = config("metrics_listen = [0:0::1]:80").unwrap();
    assert_eq!(
        cfg.profile(None).unwrap().metrics_listen,
        Some("[::1]:80".to_string())
    );
}

/// A profile supplies the socket, so `--device` alone routes to the right
/// agent; an explicit `--socket` still wins.
#[test]
fn the_profile_supplies_the_socket() {
    let text = "[devices.rack]\naddr = \"CB:DF:6B:AA:BB:CC\"\nsocket = \"/run/rack.sock\"";
    let cli = parse_cli(&["--device", "rack"]);
    let resolved = settings(&["--device", "rack"], text).unwrap();
    let paths = cli.agent_paths(&resolved, None);
    assert_eq!(paths.socket, "/run/rack.sock");
    assert_eq!(paths.pid, "/run/rack.pid");

    let overridden = settings(&["--device", "rack", "--socket", "/run/other.sock"], text).unwrap();
    assert_eq!(overridden.socket, Some("/run/other.sock".to_string()));
}

/// `--metrics-listen` only exists on `agent start`, and the profile's value
/// applies when the flag is absent.
#[test]
fn metrics_listen_comes_from_the_flag_or_the_profile() {
    let text = "metrics_listen = \"127.0.0.1:9101\"\naddr = \"CB:DF:6B:12:34:56\"";
    assert_eq!(
        settings(&["agent", "start"], text).unwrap().metrics_listen,
        Some("127.0.0.1:9101".to_string())
    );
    assert_eq!(
        settings(
            &["agent", "start", "--metrics-listen", "127.0.0.1:9999"],
            text
        )
        .unwrap()
        .metrics_listen,
        Some("127.0.0.1:9999".to_string())
    );
}

#[test]
fn scan_mode_distinguishes_the_two_scans() {
    assert_eq!(parse_cli(&[]).scan_mode(), None);
    assert_eq!(
        parse_cli(&["--scan"]).scan_mode(),
        Some(ScanMode::WattCheckers)
    );
    assert_eq!(
        parse_cli(&["--scan-all"]).scan_mode(),
        Some(ScanMode::Everything)
    );
    // Both at once is a contradiction.
    assert!(try_parse_cli(&["--scan", "--scan-all"]).is_err());
}

#[test]
fn each_flag_selects_its_mode() {
    let now = Moment { seconds: 7, nanos: 5 };
    let then = Moment { seconds: 9, nanos: 0 };
    let mut cli = empty_cli();
    assert_eq!(cli.mode(now), Mode::Monitor);
    cli.set_rtc_now = true;
    assert_eq!(cli.mode(now), Mode::SetRtc(now));
    let cli = Cli { set_rtc: Some(then), ..empty_cli() };
    assert_eq!(cli.mode(now), Mode::SetRtc(then));
    let cli = Cli { on: true, ..empty_cli() };
    assert_eq!(cli.mode(now), Mode::Power(true));
    let cli = Cli { off: true, ..empty_cli() };
    assert_eq!(cli.mode(now), Mode::Power(false));
    let cli = Cli { test_led: true, ..empty_cli() };
    assert_eq!(cli.mode(now), Mode::TestLed);
    let cli = Cli { get_rtc: true, ..empty_cli() };
    assert_eq!(cli.mode(now), Mode::GetRtc);
    let cli = Cli { metric_name: Some("x".to_string()), ..empty_cli() };
    assert_eq!(cli.mode(now), Mode::Metric("x".to_string()));
    assert_eq!(cli.mode(now).prefix(), "x");
    assert_eq!(Mode::Monitor.prefix(), "btwattch2");
}

#[test]
fn a_socket_mode_is_octal_permission_bits() {
    for (text, bits) in [("0600", 0o600), ("0666", 0o666), ("660", 0o660), ("0", 0), ("777", 0o777)]
    {
        assert_eq!(SocketMode::parse(text), Some(SocketMode { bits }), "{text}");
    }
    for text in ["", "1000", "rw", "+600", "-1", "0o600", "888"] {
        assert_eq!(SocketMode::parse(text), None, "accepted {text:?}");
    }
    assert_eq!(SocketMode { bits: 0o600 }.display(), "0600");
    assert_eq!(SocketMode { bits: 7 }.display(), "0007");
    assert_eq!(Settings::default().socket_mode(), SocketMode { bits: 0o600 });
    let cfg = config("socket_mode = 0600\n[devices.a]\nsocket_mode = 0660").unwrap();
    let a = cfg.profile(Some("a")).unwrap();
    assert_eq!(a.socket_mode(), SocketMode { bits: 0o660 });
}

#[test]
fn a_requested_config_file_has_to_be_there() {
    let default = || Some("/home/me/.config/btwattch2/config.toml".to_string());
    let asked = Cli { config: Some("mine.toml".to_string()), ..empty_cli() };
    assert_eq!(
        asked.load_config(default(), false),
        Load::Missing("mine.toml".to_string())
    );
    assert_eq!(
        asked.load_config(None, true),
        Load::Read("mine.toml".to_string())
    );
    let plain = empty_cli();
    assert_eq!(plain.load_config(default(), false), Load::Nothing);
    assert_eq!(plain.load_config(None, false), Load::Nothing);
    assert_eq!(
        plain.load_config(default(), true),
        Load::Read("/home/me/.config/btwattch2/config.toml".to_string())
    );
    assert_eq!(plain.config_path(None), None);
}

#[test]
fn the_config_file_has_a_default_place() {
    assert_eq!(
        default_config_path(Some("/etc/xdg"), Some("/root")).as_deref(),
        Some("/etc/xdg/btwattch2/config.toml")
    );
    assert_eq!(
        default_config_path(None, Some("/root/")).as_deref(),
        Some("/root/.config/btwattch2/config.toml")
    );
    assert_eq!(default_config_path(None, None), None);
}
