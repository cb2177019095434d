pub use crate::config::{
    parse_config, unquote, ConnectOpts, FileConfig, Settings, SocketMode, UnknownDevice,
};
pub use crate::interval::{parse_interval, Interval};
pub use crate::time::{local_datetime, parse_time};
use crate::time::Moment;

use crate::addr::BDAddr;
use crate::agent::{self, AgentPaths};
use crate::config::{self, SettingsView};
use crate::path;
use crate::text;
use vstd::prelude::*;
use vstd::string::*;

verus! {

pub const DEFAULT_INDEX: usize = 0;

/// How measurements are rendered to stdout.
#[derive(Clone, Copy, Debug, PartialEq, Eq, Structural)]
pub enum OutputFormat {
    /// Human-readable `V = .., A = .., W = ..` lines.
    Plain,
    /// One JSON object per measurement (JSON Lines).
    Json,
    /// CSV with a header row.
    Csv,
    /// Label: value tab-separated lines.
    Ltsv,
    /// Prometheus / OpenMetrics text exposition format.
    Prometheus,
    /// Mackerel custom metrics (`name.metric<TAB>value<TAB>epoch`).
    Mackerel,
}

pub open spec fn is_ascii_digit(c: char) -> bool {
    '0' <= c <= '9'
}

/// Whether a Prometheus metric name may contain `c`.
pub open spec fn is_prometheus_char(c: char) -> bool {
    ||| 'a' <= c <= 'z'
    ||| 'A' <= c <= 'Z'
    ||| is_ascii_digit(c)
    ||| c == '_'
    ||| c == ':'
}

/// Characters a Prometheus metric name may contain. `parse_metric_name` accepts
/// this set plus `.` and `-` for Mackerel's benefit.
pub fn prometheus_char(c: char) -> (b: bool)
    ensures
        b == is_prometheus_char(c),
{
    ('a' <= c && c <= 'z') || ('A' <= c && c <= 'Z') || ('0' <= c && c <= '9') || c == '_' || c
        == ':'
}

/// Where the first character that a Prometheus metric name cannot contain
/// stands, or the length of `s` where there is none.
pub open spec fn first_bad(s: Seq<char>) -> nat
    decreases s.len(),
{
    if s.len() == 0 || !is_prometheus_char(s[0]) {
        0
    } else {
        1 + first_bad(s.drop_first())
    }
}

/// A metric prefix that a format cannot express: it contains `bad`, or starts
/// with it where that is a digit.
#[derive(Debug)]
pub struct PrefixError {
    pub prefix: String,
    pub bad: char,
}

impl PrefixError {
    pub open spec fn text(self) -> Seq<char> {
        "metric name "@ + text::quoted_text(self.prefix@) + (if is_ascii_digit(self.bad) {
            " starts with "@
        } else {
            " contains "@
        }) + text::quoted_char_text(self.bad) + ", which a Prometheus metric name cannot; use letters, digits, `_`, or `:`"@
    }

    /// What is wrong, in words.
    pub fn message(&self) -> (s: String)
        ensures
            s@ == self.text(),
    {
        let mut s = "metric name ".to_owned();
        s.append(text::quoted(self.prefix.as_str()).as_str());
        let digit = '0' <= self.bad && self.bad <= '9';
        s.append(
            if digit {
                " starts with "
            } else {
                " contains "
            },
        );
        s.append(text::quoted_char(self.bad).as_str());
        s.append(", which a Prometheus metric name cannot; use letters, digits, `_`, or `:`");
        s
    }
}

/// What a format makes of a metric prefix: the character that it cannot
/// express, where there is one. A Prometheus metric name cannot start with a
/// digit, nor contain anything but letters, digits, `_` and `:`.
pub open spec fn prefix_fault(format: OutputFormat, prefix: Seq<char>) -> Option<char> {
    if format != OutputFormat::Prometheus {
        None
    } else if prefix.len() > 0 && is_ascii_digit(prefix[0]) {
        Some(prefix[0])
    } else if first_bad(prefix) < prefix.len() {
        Some(prefix[first_bad(prefix) as int])
    } else {
        None
    }
}

impl OutputFormat {
    /// Reject a metric prefix this format cannot express. Prometheus metric
    /// names allow only `[A-Za-z_:][A-Za-z0-9_:]*`, so a name carrying a `.` or
    /// `-`, or starting with a digit, would emit an exposition no scraper will
    /// parse.
    pub fn validate_prefix(self, prefix: &str) -> (r: Result<(), PrefixError>)
        ensures
            r is Ok <==> prefix_fault(self, prefix@) is None,
            r matches Err(e) ==> e.prefix@ == prefix@ && Some(e.bad) == prefix_fault(self, prefix@),
    {
        if self != OutputFormat::Prometheus {
            return Ok(());
        }
        let cs = text::chars(prefix);
        if cs.len() > 0 && '0' <= cs[0] && cs[0] <= '9' {
            return Err(PrefixError { prefix: prefix.to_owned(), bad: cs[0] });
        }
        let mut i: usize = 0;
        proof {
            assert(cs@.skip(0) =~= cs@);
        }
        while i < cs.len()
            invariant
                self == OutputFormat::Prometheus,
                cs@ == prefix@,
                cs@.len() > 0 ==> !is_ascii_digit(cs@[0]),
                i <= cs@.len(),
                first_bad(cs@) == i + first_bad(cs@.skip(i as int)),
            decreases cs@.len() - i,
        {
            proof {
                assert(cs@.skip(i as int).drop_first() =~= cs@.skip(i + 1));
            }
            if !prometheus_char(cs[i]) {
                return Err(PrefixError { prefix: prefix.to_owned(), bad: cs[i] });
            }
            i = i + 1;
        }
        Ok(())
    }
}

/// Whether every supported backend can carry the metric name `s`: a letter, `_`
/// or `:`, followed by letters, digits, `_`, `:`, `.` or `-`.
pub open spec fn is_metric_name(s: Seq<char>) -> bool {
    &&& s.len() > 0
    &&& is_prometheus_char(s[0])
    &&& !is_ascii_digit(s[0])
    &&& forall|i: int|
        1 <= i < s.len() ==> is_prometheus_char(#[trigger] s[i]) || s[i] == '.' || s[i] == '-'
}

pub open spec fn metric_name_error(s: Seq<char>) -> Seq<char> {
    "invalid metric name "@ + text::quoted_text(s)
        + ": use a letter, `_`, or `:`, followed by letters, digits, `_`, `:`, `.`, or `-`"@
}

/// Accept only metric names every supported backend can carry: what Prometheus
/// takes, plus `.` and `-` for Mackerel. `OutputFormat::validate_prefix` narrows
/// it again per format. Rejecting the rest also keeps a name containing a
/// newline or a tab from forging extra metric lines in the line-oriented
/// formats. The error is what is wrong, in words.
pub fn parse_metric_name(s: &str) -> (r: Result<String, String>)
    ensures
        r is Ok <==> is_metric_name(s@),
        r matches Ok(name) ==> name@ == s@,
        r matches Err(e) ==> e@ == metric_name_error(s@),
{
    let cs = text::chars(s);
    let mut good = cs.len() > 0 && prometheus_char(cs[0]) && !('0' <= cs[0] && cs[0] <= '9');
    let mut i: usize = 1;
    while good && i < cs.len()
        invariant
            cs@ == s@,
            1 <= i,
            good ==> cs@.len() > 0 && i <= cs@.len() && is_prometheus_char(cs@[0])
                && !is_ascii_digit(cs@[0]) && forall|j: int|
                1 <= j < i ==> is_prometheus_char(#[trigger] cs@[j]) || cs@[j] == '.' || cs@[j]
                    == '-',
            !good ==> !is_metric_name(s@),
        decreases cs@.len() - i,
    {
        let c: char = cs[i];
        good = prometheus_char(c) || c == '.' || c == '-';
        i = i + 1;
    }
    if good {
        Ok(s.to_owned())
    } else {
        let mut e = "invalid metric name ".to_owned();
        e.append(text::quoted(s).as_str());
        e.append(
            ": use a letter, `_`, or `:`, followed by letters, digits, `_`, `:`, `.`, or `-`",
        );
        Err(e)
    }
}

proof fn lemma_first_bad(s: Seq<char>)
    ensures
        first_bad(s) <= s.len(),
        first_bad(s) == s.len() <==> forall|i: int|
            0 <= i < s.len() ==> is_prometheus_char(#[trigger] s[i]),
    decreases s.len(),
{
    if s.len() > 0 {
        let t = s.drop_first();
        lemma_first_bad(t);
        if is_prometheus_char(s[0]) && first_bad(t) == t.len() {
            assert forall|i: int| 0 <= i < s.len() implies is_prometheus_char(#[trigger] s[i]) by {
                if i > 0 {
                    assert(is_prometheus_char(t[i - 1]));
                }
            }
        }
        if forall|i: int| 0 <= i < s.len() ==> is_prometheus_char(#[trigger] s[i]) {
            assert forall|i: int| 0 <= i < t.len() implies is_prometheus_char(#[trigger] t[i]) by {
                assert(is_prometheus_char(s[i + 1]));
            }
        }
    }
}

/// A metric name that is accepted holds nothing that ends a line or a field, so
/// it cannot forge metrics in a line-oriented format.
pub proof fn metric_name_forges_nothing(s: Seq<char>, i: int)
    requires
        is_metric_name(s),
        0 <= i < s.len(),
    ensures
        s[i] != '\n',
        s[i] != '\r',
        s[i] != '\t',
        s[i] != ' ',
        s[i] != ',',
        s[i] != '"',
{
}

/// A prefix that passes Prometheus' check is a Prometheus metric name.
pub proof fn accepted_prefix_is_a_prometheus_name(s: Seq<char>)
    requires
        s.len() > 0,
        prefix_fault(OutputFormat::Prometheus, s) is None,
    ensures
        !is_ascii_digit(s[0]),
        forall|i: int| 0 <= i < s.len() ==> is_prometheus_char(#[trigger] s[i]),
{
    lemma_first_bad(s);
}

/// Every Prometheus metric name is an accepted one, and passes Prometheus' own
/// check too: what is accepted is a superset of what Prometheus takes.
pub proof fn prometheus_names_are_accepted(s: Seq<char>)
    requires
        s.len() > 0,
        !is_ascii_digit(s[0]),
        forall|i: int| 0 <= i < s.len() ==> is_prometheus_char(#[trigger] s[i]),
    ensures
        is_metric_name(s),
        prefix_fault(OutputFormat::Prometheus, s) is None,
{
    lemma_first_bad(s);
}

/// Verbosity of informational messages on stderr.
#[derive(Clone, Copy, Debug, PartialEq, Eq, Structural)]
pub enum LogLevel {
    /// No informational messages.
    Off,
    /// Print `[INFO]` progress messages.
    Info,
}

/// Resolved connection parameters after merging the config file with the CLI.
#[derive(Clone, Copy, Debug, PartialEq, Eq)]
pub struct ConnectionConfig {
    pub index: usize,
    pub addr: BDAddr,
    /// Positive by construction: it becomes the period of a timer.
    pub interval: Interval,
}

/// The command line.
#[derive(Debug)]
pub struct Cli {
    pub connect: ConnectOpts,
    /// Path to a config file.
    pub config: Option<String>,
    /// The `[devices.<name>]` section of the config file to use.
    pub device: Option<String>,
    /// Path to the agent's unix socket.
    pub socket: Option<String>,
    /// Path to the agent's pid file.
    pub pid_file: Option<String>,
    /// Turn on the power switch.
    pub on: bool,
    /// Turn off the power switch.
    pub off: bool,
    /// The time to set to RTC, in seconds from 1970-01-01T00:00:00Z.
    pub set_rtc: Option<Moment>,
    /// Set the current time of this system to RTC.
    pub set_rtc_now: bool,
    /// Blink the LED on the main unit.
    pub test_led: bool,
    /// Print a measurement as Mackerel custom metrics and exit.
    pub metric_name: Option<String>,
    /// Scan for nearby BTWATTCH2 devices and list them, then exit.
    pub scan: bool,
    /// Scan, but list every Bluetooth device rather than only watt checkers.
    pub scan_all: bool,
    /// Read the device RTC and report its drift from the system clock.
    pub get_rtc: bool,
    /// How to render measurements.
    pub format: Option<OutputFormat>,
    /// Stop after this many measurements.
    pub count: Option<u64>,
    /// Stop after this many seconds.
    pub duration: Option<u64>,
    /// Print informational messages to stderr.
    pub debug: bool,
    /// Suppress informational messages on stderr.
    pub quiet: bool,
    /// The verbosity of informational messages. Overrides the two above.
    pub log_level: Option<LogLevel>,
    pub command: Option<Command>,
}

#[derive(Debug)]
pub enum Command {
    /// Manage the persistent connection agent.
    Agent { action: AgentAction },
}

#[derive(Debug)]
pub enum AgentAction {
    /// Start the agent daemon (runs in the foreground), serving Prometheus
    /// metrics over HTTP on an address where one is given.
    Start { metrics_listen: Option<String> },
    /// Stop a running agent daemon.
    Stop,
    /// Show agent daemon status.
    Status,
}

/// Which devices a scan reports.
#[derive(Clone, Copy, Debug, PartialEq, Eq, Structural)]
pub enum ScanMode {
    /// Only devices whose advertised name marks them as a watt checker.
    WattCheckers,
    /// Every device currently advertising.
    Everything,
}

/// What the invocation asks the tool to do, the scans aside. At most one of the
/// flags that select one may be given.
#[derive(Debug, PartialEq, Eq)]
pub enum Mode {
    SetRtc(Moment),
    GetRtc,
    Power(bool),
    TestLed,
    Metric(String),
    Monitor,
}

/// What a mode says.
pub enum ModeView {
    SetRtc(Moment),
    GetRtc,
    Power(bool),
    TestLed,
    Metric(Seq<char>),
    Monitor,
}

impl View for Mode {
    type V = ModeView;

    open spec fn view(&self) -> ModeView {
        match self {
            Mode::SetRtc(t) => ModeView::SetRtc(*t),
            Mode::GetRtc => ModeView::GetRtc,
            Mode::Power(on) => ModeView::Power(*on),
            Mode::TestLed => ModeView::TestLed,
            Mode::Metric(name) => ModeView::Metric(name@),
            Mode::Monitor => ModeView::Monitor,
        }
    }
}

impl ModeView {
    pub open spec fn prefix(self) -> Seq<char> {
        match self {
            ModeView::Metric(name) => name,
            _ => "btwattch2"@,
        }
    }
}

impl Mode {
    /// Namespace prefix for rendered metrics.
    pub fn prefix(&self) -> (r: &str)
        ensures
            r@ == self@.prefix(),
    {
        match self {
            Mode::Metric(name) => name.as_str(),
            _ => "btwattch2",
        }
    }
}

/// Why settings cannot be resolved.
#[derive(Debug)]
pub enum SettingsError {
    /// The config file does not define the device.
    UnknownDevice(UnknownDevice),
    /// A device is named, and there is no config file.
    NoConfigFile(String),
}

impl SettingsError {
    pub open spec fn text(self) -> Seq<char> {
        match self {
            SettingsError::UnknownDevice(e) => e.text(),
            SettingsError::NoConfigFile(device) => "--device "@ + device@
                + " needs a config file defining [devices."@ + device@ + "], and none was found"@,
        }
    }

    /// What is wrong, in words.
    pub fn message(&self) -> (s: String)
        ensures
            s@ == self.text(),
    {
        match self {
            SettingsError::UnknownDevice(e) => e.message(),
            SettingsError::NoConfigFile(device) => {
                let mut s = "--device ".to_owned();
                s.append(device.as_str());
                s.append(" needs a config file defining [devices.");
                s.append(device.as_str());
                s.append("], and none was found");
                s
            },
        }
    }
}

/// No address of a device is known.
#[derive(Clone, Copy, Debug, PartialEq, Eq, Structural)]
pub struct NoAddress;

impl NoAddress {
    /// What is wrong, in words.
    pub fn message(self) -> (s: String)
        ensures
            s@ == "no device address given; pass --addr or set it in the config file"@,
    {
        "no device address given; pass --addr or set it in the config file".to_owned()
    }
}

/// What is to be done about the config file.
#[derive(Debug, PartialEq, Eq)]
pub enum Load {
    /// Read the file at this path.
    Read(String),
    /// There is none, and none was asked for.
    Nothing,
    /// The one that was asked for is not there.
    Missing(String),
}

/// What a flag counts for.
pub open spec fn count(given: bool) -> int {
    if given {
        1
    } else {
        0
    }
}

fn count_flag(given: bool) -> (n: u8)
    ensures
        n == count(given),
        n <= 1,
{
    if given {
        1
    } else {
        0
    }
}

/// How many of three flags are given.
fn count_flags(a: bool, b: bool, c: bool) -> (n: u8)
    ensures
        n == count(a) + count(b) + count(c),
        n <= 3,
{
    count_flag(a) + count_flag(b) + count_flag(c)
}

impl Cli {
    /// Whether this invocation is the long-running daemon, which needs the
    /// opposite SIGPIPE disposition from every short-lived CLI command.
    pub fn is_agent_start(&self) -> (b: bool)
        ensures
            b == (self.command matches Some(Command::Agent { action }) && action is Start),
    {
        match &self.command {
            Some(Command::Agent { action: AgentAction::Start { .. } }) => true,
            _ => false,
        }
    }

    /// Whether this invocation only lists nearby devices, and whether it wants
    /// the unfiltered list. `--scan` names watt checkers alone; `--scan-all` is
    /// the escape hatch for a device whose name has not arrived.
    pub fn scan_mode(&self) -> (m: Option<ScanMode>)
        ensures
            m == (if self.scan {
                Some(ScanMode::WattCheckers)
            } else if self.scan_all {
                Some(ScanMode::Everything)
            } else {
                None
            }),
            m == self.scan_wanted(),
    {
        if self.scan {
            Some(ScanMode::WattCheckers)
        } else if self.scan_all {
            Some(ScanMode::Everything)
        } else {
            None
        }
    }

    /// The address named on the command line, ignoring the config file. Only an
    /// explicit one means "this device and no other"; a configured one is a
    /// default that a running agent legitimately supersedes.
    pub fn explicit_addr(&self) -> (a: Option<BDAddr>)
        ensures
            a == self.connect.addr,
    {
        self.connect.addr
    }

    /// The mode that the flags select.
    pub open spec fn mode_at(self, now: Moment) -> ModeView {
        if self.get_rtc {
            ModeView::GetRtc
        } else if self.set_rtc_now {
            ModeView::SetRtc(now)
        } else if self.set_rtc is Some {
            ModeView::SetRtc(self.set_rtc->0)
        } else if self.on {
            ModeView::Power(true)
        } else if self.off {
            ModeView::Power(false)
        } else if self.test_led {
            ModeView::TestLed
        } else if self.metric_name is Some {
            ModeView::Metric(self.metric_name->0@)
        } else {
            ModeView::Monitor
        }
    }

    /// How many of the flags that select a mode are given.
    pub open spec fn mode_flags(self) -> int {
        count(self.on) + count(self.off) + count(self.set_rtc is Some) + count(self.set_rtc_now)
            + count(self.test_led) + count(self.metric_name is Some) + count(self.scan) + count(
            self.scan_all,
        ) + count(self.get_rtc)
    }

    /// Whether at most one of the flags that select a mode is given; more than
    /// one is a contradiction.
    #[verifier::spinoff_prover]
    pub fn has_one_mode(&self) -> (b: bool)
        ensures
            b == (self.mode_flags() <= 1),
    {
        let device: u8 = count_flags(self.on, self.off, self.test_led);
        let clock: u8 = count_flags(self.set_rtc.is_some(), self.set_rtc_now, self.get_rtc);
        let output: u8 = count_flags(self.metric_name.is_some(), self.scan, self.scan_all);
        device + clock + output <= 1
    }

    /// What the invocation asks for, `now` being the time.
    pub fn mode(&self, now: Moment) -> (m: Mode)
        ensures
            m@ == self.mode_at(now),
    {
        if self.get_rtc {
            Mode::GetRtc
        } else if self.set_rtc_now {
            Mode::SetRtc(now)
        } else if let Some(time) = self.set_rtc {
            Mode::SetRtc(time)
        } else if self.on {
            Mode::Power(true)
        } else if self.off {
            Mode::Power(false)
        } else if self.test_led {
            Mode::TestLed
        } else if let Some(name) = &self.metric_name {
            Mode::Metric(name.clone())
        } else {
            Mode::Monitor
        }
    }

    /// How many samples a streaming run should take. Metric mode takes a
    /// single sample by default; `--count`/`--duration` extend the run, and
    /// monitor mode streams until stopped.
    pub fn sample_count(&self, mode: &Mode) -> (n: Option<u64>)
        ensures
            n == (if mode is Metric && self.count is None && self.duration is None {
                Some(1u64)
            } else {
                self.count
            }),
            n == self.samples_wanted(mode@),
    {
        if matches!(mode, Mode::Metric(_)) && self.count.is_none() && self.duration.is_none() {
            Some(1)
        } else {
            self.count
        }
    }

    /// Effective output format: an explicit `--format` always wins, otherwise
    /// `--metric-name` defaults to Mackerel and everything else to Plain.
    pub fn output_format(&self) -> (f: OutputFormat)
        ensures
            f == self.format_used(),
    {
        match self.format {
            Some(f) => f,
            None => if self.metric_name.is_some() {
                OutputFormat::Mackerel
            } else {
                OutputFormat::Plain
            },
        }
    }

    pub open spec fn format_used(self) -> OutputFormat {
        match self.format {
            Some(f) => f,
            None => if self.metric_name is Some {
                OutputFormat::Mackerel
            } else {
                OutputFormat::Plain
            },
        }
    }

    /// Reject a metric prefix the chosen format cannot represent, before
    /// anything connects to the device.
    pub fn validate_prefix(&self, mode: &Mode) -> (r: Result<(), PrefixError>)
        ensures
            r is Ok <==> prefix_fault(self.format_used(), mode@.prefix()) is None,
            r matches Err(e) ==> e.prefix@ == mode@.prefix() && Some(e.bad) == prefix_fault(
                self.format_used(),
                mode@.prefix(),
            ),
    {
        self.output_format().validate_prefix(mode.prefix())
    }

    /// The log level that is used.
    pub open spec fn level_used(self, is_metric: bool) -> LogLevel {
        match self.log_level {
            Some(level) => level,
            None => if self.quiet || (is_metric && !self.debug) {
                LogLevel::Off
            } else {
                LogLevel::Info
            },
        }
    }

    /// How many samples are wanted.
    pub open spec fn samples_wanted(self, mode: ModeView) -> Option<u64> {
        if mode is Metric && self.count is None && self.duration is None {
            Some(1u64)
        } else {
            self.count
        }
    }

    /// Which scan is asked for.
    pub open spec fn scan_wanted(self) -> Option<ScanMode> {
        if self.scan {
            Some(ScanMode::WattCheckers)
        } else if self.scan_all {
            Some(ScanMode::Everything)
        } else {
            None
        }
    }

    /// Effective log level, applying the precedence
    /// --log-level > --quiet > --debug > mode default.
    pub fn log_level(&self, is_metric: bool) -> (l: LogLevel)
        ensures
            l == (match self.log_level {
                Some(level) => level,
                None => if self.quiet {
                    LogLevel::Off
                } else if self.debug {
                    LogLevel::Info
                } else if is_metric {
                    LogLevel::Off
                } else {
                    LogLevel::Info
                },
            }),
            l == self.level_used(is_metric),
    {
        if let Some(level) = self.log_level {
            return level;
        }
        if self.quiet {
            return LogLevel::Off;
        }
        if self.debug || !is_metric {
            LogLevel::Info
        } else {
            LogLevel::Off
        }
    }

    /// The metrics endpoint asked for on the command line. Only `agent start`
    /// takes one: it is the daemon that would serve it.
    pub open spec fn listen_flag(self) -> Option<Seq<char>> {
        match self.command {
            Some(Command::Agent { action: AgentAction::Start { metrics_listen } }) =>
                config::text_of(metrics_listen),
            _ => None,
        }
    }

    /// What the command line sets.
    pub open spec fn own_settings(self) -> SettingsView {
        SettingsView {
            connect: self.connect,
            socket: config::text_of(self.socket),
            socket_mode: None,
            metrics_listen: self.listen_flag(),
        }
    }

    /// The metrics endpoint asked for on the command line.
    pub fn metrics_listen_flag(&self) -> (r: Option<String>)
        ensures
            config::text_of(r) == self.listen_flag(),
    {
        match &self.command {
            Some(Command::Agent { action: AgentAction::Start { metrics_listen } }) =>
                match metrics_listen {
                    Some(addr) => Some(addr.clone()),
                    None => None,
                },
            _ => None,
        }
    }

    /// Resolve everything the invocation needs from the command line and the
    /// config file, where there is one, the command line winning.
    pub fn settings(&self, file: Option<&FileConfig>) -> (r: Result<Settings, SettingsError>)
        requires
            file matches Some(f) ==> f.wf(),
        ensures
            r is Ok <==> (match file {
                Some(f) => config::profile_of(f@, config::text_of(self.device)) is Some,
                None => self.device is None,
            }),
            r matches Ok(s) ==> s@ == self.own_settings().over(
                match file {
                    Some(f) => config::profile_of(f@, config::text_of(self.device))->0,
                    None => SettingsView::nothing(),
                },
            ),
            r matches Err(e) ==> match (file, e) {
                (Some(f), SettingsError::UnknownDevice(e)) => {
                    &&& Some(e.name@) == config::either(
                        config::text_of(self.device),
                        f@.default_device,
                    )
                    &&& e.path@ == f.path()
                    &&& e.known@ == config::known_devices(config::listing(f@.devices.dom()))
                },
                (None, SettingsError::NoConfigFile(device)) => Some(device@) == config::text_of(
                    self.device,
                ),
                _ => false,
            },
    {
        let device: Option<&str> = match &self.device {
            Some(device) => Some(device.as_str()),
            None => None,
        };
        let profile = match file {
            Some(file) => match file.profile(device) {
                Ok(profile) => profile,
                Err(e) => return Err(SettingsError::UnknownDevice(e)),
            },
            // Naming a profile that cannot exist is a typo worth reporting:
            // falling back to the defaults would connect to some other device.
            None => match device {
                None => Settings::default(),
                Some(device) => return Err(SettingsError::NoConfigFile(device.to_owned())),
            },
        };
        let cli = Settings {
            connect: self.connect,
            socket: match &self.socket {
                Some(socket) => Some(socket.clone()),
                None => None,
            },
            socket_mode: None,
            metrics_listen: self.metrics_listen_flag(),
        };
        Ok(cli.or(&profile))
    }

    /// Adapter index to use. Shared by the scan path (which needs no address)
    /// and `connection_config`.
    pub fn adapter_index(&self, settings: &Settings) -> (i: usize)
        ensures
            i == (match settings.connect.index {
                Some(i) => i,
                None => DEFAULT_INDEX,
            }),
    {
        match settings.connect.index {
            Some(i) => i,
            None => DEFAULT_INDEX,
        }
    }

    /// Resolve the device address and other connection parameters. Fails when
    /// no address is available.
    pub fn connection_config(&self, settings: &Settings) -> (r: Result<ConnectionConfig, NoAddress>)
        ensures
            r is Ok <==> settings.connect.addr is Some,
            r matches Ok(c) ==> c == (ConnectionConfig {
                index: match settings.connect.index {
                    Some(i) => i,
                    None => DEFAULT_INDEX,
                },
                addr: settings.connect.addr->0,
                interval: match settings.connect.interval {
                    Some(i) => i,
                    None => Interval::of(1_000_000_000),
                },
            }),
            r matches Ok(c) ==> connection_of(settings@) == Some(c),
            r is Err ==> connection_of(settings@) is None,
    {
        match settings.connect.addr {
            Some(addr) => Ok(
                ConnectionConfig {
                    index: self.adapter_index(settings),
                    addr,
                    interval: match settings.connect.interval {
                        Some(i) => i,
                        None => Interval::default_interval(),
                    },
                },
            ),
            None => Err(NoAddress),
        }
    }

    /// Where the config file is: where the command line says, or at the default
    /// path, where there is one.
    pub open spec fn config_file(self, default: Option<Seq<char>>) -> Option<Seq<char>> {
        config::either(config::text_of(self.config), default)
    }

    /// Where the config file is: where the command line says, or at the default
    /// path, where there is one.
    pub fn config_path(&self, default: Option<String>) -> (r: Option<String>)
        ensures
            config::text_of(r) == self.config_file(config::text_of(default)),
    {
        match &self.config {
            Some(p) => Some(p.clone()),
            None => default,
        }
    }

    /// Decide whether a config file is loaded: one that is requested has to be
    /// there, one at the default path is read where it is present. `exists`
    /// tells whether there is a file at `config_path`.
    pub fn load_config(&self, default: Option<String>, exists: bool) -> (l: Load)
        ensures
            match self.config_file(config::text_of(default)) {
                None => l is Nothing,
                Some(p) => if exists {
                    l matches Load::Read(q) && q@ == p
                } else if self.config is Some {
                    l matches Load::Missing(q) && q@ == p
                } else {
                    l is Nothing
                },
            },
            loads(self.config is Some, self.config_file(config::text_of(default)), exists, l),
    {
        match self.config_path(default) {
            None => Load::Nothing,
            Some(p) => if exists {
                Load::Read(p)
            } else if self.config.is_some() {
                Load::Missing(p)
            } else {
                Load::Nothing
            },
        }
    }

    /// Where the agent's socket is.
    pub open spec fn socket_path(self, settings: SettingsView, runtime: Option<Seq<char>>) -> Seq<
        char,
    > {
        match settings.socket {
            Some(s) => s,
            None => path::below(
                match runtime {
                    Some(dir) => dir,
                    None => agent::runtime_fallback(),
                },
                "btwattch2.sock"@,
            ),
        }
    }

    /// Where the agent's pid file is.
    pub open spec fn pid_path(self, settings: SettingsView, runtime: Option<Seq<char>>) -> Seq<
        char,
    > {
        match self.pid_file {
            Some(p) => p@,
            None => path::replaced_extension(self.socket_path(settings, runtime), "pid"@),
        }
    }

    /// Resolve the agent socket/pid paths, honouring `--socket` (or the selected
    /// profile's) and `--pid-file` if given. The pid file defaults to the socket
    /// path with a `.pid` extension, which `--pid-file` overrides.
    pub fn agent_paths(&self, settings: &Settings, xdg_runtime_dir: Option<&str>) -> (paths:
        AgentPaths)
        ensures
            paths.socket@ == (match settings.socket {
                Some(s) => s@,
                None => path::below(
                    agent::runtime_dir_of(xdg_runtime_dir),
                    "btwattch2.sock"@,
                ),
            }),
            paths.pid@ == (match self.pid_file {
                Some(p) => p@,
                None => path::replaced_extension(paths.socket@, "pid"@),
            }),
            paths.socket@ == self.socket_path(settings@, config::str_of(xdg_runtime_dir)),
            paths.pid@ == self.pid_path(settings@, config::str_of(xdg_runtime_dir)),
    {
        let mut paths = match &settings.socket {
            Some(s) => agent::paths_from_socket(s.clone()),
            None => agent::default_paths(xdg_runtime_dir),
        };
        if let Some(pid) = &self.pid_file {
            paths.pid = pid.clone();
        }
        paths
    }
}

/// With at most one mode flag given, that flag alone decides what is done: the
/// order in which they are looked at makes no difference.
pub proof fn one_flag_selects_its_mode(cli: Cli, now: Moment)
    requires
        cli.mode_flags() <= 1,
    ensures
        cli.get_rtc <==> cli.mode_at(now) is GetRtc,
        cli.set_rtc_now ==> cli.mode_at(now) == ModeView::SetRtc(now),
        cli.set_rtc matches Some(t) ==> cli.mode_at(now) == ModeView::SetRtc(t),
        cli.on <==> cli.mode_at(now) == ModeView::Power(true),
        cli.off <==> cli.mode_at(now) == ModeView::Power(false),
        cli.test_led <==> cli.mode_at(now) is TestLed,
        cli.metric_name is Some <==> cli.mode_at(now) is Metric,
        cli.metric_name matches Some(n) ==> cli.mode_at(now) == ModeView::Metric(n@),
        cli.scan || cli.scan_all ==> cli.mode_at(now) is Monitor,
{
}

/// The command line wins over the config file in every option that it gives.
pub proof fn command_line_wins(cli: Cli, profile: SettingsView)
    ensures
        ({
            let s = cli.own_settings().over(profile);
            &&& cli.connect.addr is Some ==> s.connect.addr == cli.connect.addr
            &&& cli.connect.index is Some ==> s.connect.index == cli.connect.index
            &&& cli.connect.interval is Some ==> s.connect.interval == cli.connect.interval
            &&& cli.socket is Some ==> s.socket == config::text_of(cli.socket)
            &&& cli.listen_flag() is Some ==> s.metrics_listen == cli.listen_flag()
            &&& cli.connect.addr is None ==> s.connect.addr == profile.connect.addr
            &&& cli.connect.index is None ==> s.connect.index == profile.connect.index
            &&& cli.connect.interval is None ==> s.connect.interval == profile.connect.interval
            &&& cli.socket is None ==> s.socket == profile.socket
            &&& s.socket_mode == profile.socket_mode
            &&& cli.listen_flag() is None ==> s.metrics_listen == profile.metrics_listen
        }),
{
}

/// `$XDG_CONFIG_HOME/btwattch2/config.toml`, falling back to
/// `~/.config/btwattch2/config.toml`.
pub open spec fn default_config_file(
    xdg_config_home: Option<&str>,
    home: Option<&str>,
) -> Option<Seq<char>> {
    match (xdg_config_home, home) {
        (Some(base), _) => Some(path::below(path::below(base@, "btwattch2"@), "config.toml"@)),
        (None, Some(home)) => Some(
            path::below(
                path::below(path::below(home@, ".config"@), "btwattch2"@),
                "config.toml"@,
            ),
        ),
        (None, None) => None,
    }
}

/// Where the config file is by default.
pub fn default_config_path(xdg_config_home: Option<&str>, home: Option<&str>) -> (r: Option<String>)
    ensures
        config::text_of(r) == default_config_file(xdg_config_home, home),
{
    proof {
        reveal_strlit(".config");
        reveal_strlit("btwattch2");
        reveal_strlit("config.toml");
    }
    let base = match xdg_config_home {
        Some(base) => base.to_owned(),
        None => match home {
            Some(home) => path::join(home, ".config"),
            None => return None,
        },
    };
    Some(path::join(path::join(base.as_str(), "btwattch2").as_str(), "config.toml"))
}

/// An explicit log level wins over everything, then `--quiet` over `--debug`, and
/// that over what the mode does by itself: metrics are printed quietly, and
/// anything else is not.
pub proof fn verbosity_goes_by_what_is_most_explicit(cli: Cli, is_metric: bool)
    ensures
        cli.log_level matches Some(l) ==> cli.level_used(is_metric) == l,
        cli.log_level is None && cli.quiet ==> cli.level_used(is_metric) == LogLevel::Off,
        cli.log_level is None && !cli.quiet && cli.debug ==> cli.level_used(is_metric)
            == LogLevel::Info,
        cli.log_level is None && !cli.quiet && !cli.debug ==> (cli.level_used(is_metric)
            == LogLevel::Off <==> is_metric),
{
}

/// A run takes as many samples as it is told to; one that prints a metric takes a
/// single one unless it is told how many, or how long; and any other goes on until
/// it is stopped.
pub proof fn a_run_takes_what_it_is_told(cli: Cli, mode: ModeView)
    ensures
        cli.count matches Some(n) ==> cli.samples_wanted(mode) == Some(n),
        cli.count is None && mode is Metric && cli.duration is None ==> cli.samples_wanted(mode)
            == Some(1u64),
        cli.count is None && (!(mode is Metric) || cli.duration is Some) ==> cli.samples_wanted(
            mode,
        ) is None,
{
}

/// An explicit format is the one that is used; without one, a metric is printed
/// for Mackerel, and anything else for people.
pub proof fn the_format_that_is_asked_for_is_used(cli: Cli)
    ensures
        cli.format matches Some(f) ==> cli.format_used() == f,
        cli.format is None && cli.metric_name is Some ==> cli.format_used()
            == OutputFormat::Mackerel,
        cli.format is None && cli.metric_name is None ==> cli.format_used()
            == OutputFormat::Plain,
        cli.scan_wanted() is Some <==> cli.scan || cli.scan_all,
        cli.scan_all && !cli.scan ==> cli.scan_wanted() == Some(ScanMode::Everything),
        cli.scan ==> cli.scan_wanted() == Some(ScanMode::WattCheckers),
{
}

/// The prefix of metrics is the name that was given, and that of the tool where
/// none was.
pub proof fn metrics_are_named_as_asked(mode: ModeView, name: Seq<char>)
    ensures
        ModeView::Metric(name).prefix() == name,
        !(mode is Metric) ==> mode.prefix() == "btwattch2"@,
{
}

/// Only Prometheus minds a prefix, and what it minds is the first character that
/// no name of its can have: a digit in front, or one that is neither a letter, a
/// digit, `_` nor `:`.
pub proof fn a_fault_is_the_first_character_that_does_not_fit(
    format: OutputFormat,
    s: Seq<char>,
    c: char,
)
    ensures
        !(format is Prometheus) ==> prefix_fault(format, s) is None,
        prefix_fault(OutputFormat::Prometheus, s) == Some(c) ==> {
            ||| s[0] == c && '0' <= c <= '9'
            ||| !is_prometheus_char(c) && exists|i: int|
                0 <= i < s.len() && #[trigger] s[i] == c && forall|j: int|
                    0 <= j < i ==> is_prometheus_char(#[trigger] s[j])
        },
        is_prometheus_char(c) <==> 'a' <= c <= 'z' || 'A' <= c <= 'Z' || '0' <= c <= '9' || c == '_'
            || c == ':',
{
    lemma_first_bad_place(s);
    if prefix_fault(OutputFormat::Prometheus, s) == Some(c) && !(s.len() > 0 && is_ascii_digit(
        s[0],
    )) {
        let i = first_bad(s) as int;
        assert(s[i] == c);
    }
}

proof fn lemma_first_bad_place(s: Seq<char>)
    ensures
        first_bad(s) <= s.len(),
        first_bad(s) < s.len() ==> !is_prometheus_char(s[first_bad(s) as int]),
        forall|j: int| 0 <= j < first_bad(s) ==> is_prometheus_char(#[trigger] s[j]),
    decreases s.len(),
{
    if s.len() > 0 && is_prometheus_char(s[0]) {
        let t = s.drop_first();
        lemma_first_bad_place(t);
        assert forall|j: int| 0 <= j < first_bad(s) implies is_prometheus_char(#[trigger] s[j]) by {
            if j > 0 {
                assert(is_prometheus_char(t[j - 1]));
            }
        }
    }
}

/// How the device is reached, where its address is known.
pub open spec fn connection_of(s: SettingsView) -> Option<ConnectionConfig> {
    match s.connect.addr {
        None => None,
        Some(addr) => Some(
            ConnectionConfig {
                index: match s.connect.index {
                    Some(i) => i,
                    None => DEFAULT_INDEX,
                },
                addr,
                interval: match s.connect.interval {
                    Some(i) => i,
                    None => Interval::of(1_000_000_000),
                },
            },
        ),
    }
}

/// A device can be reached just where its address is known: at that address, over
/// the adapter that was given or the first, every second unless told otherwise.
pub proof fn a_device_is_reached_at_its_address(s: SettingsView)
    ensures
        connection_of(s) is Some <==> s.connect.addr is Some,
        connection_of(s) matches Some(c) ==> {
            &&& s.connect.addr == Some(c.addr)
            &&& s.connect.index is Some ==> s.connect.index == Some(c.index)
            &&& s.connect.index is None ==> c.index == 0
            &&& s.connect.interval is Some ==> s.connect.interval == Some(c.interval)
            &&& s.connect.interval is None ==> c.interval.nanos() == 1_000_000_000
        },
{
    broadcast use Interval::of_nanos;

}

/// The agent is found where the settings say, and otherwise below the runtime
/// directory; its pid file is where the command line says, and otherwise beside
/// the socket.
pub proof fn the_agent_is_found_where_it_was_put(
    cli: Cli,
    settings: SettingsView,
    dir: Seq<char>,
)
    ensures
        settings.socket matches Some(s) ==> cli.socket_path(settings, Some(dir)) == s
            && cli.socket_path(settings, None) == s,
        settings.socket is None && dir.len() > 0 && dir.last() != '/' ==> cli.socket_path(
            settings,
            Some(dir),
        ) == dir + "/btwattch2.sock"@,
        settings.socket is None && dir.len() > 0 && dir.last() != '/' && cli.pid_file is None
            ==> cli.pid_path(settings, Some(dir)) == dir + "/btwattch2.pid"@,
        settings.socket is None ==> cli.socket_path(settings, None)
            == "/run/btwattch2/btwattch2.sock"@,
        cli.pid_file matches Some(p) ==> cli.pid_path(settings, Some(dir)) == p@ && cli.pid_path(
            settings,
            None,
        ) == p@,
{
    reveal_strlit("/btwattch2.sock");
    reveal_strlit("/btwattch2.pid");
    reveal_strlit("btwattch2.sock");
    reveal_strlit("btwattch2.pid");
    reveal_strlit("/run/btwattch2");
    reveal_strlit("/run/btwattch2/btwattch2.sock");
    assert(seq!['/'] + "btwattch2.sock"@ =~= "/btwattch2.sock"@);
    assert(seq!['/'] + "btwattch2.pid"@ =~= "/btwattch2.pid"@);
    agent::default_pid_is_beside_the_socket(dir);
    if dir.len() > 0 && dir.last() != '/' {
        assert(path::below(dir, "btwattch2.sock"@) =~= dir + "/btwattch2.sock"@);
        assert(path::below(dir, "btwattch2.pid"@) =~= dir + "/btwattch2.pid"@);
    }
    assert(path::below("/run/btwattch2"@, "btwattch2.sock"@)
        =~= "/run/btwattch2/btwattch2.sock"@);
}

/// Whether `l` is what to do about the config file at `path`, which was asked for
/// or is the default one, and which exists or does not.
pub open spec fn loads(asked: bool, path: Option<Seq<char>>, exists: bool, l: Load) -> bool {
    match path {
        None => l is Nothing,
        Some(p) => if exists {
            l matches Load::Read(q) && q@ == p
        } else if asked {
            l matches Load::Missing(q) && q@ == p
        } else {
            l is Nothing
        },
    }
}

/// A config file that exists is read; one that does not is missed only where it
/// was asked for. The one that was asked for is the one that counts.
pub proof fn a_config_file_that_was_asked_for_has_to_exist(
    cli: Cli,
    default: Option<Seq<char>>,
    exists: bool,
    l: Load,
)
    requires
        loads(cli.config is Some, cli.config_file(default), exists, l),
    ensures
        l is Missing <==> cli.config is Some && !exists,
        l is Read <==> exists && (cli.config is Some || default is Some),
        l matches Load::Read(p) ==> Some(p@) == (if cli.config is Some {
            config::text_of(cli.config)
        } else {
            default
        }),
        l matches Load::Missing(p) ==> Some(p@) == config::text_of(cli.config),
{
}

/// Without being told, the config file is looked for below the configuration
/// directory, which is `.config` in the home directory where no other is named;
/// with neither there is none.
pub proof fn the_config_file_is_looked_for_at_home(base: &str, home: &str)
    requires
        base@.len() > 0,
        base@.last() != '/',
        home@.len() > 0,
        home@.last() != '/',
    ensures
        default_config_file(Some(base), None) == Some(base@ + "/btwattch2/config.toml"@),
        default_config_file(Some(base), Some(home)) == Some(base@ + "/btwattch2/config.toml"@),
        default_config_file(None, Some(home)) == Some(
            home@ + "/.config/btwattch2/config.toml"@,
        ),
        default_config_file(None, None) is None,
{
    reveal_strlit("/btwattch2/config.toml");
    reveal_strlit("/.config/btwattch2/config.toml");
    reveal_strlit(".config");
    reveal_strlit("btwattch2");
    reveal_strlit("config.toml");
    let (b, h) = (base@, home@);
    let inner = b + seq!['/'] + "btwattch2"@;
    assert(path::below(b, "btwattch2"@) =~= inner);
    assert(inner.last() == '2');
    assert(path::below(inner, "config.toml"@) =~= b + "/btwattch2/config.toml"@);
    let dir = h + seq!['/'] + ".config"@;
    assert(path::below(h, ".config"@) =~= dir);
    assert(dir.last() == 'g');
    let deep = dir + seq!['/'] + "btwattch2"@;
    assert(path::below(dir, "btwattch2"@) =~= deep);
    assert(deep.last() == '2');
    assert(path::below(deep, "config.toml"@) =~= h + "/.config/btwattch2/config.toml"@);
}

/// A metric name starts with a letter, `_` or `:`, and goes on as long as there
/// are letters, digits, `_`, `:`, `.` or `-`; nothing else makes one.
pub proof fn metric_names_are_made_of_these(s: Seq<char>, c: char)
    ensures
        !is_metric_name(Seq::empty()),
        is_metric_name(seq![c]) <==> 'a' <= c <= 'z' || 'A' <= c <= 'Z' || c == '_' || c == ':',
        s.len() > 0 ==> (is_metric_name(s.push(c)) <==> is_metric_name(s) && ('a' <= c <= 'z'
            || 'A' <= c <= 'Z' || '0' <= c <= '9' || c == '_' || c == ':' || c == '.' || c == '-')),
{
    let t = s.push(c);
    let fits = |d: char| is_prometheus_char(d) || d == '.' || d == '-';
    if s.len() > 0 {
        assert(t[0] == s[0]);
        if is_metric_name(t) {
            assert(fits(t[s.len() as int]));
            assert forall|i: int| 1 <= i < s.len() implies is_prometheus_char(#[trigger] s[i])
                || s[i] == '.' || s[i] == '-' by {
                assert(t[i] == s[i]);
            }
        }
        if is_metric_name(s) && fits(c) {
            assert forall|i: int| 1 <= i < t.len() implies is_prometheus_char(#[trigger] t[i])
                || t[i] == '.' || t[i] == '-' by {
                if i < s.len() {
                    assert(t[i] == s[i]);
                }
            }
        }
    }
}

} // verus!
