use crate::addr::BDAddr;
use crate::agent::protocol::{AgentStatus, AgentStatusView, Request, RequestView, Response, ResponseView};
use crate::agent::server;
use crate::agent::{AgentPaths, DaemonInfo};
use crate::cli::{self, Cli, Mode, ModeView, PrefixError, ScanMode, Settings, DEFAULT_INDEX};
use crate::config::SettingsView;
use crate::connection::{self, Measurement, ScannedDevice};
use crate::interval;
use crate::payload;
use crate::text;
use crate::time::{self, Moment};
use crate::wall_clock::{ClockView, WallClock};
use vstd::prelude::*;
use vstd::string::*;

verus! {

/// How long a scan lasts by default, in seconds.
pub const DEFAULT_SCAN_WINDOW: u64 = 10;

/// How long a scan lasts, in seconds, given what was asked for.
pub open spec fn window_of(duration: Option<u64>) -> u64 {
    match duration {
        Some(n) => n,
        None => DEFAULT_SCAN_WINDOW,
    }
}

/// How long a scan lasts, in seconds.
pub fn scan_window(cli: &Cli) -> (n: u64)
    ensures
        n == (match cli.duration {
            Some(n) => n,
            None => DEFAULT_SCAN_WINDOW,
        }),
        n == window_of(cli.duration),
{
    match cli.duration {
        Some(n) => n,
        None => DEFAULT_SCAN_WINDOW,
    }
}

/// What is wrong where a command would be handed to an agent attached to some
/// other device.
pub open spec fn mismatch_text(socket: Seq<char>, have: BDAddr, want: BDAddr) -> Seq<char> {
    "the agent on "@ + socket + " is attached to "@ + have.text() + ", but --addr asks for "@
        + want.text() + "; stop that agent or point --socket at the one holding it"@
}

/// Whether the device that is asked for is another than the one that an agent
/// reports.
pub open spec fn conflicts(want: Option<BDAddr>, have: Option<BDAddr>) -> bool {
    want is Some && have is Some && want != have
}

/// Stop before handing a command to an agent attached to some other device.
/// Routing is automatic, so without this check `--addr <B>` while an agent
/// holds device A quietly operates A instead; on a mains switch that is not a
/// mistake worth making twice.
pub fn ensure_addr_matches(want: Option<BDAddr>, have: Option<BDAddr>, socket: &str) -> (r: Result<
    (),
    String,
>)
    ensures
        r is Err <==> conflicts(want, have),
        r matches Err(e) ==> e@ == mismatch_text(socket@, have->0, want->0),
{
    match (want, have) {
        (Some(want), Some(have)) => {
            if want == have {
                return Ok(());
            }
            let mut s = "the agent on ".to_owned();
            s.append(socket);
            s.append(" is attached to ");
            s.append(have.display().as_str());
            s.append(", but --addr asks for ");
            s.append(want.display().as_str());
            s.append("; stop that agent or point --socket at the one holding it");
            Err(s)
        },
        _ => Ok(()),
    }
}

pub open spec fn ignored_text(flag: Seq<char>) -> Seq<char> {
    "[WARN] "@ + flag
        + " is ignored while the agent is running; the value it was started with applies"@
}

fn ignored(flag: &str) -> (s: String)
    ensures
        s@ == ignored_text(flag@),
{
    let mut s = "[WARN] ".to_owned();
    s.append(flag);
    s.append(" is ignored while the agent is running; the value it was started with applies");
    s
}

/// What is said of the options that the agent decides for itself.
pub open spec fn ignored_flags(interval: bool, index: bool) -> Seq<Seq<char>> {
    (if interval {
        seq![ignored_text("--interval"@)]
    } else {
        Seq::empty()
    }) + (if index {
        seq![ignored_text("--index"@)]
    } else {
        Seq::empty()
    })
}

/// Note the options the agent decides for itself. Not an error: unlike the
/// address, getting one of these wrong cannot operate the wrong device.
pub fn warn_ignored_flags(cli: &Cli) -> (v: Vec<String>)
    ensures
        v@.map_values(|s: String| s@) == ignored_flags(
            cli.connect.interval is Some,
            cli.connect.index is Some,
        ),
{
    let mut v: Vec<String> = Vec::new();
    if cli.connect.interval.is_some() {
        v.push(ignored("--interval"));
    }
    if cli.connect.index.is_some() {
        v.push(ignored("--index"));
    }
    assert(v@.map_values(|s: String| s@) =~= ignored_flags(
        cli.connect.interval is Some,
        cli.connect.index is Some,
    ));
    v
}

/// An uptime as `3h 12m 4s`, without the units that would read as zero.
pub open spec fn duration_text(seconds: nat) -> Seq<char> {
    let (h, m, s) = (seconds / 3600, (seconds % 3600) / 60, seconds % 60);
    if h == 0 && m == 0 {
        text::decimal(s) + "s"@
    } else if h == 0 {
        text::decimal(m) + "m "@ + text::decimal(s) + "s"@
    } else {
        text::decimal(h) + "h "@ + text::decimal(m) + "m "@ + text::decimal(s) + "s"@
    }
}

/// An uptime as `3h 12m 4s`, dropping the units that would read as zero.
pub fn format_duration(seconds: u64) -> (t: String)
    ensures
        t@ == duration_text(seconds as nat),
{
    let (h, m, s): (u64, u64, u64) = (seconds / 3600, (seconds % 3600) / 60, seconds % 60);
    if h == 0 && m == 0 {
        let mut t = text::decimal_string(s);
        t.append("s");
        return t;
    }
    let mut t = String::new();
    if h != 0 {
        t.append(text::decimal_string(h).as_str());
        t.append("h ");
    }
    t.append(text::decimal_string(m).as_str());
    t.append("m ");
    t.append(text::decimal_string(s).as_str());
    t.append("s");
    assert(t@ =~= duration_text(seconds as nat));
    t
}

/// Minutes and seconds that are written alike are the same.
proof fn lemma_minutes_and_seconds(m: nat, s: nat, n: nat, t: nat)
    requires
        text::decimal(m) + "m "@ + text::decimal(s) + "s"@ == text::decimal(n) + "m "@
            + text::decimal(t) + "s"@,
    ensures
        m == n,
        s == t,
{
    reveal_strlit("s");
    reveal_strlit("m ");
    let (u, v) = (text::decimal(s) + "s"@, text::decimal(t) + "s"@);
    assert(text::decimal(m) + ("m "@ + u) =~= text::decimal(m) + "m "@ + text::decimal(s) + "s"@);
    assert(text::decimal(n) + ("m "@ + v) =~= text::decimal(n) + "m "@ + text::decimal(t) + "s"@);
    text::lemma_decimal_ends(m, "m "@ + u, n, "m "@ + v);
    assert(("m "@ + u).skip(2) =~= u);
    assert(("m "@ + v).skip(2) =~= v);
    text::lemma_decimal_ends(s, "s"@, t, "s"@);
}

/// The number that an uptime starts with, and what follows it.
spec fn split_duration(seconds: nat) -> (nat, Seq<char>) {
    let (h, m, s) = (seconds / 3600, (seconds % 3600) / 60, seconds % 60);
    if h == 0 && m == 0 {
        (s, "s"@)
    } else if h == 0 {
        (m, "m "@ + (text::decimal(s) + "s"@))
    } else {
        (h, "h "@ + (text::decimal(m) + "m "@ + text::decimal(s) + "s"@))
    }
}

/// Hours, minutes and seconds add up.
proof fn lemma_units(seconds: nat)
    ensures
        seconds == 3600 * (seconds / 3600) + 60 * ((seconds % 3600) / 60) + seconds % 60,
{
    let r = seconds % 3600;
    assert(seconds == 3600 * (seconds / 3600) + r);
    assert(r == 60 * (r / 60) + r % 60);
    assert(r % 60 == seconds % 60);
}

#[verifier::spinoff_prover]
proof fn lemma_split_duration(seconds: nat)
    ensures
        ({
            let (first, rest) = split_duration(seconds);
            let (h, m, s) = (seconds / 3600, (seconds % 3600) / 60, seconds % 60);
            &&& duration_text(seconds) == text::decimal(first) + rest
            &&& seconds == 3600 * h + 60 * m + s
            &&& rest.len() > 0
            &&& rest[0] == (if h > 0 {
                'h'
            } else if m > 0 {
                'm'
            } else {
                's'
            })
            &&& h > 0 ==> rest.skip(2) == text::decimal(m) + "m "@ + text::decimal(s) + "s"@
            &&& h == 0 && m > 0 ==> rest.skip(2) == text::decimal(s) + "s"@
        }),
{
    reveal_strlit("s");
    reveal_strlit("m ");
    reveal_strlit("h ");
    lemma_units(seconds);
    let (first, rest) = split_duration(seconds);
    let (m, s) = ((seconds % 3600) / 60, seconds % 60);
    assert(duration_text(seconds) =~= text::decimal(first) + rest);
    let minutes = text::decimal(m) + "m "@ + text::decimal(s) + "s"@;
    assert(("h "@ + minutes).skip(2) =~= minutes);
    assert(("m "@ + (text::decimal(s) + "s"@)).skip(2) =~= text::decimal(s) + "s"@);
}

/// An uptime is written as hours, minutes and seconds that add up to it, from the
/// largest unit that counts.
pub proof fn durations_add_up(seconds: nat)
    ensures
        ({
            let (h, m, s) = (seconds / 3600, (seconds % 3600) / 60, seconds % 60);
            &&& m < 60 && s < 60
            &&& 3600 * h + 60 * m + s == seconds
            &&& duration_text(seconds) == (if seconds < 60 {
                text::decimal(s) + "s"@
            } else if seconds < 3600 {
                text::decimal(m) + "m "@ + text::decimal(s) + "s"@
            } else {
                text::decimal(h) + "h "@ + text::decimal(m) + "m "@ + text::decimal(s) + "s"@
            })
        }),
{
}

/// Two uptimes that are written alike are the same.
pub proof fn durations_are_told_apart(a: nat, b: nat)
    requires
        duration_text(a) == duration_text(b),
    ensures
        a == b,
{
    let ((x, u), (y, v)) = (split_duration(a), split_duration(b));
    lemma_split_duration(a);
    lemma_split_duration(b);
    text::lemma_decimal_ends(x, u, y, v);
    let (m, s) = ((a % 3600) / 60, a % 60);
    let (n, t) = ((b % 3600) / 60, b % 60);
    if u[0] == 'h' {
        lemma_minutes_and_seconds(m, s, n, t);
    } else if u[0] == 'm' {
        reveal_strlit("s");
        text::lemma_decimal_ends(s, "s"@, t, "s"@);
    }
}

/// An uptime starts with a unit that reads as zero only where it is nothing at
/// all.
pub proof fn durations_start_with_what_counts(seconds: nat)
    ensures
        duration_text(seconds)[0] == '0' <==> seconds == 0,
        seconds == 0 ==> duration_text(seconds) == "0s"@,
{
    reveal_strlit("0s");
    reveal_strlit("s");
    let (first, _) = split_duration(seconds);
    lemma_split_duration(seconds);
    text::lemma_decimal_digits(first);
    assert(seconds == 0 ==> duration_text(seconds) =~= "0s"@);
}

/// A span of time to the nearest millisecond, in the spelling `--interval`
/// accepts.
pub open spec fn seconds_text(nanos: nat) -> Seq<char> {
    let millis = (nanos + 500_000) / 1_000_000;
    if millis == 0 {
        "0ns"@
    } else {
        interval::nanos_text(millis * 1_000_000)
    }
}

/// A span of time, given in nanoseconds, in the spelling `--interval` accepts:
/// the same rendering `Interval` itself uses. Rounded to milliseconds first, so
/// one a hair off a round number does not come out as `899.999999ms`.
pub fn format_seconds(nanos: u64) -> (t: String)
    ensures
        t@ == seconds_text(nanos as nat),
{
    let millis: u128 = (nanos as u128 + 500_000) / 1_000_000;
    if millis == 0 {
        "0ns".to_owned()
    } else {
        interval::nanos_string(millis * 1_000_000)
    }
}

/// A span that is rounded to milliseconds and could be an interval can be given
/// back as one: what a status report shows is what `--interval` accepts.
pub proof fn status_interval_can_be_given_back(i: interval::Interval)
    requires
        i.wf(),
        i.nanos() % 1_000_000 == 0,
    ensures
        interval::parsed(seconds_text(i.nanos() as nat)) == Ok::<u64, interval::IntervalError>(
            i.nanos(),
        ),
{
    interval::display_then_parse(i);
    let n = i.nanos() as nat;
    assert((n + 500_000) / 1_000_000 * 1_000_000 == n);
}

/// What the agent says about itself.
pub open spec fn status_text(s: AgentStatusView) -> Seq<char> {
    "Link:        "@ + (if s.connected {
        "connected"@
    } else {
        "disconnected"@
    }) + "\nInterval:    "@ + seconds_text(s.interval_nanos as nat) + "\nUptime:      "@
        + duration_text(s.uptime_seconds as nat) + "\nSamples:     "@ + text::decimal(
        s.samples as nat,
    ) + (match s.last_sample_age_nanos {
        Some(age) => " (last "@ + seconds_text(age as nat) + " ago)"@,
        None => " (none yet)"@,
    }) + "\nReconnects:  "@ + text::decimal(s.reconnects as nat) + "\nClients:     "@
        + text::decimal(s.clients as nat) + "\n"@ + (match s.metrics_listen {
        Some(addr) => "Metrics:     http://"@ + addr + "/metrics\n"@,
        None => Seq::empty(),
    })
}

/// Report what the agent says about itself.
pub fn print_agent_status(status: &AgentStatus) -> (t: String)
    ensures
        t@ == status_text(status@),
{
    let mut t = "Link:        ".to_owned();
    // A running agent whose link has dropped is the state worth naming: it
    // answers commands, and every one of them will fail until it recovers.
    t.append(
        if status.connected {
            "connected"
        } else {
            "disconnected"
        },
    );
    t.append("\nInterval:    ");
    t.append(format_seconds(status.interval_nanos).as_str());
    t.append("\nUptime:      ");
    t.append(format_duration(status.uptime_seconds).as_str());
    t.append("\nSamples:     ");
    t.append(text::decimal_string(status.samples).as_str());
    match status.last_sample_age_nanos {
        Some(age) => {
            t.append(" (last ");
            t.append(format_seconds(age).as_str());
            t.append(" ago)");
        },
        None => t.append(" (none yet)"),
    }
    t.append("\nReconnects:  ");
    t.append(text::decimal_string(status.reconnects).as_str());
    t.append("\nClients:     ");
    t.append(text::decimal_string(status.clients as u64).as_str());
    t.append("\n");
    if let Some(addr) = &status.metrics_listen {
        t.append("Metrics:     http://");
        t.append(addr.as_str());
        t.append("/metrics\n");
    }
    assert(t@ =~= status_text(status@));
    t
}

/// The pid to report: what the pid file holds, or that it is unknown. The
/// socket answered, so the agent is up even if its pid file is missing or
/// unreadable.
pub open spec fn pid_text(contents: Option<&str>) -> Seq<char> {
    match contents {
        Some(s) if text::trim(s@).len() > 0 => text::trim(s@),
        _ => "unknown"@,
    }
}

/// What `agent status` reports of an agent that answered.
pub open spec fn running_text(
    socket: Seq<char>,
    pid: Seq<char>,
    addr: Option<BDAddr>,
    status: Option<AgentStatusView>,
) -> Seq<char> {
    "Agent is running (pid "@ + pid + ")\nSocket:      "@ + socket + "\n"@ + (match addr {
        Some(a) => "Attached to: "@ + a.text() + "\n"@,
        None => Seq::empty(),
    }) + (match status {
        Some(s) => status_text(s),
        None => Seq::empty(),
    })
}

/// What `agent status` reports: how the agent that answered is, or that none
/// did. The socket is named either way: with a profile per device there are
/// several an invocation could have meant.
pub fn status_report(paths: &AgentPaths, pid_file: Option<&str>, daemon: Option<&DaemonInfo>) -> (t:
    String)
    ensures
        t@ == (match daemon {
            Some(d) => running_text(
                paths.socket@,
                pid_text(pid_file),
                d.addr,
                crate::agent::protocol::status_of(d.status),
            ),
            None => "Agent is not running ("@ + paths.socket@ + ")\n"@,
        }),
{
    let daemon = match daemon {
        Some(daemon) => daemon,
        None => {
            let mut t = "Agent is not running (".to_owned();
            t.append(paths.socket.as_str());
            t.append(")\n");
            return t;
        },
    };
    let mut t = "Agent is running (pid ".to_owned();
    t.append(shown_pid(pid_file).as_str());
    t.append(")\nSocket:      ");
    t.append(paths.socket.as_str());
    t.append("\n");
    if let Some(addr) = daemon.addr {
        t.append("Attached to: ");
        t.append(addr.display().as_str());
        t.append("\n");
    }
    if let Some(status) = &daemon.status {
        t.append(print_agent_status(status).as_str());
    }
    assert(t@ =~= running_text(
        paths.socket@,
        pid_text(pid_file),
        daemon.addr,
        crate::agent::protocol::status_of(daemon.status),
    ));
    t
}

fn shown_pid(pid_file: Option<&str>) -> (t: String)
    ensures
        t@ == pid_text(pid_file),
{
    if let Some(contents) = pid_file {
        let cs = text::chars(contents);
        let trimmed = text::trimmed(cs.as_slice());
        if trimmed.len() > 0 {
            return text::string(trimmed);
        }
    }
    "unknown".to_owned()
}

/// The seconds by which the device is ahead of the system, which is at `now`
/// seconds and `nanos` nanoseconds; a fraction of a second is dropped.
pub open spec fn drift_of(device: int, now: int, nanos: int) -> int {
    let d = device - now;
    if d > 0 && nanos > 0 {
        d - 1
    } else {
        d
    }
}

/// The seconds by which the device's clock is ahead of the system's.
pub fn rtc_drift(device: i64, now: i64, nanos: u32) -> (d: i64)
    requires
        time::FIRST_SECOND <= device <= time::LAST_SECOND,
        time::FIRST_SECOND <= now <= time::LAST_SECOND,
        nanos < 1_000_000_000,
    ensures
        d == drift_of(device as int, now as int, nanos as int),
{
    let d: i64 = device - now;
    if d > 0 && nanos > 0 {
        d - 1
    } else {
        d
    }
}

/// The drift is what is left of the exact difference when its fraction is
/// dropped.
pub proof fn drift_drops_the_fraction(device: int, now: int, nanos: int)
    requires
        0 <= nanos < 1_000_000_000,
    ensures
        ({
            let exact = (device - now) * 1_000_000_000 - nanos;
            let d = drift_of(device, now, nanos) * 1_000_000_000;
            &&& exact >= 0 ==> d <= exact < d + 1_000_000_000
            &&& exact < 0 ==> d - 1_000_000_000 < exact <= d
        }),
{
}

/// What is reported of the device's clock.
pub open spec fn drift_text(device: Seq<char>, system: Seq<char>, drift: int) -> Seq<char> {
    "device_time = "@ + device + "\nsystem_time = "@ + system + "\ndrift_seconds = "@
        + text::integer(drift) + "\n"@
}

/// Report the device's clock against the system's: each as it is written, and
/// the seconds by which the device is ahead.
pub fn rtc_report(device: &str, system: &str, drift: i64) -> (t: String)
    ensures
        t@ == drift_text(device@, system@, drift as int),
{
    let mut t = "device_time = ".to_owned();
    t.append(device);
    t.append("\nsystem_time = ");
    t.append(system);
    t.append("\ndrift_seconds = ");
    t.append(text::integer_string(drift).as_str());
    t.append("\n");
    t
}

/// Whether `t` reports a device's clock at `device` against a system's at `now`
/// seconds and `nanos` nanoseconds, both as a clock wrote them.
pub open spec fn clocks_compared(
    before: ClockView,
    after: ClockView,
    device: i64,
    now: i64,
    nanos: u32,
    t: Seq<char>,
) -> bool {
    let n = before.written.len() as int;
    let (first, second) = (after.written[n], after.written[n + 1]);
    &&& after == (ClockView { written: before.written.push(first).push(second), ..before })
    &&& first.at == (Moment { seconds: device, nanos: 0 })
    &&& second.at == (Moment { seconds: now, nanos })
    &&& first.plausible()
    &&& second.plausible()
    &&& t == drift_text(first.text, second.text, drift_of(device as int, now as int, nanos as int))
}

/// Report the device's clock against the system's, which is at `now` seconds
/// and `nanos` nanoseconds: both as `clock` shows them.
pub fn print_rtc_drift(clock: &mut WallClock, m: &Measurement, now: i64, nanos: u32) -> (t: String)
    requires
        time::FIRST_SECOND <= m.timestamp <= time::LAST_SECOND,
        time::FIRST_SECOND <= now <= time::LAST_SECOND,
        nanos < 1_000_000_000,
    ensures
        ({
            let n = old(clock)@.written.len() as int;
            let (device, system) = (final(clock)@.written[n], final(clock)@.written[n + 1]);
            &&& final(clock)@ == (ClockView {
                written: old(clock)@.written.push(device).push(system),
                ..old(clock)@
            })
            &&& device.at == (Moment { seconds: m.timestamp, nanos: 0 })
            &&& system.at == (Moment { seconds: now, nanos })
            &&& device.plausible()
            &&& system.plausible()
            &&& t@ == drift_text(
                device.text,
                system.text,
                drift_of(m.timestamp as int, now as int, nanos as int),
            )
        }),
        clocks_compared(old(clock)@, final(clock)@, m.timestamp, now, nanos, t@),
{
    let device = time::local_rfc3339(clock, Moment { seconds: m.timestamp, nanos: 0 });
    let ghost first = clock@.written;
    let system = time::local_rfc3339(clock, Moment { seconds: now, nanos });
    proof {
        assert(first =~= old(clock)@.written.push(first.last()));
        assert(clock@.written =~= first.push(clock@.written.last()));
    }
    let drift: i64 = rtc_drift(m.timestamp, now, nanos);
    rtc_report(device.as_str(), system.as_str(), drift)
}

/// Whether a scan in this mode lists a device.
pub open spec fn is_listed(d: ScannedDevice, mode: ScanMode) -> bool {
    mode == ScanMode::Everything || connection::names_watt_checker(crate::config::text_of(d.name))
}

/// The devices that a scan lists.
pub open spec fn listed(devices: Seq<ScannedDevice>, mode: ScanMode) -> Seq<ScannedDevice> {
    devices.filter(|d: ScannedDevice| is_listed(d, mode))
}

/// A device as a scan lists it.
pub open spec fn device_line(d: ScannedDevice) -> Seq<char> {
    d.addr.text() + "\t"@ + (match d.name {
        Some(name) => name@,
        None => "(unknown)"@,
    }) + "\trssi="@ + text::integer(d.rssi as int) + "\n"@
}

/// The lines of `devices`.
pub open spec fn device_lines(devices: Seq<ScannedDevice>) -> Seq<char>
    decreases devices.len(),
{
    if devices.len() == 0 {
        Seq::empty()
    } else {
        device_lines(devices.drop_last()) + device_line(devices.last())
    }
}

/// What a scan prints.
pub open spec fn scan_text(devices: Seq<ScannedDevice>, mode: ScanMode) -> Seq<char> {
    if listed(devices, mode).len() == 0 {
        "No devices found.\n"@
    } else {
        device_lines(listed(devices, mode))
    }
}

/// What a scan says of the devices that it does not list.
pub open spec fn hidden_text(n: nat) -> Seq<char> {
    "[INFO] "@ + text::decimal(n) + " other device(s) hidden; use --scan-all to list them"@
}

/// What is said of the devices that a scan found and does not list.
pub open spec fn note_of(devices: Seq<ScannedDevice>, mode: ScanMode, info: bool) -> Option<
    Seq<char>,
> {
    if info && listed(devices, mode).len() < devices.len() {
        Some(hidden_text((devices.len() - listed(devices, mode).len()) as nat))
    } else {
        None
    }
}

/// What a scan found, as it is reported: what goes to stdout, and what is said
/// on stderr of what was left out, so a meter whose name never arrived does not
/// look like a meter that is not there.
#[derive(Debug)]
pub struct ScanReport {
    pub listing: String,
    pub note: Option<String>,
}

/// Report what a scan found. The note is informational, so it is dropped where
/// such messages are, and the listing is the only thing on stdout either way.
pub fn print_scan(devices: &Vec<ScannedDevice>, mode: ScanMode, info: bool) -> (r: ScanReport)
    ensures
        r.listing@ == scan_text(devices@, mode),
        r.note is Some <==> info && listed(devices@, mode).len() < devices@.len(),
        r.note matches Some(n) ==> n@ == hidden_text(
            (devices@.len() - listed(devices@, mode).len()) as nat,
        ),
        crate::config::text_of(r.note) == note_of(devices@, mode, info),
{
    let ghost keep = |d: ScannedDevice| is_listed(d, mode);
    let mut listing = String::new();
    let mut shown: usize = 0;
    let mut i: usize = 0;
    while i < devices.len()
        invariant
            i <= devices@.len(),
            keep == (|d: ScannedDevice| is_listed(d, mode)),
            shown == devices@.take(i as int).filter(keep).len(),
            shown <= i,
            listing@ == device_lines(devices@.take(i as int).filter(keep)),
        decreases devices@.len() - i,
    {
        let ghost before = devices@.take(i as int);
        proof {
            reveal(Seq::filter);
            assert(devices@.take(i + 1).drop_last() =~= before);
            assert(devices@.take(i + 1).last() == devices@[i as int]);
        }
        let d = &devices[i];
        if matches!(mode, ScanMode::Everything) || d.is_watt_checker() {
            let ghost so_far = listing@;
            listing.append(d.addr.display().as_str());
            listing.append("\t");
            match &d.name {
                Some(name) => listing.append(name.as_str()),
                None => listing.append("(unknown)"),
            }
            listing.append("\trssi=");
            listing.append(text::integer_string(d.rssi as i64).as_str());
            listing.append("\n");
            shown = shown + 1;
            proof {
                assert(listing@ =~= so_far + device_line(*d));
                let all = before.filter(keep).push(*d);
                assert(all.drop_last() =~= before.filter(keep));
            }
        }
        i = i + 1;
    }
    proof {
        assert(devices@.take(i as int) =~= devices@);
    }
    if shown == 0 {
        listing = "No devices found.\n".to_owned();
    }
    let hidden: usize = devices.len() - shown;
    let note = if hidden > 0 && info {
        let mut n = "[INFO] ".to_owned();
        n.append(text::decimal_string(hidden as u64).as_str());
        n.append(" other device(s) hidden; use --scan-all to list them");
        Some(n)
    } else {
        None
    };
    ScanReport { listing, note }
}

/// `--scan-all` hides nothing, and what `--scan` lists is among it.
pub proof fn scan_all_lists_everything(devices: Seq<ScannedDevice>)
    ensures
        listed(devices, ScanMode::Everything) == devices,
        listed(devices, ScanMode::WattCheckers).len() <= devices.len(),
    decreases devices.len(),
{
    reveal(Seq::filter);
    if devices.len() > 0 {
        scan_all_lists_everything(devices.drop_last());
        assert(devices =~= devices.drop_last().push(devices.last()));
    } else {
        assert(listed(devices, ScanMode::Everything) =~= devices);
    }
}

/// What an agent is asked for on behalf of an invocation.
#[derive(Debug)]
pub enum DaemonWork {
    /// A command, and what it is called when its outcome is reported.
    Command { request: Request, action: &'static str },
    /// A measurement, for the device's clock.
    ReadClock,
    /// Measurements, until there are enough.
    Stream,
}

/// Whether `w` is what an agent is asked for in this mode, by what a clock wrote.
pub open spec fn requested(
    mode: ModeView,
    before: ClockView,
    after: ClockView,
    w: DaemonWork,
) -> bool {
    match mode {
        ModeView::SetRtc(t) => {
            &&& time::written_at(before, after, t)
            &&& w matches DaemonWork::Command { request, action } && action@ == "RTC set"@
                && request@ == RequestView::SetRtc(after.written.last().text)
        },
        ModeView::GetRtc => after == before && w is ReadClock,
        ModeView::Power(on) => {
            &&& after == before
            &&& w matches DaemonWork::Command { request, action } && request@ == RequestView::Power(
                on,
            ) && action@ == (if on {
                "Power on"@
            } else {
                "Power off"@
            })
        },
        ModeView::TestLed => {
            &&& after == before
            &&& w matches DaemonWork::Command { request, action } && request@
                == RequestView::TestLed && action@ == "Blink"@
        },
        ModeView::Metric(_) | ModeView::Monitor => after == before && w is Stream,
    }
}

/// Decide what to ask an agent for. The time to set is written as `clock` shows
/// it.
pub fn daemon_work(mode: &Mode, clock: &mut WallClock) -> (w: DaemonWork)
    requires
        mode@ matches ModeView::SetRtc(t) ==> t.valid(),
    ensures
        match mode@ {
            ModeView::SetRtc(t) => {
                &&& time::written_at(old(clock)@, final(clock)@, t)
                &&& w matches DaemonWork::Command { request, action } && action@ == "RTC set"@
                    && request@ == RequestView::SetRtc(final(clock)@.written.last().text)
            },
            ModeView::GetRtc => w is ReadClock,
            ModeView::Power(on) => w matches DaemonWork::Command { request, action } && request@
                == RequestView::Power(on) && action@ == (if on {
                "Power on"@
            } else {
                "Power off"@
            }),
            ModeView::TestLed => w matches DaemonWork::Command { request, action } && request@
                == RequestView::TestLed && action@ == "Blink"@,
            ModeView::Metric(_) | ModeView::Monitor => w is Stream,
        },
        !(mode@ is SetRtc) ==> final(clock)@ == old(clock)@,
        requested(mode@, old(clock)@, final(clock)@, w),
{
    match mode {
        Mode::SetRtc(t) => DaemonWork::Command {
            request: Request::SetRtc { time: time::local_rfc3339(clock, *t) },
            action: "RTC set",
        },
        Mode::GetRtc => DaemonWork::ReadClock,
        Mode::Power(on) => DaemonWork::Command {
            request: Request::Power { on: *on },
            action: if *on {
                "Power on"
            } else {
                "Power off"
            },
        },
        Mode::TestLed => DaemonWork::Command { request: Request::TestLed, action: "Blink" },
        Mode::Metric(_) | Mode::Monitor => DaemonWork::Stream,
    }
}

/// The time that an agent is sent is the time that it sets the device's clock by,
/// where it can read the text at all, but for the seconds that are rounded off an
/// offset from UTC, half a minute at most, and for a leap second.
pub proof fn the_time_sent_is_the_time_set(
    before: ClockView,
    after: ClockView,
    at: Moment,
    theirs: ClockView,
    theirs_after: ClockView,
)
    requires
        at.valid(),
        time::written_at(before, after, at),
        time::rfc3339(after.written.last().text) is Ok,
        server::clock_asked(theirs, theirs_after, after.written.last().text),
    ensures
        -30 <= theirs_after.shown.last().epoch - at.seconds <= 30 + at.nanos / 1_000_000_000,
{
}

/// What is said of stopping an agent, given whether one was running.
pub open spec fn stop_text(running: bool) -> Seq<char> {
    if running {
        "Agent stopped"@
    } else {
        "Agent is not running"@
    }
}

/// What is said of stopping an agent, given whether one was running. One that
/// was has been told to shut down.
pub fn stop_report(running: bool) -> (s: &'static str)
    ensures
        s@ == stop_text(running),
{
    if running {
        "Agent stopped"
    } else {
        "Agent is not running"
    }
}

/// Whether `r` is what becomes of a command that was answered with `response`.
pub open spec fn command_replied(
    action: Seq<char>,
    response: ResponseView,
    r: Result<String, String>,
) -> bool {
    match response {
        ResponseView::CommandResult(code) => if code == 0 {
            r matches Ok(s) && s@ == connection::report_text(action, code)
        } else {
            r matches Err(s) && s@ == connection::report_text(action, code)
        },
        _ => r matches Err(s) && s@ == "agent returned an unexpected command response"@,
    }
}

/// What becomes of a command that was sent to an agent: an informational
/// message, or what went wrong.
pub fn command_reply(action: &str, response: &Response) -> (r: Result<String, String>)
    ensures
        r is Ok <==> response@ == ResponseView::CommandResult(0),
        r matches Ok(s) ==> s@ == connection::report_text(action@, 0),
        r matches Err(s) ==> s@ == (match response@ {
            ResponseView::CommandResult(code) => connection::report_text(action@, code),
            _ => "agent returned an unexpected command response"@,
        }),
        command_replied(action@, response@, r),
{
    match response {
        Response::CommandResult { code } => connection::report_command(action, *code),
        _ => Err("agent returned an unexpected command response".to_owned()),
    }
}

/// The measurement that an agent sent for the device's clock.
pub fn clock_reply(response: &Response) -> (r: Result<Measurement, String>)
    ensures
        r is Ok <==> response@.measurement() is Some,
        r matches Ok(m) ==> response@.measurement() == Some(m),
        r matches Err(s) ==> s@ == "agent returned an unexpected RTC response"@,
{
    match response.to_measurement() {
        Some(m) => Ok(m),
        None => Err("agent returned an unexpected RTC response".to_owned()),
    }
}

/// What is done on the link itself on behalf of an invocation.
#[derive(Debug)]
pub enum DirectWork {
    /// Write a frame, and report its outcome under this name.
    Command { payload: Vec<u8>, action: &'static str },
    /// The command cannot be sent, for this reason.
    Refused(String),
    /// Read a measurement, for the device's clock.
    ReadClock,
    /// Stream measurements, until there are enough.
    Stream,
}

/// Whether `w` is what is done on the link itself in this mode, by what a clock
/// showed.
pub open spec fn directed(
    mode: ModeView,
    before: ClockView,
    after: ClockView,
    w: DirectWork,
) -> bool {
    match mode {
        ModeView::SetRtc(at) => {
            let t = after.shown.last().shown;
            &&& time::shown_at(before, after, at.seconds)
            &&& match server::clock_frame(t) {
                Ok(bytes) => w matches DirectWork::Command { payload, action } && payload@ == bytes
                    && action@ == "RTC set"@,
                Err(e) => w matches DirectWork::Refused(s) && s@ == e,
            }
        },
        ModeView::GetRtc => after == before && w is ReadClock,
        ModeView::Power(on) => {
            &&& after == before
            &&& w matches DirectWork::Command { payload, action } && payload@ == payload::frame(
                seq![
                    payload::SWITCH,
                    if on {
                        1u8
                    } else {
                        0u8
                    },
                ],
            ) && action@ == (if on {
                "Power on"@
            } else {
                "Power off"@
            })
        },
        ModeView::TestLed => {
            &&& after == before
            &&& w matches DirectWork::Command { payload, action } && payload@ == payload::frame(
                seq![0x3E, 0x01, 0x02, 0x02, 0x0F],
            ) && action@ == "Blink"@
        },
        ModeView::Metric(_) | ModeView::Monitor => after == before && w is Stream,
    }
}

/// Decide what to do on the link itself. The device's clock is set to what
/// `clock` shows at the time that was asked for.
pub fn direct_work(mode: &Mode, clock: &mut WallClock) -> (w: DirectWork)
    requires
        mode@ matches ModeView::SetRtc(t) ==> t.valid(),
    ensures
        match mode@ {
            ModeView::SetRtc(at) => {
                let t = final(clock)@.shown.last().shown;
                &&& time::shown_at(old(clock)@, final(clock)@, at.seconds)
                &&& if payload::FIRST_YEAR <= t.year <= payload::LAST_YEAR {
                    w matches DirectWork::Command { payload, action } && payload@ == payload::frame(
                        payload::rtc_payload(t),
                    ) && action@ == "RTC set"@
                } else {
                    w matches DirectWork::Refused(s) && s@ == (payload::YearOutOfRange {
                        year: t.year,
                    }).text()
                }
            },
            ModeView::GetRtc => w is ReadClock,
            ModeView::Power(on) => w matches DirectWork::Command { payload, action } && payload@
                == (if on {
                payload::frame(seq![payload::SWITCH, 0x01])
            } else {
                payload::frame(seq![payload::SWITCH, 0x00])
            }) && action@ == (if on {
                "Power on"@
            } else {
                "Power off"@
            }),
            ModeView::TestLed => w matches DirectWork::Command { payload, action } && payload@
                == payload::frame(seq![0x3E, 0x01, 0x02, 0x02, 0x0F]) && action@ == "Blink"@,
            ModeView::Metric(_) | ModeView::Monitor => w is Stream,
        },
        !(mode@ is SetRtc) ==> final(clock)@ == old(clock)@,
        directed(mode@, old(clock)@, final(clock)@, w),
{
    match mode {
        Mode::SetRtc(at) => {
            let t = time::local_fields(clock, at.seconds);
            match payload::rtc(&t) {
                Ok(payload) => DirectWork::Command { payload, action: "RTC set" },
                Err(e) => DirectWork::Refused(e.message()),
            }
        },
        Mode::GetRtc => DirectWork::ReadClock,
        Mode::Power(on) => if *on {
            DirectWork::Command { payload: payload::on(), action: "Power on" }
        } else {
            DirectWork::Command { payload: payload::off(), action: "Power off" }
        },
        Mode::TestLed => DirectWork::Command { payload: payload::blink_led(), action: "Blink" },
        Mode::Metric(_) | Mode::Monitor => DirectWork::Stream,
    }
}

/// What an invocation does first, once its settings are resolved.
#[derive(Debug)]
pub enum Plan {
    /// Manage the agent.
    Agent,
    /// Stop: the metric prefix cannot be expressed.
    BadPrefix(PrefixError),
    /// List nearby devices.
    Scan { mode: ScanMode, index: usize, seconds: u64 },
    /// Operate the device, through an agent where one answers.
    Operate,
}

/// Whether `p` is what an invocation does first.
pub open spec fn planned(cli: Cli, settings: SettingsView, mode: ModeView, p: Plan) -> bool {
    let fault = cli::prefix_fault(cli.format_used(), mode.prefix());
    if cli.command is Some {
        p is Agent
    } else if fault is Some {
        p matches Plan::BadPrefix(e) && e.prefix@ == mode.prefix() && Some(e.bad) == fault
    } else {
        match cli.scan_wanted() {
            Some(wanted) => p == (Plan::Scan {
                mode: wanted,
                index: match settings.connect.index {
                    Some(i) => i,
                    None => DEFAULT_INDEX,
                },
                seconds: window_of(cli.duration),
            }),
            None => p is Operate,
        }
    }
}

/// Decide what an invocation does first: the agent's own commands come before
/// anything else, and a prefix that cannot be expressed is reported before
/// anything connects.
pub fn plan(cli: &Cli, settings: &Settings, mode: &Mode) -> (p: Plan)
    ensures
        ({
            let fault = cli::prefix_fault(cli.format_used(), mode@.prefix());
            if cli.command is Some {
                p is Agent
            } else if fault is Some {
                p matches Plan::BadPrefix(e) && e.prefix@ == mode@.prefix() && Some(e.bad) == fault
            } else if cli.scan || cli.scan_all {
                p == (Plan::Scan {
                    mode: if cli.scan {
                        ScanMode::WattCheckers
                    } else {
                        ScanMode::Everything
                    },
                    index: match settings.connect.index {
                        Some(i) => i,
                        None => DEFAULT_INDEX,
                    },
                    seconds: match cli.duration {
                        Some(n) => n,
                        None => DEFAULT_SCAN_WINDOW,
                    },
                })
            } else {
                p is Operate
            }
        }),
        planned(*cli, settings@, mode@, p),
{
    if cli.command.is_some() {
        return Plan::Agent;
    }
    if let Err(e) = cli.validate_prefix(mode) {
        return Plan::BadPrefix(e);
    }
    match cli.scan_mode() {
        Some(mode) => Plan::Scan {
            mode,
            index: cli.adapter_index(settings),
            seconds: scan_window(cli),
        },
        None => Plan::Operate,
    }
}

/// Whether `r` says if an invocation for the device `want` goes through an agent
/// that answered, which reports the device that it holds or does not.
pub open spec fn routed(
    want: Option<BDAddr>,
    agent: Option<Option<BDAddr>>,
    socket: Seq<char>,
    r: Result<bool, String>,
) -> bool {
    match agent {
        None => r == Ok::<bool, String>(false),
        Some(have) => if conflicts(want, have) {
            r matches Err(e) && e@ == mismatch_text(socket, have->0, want->0)
        } else {
            r == Ok::<bool, String>(true)
        },
    }
}

/// Whether an invocation goes through the agent: it does where one answers,
/// provided that it holds the device that was asked for.
pub fn goes_through_agent(cli: &Cli, daemon: Option<&DaemonInfo>, socket: &str) -> (r: Result<
    bool,
    String,
>)
    ensures
        match daemon {
            None => r == Ok::<bool, String>(false),
            Some(d) => if conflicts(cli.connect.addr, d.addr) {
                r matches Err(e) && e@ == mismatch_text(socket@, d.addr->0, cli.connect.addr->0)
            } else {
                r == Ok::<bool, String>(true)
            },
        },
        routed(
            cli.connect.addr,
            match daemon {
                Some(d) => Some(d.addr),
                None => None,
            },
            socket@,
            r,
        ),
{
    match daemon {
        None => Ok(false),
        Some(d) => match ensure_addr_matches(cli.explicit_addr(), d.addr, socket) {
            Ok(()) => Ok(true),
            Err(e) => Err(e),
        },
    }
}

/// An agent that a command is handed to is not known to hold another device
/// than the one that was asked for: where it reports one, it is that one.
pub proof fn accepted_agent_holds_the_device(want: BDAddr, have: Option<BDAddr>)
    requires
        !conflicts(Some(want), have),
    ensures
        have matches Some(h) ==> h == want,
{
}

/// An invocation does the same through an agent as it does on the link itself:
/// what the agent is asked for, it carries out with the very bytes that would be
/// written here, and the outcome is reported under the same name. A switch is
/// told on or off by its second byte.
pub proof fn an_agent_does_what_would_be_done_here(
    mode: ModeView,
    before: ClockView,
    after: ClockView,
    shown: ClockView,
    through: DaemonWork,
    here: DirectWork,
)
    requires
        requested(mode, before, after, through),
        directed(mode, before, shown, here),
    ensures
        through is ReadClock <==> mode is GetRtc,
        here is ReadClock <==> mode is GetRtc,
        through is Stream <==> mode is Metric || mode is Monitor,
        here is Stream <==> mode is Metric || mode is Monitor,
        mode matches ModeView::Power(on) ==> {
            &&& through matches DaemonWork::Command { request, action } && request@
                == RequestView::Power(on)
            &&& here matches DirectWork::Command { payload, action } && payload@.len() == 6
                && payload@[3] == 0xa7 && payload@[4] == (if on {
                1u8
            } else {
                0u8
            })
        },
        through is Command && !(mode is SetRtc) ==> {
            &&& through matches DaemonWork::Command { request, action }
            &&& here matches DirectWork::Command { payload, action: name }
            &&& name@ == action@
            &&& exists|p: Seq<u8>| #[trigger]
                payload::frame(p) == payload@ && server::operates(
                    request@,
                    p,
                    connection::FrameKind::Command,
                )
        },
{
    if let ModeView::Power(on) = mode {
        let bit: u8 = if on {
            1
        } else {
            0
        };
        let p = seq![payload::SWITCH, bit];
        assert(payload::frame(p)[3] == payload::SWITCH);
        if on {
            assert(p =~= seq![0xa7u8, 1u8]);
            assert(payload::frame(seq![0xa7u8, 1u8]) == payload::frame(p));
        } else {
            assert(p =~= seq![0xa7u8, 0u8]);
            assert(payload::frame(seq![0xa7u8, 0u8]) == payload::frame(p));
        }
    }
    if mode is TestLed {
        let p = seq![0x3eu8, 1u8, 2u8, 2u8, 0x0fu8];
        assert(payload::frame(p) == payload::frame(seq![0x3E, 0x01, 0x02, 0x02, 0x0F]));
    }
}

/// Setting the device's clock here writes a frame from which the device reads the
/// very time that the system's clock shows at the instant that was asked for; a
/// year that no frame can carry is named, and nothing is written.
pub proof fn the_clock_is_set_to_what_is_shown(
    at: Moment,
    before: ClockView,
    after: ClockView,
    w: DirectWork,
    measurement: Seq<u8>,
)
    requires
        directed(ModeView::SetRtc(at), before, after, w),
        measurement.len() >= 29,
    ensures
        ({
            let shown = after.shown.last();
            &&& shown.epoch == at.seconds
            &&& w is Command <==> 1900 <= shown.shown.year <= 2155
            &&& w is Refused <==> !(1900 <= shown.shown.year <= 2155)
            &&& w matches DirectWork::Command { payload, action } ==> {
                &&& payload@.len() == 12
                &&& measurement.subrange(23, 29) == payload@.subrange(4, 10)
                    ==> connection::device_clock(measurement) == Some(shown.shown.seconds() as i64)
            }
            &&& w matches DirectWork::Refused(s) ==> text::holds(
                s@,
                text::integer(shown.shown.year as int),
            )
        }),
{
    let t = after.shown.last().shown;
    if let DirectWork::Command { payload, action } = w {
        let p = payload::rtc_payload(t);
        assert(payload@.subrange(4, 10) =~= p.subrange(1, 7));
        if measurement.subrange(23, 29) == payload@.subrange(4, 10) {
            payload::what_is_set_reads_back(t, measurement);
        }
    }
    if let DirectWork::Refused(s) = w {
        text::lemma_holds(
            s@,
            "year "@,
            text::integer(t.year as int),
            " does not fit in the device's clock"@,
        );
    }
}

/// The agent's own commands come before anything else, a prefix that Prometheus
/// would not take before anything that connects, and a scan before operating a
/// device. A scan lasts ten seconds on the first adapter, unless told otherwise.
pub proof fn first_things_come_first(cli: Cli, settings: SettingsView, mode: ModeView, p: Plan)
    requires
        planned(cli, settings, mode, p),
    ensures
        p is Agent <==> cli.command is Some,
        p is Operate ==> !cli.scan && !cli.scan_all,
        p is BadPrefix ==> cli.command is None && cli.format_used()
            == cli::OutputFormat::Prometheus,
        cli.command is None && cli.format_used() != cli::OutputFormat::Prometheus ==> (
        p is Scan <==> cli.scan || cli.scan_all),
        p matches Plan::Scan { mode: wanted, index, seconds } ==> {
            &&& wanted == ScanMode::WattCheckers <==> cli.scan
            &&& cli.duration is None ==> seconds == 10
            &&& cli.duration matches Some(n) ==> seconds == n
            &&& settings.connect.index is None ==> index == 0
            &&& settings.connect.index matches Some(i) ==> index == i
        },
{
}

/// An invocation goes through an agent just where one answers, unless it holds
/// another device than the one that was asked for: then nothing is done, and both
/// are named.
#[verifier::rlimit(40)]
pub proof fn an_agent_is_used_where_one_answers(
    want: Option<BDAddr>,
    agent: Option<Option<BDAddr>>,
    socket: Seq<char>,
    r: Result<bool, String>,
)
    requires
        routed(want, agent, socket, r),
    ensures
        agent is None <==> r == Ok::<bool, String>(false),
        want is None && agent is Some ==> r == Ok::<bool, String>(true),
        agent == Some(None::<BDAddr>) ==> r == Ok::<bool, String>(true),
        agent == Some(want) ==> r == Ok::<bool, String>(true),
        r matches Err(e) ==> {
            &&& want is Some && agent is Some && agent->0 is Some && agent->0 != want
            &&& text::holds(e@, "the agent on "@ + socket + " is attached to "@ + agent->0->0.text())
            &&& text::holds(e@, "--addr asks for "@ + want->0.text())
        },
{
    if let Err(e) = r {
        let (have, asked) = (agent->0->0.text(), want->0.text());
        let end = "; stop that agent or point --socket at the one holding it"@;
        let first = "the agent on "@ + socket + " is attached to "@ + have;
        reveal_strlit(", but --addr asks for ");
        reveal_strlit("--addr asks for ");
        let but = ", but --addr asks for "@.take(6);
        assert(", but --addr asks for "@ =~= but + "--addr asks for "@);
        assert(e@ =~= Seq::<char>::empty() + first + (", but --addr asks for "@ + asked + end));
        assert(e@ =~= (first + but) + ("--addr asks for "@ + asked) + end);
        text::lemma_holds(
            e@,
            Seq::empty(),
            first,
            ", but --addr asks for "@ + asked + end,
        );
        text::lemma_holds(e@, first + but, "--addr asks for "@ + asked, end);
    }
}

/// A command succeeded if and only if the device says so; the report names it
/// either way, and anything but the device's verdict is an error.
pub proof fn only_the_device_says_that_it_went_well(
    action: Seq<char>,
    response: ResponseView,
    r: Result<String, String>,
)
    requires
        command_replied(action, response, r),
    ensures
        r is Ok <==> response == ResponseView::CommandResult(0),
        r matches Ok(s) ==> s@ == action + " succeeded"@,
        response matches ResponseView::CommandResult(code) && code != 0 ==> r is Err && text::holds(
            r->Err_0@,
            action + " failed, CODE: 0x"@,
        ),
{
    if let ResponseView::CommandResult(code) = response {
        connection::a_failure_names_its_code(action, code);
        if code != 0 {
            let s = connection::report_text(action, code);
            let head = action + " failed, CODE: 0x"@;
            let n = head.len() as int;
            assert(s =~= s.take(n) + s.skip(n));
            assert(s =~= Seq::<char>::empty() + head + s.skip(n));
            text::lemma_holds(s, Seq::empty(), head, s.skip(n));
        }
    }
}

/// A report of the device's clock shows the device's time first and the system's
/// below it, each as the system's clock writes it, and then the seconds by which
/// the device is ahead, or behind where they are negative: exactly that many where
/// the system's time is a whole second.
#[verifier::rlimit(40)]
pub proof fn a_drift_is_how_far_the_device_is_ahead(
    before: ClockView,
    after: ClockView,
    device: i64,
    now: i64,
    nanos: u32,
    t: Seq<char>,
)
    requires
        clocks_compared(before, after, device, now, nanos, t),
        nanos < 1_000_000_000,
    ensures
        ({
            let n = before.written.len() as int;
            let (first, second) = (after.written[n], after.written[n + 1]);
            &&& after.written.len() == n + 2
            &&& first.at.seconds == device && second.at.seconds == now && second.at.nanos == nanos
            &&& text::holds(t, "device_time = "@ + first.text + "\n"@)
            &&& text::holds(t, "system_time = "@ + second.text + "\n"@)
            &&& nanos == 0 ==> text::holds(
                t,
                "drift_seconds = "@ + text::integer(device - now) + "\n"@,
            )
        }),
{
    let n = before.written.len() as int;
    let (a, b) = (after.written[n].text, after.written[n + 1].text);
    let d = text::integer(drift_of(device as int, now as int, nanos as int));
    reveal_strlit("\n");
    reveal_strlit("\nsystem_time = ");
    reveal_strlit("system_time = ");
    reveal_strlit("\ndrift_seconds = ");
    reveal_strlit("drift_seconds = ");
    assert("\nsystem_time = "@ =~= "\n"@ + "system_time = "@);
    assert("\ndrift_seconds = "@ =~= "\n"@ + "drift_seconds = "@);
    let x = "device_time = "@ + a + "\n"@;
    let y = "system_time = "@ + b + "\n"@;
    let z = "drift_seconds = "@ + d + "\n"@;
    assert(t =~= x + y + z);
    assert(t =~= Seq::<char>::empty() + x + (y + z));
    assert(t =~= (x + y) + z + Seq::<char>::empty());
    text::lemma_holds(t, Seq::empty(), x, y + z);
    text::lemma_holds(t, x, y, z);
    text::lemma_holds(t, x + y, z, Seq::empty());
}

/// A scan lists a device after those that were found before it, or leaves it out;
/// with nothing to list it says so.
pub proof fn a_scan_lists_one_device_after_another(
    devices: Seq<ScannedDevice>,
    d: ScannedDevice,
    mode: ScanMode,
)
    ensures
        scan_text(Seq::empty(), mode) == "No devices found.\n"@,
        !is_listed(d, mode) ==> scan_text(devices.push(d), mode) == scan_text(devices, mode),
        is_listed(d, mode) && listed(devices, mode).len() > 0 ==> scan_text(devices.push(d), mode)
            == scan_text(devices, mode) + device_line(d),
        is_listed(d, mode) && listed(devices, mode).len() == 0 ==> scan_text(devices.push(d), mode)
            == device_line(d),
        is_listed(d, ScanMode::Everything),
        is_listed(d, ScanMode::WattCheckers) ==> d.name is Some,
{
    reveal(Seq::filter);
    let keep = |d: ScannedDevice| is_listed(d, mode);
    assert(devices.push(d).drop_last() =~= devices);
    let (a, b) = (listed(devices, mode), listed(devices.push(d), mode));
    assert(Seq::<ScannedDevice>::empty().filter(keep).len() == 0);
    if is_listed(d, mode) {
        assert(b == a.push(d));
        assert(a.push(d).drop_last() =~= a);
        if a.len() == 0 {
            assert(device_lines(a) =~= Seq::empty());
            assert(device_lines(b) =~= device_line(d));
        }
    } else {
        assert(b == a);
    }
}

/// The devices that a scan leaves out.
pub open spec fn left_out(devices: Seq<ScannedDevice>, mode: ScanMode) -> nat
    decreases devices.len(),
{
    if devices.len() == 0 {
        0
    } else {
        left_out(devices.drop_last(), mode) + if is_listed(devices.last(), mode) {
            0nat
        } else {
            1nat
        }
    }
}

/// A scan says how many devices it left out, where it left out any and
/// informational messages are wanted; a scan for everything leaves out none.
pub proof fn what_is_left_out_is_counted(devices: Seq<ScannedDevice>, mode: ScanMode, info: bool)
    ensures
        left_out(devices, mode) + listed(devices, mode).len() == devices.len(),
        left_out(devices, ScanMode::Everything) == 0,
        note_of(devices, mode, false) is None,
        note_of(devices, mode, true) is Some <==> left_out(devices, mode) > 0,
        note_of(devices, mode, info) matches Some(n) ==> n == "[INFO] "@ + text::decimal(
            left_out(devices, mode),
        ) + " other device(s) hidden; use --scan-all to list them"@,
    decreases devices.len(),
{
    reveal(Seq::filter);
    if devices.len() > 0 {
        what_is_left_out_is_counted(devices.drop_last(), mode, info);
    }
}

/// A line of a scan is three fields with tabs between them: the address, the name
/// or that there is none, and the strength of the signal.
#[verifier::rlimit(40)]
pub proof fn a_scanned_device_is_three_fields(d: ScannedDevice)
    requires
        d.name matches Some(name) ==> text::lacks(name@, '\t'),
    ensures
        ({
            let line = device_line(d);
            let fields = text::split(line.drop_last(), '\t');
            &&& line.last() == '\n'
            &&& fields.len() == 3
            &&& crate::addr::parsed(fields[0]) == Ok::<BDAddr, crate::addr::AddrError>(d.addr)
            &&& d.name matches Some(name) ==> fields[1] == name@
            &&& d.name is None ==> fields[1] == "(unknown)"@
            &&& fields[2] == "rssi="@ + text::integer(d.rssi as int)
        }),
{
    reveal_strlit("(unknown)");
    reveal_strlit("rssi=");
    reveal_strlit("\trssi=");
    reveal_strlit("\t");
    reveal_strlit("\n");
    let name = match d.name {
        Some(name) => name@,
        None => "(unknown)"@,
    };
    let a = d.addr.text();
    let r = "rssi="@ + text::integer(d.rssi as int);
    let list = seq![a, name, r];
    crate::addr::display_then_parse(d.addr);
    crate::addr::lemma_text_is_printed(d.addr);
    text::lemma_printed_lacks(a);
    text::lemma_integer_is_printed(d.rssi as int);
    text::lemma_printed_lacks(text::integer(d.rssi as int));
    assert(text::lacks(r, '\t')) by {
        assert forall|i: int| 0 <= i < r.len() implies #[trigger] r[i] != '\t' by {
            if i >= 5 {
                assert(r[i] == text::integer(d.rssi as int)[i - 5]);
            }
        }
    }
    text::what_is_joined_comes_apart(list, '\t');
    let line = device_line(d);
    assert("\trssi="@ =~= seq!['\t'] + "rssi="@);
    assert("\t"@ =~= seq!['\t']);
    reveal_with_fuel(text::join, 4);
    assert(list.drop_last().drop_last() =~= seq![a]);
    assert(list.drop_last() =~= seq![a, name]);
    assert(text::join(list, seq!['\t']) =~= a + seq!['\t'] + name + seq!['\t'] + r);
    assert(line.drop_last() =~= a + seq!['\t'] + name + seq!['\t'] + r);
}

/// A span is shown to the nearest millisecond, as a number of milliseconds; less
/// than half of one is shown as nothing.
pub proof fn spans_are_shown_to_the_millisecond(nanos: nat)
    ensures
        nanos < 500_000 ==> seconds_text(nanos) == "0ns"@,
        nanos >= 500_000 ==> exists|millis: nat|
            millis > 0 && millis * 1_000_000 - nanos <= 500_000 && nanos - millis * 1_000_000
                < 500_000 && seconds_text(nanos) == #[trigger] interval::nanos_text(
                millis * 1_000_000,
            ),
{
    if nanos >= 500_000 {
        let millis = (nanos + 500_000) / 1_000_000;
        assert(seconds_text(nanos) == interval::nanos_text(millis * 1_000_000));
    }
}

/// What is shown of an agent is what it reported, each under its name: whether
/// the link is up, how often it polls, how long it runs, what it read and how long
/// ago, how often it reconnected, how many clients it has, and where it is scraped.
#[verifier::rlimit(40)]
pub proof fn a_status_shows_what_was_reported(s: AgentStatusView)
    ensures
        ({
            let t = status_text(s);
            &&& s.connected ==> text::holds(t, "Link:        connected\n"@)
            &&& !s.connected ==> text::holds(t, "Link:        disconnected\n"@)
            &&& text::holds(t, "\nInterval:    "@ + seconds_text(s.interval_nanos as nat) + "\n"@)
            &&& text::holds(t, "\nUptime:      "@ + duration_text(s.uptime_seconds as nat) + "\n"@)
            &&& text::holds(t, "\nSamples:     "@ + text::decimal(s.samples as nat) + " ("@)
            &&& s.last_sample_age_nanos matches Some(age) ==> text::holds(
                t,
                " (last "@ + seconds_text(age as nat) + " ago)\n"@,
            )
            &&& s.last_sample_age_nanos is None ==> text::holds(t, " (none yet)\n"@)
            &&& text::holds(t, "\nReconnects:  "@ + text::decimal(s.reconnects as nat) + "\n"@)
            &&& text::holds(t, "\nClients:     "@ + text::decimal(s.clients as nat) + "\n"@)
            &&& s.metrics_listen matches Some(a) ==> text::holds(t, "http://"@ + a + "/metrics\n"@)
        }),
{
    let link = if s.connected {
        "connected"@
    } else {
        "disconnected"@
    };
    let age = match s.last_sample_age_nanos {
        Some(age) => " (last "@ + seconds_text(age as nat) + " ago)"@,
        None => " (none yet)"@,
    };
    let scraped = match s.metrics_listen {
        Some(addr) => "Metrics:     http://"@ + addr + "/metrics\n"@,
        None => Seq::empty(),
    };
    let (interval, uptime) = (
        seconds_text(s.interval_nanos as nat),
        duration_text(s.uptime_seconds as nat),
    );
    let (samples, reconnects, clients) = (
        text::decimal(s.samples as nat),
        text::decimal(s.reconnects as nat),
        text::decimal(s.clients as nat),
    );
    lemma_status_lines(link, interval, uptime, samples, age, reconnects, clients, scraped);
    let t = lined(link, interval, uptime, samples, age, reconnects, clients, scraped);
    assert(status_text(s) == t);
    reveal_strlit("Link:        ");
    reveal_strlit("connected");
    reveal_strlit("disconnected");
    reveal_strlit("\n");
    reveal_strlit("Link:        connected\n");
    reveal_strlit("Link:        disconnected\n");
    reveal_strlit(" (none yet)");
    reveal_strlit(" (none yet)\n");
    reveal_strlit(" ago)");
    reveal_strlit(" ago)\n");
    reveal_strlit(" (");
    reveal_strlit(" (last ");
    assert("Link:        "@ + "connected"@ + "\n"@ =~= "Link:        connected\n"@);
    assert("Link:        "@ + "disconnected"@ + "\n"@ =~= "Link:        disconnected\n"@);
    assert(" (none yet)"@ + "\n"@ =~= " (none yet)\n"@);
    assert(" ago)"@ + "\n"@ =~= " ago)\n"@);
    if let Some(n) = s.last_sample_age_nanos {
        let x = seconds_text(n as nat);
        assert(age + "\n"@ =~= " (last "@ + x + " ago)\n"@);
    }
    assert(age.len() >= 2 && age.take(2) =~= " ("@);
    let read = "\nSamples:     "@ + samples;
    lemma_holds_start(t, read, age);
    if let Some(a) = s.metrics_listen {
        reveal_strlit("Metrics:     http://");
        reveal_strlit("http://");
        let label = "Metrics:     http://"@.take(13);
        assert("Metrics:     http://"@ =~= label + "http://"@);
        let part = "http://"@ + a + "/metrics\n"@;
        assert(scraped =~= label + part);
        let before = choose|x: Seq<char>, y: Seq<char>| t == #[trigger] (x + scraped + y);
        assert(t =~= (before.0 + label) + part + before.1);
        text::lemma_holds(t, before.0 + label, part, before.1);
    }
}

/// What a status report is made of.
spec fn lined(
    link: Seq<char>,
    interval: Seq<char>,
    uptime: Seq<char>,
    samples: Seq<char>,
    age: Seq<char>,
    reconnects: Seq<char>,
    clients: Seq<char>,
    scraped: Seq<char>,
) -> Seq<char> {
    "Link:        "@ + link + "\nInterval:    "@ + interval + "\nUptime:      "@ + uptime
        + "\nSamples:     "@ + samples + age + "\nReconnects:  "@ + reconnects
        + "\nClients:     "@ + clients + "\n"@ + scraped
}

proof fn lemma_holds_start(t: Seq<char>, read: Seq<char>, age: Seq<char>)
    requires
        text::holds(t, read + age),
        age.len() >= 2,
        age.take(2) == " ("@,
    ensures
        text::holds(t, read + " ("@),
{
    let (a, b) = choose|a: Seq<char>, b: Seq<char>| t == #[trigger] (a + (read + age) + b);
    let rest = age.skip(2);
    assert(age =~= " ("@ + rest);
    assert(t =~= a + (read + " ("@) + (rest + b));
    text::lemma_holds(t, a, read + " ("@, rest + b);
}

#[verifier::rlimit(40)]
proof fn lemma_status_lines(
    link: Seq<char>,
    interval: Seq<char>,
    uptime: Seq<char>,
    samples: Seq<char>,
    age: Seq<char>,
    reconnects: Seq<char>,
    clients: Seq<char>,
    scraped: Seq<char>,
)
    ensures
        ({
            let t = lined(link, interval, uptime, samples, age, reconnects, clients, scraped);
            &&& text::holds(t, "Link:        "@ + link + "\n"@)
            &&& text::holds(t, "\nInterval:    "@ + interval + "\n"@)
            &&& text::holds(t, "\nUptime:      "@ + uptime + "\n"@)
            &&& text::holds(t, "\nSamples:     "@ + samples + age)
            &&& text::holds(t, age + "\n"@)
            &&& text::holds(t, "\nReconnects:  "@ + reconnects + "\n"@)
            &&& text::holds(t, "\nClients:     "@ + clients + "\n"@)
            &&& text::holds(t, scraped)
        }),
{
    let t = lined(link, interval, uptime, samples, age, reconnects, clients, scraped);
    reveal_strlit("\n");
    reveal_strlit("\nInterval:    ");
    reveal_strlit("\nUptime:      ");
    reveal_strlit("\nSamples:     ");
    reveal_strlit("\nReconnects:  ");
    reveal_strlit("\nClients:     ");
    let a1 = "Link:        "@ + link;
    let a2 = a1 + "\nInterval:    "@ + interval;
    let a3 = a2 + "\nUptime:      "@ + uptime;
    let a4 = a3 + "\nSamples:     "@ + samples;
    let a5 = a4 + age;
    let a6 = a5 + "\nReconnects:  "@ + reconnects;
    let a7 = a6 + "\nClients:     "@ + clients;
    let b7 = "\n"@ + scraped;
    let b6 = "\nClients:     "@ + clients + b7;
    let b5 = "\nReconnects:  "@ + reconnects + b6;
    let b4 = age + b5;
    let b3 = "\nSamples:     "@ + samples + b4;
    let b2 = "\nUptime:      "@ + uptime + b3;
    let b1 = "\nInterval:    "@ + interval + b2;
    assert(t =~= a7 + "\n"@ + scraped);
    assert(a7 + b7 =~= t);
    assert(a6 + b6 =~= a7 + b7);
    assert(a5 + b5 =~= a6 + b6);
    assert(a4 + b4 =~= a5 + b5);
    assert(a3 + b3 =~= a4 + b4);
    assert(a2 + b2 =~= a3 + b3);
    assert(a1 + b1 =~= a2 + b2);
    lemma_line_in(t, Seq::empty(), "Link:        "@, link, b1);
    assert(t =~= Seq::<char>::empty() + "Link:        "@ + link + b1);
    lemma_line_in(t, a1, "\nInterval:    "@, interval, b2);
    lemma_line_in(t, a2, "\nUptime:      "@, uptime, b3);
    assert(t =~= a3 + ("\nSamples:     "@ + samples + age) + b5);
    text::lemma_holds(t, a3, "\nSamples:     "@ + samples + age, b5);
    let none = Seq::<char>::empty();
    assert(a4 + none + age + b5 =~= t);
    lemma_line_in(t, a4, none, age, b5);
    assert(none + age + "\n"@ =~= age + "\n"@);
    lemma_line_in(t, a5, "\nReconnects:  "@, reconnects, b6);
    lemma_line_in(t, a6, "\nClients:     "@, clients, b7);
    assert(t =~= (a7 + "\n"@) + scraped + none);
    text::lemma_holds(t, a7 + "\n"@, scraped, none);
}

proof fn lemma_line_in(
    t: Seq<char>,
    before: Seq<char>,
    label: Seq<char>,
    value: Seq<char>,
    after: Seq<char>,
)
    requires
        t == before + label + value + after,
        after.len() > 0,
        after[0] == '\n',
    ensures
        text::holds(t, label + value + "\n"@),
{
    reveal_strlit("\n");
    let rest = after.drop_first();
    assert(after =~= "\n"@ + rest);
    assert(t =~= before + (label + value + "\n"@) + rest);
    text::lemma_holds(t, before, label + value + "\n"@, rest);
}

/// The pid of an agent is what its pid file holds between white space; a file
/// that is missing or blank leaves it unknown.
pub proof fn a_pid_is_shown_as_it_is_recorded(before: Seq<char>, pid: Seq<char>, after: Seq<char>, contents: &str)
    requires
        text::blank(before),
        text::blank(after),
        text::bare(pid),
        contents@ == before + pid + after,
    ensures
        pid.len() > 0 ==> pid_text(Some(contents)) == pid,
        pid.len() == 0 ==> pid_text(Some(contents)) == "unknown"@,
        pid_text(None) == "unknown"@,
{
    text::white_space_around_makes_no_difference(before, pid, after);
}

/// An option that the agent decides for itself is warned of just where it was
/// given, and named.
pub proof fn ignored_options_are_named(interval: bool, index: bool)
    ensures
        ({
            let w = ignored_flags(interval, index);
            &&& w.contains(ignored_text("--interval"@)) <==> interval
            &&& w.contains(ignored_text("--index"@)) <==> index
            &&& w.len() == cli::count(interval) + cli::count(index)
            &&& text::holds(ignored_text("--interval"@), "--interval is ignored"@)
            &&& text::holds(ignored_text("--index"@), "--index is ignored"@)
        }),
{
    let w = ignored_flags(interval, index);
    let (a, b) = (ignored_text("--interval"@), ignored_text("--index"@));
    reveal_strlit("[WARN] ");
    reveal_strlit("--interval");
    reveal_strlit("--index");
    reveal_strlit("--interval is ignored");
    reveal_strlit("--index is ignored");
    reveal_strlit(" is ignored while the agent is running; the value it was started with applies");
    let end = " is ignored while the agent is running; the value it was started with applies"@;
    let (x, y) = (end.take(11), end.skip(11));
    assert(end =~= x + y);
    assert("--interval"@ + x =~= "--interval is ignored"@);
    assert("--index"@ + x =~= "--index is ignored"@);
    assert(a =~= "[WARN] "@ + "--interval is ignored"@ + y);
    assert(b =~= "[WARN] "@ + "--index is ignored"@ + y);
    text::lemma_holds(a, "[WARN] "@, "--interval is ignored"@, y);
    text::lemma_holds(b, "[WARN] "@, "--index is ignored"@, y);
    assert(a.len() != b.len());
    if interval {
        assert(w[0] == a);
    }
    if index {
        assert(w[w.len() - 1] == b);
    }
}

} // verus!
