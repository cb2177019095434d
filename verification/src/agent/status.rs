use crate::agent::protocol::{AgentStatus, AgentStatusView};
use crate::config;
use crate::connection::Measurement;
use crate::interval::Interval;
use vstd::prelude::*;
use vstd::string::*;

verus! {

/// Never call a reading fresh for less than this, however short the interval:
/// one skipped sample on a busy link is not a dead device. In nanoseconds.
pub const MIN_FRESHNESS: u64 = 5_000_000_000;

/// How many intervals may pass before the last reading stops standing for the
/// device's present state.
pub const STALE_AFTER_INTERVALS: u64 = 3;

/// The most recent measurement, with the monotonic time at which it arrived, in
/// nanoseconds. The device's own timestamp cannot answer "how long ago": it
/// comes from an RTC that drifts, and that `--set-rtc` moves.
#[derive(Clone, Copy, Debug, PartialEq, Eq, Structural)]
pub struct Sample {
    pub measurement: Measurement,
    pub at: u64,
}

/// The latest reading and whether it still describes the device. Taken as one
/// value so a scrape cannot read a measurement and a freshness verdict from
/// either side of an arriving sample.
#[derive(Clone, Copy, Debug, PartialEq, Eq, Structural)]
pub struct Reading {
    pub measurement: Option<Measurement>,
    pub fresh: bool,
}

/// What the agent knows about itself right now: the counters `agent status`
/// reports and the latest measurement `/metrics` serves. Every time is a
/// reading of one monotonic clock, in nanoseconds.
#[derive(Debug)]
pub struct AgentStats {
    started: u64,
    interval: Interval,
    metrics_listen: Option<String>,
    connected: bool,
    samples: u64,
    reconnects: u64,
    clients: usize,
    latest: Option<Sample>,
}

/// What the agent knows about itself.
#[verifier::ext_equal]
pub struct StatsView {
    pub started: u64,
    pub interval: Interval,
    pub metrics_listen: Option<Seq<char>>,
    pub connected: bool,
    pub samples: u64,
    pub reconnects: u64,
    pub clients: usize,
    pub latest: Option<Sample>,
}

/// How long after `from` the time `now` is.
pub open spec fn elapsed(from: u64, now: u64) -> u64 {
    if now >= from {
        (now - from) as u64
    } else {
        0
    }
}

impl StatsView {
    /// How old a reading may be before it stops standing for the device's
    /// present state: three intervals, or five seconds, whichever is longer.
    pub open spec fn stale_after(self) -> int {
        let three = self.interval.nanos() * STALE_AFTER_INTERVALS;
        if three > MIN_FRESHNESS {
            three
        } else {
            MIN_FRESHNESS as int
        }
    }

    /// The latest reading at `now`, and whether it still describes the device:
    /// the link is up, and a sample arrived recently enough.
    pub open spec fn reading_at(self, now: u64) -> Reading {
        Reading {
            measurement: match self.latest {
                Some(s) => Some(s.measurement),
                None => None,
            },
            fresh: self.connected && (self.latest matches Some(s) && elapsed(s.at, now)
                <= self.stale_after()),
        }
    }

    /// What is reported at `now`.
    pub open spec fn status_at(self, now: u64) -> AgentStatusView {
        AgentStatusView {
            uptime_seconds: elapsed(self.started, now) / 1_000_000_000,
            interval_nanos: self.interval.nanos(),
            connected: self.connected,
            samples: self.samples,
            last_sample_age_nanos: match self.latest {
                Some(s) => Some(elapsed(s.at, now)),
                None => None,
            },
            reconnects: self.reconnects,
            clients: self.clients,
            metrics_listen: self.metrics_listen,
        }
    }

    /// The counters with one more, which wraps around.
    pub open spec fn counted(n: u64) -> u64 {
        if n == u64::MAX {
            0
        } else {
            (n + 1) as u64
        }
    }

    /// Nothing happened yet.
    pub open spec fn starting(interval: Interval, metrics_listen: Option<Seq<char>>, now: u64) -> StatsView {
        StatsView {
            started: now,
            interval,
            metrics_listen,
            connected: false,
            samples: 0,
            reconnects: 0,
            clients: 0,
            latest: None,
        }
    }

    /// With the link up or down.
    pub open spec fn linked(self, connected: bool) -> StatsView {
        StatsView { connected, ..self }
    }

    /// After a measurement that arrived at `now`.
    pub open spec fn with_sample(self, m: Measurement, now: u64) -> StatsView {
        StatsView {
            samples: StatsView::counted(self.samples),
            connected: true,
            latest: Some(Sample { measurement: m, at: now }),
            ..self
        }
    }

    /// After the link was re-established.
    pub open spec fn with_reconnect(self) -> StatsView {
        StatsView { reconnects: StatsView::counted(self.reconnects), connected: true, ..self }
    }
}

fn since(from: u64, now: u64) -> (n: u64)
    ensures
        n == elapsed(from, now),
{
    if now >= from {
        now - from
    } else {
        0
    }
}

fn count(n: u64) -> (m: u64)
    ensures
        m == StatsView::counted(n),
{
    if n == u64::MAX {
        0
    } else {
        n + 1
    }
}

impl View for AgentStats {
    type V = StatsView;

    closed spec fn view(&self) -> StatsView {
        StatsView {
            started: self.started,
            interval: self.interval,
            metrics_listen: config::text_of(self.metrics_listen),
            connected: self.connected,
            samples: self.samples,
            reconnects: self.reconnects,
            clients: self.clients,
            latest: self.latest,
        }
    }
}

impl AgentStats {
    pub fn new(interval: Interval, metrics_listen: Option<String>, now: u64) -> (s: AgentStats)
        ensures
            s@ == (StatsView {
                started: now,
                interval,
                metrics_listen: config::text_of(metrics_listen),
                connected: false,
                samples: 0,
                reconnects: 0,
                clients: 0,
                latest: None,
            }),
            s@ == StatsView::starting(interval, config::text_of(metrics_listen), now),
    {
        AgentStats {
            started: now,
            interval,
            metrics_listen,
            connected: false,
            samples: 0,
            reconnects: 0,
            clients: 0,
            latest: None,
        }
    }

    /// Record a measurement. Arriving at all is proof the link is up, so this
    /// is also what clears a `connected = false` left by an earlier failure.
    pub fn record_sample(&mut self, m: &Measurement, now: u64)
        ensures
            final(self)@ == old(self)@.with_sample(*m, now),
    {
        self.samples = count(self.samples);
        self.connected = true;
        self.latest = Some(Sample { measurement: *m, at: now });
    }

    pub fn set_connected(&mut self, connected: bool)
        ensures
            final(self)@ == (StatsView { connected, ..old(self)@ }),
            final(self)@ == old(self)@.linked(connected),
    {
        self.connected = connected;
    }

    pub fn record_reconnect(&mut self)
        ensures
            final(self)@ == old(self)@.with_reconnect(),
    {
        self.reconnects = count(self.reconnects);
        self.connected = true;
    }

    pub fn set_clients(&mut self, clients: usize)
        ensures
            final(self)@ == (StatsView { clients, ..old(self)@ }),
    {
        self.clients = clients;
    }

    /// The latest reading and whether it still describes the device: the link is
    /// up, and a sample arrived recently enough for the configured interval.
    pub fn reading(&self, now: u64) -> (r: Reading)
        ensures
            r == self@.reading_at(now),
    {
        let stale_after: u64 = self.stale_after();
        match self.latest {
            Some(s) => Reading {
                measurement: Some(s.measurement),
                fresh: self.connected && since(s.at, now) <= stale_after,
            },
            None => Reading { measurement: None, fresh: false },
        }
    }

    /// How long ago the last measurement arrived, or `None` if none has.
    pub fn sample_age(&self, now: u64) -> (r: Option<u64>)
        ensures
            r == self@.status_at(now).last_sample_age_nanos,
    {
        match self.latest {
            Some(s) => Some(since(s.at, now)),
            None => None,
        }
    }

    /// How old a reading may be before it stops standing for the device's
    /// present state, in nanoseconds.
    pub fn stale_after(&self) -> (n: u64)
        ensures
            n == self@.stale_after(),
    {
        let three: u64 = self.interval.duration() * STALE_AFTER_INTERVALS;
        if three > MIN_FRESHNESS {
            three
        } else {
            MIN_FRESHNESS
        }
    }

    pub fn snapshot(&self, now: u64) -> (s: AgentStatus)
        ensures
            s@ == self@.status_at(now),
    {
        AgentStatus {
            uptime_seconds: since(self.started, now) / 1_000_000_000,
            interval_nanos: self.interval.duration(),
            connected: self.connected,
            samples: self.samples,
            last_sample_age_nanos: self.sample_age(now),
            reconnects: self.reconnects,
            clients: self.clients,
            metrics_listen: match &self.metrics_listen {
                Some(addr) => Some(addr.clone()),
                None => None,
            },
        }
    }
}

/// A dead link is never fresh, and neither is a reading that was never taken;
/// the reading itself stays available all the same.
pub proof fn dead_link_is_not_fresh(s: StatsView, now: u64)
    ensures
        !s.connected ==> !s.reading_at(now).fresh,
        s.latest is None ==> !s.reading_at(now).fresh,
        s.latest matches Some(l) ==> s.reading_at(now).measurement == Some(l.measurement),
{
}

/// A sample proves the link up and is fresh as long as the window lasts, which
/// is never less than five seconds.
pub proof fn sample_is_fresh(s: StatsView, m: Measurement, at: u64, now: u64)
    requires
        at <= now,
    ensures
        ({
            let r = s.with_sample(m, at).reading_at(now);
            &&& r.measurement == Some(m)
            &&& r.fresh <==> now - at <= s.stale_after()
            &&& now - at <= MIN_FRESHNESS ==> r.fresh
            &&& now - at <= 3 * s.interval.nanos() ==> r.fresh
        }),
{
}

/// A link that was re-established counts as up and is counted once; what was
/// read before stays.
pub proof fn reconnect_is_counted(s: StatsView, now: u64)
    ensures
        s.with_reconnect().status_at(now).connected,
        s.with_reconnect().latest == s.latest,
        s.reconnects < u64::MAX ==> s.with_reconnect().status_at(now).reconnects == s.reconnects
            + 1,
{
}

/// What is reported is what happened: a sample counts as one more, arrived just
/// now, and proves the link up; whole seconds count as uptime; the rest stays.
pub proof fn a_status_counts_what_happened(s: StatsView, m: Measurement, at: u64, now: u64)
    requires
        s.started <= now,
        at <= now,
    ensures
        ({
            let t = s.with_sample(m, at).status_at(now);
            &&& s.samples < u64::MAX ==> t.samples == s.samples + 1
            &&& t.last_sample_age_nanos == Some((now - at) as u64)
            &&& t.connected
            &&& t.reconnects == s.reconnects
            &&& t.clients == s.clients
        }),
        s.status_at(now).uptime_seconds * 1_000_000_000 <= now - s.started < (s.status_at(
            now,
        ).uptime_seconds + 1) * 1_000_000_000,
        s.status_at(now).interval_nanos == s.interval.nanos(),
        s.status_at(now).samples == s.samples,
        s.status_at(now).reconnects == s.reconnects,
        s.status_at(now).clients == s.clients,
        s.status_at(now).connected == s.connected,
        s.status_at(now).metrics_listen == s.metrics_listen,
        s.status_at(now).last_sample_age_nanos is Some <==> s.latest is Some,
{
}

/// A reading that is fresh was so before, and one that is stale stays so until
/// another sample comes; three intervals, or five seconds if that is longer, are
/// how long it lasts.
pub proof fn a_reading_grows_stale(s: StatsView, now: u64, later: u64)
    requires
        now <= later,
    ensures
        s.reading_at(later).fresh ==> s.reading_at(now).fresh,
        s.reading_at(now).measurement == s.reading_at(later).measurement,
        s.stale_after() >= 5_000_000_000,
        s.stale_after() >= 3 * s.interval.nanos(),
        s.stale_after() == 5_000_000_000 || s.stale_after() == 3 * s.interval.nanos(),
        s.connected && (s.latest matches Some(l) && l.at <= now && now - l.at <= s.stale_after())
            ==> s.reading_at(now).fresh,
        s.latest matches Some(l) && l.at <= now && now - l.at > s.stale_after()
            ==> !s.reading_at(now).fresh,
{
}

/// An agent that starts has no uptime, no link and no reading, and counts from
/// zero; a link that goes down or comes up is reported so, and changes nothing
/// else; one that is back up makes a recent reading fresh again.
pub proof fn counting_starts_from_zero(
    interval: Interval,
    listen: Option<Seq<char>>,
    start: u64,
    now: u64,
    s: StatsView,
    up: bool,
)
    requires
        start <= now,
    ensures
        ({
            let t = StatsView::starting(interval, listen, start).status_at(now);
            &&& t.samples == 0 && t.reconnects == 0 && t.clients == 0
            &&& !t.connected
            &&& t.last_sample_age_nanos is None
            &&& t.uptime_seconds == (now - start) / 1_000_000_000
            &&& t.interval_nanos == interval.nanos()
            &&& t.metrics_listen == listen
            &&& !StatsView::starting(interval, listen, start).reading_at(now).fresh
        }),
        s.linked(up).status_at(now).connected == up,
        s.linked(up).linked(s.connected) == s,
        s.linked(up).reading_at(now).measurement == s.reading_at(now).measurement,
        s.linked(false).linked(true).reading_at(now).fresh == s.linked(true).reading_at(now).fresh,
{
}

} // verus!
