use crate::config;
use crate::connection::Measurement;
use crate::time;
use vstd::prelude::*;
use vstd::string::*;

verus! {

/// What a client asks the agent for.
#[derive(Debug, PartialEq, Eq)]
pub enum Request {
    SetRtc { time: String },
    GetRtc,
    Power { on: bool },
    TestLed,
    Subscribe,
    Ping,
    Shutdown,
}

/// What a request says.
pub enum RequestView {
    SetRtc(Seq<char>),
    GetRtc,
    Power(bool),
    TestLed,
    Subscribe,
    Ping,
    Shutdown,
}

impl View for Request {
    type V = RequestView;

    open spec fn view(&self) -> RequestView {
        match self {
            Request::SetRtc { time } => RequestView::SetRtc(time@),
            Request::GetRtc => RequestView::GetRtc,
            Request::Power { on } => RequestView::Power(*on),
            Request::TestLed => RequestView::TestLed,
            Request::Subscribe => RequestView::Subscribe,
            Request::Ping => RequestView::Ping,
            Request::Shutdown => RequestView::Shutdown,
        }
    }
}

/// What the agent reports about itself on a ping, for `agent status`.
#[derive(Debug, PartialEq, Eq)]
pub struct AgentStatus {
    /// How long the agent has been serving.
    pub uptime_seconds: u64,
    /// The polling period it was started with, in nanoseconds.
    pub interval_nanos: u64,
    /// Whether it currently believes the BLE link is up. A running agent with a
    /// dead link is the state this exists to make visible.
    pub connected: bool,
    /// Measurements read since start, and how many nanoseconds ago the last one
    /// arrived.
    pub samples: u64,
    pub last_sample_age_nanos: Option<u64>,
    /// Links re-established since start.
    pub reconnects: u64,
    /// Clients currently streaming.
    pub clients: usize,
    /// Where the metrics endpoint is bound, if it is serving.
    pub metrics_listen: Option<String>,
}

/// What a status says.
#[verifier::ext_equal]
pub struct AgentStatusView {
    pub uptime_seconds: u64,
    pub interval_nanos: u64,
    pub connected: bool,
    pub samples: u64,
    pub last_sample_age_nanos: Option<u64>,
    pub reconnects: u64,
    pub clients: usize,
    pub metrics_listen: Option<Seq<char>>,
}

impl View for AgentStatus {
    type V = AgentStatusView;

    open spec fn view(&self) -> AgentStatusView {
        AgentStatusView {
            uptime_seconds: self.uptime_seconds,
            interval_nanos: self.interval_nanos,
            connected: self.connected,
            samples: self.samples,
            last_sample_age_nanos: self.last_sample_age_nanos,
            reconnects: self.reconnects,
            clients: self.clients,
            metrics_listen: config::text_of(self.metrics_listen),
        }
    }
}

impl Default for AgentStatus {
    fn default() -> (s: AgentStatus)
        ensures
            s@ == (AgentStatusView {
                uptime_seconds: 0,
                interval_nanos: 0,
                connected: false,
                samples: 0,
                last_sample_age_nanos: None,
                reconnects: 0,
                clients: 0,
                metrics_listen: None,
            }),
    {
        AgentStatus {
            uptime_seconds: 0,
            interval_nanos: 0,
            connected: false,
            samples: 0,
            last_sample_age_nanos: None,
            reconnects: 0,
            clients: 0,
            metrics_listen: None,
        }
    }
}

fn copied(s: &Option<String>) -> (r: Option<String>)
    ensures
        config::text_of(r) == config::text_of(*s),
{
    match s {
        Some(s) => Some(s.clone()),
        None => None,
    }
}

impl Clone for AgentStatus {
    fn clone(&self) -> (s: AgentStatus)
        ensures
            s@ == self@,
    {
        AgentStatus {
            uptime_seconds: self.uptime_seconds,
            interval_nanos: self.interval_nanos,
            connected: self.connected,
            samples: self.samples,
            last_sample_age_nanos: self.last_sample_age_nanos,
            reconnects: self.reconnects,
            clients: self.clients,
            metrics_listen: copied(&self.metrics_listen),
        }
    }
}

/// What the agent answers. Cloneable so one measurement can be handed to every
/// streaming client without re-deriving it per client.
#[derive(Debug, PartialEq, Eq)]
pub enum Response {
    /// The request was carried out.
    Done,
    Pong {
        /// The device the agent is attached to, where it says so.
        addr: Option<String>,
        status: Option<AgentStatus>,
    },
    Error { message: String },
    /// A measurement, its channels in the units of `Measurement`.
    Measurement { voltage: u64, ampere: u64, wattage: u64, timestamp: i64 },
    CommandResult {
        /// The device's status byte; zero means it accepted the command. Only
        /// the code travels: a flag of success beside it would be derived state
        /// that the wire could contradict.
        code: u8,
    },
    StreamEnd,
}

/// What a response says.
pub enum ResponseView {
    Done,
    Pong(Option<Seq<char>>, Option<AgentStatusView>),
    Error(Seq<char>),
    Measurement(Measurement),
    CommandResult(u8),
    StreamEnd,
}

pub open spec fn status_of(s: Option<AgentStatus>) -> Option<AgentStatusView> {
    match s {
        Some(s) => Some(s@),
        None => None,
    }
}

impl View for Response {
    type V = ResponseView;

    open spec fn view(&self) -> ResponseView {
        match self {
            Response::Done => ResponseView::Done,
            Response::Pong { addr, status } => ResponseView::Pong(
                config::text_of(*addr),
                status_of(*status),
            ),
            Response::Error { message } => ResponseView::Error(message@),
            Response::Measurement { voltage, ampere, wattage, timestamp } =>
                ResponseView::Measurement(
                Measurement {
                    voltage: *voltage,
                    ampere: *ampere,
                    wattage: *wattage,
                    timestamp: *timestamp,
                },
            ),
            Response::CommandResult { code } => ResponseView::CommandResult(*code),
            Response::StreamEnd => ResponseView::StreamEnd,
        }
    }
}

impl Clone for Response {
    fn clone(&self) -> (r: Response)
        ensures
            r@ == self@,
    {
        match self {
            Response::Done => Response::Done,
            Response::Pong { addr, status } => Response::Pong {
                addr: copied(addr),
                status: match status {
                    Some(s) => Some(s.clone()),
                    None => None,
                },
            },
            Response::Error { message } => Response::Error { message: message.clone() },
            Response::Measurement { voltage, ampere, wattage, timestamp } => Response::Measurement {
                voltage: *voltage,
                ampere: *ampere,
                wattage: *wattage,
                timestamp: *timestamp,
            },
            Response::CommandResult { code } => Response::CommandResult { code: *code },
            Response::StreamEnd => Response::StreamEnd,
        }
    }
}

impl ResponseView {
    /// The measurement that a response carries. One whose time is out of all
    /// range carries none.
    pub open spec fn measurement(self) -> Option<Measurement> {
        match self {
            ResponseView::Measurement(m) if time::FIRST_SECOND <= m.timestamp
                <= time::LAST_SECOND => Some(m),
            _ => None,
        }
    }
}

impl Response {
    pub fn from_measurement(m: &Measurement) -> (r: Response)
        ensures
            r@ == ResponseView::Measurement(*m),
    {
        Response::Measurement {
            voltage: m.voltage,
            ampere: m.ampere,
            wattage: m.wattage,
            timestamp: m.timestamp,
        }
    }

    pub fn to_measurement(&self) -> (m: Option<Measurement>)
        ensures
            m == self@.measurement(),
    {
        match self {
            Response::Measurement { voltage, ampere, wattage, timestamp } => {
                if !time::is_timestamp(*timestamp) {
                    return None;
                }
                Some(
                    Measurement {
                        voltage: *voltage,
                        ampere: *ampere,
                        wattage: *wattage,
                        timestamp: *timestamp,
                    },
                )
            },
            _ => None,
        }
    }
}

/// A measurement travels unchanged: what a client reads out of a response is
/// what the agent put into it.
pub proof fn measurement_round_trips(m: Measurement)
    requires
        time::FIRST_SECOND <= m.timestamp <= time::LAST_SECOND,
    ensures
        ResponseView::Measurement(m).measurement() == Some(m),
{
}

/// Nothing but a measurement reply is taken for a measurement.
pub proof fn other_responses_carry_none(r: ResponseView)
    requires
        !(r is Measurement),
    ensures
        r.measurement() is None,
{
}

} // verus!
