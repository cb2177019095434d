use crate::addr::{self, AddrError, BDAddr};
use crate::agent::protocol::{self, Response, ResponseView};
use crate::agent::DaemonInfo;
use vstd::prelude::*;
use vstd::string::*;

verus! {

/// How long a ping may take, in milliseconds.
pub const PING_TIMEOUT_MILLIS: u64 = 500;

/// What came of reading one line from the agent.
#[derive(Debug)]
pub enum Received {
    /// The agent closed the connection.
    Closed,
    /// The line is no response, for this reason.
    Unparsable(String),
    Reply(Response),
}

/// Why a request failed.
#[derive(Debug)]
pub enum ClientError {
    /// The socket could not be connected to.
    Connect { socket: String },
    Closed,
    Unparsable,
    /// The agent reported that the request failed.
    Reported { message: String },
    PingTimedOut,
    UnexpectedPing,
    BadAddress(AddrError),
    UnexpectedShutdown,
}

impl ClientError {
    pub open spec fn text(self) -> Seq<char> {
        match self {
            ClientError::Connect { socket } => "failed to connect to agent at "@ + socket@,
            ClientError::Closed =>
                "agent closed the connection before completing the response"@,
            ClientError::Unparsable => "failed to parse agent response"@,
            ClientError::Reported { message } => message@,
            ClientError::PingTimedOut => "agent ping timed out"@,
            ClientError::UnexpectedPing => "agent returned an unexpected ping response"@,
            ClientError::BadAddress(_) => "agent reported an unparsable address"@,
            ClientError::UnexpectedShutdown => "agent returned an unexpected shutdown response"@,
        }
    }

    /// What went wrong, in words.
    pub fn message(&self) -> (s: String)
        ensures
            s@ == self.text(),
    {
        match self {
            ClientError::Connect { socket } => {
                let mut s = "failed to connect to agent at ".to_owned();
                s.append(socket.as_str());
                s
            },
            ClientError::Closed =>
                "agent closed the connection before completing the response".to_owned(),
            ClientError::Unparsable => "failed to parse agent response".to_owned(),
            ClientError::Reported { message } => message.clone(),
            ClientError::PingTimedOut => "agent ping timed out".to_owned(),
            ClientError::UnexpectedPing => "agent returned an unexpected ping response".to_owned(),
            ClientError::BadAddress(_) => "agent reported an unparsable address".to_owned(),
            ClientError::UnexpectedShutdown =>
                "agent returned an unexpected shutdown response".to_owned(),
        }
    }
}

/// A response to hand on, and whether it is the last of the exchange.
#[derive(Debug)]
pub struct Handed {
    pub response: Response,
    pub last: bool,
}

/// Whether `r` is what a line from the agent means for the request it answers.
pub open spec fn understood(line: Received, r: Result<Handed, ClientError>) -> bool {
    match line {
        Received::Closed => r matches Err(e) && e is Closed,
        Received::Unparsable(_) => r matches Err(e) && e is Unparsable,
        Received::Reply(response) => match response@ {
            ResponseView::Error(message) => r matches Err(e) && e is Reported && e.text()
                == message,
            other => r matches Ok(h) && h.response@ == other && h.last == (other is StreamEnd),
        },
    }
}

/// Decide what a line from the agent means for the request it answers: an error
/// that the agent reports becomes the request's own, and the end of a stream is
/// the last response there is.
pub fn receive(line: Received) -> (r: Result<Handed, ClientError>)
    ensures
        match line {
            Received::Closed => r is Err && r->Err_0 is Closed,
            Received::Unparsable(_) => r is Err && r->Err_0 is Unparsable,
            Received::Reply(response) => match response@ {
                ResponseView::Error(message) => r matches Err(ClientError::Reported { message: m })
                    && m@ == message,
                other => r matches Ok(h) && h.response@ == other && h.last == (other is StreamEnd),
            },
        },
        understood(line, r),
{
    match line {
        Received::Closed => Err(ClientError::Closed),
        Received::Unparsable(_) => Err(ClientError::Unparsable),
        Received::Reply(response) => match response {
            Response::Error { message } => Err(ClientError::Reported { message }),
            Response::StreamEnd => Ok(Handed { response: Response::StreamEnd, last: true }),
            other => Ok(Handed { response: other, last: false }),
        },
    }
}

/// What the answer to a ping says, where it is one.
pub open spec fn info_in(r: ResponseView) -> Result<
    (Option<BDAddr>, Option<protocol::AgentStatusView>),
    Option<AddrError>,
> {
    match r {
        ResponseView::Pong(addr, status) => match addr {
            None => Ok((None, status)),
            Some(a) => match addr::parsed(a) {
                Ok(a) => Ok((Some(a), status)),
                Err(e) => Err(Some(e)),
            },
        },
        _ => Err(None),
    }
}

/// Read what the agent reports about itself out of its answer to a ping. A
/// missing address or status means that the agent answered but did not send
/// that field.
pub fn daemon_info(response: Response) -> (r: Result<DaemonInfo, ClientError>)
    ensures
        match info_in(response@) {
            Ok((addr, status)) => r matches Ok(info) && info.addr == addr && protocol::status_of(
                info.status,
            ) == status,
            Err(Some(e)) => r matches Err(ClientError::BadAddress(f)) && f == e,
            Err(None) => r is Err && r->Err_0 is UnexpectedPing,
        },
{
    match response {
        Response::Pong { addr, status } => match addr {
            None => Ok(DaemonInfo { addr: None, status }),
            Some(a) => match BDAddr::parse(a.as_str()) {
                Ok(a) => Ok(DaemonInfo { addr: Some(a), status }),
                Err(e) => Err(ClientError::BadAddress(e)),
            },
        },
        _ => Err(ClientError::UnexpectedPing),
    }
}

/// Whether `r` is what came of a ping that was answered with `line`, or with
/// nothing in time.
pub open spec fn pinged(line: Option<Received>, r: Result<DaemonInfo, ClientError>) -> bool {
    match line {
        None => r matches Err(e) && e is PingTimedOut,
        Some(line) => exists|h: Result<Handed, ClientError>| #[trigger]
            understood(line, h) && match h {
                Err(e) => r matches Err(f) && f.text() == e.text(),
                Ok(handed) => match info_in(handed.response@) {
                    Ok((addr, status)) => r matches Ok(info) && info.addr == addr
                        && protocol::status_of(info.status) == status,
                    Err(Some(e)) => r matches Err(ClientError::BadAddress(f)) && f == e,
                    Err(None) => r matches Err(e) && e is UnexpectedPing,
                },
            },
    }
}

/// What came of a ping: the first line that the agent sent, or nothing in time.
pub fn ping(line: Option<Received>) -> (r: Result<DaemonInfo, ClientError>)
    ensures
        match line {
            None => r is Err && r->Err_0 is PingTimedOut,
            Some(Received::Closed) => r is Err && r->Err_0 is Closed,
            Some(Received::Unparsable(_)) => r is Err && r->Err_0 is Unparsable,
            Some(Received::Reply(response)) => match response@ {
                ResponseView::Error(message) => r matches Err(ClientError::Reported { message: m })
                    && m@ == message,
                other => match info_in(other) {
                    Ok((addr, status)) => r matches Ok(info) && info.addr == addr
                        && protocol::status_of(info.status) == status,
                    Err(Some(e)) => r matches Err(ClientError::BadAddress(f)) && f == e,
                    Err(None) => r is Err && r->Err_0 is UnexpectedPing,
                },
            },
        },
        pinged(line, r),
{
    match line {
        None => Err(ClientError::PingTimedOut),
        Some(line) => {
            let ghost asked = line;
            let received = receive(line);
            let ghost h = received;
            let r = match received {
                Ok(handed) => daemon_info(handed.response),
                Err(e) => Err(e),
            };
            assert(understood(asked, h));
            r
        },
    }
}

/// Whether a response acknowledges a request to stop.
pub open spec fn acknowledged(response: ResponseView) -> bool {
    response is Done
}

/// Whether the agent acknowledged a request to stop.
pub fn shutdown_reply(response: &Response) -> (r: Result<(), ClientError>)
    ensures
        r is Ok <==> response@ is Done,
        r is Err ==> r->Err_0 is UnexpectedShutdown,
        acknowledged(response@) == (r is Ok),
{
    match response {
        Response::Done => Ok(()),
        _ => Err(ClientError::UnexpectedShutdown),
    }
}

/// What an agent reports of its address is what it holds: the address that it
/// writes into its answer is the one that the client reads.
pub proof fn address_survives_a_ping(a: BDAddr, status: Option<protocol::AgentStatusView>)
    ensures
        info_in(ResponseView::Pong(Some(a.text()), status)) == Ok::<
            (Option<BDAddr>, Option<protocol::AgentStatusView>),
            Option<AddrError>,
        >((Some(a), status)),
{
    addr::display_then_parse(a);
}

/// What the agent reports as an error is the request's own error, in its words;
/// a connection that closes and a line that cannot be read are errors too, and
/// everything else is handed on as it came, up to the end of a stream.
pub proof fn an_error_that_is_reported_is_the_requests_own(
    line: Received,
    r: Result<Handed, ClientError>,
)
    requires
        understood(line, r),
    ensures
        r is Ok <==> (line matches Received::Reply(response) && !(response@ is Error)),
        line matches Received::Reply(response) ==> (response@ matches ResponseView::Error(message)
            ==> r->Err_0.text() == message),
        line is Closed ==> r->Err_0.text()
            == "agent closed the connection before completing the response"@,
        line is Unparsable ==> r->Err_0.text() == "failed to parse agent response"@,
        r matches Ok(h) ==> {
            &&& line matches Received::Reply(response)
            &&& h.response@ == response@
            &&& h.last <==> response@ is StreamEnd
        },
{
}

/// A ping tells the address of the agent's device, as it was written, and its
/// status. It is an error where nothing comes in time, where the agent reports
/// one, and where the answer is none to a ping; a request to stop is acknowledged
/// by nothing that a ping is answered with.
pub proof fn a_ping_tells_who_answers(
    line: Option<Received>,
    r: Result<DaemonInfo, ClientError>,
    a: BDAddr,
    status: Option<protocol::AgentStatusView>,
)
    requires
        pinged(line, r),
    ensures
        line is None ==> r is Err && r->Err_0.text() == "agent ping timed out"@,
        line matches Some(Received::Reply(response)) && response@ == ResponseView::Pong(
            Some(a.text()),
            status,
        ) ==> r is Ok && r->Ok_0.addr == Some(a) && protocol::status_of(r->Ok_0.status) == status,
        line matches Some(Received::Reply(response)) && response@ == ResponseView::Pong(
            None,
            status,
        ) ==> r is Ok && r->Ok_0.addr is None && protocol::status_of(r->Ok_0.status) == status,
        line matches Some(Received::Reply(response)) && response@ is Error ==> r is Err
            && r->Err_0.text() == (line->0->Reply_0)@->Error_0,
        line matches Some(Received::Reply(response)) && !(response@ is Pong) ==> r is Err,
        line matches Some(l) && !(l is Reply) ==> r is Err,
        !acknowledged(ResponseView::Pong(Some(a.text()), status)),
        acknowledged(ResponseView::Done),
{
    crate::addr::display_then_parse(a);
    if let Some(l) = line {
        let h = choose|h: Result<Handed, ClientError>| #[trigger]
            understood(l, h) && match h {
                Err(e) => r matches Err(f) && f.text() == e.text(),
                Ok(handed) => match info_in(handed.response@) {
                    Ok((addr, status)) => r matches Ok(info) && info.addr == addr
                        && protocol::status_of(info.status) == status,
                    Err(Some(e)) => r matches Err(ClientError::BadAddress(f)) && f == e,
                    Err(None) => r matches Err(e) && e is UnexpectedPing,
                },
            };
        an_error_that_is_reported_is_the_requests_own(l, h);
    }
}

} // verus!
