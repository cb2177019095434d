use btwattch2::addr::BDAddr;
use btwattch2::agent::client::{daemon_info, ping, receive, shutdown_reply, ClientError, Received};
use btwattch2::agent::metrics::{answer, ends_head, response, route, Route};
use btwattch2::agent::protocol::{AgentStatus, Request, Response};
use btwattch2::agent::server::{
    already_running, control_response, exchange_goes_on, open_exchange, parse_command_result,
    rtc_frame, rtc_frame_at, rtc_reply, shutting_down, umask_for, Action, Actor, Clients,
    Lifecycle, Opening, Phase, Progress, CLIENT_QUEUE_LEN,
};
use btwattch2::agent::status::AgentStats;
use btwattch2::agent::{default_paths, parse_pid, paths_from_socket, AgentPaths};
use btwattch2::cli::{parse_interval, SocketMode};
use btwattch2::connection::{MeasureError, Measurement, C_RX, C_TX};
use btwattch2::output::Rendered;
use btwattch2::payload::{blink_led, generate, monitoring, off, on};
use btwattch2::time::LocalTime;
use btwattch2::wall_clock::WallClock;
use tokio::sync::mpsc;

const SECOND: u64 = 1_000_000_000;

fn test_stats() -> AgentStats {
    AgentStats::new(parse_interval("1s").unwrap(), None, 0)
}

fn measurement(wattage: u64) -> Measurement {
    Measurement {
        voltage: 100 << 24,
        ampere: 1 << 30,
        wattage: wattage << 24,
        timestamp: 1609304963,
    }
}

/// A subscriber and the receiving end it would be streaming to.
fn subscriber() -> (mpsc::Sender<Response>, mpsc::Receiver<Response>) {
    mpsc::channel(CLIENT_QUEUE_LEN)
}

fn wattage(resp: &Response) -> Option<f64> {
    match resp {
        Response::Measurement { wattage, .. } => Some(*wattage as f64 / (1u64 << 24) as f64),
        _ => None,
    }
}

/// A measurement as it travels: built through the real conversion, so the
/// fan-out is exercised on the shape clients actually receive.
fn sample(wattage: u64) -> Response {
    Response::from_measurement(&measurement(wattage))
}

/// The point of the client list: one poll of the device feeds everyone.
#[test]
fn every_client_gets_every_measurement() {
    let mut stats = test_stats();
    let mut clients = Clients::new();

    let (tx_a, mut rx_a) = subscriber();
    let (tx_b, mut rx_b) = subscriber();
    clients.add(tx_a, &mut stats);
    clients.add(tx_b, &mut stats);
    assert_eq!(stats.snapshot(0).clients, 2);

    clients.broadcast(&sample(42), &mut stats);
    assert_eq!(rx_a.try_recv().map(|r| wattage(&r)), Ok(Some(42.0)));
    assert_eq!(rx_b.try_recv().map(|r| wattage(&r)), Ok(Some(42.0)));
}

/// One client hanging up must not cost the others a sample, and must not
/// leave the reported count overstated either.
#[test]
fn a_departure_does_not_disturb_the_rest() {
    let mut stats = test_stats();
    let mut clients = Clients::new();

    let (tx_gone, rx_gone) = subscriber();
    let (tx_stays, mut rx_stays) = subscriber();
    clients.add(tx_gone, &mut stats);
    clients.add(tx_stays, &mut stats);
    drop(rx_gone);

    assert_eq!(clients.broadcast(&sample(1), &mut stats), 0);
    clients.broadcast(&sample(2), &mut stats);

    assert_eq!(rx_stays.try_recv().map(|r| wattage(&r)), Ok(Some(1.0)));
    assert_eq!(rx_stays.try_recv().map(|r| wattage(&r)), Ok(Some(2.0)));
    assert_eq!(stats.snapshot(0).clients, 1);
    assert!(!clients.is_empty());
}

/// A client that stops reading is dropped rather than queued for without
/// limit, and the others carry on unaffected.
#[test]
fn a_client_that_stops_reading_is_dropped_not_queued_for() {
    let mut stats = test_stats();
    let mut clients = Clients::new();

    let (tx_stuck, _rx_stuck) = subscriber();
    let (tx_reads, mut rx_reads) = subscriber();
    clients.add(tx_stuck, &mut stats);
    clients.add(tx_reads, &mut stats);

    // `_rx_stuck` is held but never read, so its queue fills; the other end
    // is drained every round, so it never does.
    let mut lagging = 0;
    for i in 0..CLIENT_QUEUE_LEN + 1 {
        lagging += clients.broadcast(&sample(i as u64), &mut stats);
        assert_eq!(rx_reads.try_recv().map(|r| wattage(&r)), Ok(Some(i as f64)));
    }

    assert_eq!(lagging, 1);
    assert_eq!(
        stats.snapshot(0).clients,
        1,
        "the stuck client is still held"
    );
    assert!(!clients.is_empty(), "the reading client was not disturbed");
}

#[test]
fn a_failure_is_reported_to_everyone() {
    let mut stats = test_stats();
    let mut clients = Clients::new();
    let (tx_a, mut rx_a) = subscriber();
    let (tx_b, mut rx_b) = subscriber();
    clients.add(tx_a, &mut stats);
    clients.add(tx_b, &mut stats);

    clients.abort("link went away", &mut stats);

    for rx in [&mut rx_a, &mut rx_b] {
        assert!(matches!(
            rx.try_recv(),
            Ok(Response::Error { message }) if message == "link went away"
        ));
    }
    assert!(clients.is_empty());
    assert_eq!(stats.snapshot(0).clients, 0);
}

/// A closed socket reads as a protocol error at the far end, so shutdown
/// owes every client an explicit end.
#[test]
fn shutdown_ends_every_stream() {
    let mut stats = test_stats();
    let mut clients = Clients::new();
    let (tx_a, mut rx_a) = subscriber();
    let (tx_b, mut rx_b) = subscriber();
    clients.add(tx_a, &mut stats);
    clients.add(tx_b, &mut stats);

    clients.end(&mut stats);

    assert!(matches!(rx_a.try_recv(), Ok(Response::StreamEnd)));
    assert!(matches!(rx_b.try_recv(), Ok(Response::StreamEnd)));
    assert!(clients.is_empty());
    assert_eq!(stats.snapshot(0).clients, 0);
}

#[test]
fn those_who_hung_up_are_reaped() {
    let mut stats = test_stats();
    let mut clients = Clients::new();
    let (tx_a, rx_a) = subscriber();
    let (tx_b, _rx_b) = subscriber();
    clients.add(tx_a, &mut stats);
    clients.add(tx_b, &mut stats);
    clients.reap(&mut stats);
    assert_eq!(clients.len(), 2);
    drop(rx_a);
    clients.reap(&mut stats);
    assert_eq!(clients.len(), 1);
    assert_eq!(stats.snapshot(0).clients, 1);
}

fn test_addr() -> BDAddr {
    BDAddr::parse("CB:DF:6B:12:34:56").unwrap()
}

/// The shared counters are what let the connection handler answer while the
/// actor is busy on the link.
#[test]
fn a_ping_carries_the_address_and_status() {
    let addr = test_addr();
    let mut stats = test_stats();
    stats.set_clients(2);

    let Some(Response::Pong {
        addr: reported,
        status: Some(status),
    }) = control_response(&Request::Ping, false, addr, &stats, 0)
    else {
        panic!("a ping must be answered with a pong carrying a status");
    };
    assert_eq!(reported, Some(addr.display()));
    assert_eq!(status.clients, 2);
    assert!(!status.connected, "no link has been established yet");

    // With the actor gone the ping becomes an error rather than a pong that
    // looks healthy.
    assert!(matches!(
        control_response(&Request::Ping, true, addr, &stats, 0),
        Some(Response::Error { .. })
    ));
}

/// Streaming and one-shot requests are the actor's work; these two are not,
/// which is what keeps `agent status` and `agent stop` answerable.
#[test]
fn only_ping_and_shutdown_are_answered_without_the_actor() {
    let stats = test_stats();
    assert!(matches!(
        control_response(&Request::Shutdown, false, test_addr(), &stats, 0),
        Some(Response::Done)
    ));
    for request in [Request::Subscribe, Request::GetRtc, Request::TestLed] {
        assert!(
            control_response(&request, false, test_addr(), &stats, 0).is_none(),
            "{request:?} is the actor's to serve"
        );
    }
}

#[test]
fn an_exchange_opens_by_what_is_asked() {
    let stats = test_stats();
    let open = |r| open_exchange(r, false, test_addr(), &stats, 0);
    assert!(matches!(
        open(Err("expected value".to_string())),
        Opening::Answer { response: Response::Error { message }, stop: false }
            if message == "invalid request: expected value"
    ));
    assert!(matches!(
        open(Ok(Request::Shutdown)),
        Opening::Answer { response: Response::Done, stop: true }
    ));
    assert!(matches!(
        open(Ok(Request::Ping)),
        Opening::Answer { response: Response::Pong { .. }, stop: false }
    ));
    assert!(matches!(
        open(Ok(Request::Power { on: true })),
        Opening::Queue(Request::Power { on: true })
    ));
    assert!(exchange_goes_on(&sample(1), true));
    assert!(!exchange_goes_on(&sample(1), false));
    assert!(!exchange_goes_on(&Response::StreamEnd, true));
    assert_eq!(
        shutting_down(),
        Response::Error { message: "agent shutting down".to_string() }
    );
}

/// A pid file holding anything but a number is the same as none at all.
#[test]
fn unparsable_pid_file_reads_as_absent() {
    assert_eq!(parse_pid("  4321\n"), Some(4321));
    for junk in ["", "   ", "not-a-pid", "-1"] {
        assert_eq!(parse_pid(junk), None, "accepted {junk:?}");
    }
    assert_eq!(parse_pid("4294967296"), None);
    assert_eq!(already_running(Some(7)), "agent is already running (pid 7)");
    assert_eq!(already_running(None), "agent is already running");
}

#[test]
fn the_paths_are_beside_each_other() {
    let paths = default_paths(Some("/run/user/1000"));
    assert_eq!(paths.socket, "/run/user/1000/btwattch2.sock");
    assert_eq!(paths.pid, "/run/user/1000/btwattch2.pid");
    let paths = default_paths(None);
    assert_eq!(paths.socket, "/run/btwattch2/btwattch2.sock");
    for (socket, pid) in [
        ("/run/a.b.sock", "/run/a.b.pid"),
        ("a", "a.pid"),
        (".hidden", ".hidden.pid"),
        ("dir.d/name", "dir.d/name.pid"),
        ("a.sock/", "a.pid"),
        ("a.sock/./", "a.pid"),
        ("..", ".."),
        ("/", "/"),
        ("", ""),
        ("x/..", "x/.."),
        ("a.", "a.pid"),
    ] {
        assert_eq!(paths_from_socket(socket.to_string()).pid, pid);
        assert_eq!(AgentPaths::pid_for(socket), pid);
        let std = std::path::Path::new(socket).with_extension("pid");
        assert_eq!(std.to_str(), Some(pid), "for {socket:?}");
    }
}

#[test]
fn a_fresh_sample_is_reported() {
    let mut stats = test_stats();
    assert_eq!(stats.snapshot(0).samples, 0);
    assert_eq!(stats.sample_age(0), None);
    // Nothing read yet is not "fresh", however new the agent is.
    assert!(!stats.reading(0).fresh);

    stats.record_sample(&measurement(100), SECOND);
    let snapshot = stats.snapshot(3 * SECOND);
    assert_eq!(snapshot.samples, 1);
    assert!(snapshot.connected);
    assert_eq!(snapshot.last_sample_age_nanos, Some(2 * SECOND));
    assert_eq!(snapshot.uptime_seconds, 3);
    let reading = stats.reading(3 * SECOND);
    assert!(reading.fresh);
    assert!(reading.measurement.is_some());
}

/// A sample proves the link is up, so it clears a failure recorded earlier.
#[test]
fn a_sample_clears_a_dead_link() {
    let mut stats = test_stats();
    stats.record_sample(&measurement(100), 0);
    stats.set_connected(false);
    let reading = stats.reading(0);
    assert!(!reading.fresh, "a dead link cannot be fresh");
    // The reading itself stays available, for `/metrics` to describe as down.
    assert!(reading.measurement.is_some());

    stats.record_sample(&measurement(100), 0);
    assert!(stats.reading(0).fresh);
}

/// The freshness window follows the interval, but never drops below the
/// floor: a 10 ms interval must not call a 30 ms gap a dead device.
#[test]
fn the_freshness_window_has_a_floor() {
    let mut stats = AgentStats::new(parse_interval("10ms").unwrap(), None, 0);
    stats.record_sample(&measurement(100), 0);
    assert!(stats.reading(50_000_000).fresh);
    assert!(stats.reading(5 * SECOND).fresh);
    assert!(!stats.reading(5 * SECOND + 1).fresh);
    let mut slow = AgentStats::new(parse_interval("2s").unwrap(), None, 0);
    slow.record_sample(&measurement(100), 0);
    assert!(slow.reading(6 * SECOND).fresh);
    assert!(!slow.reading(6 * SECOND + 1).fresh);
}

#[test]
fn counters_are_reported() {
    let mut stats = AgentStats::new(parse_interval("500ms").unwrap(), None, 0);
    stats.record_reconnect();
    stats.record_reconnect();
    stats.set_clients(3);

    let snapshot = stats.snapshot(0);
    assert_eq!(snapshot.reconnects, 2);
    assert_eq!(snapshot.clients, 3);
    assert_eq!(snapshot.interval_nanos as f64 / 1e9, 0.5);
    assert_eq!(snapshot.metrics_listen, None);
}

#[test]
fn measurement_survives_a_round_trip() {
    let m = Measurement {
        voltage: 100 * (1 << 24) + (1 << 23),
        ampere: (1 << 30) + (1 << 28),
        wattage: 125 << 24,
        timestamp: 1609304963,
    };
    assert_eq!(m.voltage as f64 / (1u64 << 24) as f64, 100.5);
    assert_eq!(m.ampere as f64 / (1u64 << 30) as f64, 1.25);
    assert_eq!(m.wattage as f64 / (1u64 << 24) as f64, 125.0);
    let back = Response::from_measurement(&m).to_measurement().unwrap();
    assert_eq!(back, m);
}

/// `to_measurement` is how clients recognise a measurement reply, so every
/// other variant has to yield `None` rather than a bogus reading.
#[test]
fn other_responses_are_not_measurements() {
    for resp in [
        Response::Done,
        Response::Pong {
            addr: None,
            status: None,
        },
        Response::StreamEnd,
        Response::CommandResult { code: 0 },
    ] {
        assert!(resp.to_measurement().is_none(), "{resp:?}");
    }
}

#[test]
fn a_time_out_of_all_range_is_no_measurement() {
    let at = |timestamp| Response::Measurement { voltage: 0, ampere: 0, wattage: 0, timestamp };
    assert!(at(8_210_266_876_799).to_measurement().is_some());
    assert!(at(8_210_266_876_800).to_measurement().is_none());
    assert!(at(-8_334_601_228_800).to_measurement().is_some());
    assert!(at(-8_334_601_228_801).to_measurement().is_none());
    assert!(at(i64::MAX).to_measurement().is_none());
}

#[test]
fn ping_requires_pong() {
    let pong = Response::Pong {
        addr: None,
        status: None,
    };
    assert!(ping(Some(Received::Reply(pong))).is_ok());
    assert!(matches!(
        ping(Some(Received::Reply(Response::Done))),
        Err(ClientError::UnexpectedPing)
    ));
}

#[test]
fn ping_reports_the_agent_address_and_status() {
    let addr = "CB:DF:6B:12:34:56";
    let response = Response::Pong {
        addr: Some(addr.to_string()),
        status: Some(AgentStatus {
            samples: 42,
            ..AgentStatus::default()
        }),
    };
    let info = daemon_info(response).unwrap();
    assert_eq!(info.addr, Some(test_addr()));
    assert_eq!(info.status.unwrap().samples, 42);
}

#[test]
fn ping_rejects_an_unparsable_address() {
    let response = Response::Pong {
        addr: Some("not-an-address".to_string()),
        status: None,
    };
    let error = ping(Some(Received::Reply(response))).unwrap_err();
    assert_eq!(error.message(), "agent reported an unparsable address");
}

#[test]
fn ping_accepts_a_reply_without_an_address() {
    let info = ping(Some(Received::Reply(Response::Pong { addr: None, status: None }))).unwrap();
    assert_eq!(info.addr, None);
    assert!(info.status.is_none());
}

#[test]
fn ping_rejects_eof() {
    assert_eq!(
        ping(Some(Received::Closed)).unwrap_err().message(),
        "agent closed the connection before completing the response"
    );
    assert_eq!(ping(None).unwrap_err().message(), "agent ping timed out");
    assert_eq!(
        ping(Some(Received::Unparsable("x".to_string())))
            .unwrap_err()
            .message(),
        "failed to parse agent response"
    );
}

#[test]
fn ping_rejects_error_response() {
    let result = ping(Some(Received::Reply(Response::Error {
        message: "actor failed".to_string(),
    })));
    assert_eq!(result.unwrap_err().message(), "actor failed");
}

#[test]
fn an_exchange_ends_with_its_stream() {
    let more = receive(Received::Reply(sample(1))).unwrap();
    assert!(!more.last);
    assert_eq!(more.response, sample(1));
    let end = receive(Received::Reply(Response::StreamEnd)).unwrap();
    assert!(end.last);
    assert!(shutdown_reply(&Response::Done).is_ok());
    assert_eq!(
        shutdown_reply(&Response::StreamEnd).unwrap_err().message(),
        "agent returned an unexpected shutdown response"
    );
    let error = ClientError::Connect { socket: "/run/x".to_string() };
    assert_eq!(error.message(), "failed to connect to agent at /run/x");
}

#[test]
fn routes_are_read_off_the_request_line() {
    for (line, expected) in [
        ("GET /metrics HTTP/1.1", Route::Metrics),
        ("GET /metrics?collect=all HTTP/1.1", Route::Metrics),
        ("GET / HTTP/1.1", Route::Index),
        ("GET /nope HTTP/1.1", Route::NotFound),
        ("POST /metrics HTTP/1.1", Route::MethodNotAllowed),
        ("DELETE / HTTP/1.1", Route::MethodNotAllowed),
    ] {
        assert_eq!(route(line), Some(expected), "routing {line:?}");
    }
    assert_eq!(route("garbage"), None);
    assert_eq!(route(""), None);
    assert_eq!(route("GET /metrics#x?y"), Some(Route::Metrics));
}

fn rendered(wattage: &str) -> Rendered {
    Rendered {
        voltage: "100".to_string(),
        ampere: "1".to_string(),
        wattage: wattage.to_string(),
        power_factor: "1.235".to_string(),
        power_factor_rounded: "1.2350".to_string(),
        energy: "0".to_string(),
        energy_rounded: "0.000".to_string(),
        epoch: 1609304963,
    }
}

#[test]
fn a_scrape_reports_the_latest_measurement() {
    let m = rendered("123.5");
    let reply = answer("GET /metrics HTTP/1.1\r\n", Some(&m), true);
    assert!(reply.starts_with("HTTP/1.1 200 OK\r\n"), "{reply}");
    assert!(
        reply.contains("text/plain; version=0.0.4; charset=utf-8"),
        "{reply}"
    );
    assert!(reply.contains("btwattch2_wattage 123.5\n"), "{reply}");
    assert!(
        reply.contains("btwattch2_last_sample_timestamp_seconds 1609304963\n"),
        "{reply}"
    );
    assert!(reply.contains("btwattch2_up 1\n"), "{reply}");
    assert!(!reply.contains("energy"), "{reply}");

    // Content-Length has to match, or a scraper reads a truncated body.
    let (head, body) = reply.split_once("\r\n\r\n").unwrap();
    let declared: usize = head
        .lines()
        .find_map(|l| l.strip_prefix("Content-Length: "))
        .unwrap()
        .parse()
        .unwrap();
    assert_eq!(declared, body.len());
}

/// A running agent that has read nothing must say so rather than serve a
/// blank 200 that looks like a healthy zero-watt load.
#[test]
fn a_scrape_before_any_measurement_reports_down() {
    let reply = answer("GET /metrics HTTP/1.1\r\n", None, false);
    assert!(reply.contains("btwattch2_up 0\n"), "{reply}");
    assert!(!reply.contains("btwattch2_wattage"), "{reply}");
    let m = rendered("123.5");
    let stale = answer("GET /metrics HTTP/1.1\r\n", Some(&m), false);
    assert!(stale.contains("btwattch2_up 0\n"), "{stale}");
    assert!(!stale.contains("btwattch2_wattage"), "{stale}");
    assert!(stale.contains("last_sample_timestamp_seconds"), "{stale}");
}

#[test]
fn other_requests_are_refused_in_kind() {
    let reply = answer("GET /favicon.ico HTTP/1.1\r\n", None, false);
    assert!(reply.starts_with("HTTP/1.1 404 Not Found\r\n"), "{reply}");
    let reply = answer("DELETE /metrics HTTP/1.1\r\n", None, false);
    assert!(
        reply.starts_with("HTTP/1.1 405 Method Not Allowed\r\n"),
        "{reply}"
    );
    assert!(reply.contains("\r\nAllow: GET\r\n"), "{reply}");
    // A human who opens the port in a browser gets a pointer, not a 404.
    let reply = answer("GET / HTTP/1.1\r\n", None, false);
    assert!(reply.contains("/metrics"), "{reply}");
}

#[test]
fn a_response_counts_the_bytes_of_its_body() {
    assert_eq!(
        response("200 OK", "text/plain", "X: y\r\n", "é€😀a"),
        "HTTP/1.1 200 OK\r\nContent-Type: text/plain\r\nContent-Length: 10\r\n\
         Connection: close\r\nX: y\r\n\r\né€😀a"
    );
}

#[test]
fn a_blank_line_ends_the_head() {
    assert!(ends_head(0, "x"));
    assert!(ends_head(2, "\r\n"));
    assert!(!ends_head(9, "Host: x\r\n"));
}

/// A reply of the device of `n` payload bytes whose status byte is `code`.
fn reply_frame(code: u8) -> Vec<u8> {
    generate(&[0xA7, code])
}

fn measurement_frame() -> Vec<u8> {
    let mut payload = vec![0u8; 26];
    payload[2..8].copy_from_slice(&(100u64 << 24).to_le_bytes()[..6]);
    payload[8..14].copy_from_slice(&(1u64 << 30).to_le_bytes()[..6]);
    payload[14..20].copy_from_slice(&(42u64 << 24).to_le_bytes()[..6]);
    payload[20..26].copy_from_slice(&[5, 4, 3, 2, 0, 121]);
    generate(&payload)
}

#[test]
fn a_subscriber_starts_the_polling() {
    let mut stats = test_stats();
    let mut actor = Actor::new(false);
    assert!(!actor.wants_poll());
    assert_eq!(actor.tick(&mut stats), Action::Rest);
    let (tx, mut rx) = subscriber();
    assert_eq!(actor.request(Request::Subscribe, tx, &mut stats), Action::Listen);
    assert_eq!(actor.listened(Ok(()), &mut stats), Action::ResetTicker);
    assert!(actor.is_subscribed());
    assert_eq!(stats.snapshot(0).clients, 1);
    // A second one reuses the subscription.
    let (tx2, mut rx2) = subscriber();
    assert_eq!(actor.request(Request::Subscribe, tx2, &mut stats), Action::Rest);
    assert_eq!(stats.snapshot(0).clients, 2);
    assert_eq!(actor.tick(&mut stats), Action::Write(monitoring()));
    assert_eq!(actor.written(Ok(false), &mut stats), Action::Rest);
    // Notifications of other characteristics are passed over.
    let frame = measurement_frame();
    assert_eq!(actor.notified(C_TX, &frame, &mut stats, 1), Action::Rest);
    assert!(rx.try_recv().is_err());
    assert_eq!(actor.notified(C_RX, &frame[..7], &mut stats, 2), Action::Rest);
    assert_eq!(actor.notified(C_RX, &frame[7..], &mut stats, 3), Action::Rest);
    assert_eq!(rx.try_recv().map(|r| wattage(&r)), Ok(Some(42.0)));
    assert_eq!(rx2.try_recv().map(|r| wattage(&r)), Ok(Some(42.0)));
    assert_eq!(stats.snapshot(3).samples, 1);
    assert_eq!(stats.sample_age(4), Some(1));
    actor.stop(&mut stats);
    assert_eq!(rx.try_recv(), Ok(Response::StreamEnd));
    assert_eq!(stats.snapshot(0).clients, 0);
    assert!(actor.take_messages().is_empty());
}

#[test]
fn what_was_read_is_passed_on_to_everyone() {
    let mut stats = test_stats();
    let mut actor = Actor::new(false);
    // Recorded even with no client attached.
    actor.pass_on(Ok(measurement(3)), &mut stats, 5);
    assert_eq!(stats.snapshot(5).samples, 1);
    assert!(actor.take_messages().is_empty());
    let (tx, mut rx) = subscriber();
    actor.request(Request::Subscribe, tx, &mut stats);
    actor.listened(Ok(()), &mut stats);
    let (tx2, mut rx2) = subscriber();
    actor.request(Request::Subscribe, tx2, &mut stats);
    actor.pass_on(Ok(measurement(4)), &mut stats, 6);
    assert_eq!(rx.try_recv(), Ok(sample(4)));
    assert_eq!(rx2.try_recv(), Ok(sample(4)));
    assert_eq!(stats.snapshot(6).samples, 2);
    // What is no measurement is reported, and nobody is disturbed.
    actor.pass_on(Err(MeasureError::InvalidTimestamp), &mut stats, 7);
    actor.pass_on(Err(MeasureError::TooShort(6)), &mut stats, 7);
    assert_eq!(
        actor.take_messages(),
        vec![
            "[ERR] Failed to parse measurement: invalid timestamp in frame",
            "[ERR] Failed to parse measurement: frame too short: 6 bytes",
        ]
    );
    assert!(rx.try_recv().is_err());
    assert_eq!(stats.snapshot(7).samples, 2);
    assert_eq!(stats.snapshot(7).clients, 2);
}

#[test]
fn a_refused_subscription_is_reported() {
    let mut stats = test_stats();
    let mut actor = Actor::new(false);
    let (tx, mut rx) = subscriber();
    actor.request(Request::Subscribe, tx, &mut stats);
    assert_eq!(actor.listened(Err("no".to_string()), &mut stats), Action::Rest);
    assert_eq!(
        rx.try_recv(),
        Ok(Response::Error { message: "listen failed: no".to_string() })
    );
    assert!(!actor.is_subscribed());
    assert_eq!(stats.snapshot(0).clients, 0);
}

#[test]
fn a_command_takes_out_its_own_subscription() {
    let mut stats = test_stats();
    let mut actor = Actor::new(false);
    let (tx, mut rx) = subscriber();
    assert_eq!(
        actor.request(Request::Power { on: true }, tx, &mut stats),
        Action::Listen
    );
    assert_eq!(actor.listened(Ok(()), &mut stats), Action::Write(on()));
    assert_eq!(actor.written(Ok(false), &mut stats), Action::Await);
    // A measurement on the way is counted, not taken for the reply.
    assert_eq!(
        actor.notified(C_RX, &measurement_frame(), &mut stats, 9),
        Action::Await
    );
    assert_eq!(stats.snapshot(9).samples, 1);
    assert_eq!(actor.notified(C_RX, &reply_frame(0), &mut stats, 9), Action::Rest);
    assert_eq!(rx.try_recv(), Ok(Response::CommandResult { code: 0 }));
    assert!(!actor.is_subscribed());
}

#[test]
fn a_command_that_fails_is_answered_with_the_reason() {
    let mut stats = test_stats();
    let mut actor = Actor::new(false);
    let (tx, mut rx) = subscriber();
    assert_eq!(
        actor.request(Request::Power { on: false }, tx, &mut stats),
        Action::Listen
    );
    assert_eq!(actor.listened(Ok(()), &mut stats), Action::Write(off()));
    assert_eq!(actor.written(Err("gone".to_string()), &mut stats), Action::Rest);
    assert_eq!(
        rx.try_recv(),
        Ok(Response::Error { message: "write failed: gone".to_string() })
    );
    let (tx, mut rx) = subscriber();
    actor.request(Request::TestLed, tx, &mut stats);
    assert_eq!(actor.listened(Ok(()), &mut stats), Action::Write(blink_led()));
    assert_eq!(actor.written(Ok(true), &mut stats), Action::Listen);
    assert_eq!(actor.listened(Ok(()), &mut stats), Action::Await);
    assert_eq!(actor.timed_out(), Action::Rest);
    assert_eq!(
        rx.try_recv(),
        Ok(Response::Error { message: "command timed out".to_string() })
    );
    let (tx, mut rx) = subscriber();
    actor.request(Request::GetRtc, tx, &mut stats);
    assert_eq!(actor.listened(Ok(()), &mut stats), Action::Write(monitoring()));
    actor.written(Ok(false), &mut stats);
    assert_eq!(actor.closed(), Action::Rest);
    assert_eq!(
        rx.try_recv(),
        Ok(Response::Error { message: "notification stream closed".to_string() })
    );
}

#[test]
fn the_clock_is_read_off_a_measurement() {
    let mut stats = test_stats();
    let mut actor = Actor::new(false);
    let (tx, mut rx) = subscriber();
    actor.request(Request::GetRtc, tx, &mut stats);
    actor.listened(Ok(()), &mut stats);
    actor.written(Ok(false), &mut stats);
    // The reply to some earlier command is not what is waited for.
    assert_eq!(actor.notified(C_RX, &reply_frame(0), &mut stats, 0), Action::Await);
    assert_eq!(
        actor.take_messages(),
        vec!["[ERR] Failed to parse measurement: frame too short: 6 bytes"]
    );
    assert_eq!(
        actor.notified(C_RX, &measurement_frame(), &mut stats, 0),
        Action::Rest
    );
    assert_eq!(rx.try_recv().map(|r| wattage(&r)), Ok(Some(42.0)));
    assert_eq!(stats.snapshot(0).samples, 0);
}

#[test]
fn a_clock_that_cannot_be_read_is_an_error() {
    assert_eq!(
        rtc_reply(Err(MeasureError::InvalidTimestamp)),
        Response::Error { message: "get_rtc failed: invalid timestamp in frame".to_string() }
    );
    assert_eq!(rtc_reply(Ok(measurement(3))), sample(3));
    assert_eq!(
        parse_command_result(&[1, 2, 3]),
        Response::Error { message: "response frame too short".to_string() }
    );
}

#[test]
fn the_clock_is_set_to_the_time_that_is_sent() {
    let mut stats = test_stats();
    let mut actor = Actor::new(false);
    let (tx, mut rx) = subscriber();
    let time = "not a time".to_string();
    assert_eq!(actor.request(Request::SetRtc { time }, tx, &mut stats), Action::Rest);
    let reason = chrono::DateTime::parse_from_rfc3339("not a time").unwrap_err();
    assert_eq!(
        rx.try_recv(),
        Ok(Response::Error { message: format!("invalid time: {reason}") })
    );
    let (tx, _rx) = subscriber();
    let time = "2021-06-15T12:00:00Z".to_string();
    let mut clock = WallClock::new();
    let frame = rtc_frame(&mut clock, &time).unwrap();
    assert_eq!(frame[3], 0x01);
    assert_eq!(&frame[8..10], &[5, 121]);
    actor.request(Request::SetRtc { time }, tx, &mut stats);
    assert_eq!(actor.listened(Ok(()), &mut stats), Action::Write(frame));
    assert_eq!(
        rtc_frame(&mut clock, "2200-06-15T12:00:00Z").unwrap_err(),
        "year 2200 does not fit in the device's clock"
    );
    let t = LocalTime { year: 2021, month: 1, day: 2, hour: 3, minute: 4, second: 5 };
    assert_eq!(&rtc_frame_at(&t).unwrap()[3..11], &[0x01, 5, 4, 3, 2, 0, 121, 6]);
}

#[test]
fn a_lost_link_is_reported_to_everyone() {
    let mut stats = test_stats();
    let mut actor = Actor::new(true);
    // The endpoint keeps the polling going with no client at all.
    assert!(actor.wants_poll());
    assert_eq!(actor.tick(&mut stats), Action::Listen);
    assert_eq!(actor.listened(Ok(()), &mut stats), Action::Write(monitoring()));
    assert_eq!(actor.written(Ok(true), &mut stats), Action::Listen);
    assert_eq!(stats.snapshot(0).reconnects, 1);
    assert_eq!(actor.listened(Ok(()), &mut stats), Action::Rest);
    let (tx, mut rx) = subscriber();
    assert_eq!(actor.request(Request::Subscribe, tx, &mut stats), Action::Rest);
    assert_eq!(actor.closed(), Action::Reconnect);
    assert_eq!(actor.reconnected(Ok(()), &mut stats), Action::Rest);
    assert_eq!(stats.snapshot(0).reconnects, 2);
    assert_eq!(actor.closed(), Action::Reconnect);
    assert_eq!(actor.reconnected(Err("out of range".to_string()), &mut stats), Action::Rest);
    assert_eq!(
        rx.try_recv(),
        Ok(Response::Error { message: "reconnect failed: out of range".to_string() })
    );
    assert!(!stats.snapshot(0).connected);
    assert!(!actor.is_subscribed());
    assert_eq!(actor.take_messages(), vec!["[ERR] reconnect failed: out of range"]);
    assert_eq!(actor.tick(&mut stats), Action::Listen);
    assert_eq!(actor.listened(Err("no".to_string()), &mut stats), Action::Rest);
    assert_eq!(actor.take_messages(), vec!["[ERR] listen failed: no"]);
    actor.tick(&mut stats);
    actor.listened(Ok(()), &mut stats);
    actor.written(Err("lost".to_string()), &mut stats);
    assert_eq!(actor.take_messages(), vec!["[ERR] measurement write failed: lost"]);
}

#[test]
fn a_wedged_client_is_named_in_a_warning() {
    let mut stats = test_stats();
    let mut actor = Actor::new(false);
    let (tx, _rx) = subscriber();
    actor.request(Request::Subscribe, tx, &mut stats);
    actor.listened(Ok(()), &mut stats);
    let frame = measurement_frame();
    for _ in 0..CLIENT_QUEUE_LEN {
        actor.notified(C_RX, &frame, &mut stats, 0);
        assert!(actor.take_messages().is_empty());
    }
    actor.notified(C_RX, &frame, &mut stats, 0);
    assert_eq!(
        actor.take_messages(),
        vec![
            "[WARN] Dropped 1 client(s) that stopped reading, \
             having fallen 64 measurements behind"
        ]
    );
    assert!(!actor.wants_poll());
}

#[test]
fn an_overflowing_buffer_is_named_in_a_warning() {
    let mut stats = test_stats();
    let mut actor = Actor::new(true);
    let mut data = vec![0u8; 257];
    data[..3].copy_from_slice(&[0xAA, 0xFF, 0xFF]);
    actor.notified(C_RX, &data, &mut stats, 0);
    assert_eq!(
        actor.take_messages(),
        vec!["[WARN] Discarding oversized frame buffer, resynchronizing"]
    );
}

#[test]
fn a_mask_clears_what_the_mode_does_not_grant() {
    for (bits, mask) in [(0o600, 0o177), (0o666, 0o111), (0, 0o777), (0o777, 0)] {
        assert_eq!(umask_for(SocketMode { bits }), mask);
    }
}

#[test]
fn an_agent_starts_serves_and_stops() {
    let mut l = Lifecycle::new(true);
    for phase in [
        Phase::MakeDirectory,
        Phase::ClaimPid,
        Phase::Probe,
        Phase::ClearSocket,
        Phase::Bind,
        Phase::WritePid,
        Phase::BindMetrics,
        Phase::Connect,
    ] {
        assert_eq!(l.phase, phase);
        assert!(!l.served);
        l.advance(Progress::Done);
    }
    assert_eq!(l.phase, Phase::Serve);
    assert!(l.owns_files && l.served);
    l.advance(Progress::StopRequested);
    assert_eq!(l.phase, Phase::Drain);
    l.advance(Progress::Done);
    assert_eq!(l.phase, Phase::Exit);
    assert!(!l.failed && l.owns_files);
}

#[test]
fn a_start_that_fails_leaves_the_files_of_others_alone() {
    let mut l = Lifecycle::new(false);
    l.advance(Progress::Done);
    l.advance(Progress::Done);
    assert_eq!(l.phase, Phase::Probe);
    l.advance(Progress::Failed);
    assert_eq!(l.phase, Phase::Exit);
    assert!(l.failed && !l.owns_files);
    // A signal while connecting is no failure, and takes the files along.
    let mut l = Lifecycle::new(false);
    while l.phase != Phase::Connect {
        l.advance(Progress::Done);
    }
    l.advance(Progress::Signalled);
    assert_eq!(l.phase, Phase::Exit);
    assert!(!l.failed && l.owns_files && !l.served);
    let mut l = Lifecycle::new(false);
    while l.phase != Phase::Serve {
        l.advance(Progress::Done);
    }
    l.advance(Progress::ActorGone);
    assert!(l.failed && l.owns_files);
}
