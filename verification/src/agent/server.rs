use crate::addr::BDAddr;
use crate::agent::outbox::{Delivery, Look, Outbox, SendOutcome};
use crate::agent::protocol::{Request, RequestView, Response, ResponseView};
use crate::agent::status::{AgentStats, StatsView};
use crate::config::{SocketMode, ALL_PERMISSIONS};
use crate::connection::{self, FrameAssembler, FrameKind, Measurement, C_RX};
use crate::payload;
use crate::text;
use crate::time;
use crate::wall_clock::{ClockView, WallClock};
use tokio::sync::mpsc;
use vstd::prelude::*;
use vstd::string::*;

verus! {

/// How many measurements may queue for one client before it is dropped.
///
/// The queue absorbs a client that is briefly slow to read its socket. Past that
/// it would be absorbing one that has stopped reading altogether, which nothing
/// bounds: a single wedged subscriber would cost the agent unbounded memory.
/// Sized for a minute at the default one-second interval.
pub const CLIENT_QUEUE_LEN: usize = 64;

/// The clients that stream, everything that was handed to any client, and every
/// look at whether one had hung up.
#[verifier::ext_equal]
pub struct ClientsView {
    pub list: Seq<mpsc::Sender<Response>>,
    pub sent: Seq<Delivery>,
    pub looked: Seq<Look>,
}

/// Those of `list` that are still listening, by what came of a delivery to each.
pub open spec fn listening(
    list: Seq<mpsc::Sender<Response>>,
    outcomes: Seq<SendOutcome>,
) -> Seq<mpsc::Sender<Response>>
    decreases list.len(),
{
    if list.len() == 0 {
        list
    } else {
        let rest = listening(list.drop_last(), outcomes.drop_last());
        if outcomes.last() == SendOutcome::Sent {
            rest.push(list.last())
        } else {
            rest
        }
    }
}

/// Those of `list` that have not hung up, by what a look at each showed.
pub open spec fn connected(
    list: Seq<mpsc::Sender<Response>>,
    gone: Seq<bool>,
) -> Seq<mpsc::Sender<Response>>
    decreases list.len(),
{
    if list.len() == 0 {
        list
    } else {
        let rest = connected(list.drop_last(), gone.drop_last());
        if gone.last() {
            rest
        } else {
            rest.push(list.last())
        }
    }
}

/// Whether `response` was handed to each of `list`, in order, and nothing else
/// to anyone.
pub open spec fn delivered(
    before: Seq<Delivery>,
    after: Seq<Delivery>,
    list: Seq<mpsc::Sender<Response>>,
    response: ResponseView,
) -> bool {
    &&& after.len() == before.len() + list.len()
    &&& after.take(before.len() as int) == before
    &&& forall|i: int|
        0 <= i < list.len() ==> (#[trigger] after[before.len() + i]).to == list[i] && after[
        before.len() + i].response == response
}

/// Whether `response` was handed to every client, in order, and nothing else to
/// anyone.
pub open spec fn handed_to_all(
    before: ClientsView,
    after: ClientsView,
    response: ResponseView,
) -> bool {
    &&& delivered(before.sent, after.sent, before.list, response)
    &&& after.looked == before.looked
}

/// The outcomes of the deliveries after the first `n`.
pub open spec fn outcomes_after(sent: Seq<Delivery>, n: nat) -> Seq<SendOutcome> {
    Seq::new((sent.len() - n) as nat, |i: int| sent[n + i].outcome)
}

/// Whether one response was handed to one client, and nothing else to anyone.
pub open spec fn handed_to(
    before: ClientsView,
    after: ClientsView,
    to: mpsc::Sender<Response>,
    response: ResponseView,
) -> bool {
    &&& after.sent.len() == before.sent.len() + 1
    &&& after.sent.take(before.sent.len() as int) == before.sent
    &&& after.sent.last().to == to
    &&& after.sent.last().response == response
    &&& after == (ClientsView { sent: after.sent, ..before })
}

/// What the looks after the first `n` showed.
pub open spec fn seen_after(looked: Seq<Look>, n: nat) -> Seq<bool> {
    Seq::new((looked.len() - n) as nat, |i: int| looked[n + i].gone)
}

/// Whether each of `list` was looked at, in order, and nobody else.
pub open spec fn looked_at(
    before: Seq<Look>,
    after: Seq<Look>,
    list: Seq<mpsc::Sender<Response>>,
) -> bool {
    &&& after.len() == before.len() + list.len()
    &&& after.take(before.len() as int) == before
    &&& forall|i: int| 0 <= i < list.len() ==> (#[trigger] after[before.len() + i]).at == list[i]
}

/// Whether the clients that had hung up were dropped, and nobody else: each is
/// looked at, and stays unless it is gone.
pub open spec fn reaped(before: ClientsView, after: ClientsView) -> bool {
    &&& looked_at(before.looked, after.looked, before.list)
    &&& after == (ClientsView {
        list: connected(before.list, seen_after(after.looked, before.looked.len())),
        looked: after.looked,
        ..before
    })
}

/// The clients currently streaming measurements. The device is polled once per
/// interval whatever the audience, so a second subscriber costs nothing.
///
/// Every change keeps the count in `AgentStats` in step with the list, which is
/// what keeps `agent status` from drifting.
pub struct Clients {
    list: Vec<mpsc::Sender<Response>>,
    outbox: Outbox,
}

impl View for Clients {
    type V = ClientsView;

    closed spec fn view(&self) -> ClientsView {
        ClientsView { list: self.list@, sent: self.outbox.sent(), looked: self.outbox.looked() }
    }
}

/// The statistics with the count of clients set.
pub open spec fn with_clients(s: StatsView, n: nat) -> StatsView {
    StatsView { clients: n as usize, ..s }
}

impl Clients {
    pub fn new() -> (c: Clients)
        ensures
            c@.list == Seq::<mpsc::Sender<Response>>::empty(),
            c@.sent == Seq::<Delivery>::empty(),
            c@.looked == Seq::<Look>::empty(),
    {
        Clients { list: Vec::new(), outbox: Outbox::new() }
    }

    pub fn is_empty(&self) -> (b: bool)
        ensures
            b == (self@.list.len() == 0),
    {
        self.list.len() == 0
    }

    /// How many clients stream.
    pub fn len(&self) -> (n: usize)
        ensures
            n == self@.list.len(),
    {
        self.list.len()
    }

    /// Take in a client that subscribed.
    pub fn add(&mut self, tx: mpsc::Sender<Response>, stats: &mut AgentStats)
        ensures
            final(self)@ == (ClientsView { list: old(self)@.list.push(tx), ..old(self)@ }),
            final(stats)@ == with_clients(old(stats)@, final(self)@.list.len()),
            final(stats)@.clients == final(self)@.list.len(),
    {
        self.list.push(tx);
        self.publish_count(stats);
    }

    /// Hand `response` to everyone still listening. One client going away must
    /// not interrupt anyone else's feed, so every send is attempted and the
    /// departures are swept up in the same pass: those that hung up, and those
    /// that stopped reading, whose queue is full. The result is how many of the
    /// latter there were.
    pub fn broadcast(&mut self, response: &Response, stats: &mut AgentStats) -> (lagging: usize)
        requires
            old(stats)@.clients == old(self)@.list.len(),
        ensures
            handed_to_all(old(self)@, final(self)@, response@),
            final(self)@.list == listening(
                old(self)@.list,
                outcomes_after(final(self)@.sent, old(self)@.sent.len()),
            ),
            lagging == full_count(outcomes_after(final(self)@.sent, old(self)@.sent.len())),
            final(stats)@ == with_clients(old(stats)@, final(self)@.list.len()),
            final(stats)@.clients == final(self)@.list.len(),
    {
        let ghost all = self.list@;
        let ghost before = self.outbox.sent();
        let total: usize = self.list.len();
        let mut lagging: usize = 0;
        let mut i: usize = 0;
        let mut k: usize = 0;
        proof {
            assert(all.skip(0) =~= all);
            assert(all.take(0) =~= Seq::empty());
            assert(listening(all.take(0), outcomes_after(before, before.len())) =~= Seq::empty());
            assert(Seq::<mpsc::Sender<Response>>::empty() + all =~= all);
            assert(before.take(before.len() as int) =~= before);
            assert(outcomes_after(before, before.len()) =~= Seq::empty());
        }
        while k < total
            invariant
                k <= total == all.len(),
                i <= k,
                lagging <= k,
                i + (total - k) == self.list@.len(),
                i == listening(all.take(k as int), outcomes_after(self.outbox.sent(), before.len())).len(),
                self.list@ == listening(
                    all.take(k as int),
                    outcomes_after(self.outbox.sent(), before.len()),
                ) + all.skip(k as int),
                delivered(before, self.outbox.sent(), all.take(k as int), response@),
                self.outbox.looked() == old(self).outbox.looked(),
                lagging == full_count(outcomes_after(self.outbox.sent(), before.len())),
            decreases total - k,
        {
            let ghost done = self.outbox.sent();
            let ghost kept = listening(all.take(k as int), outcomes_after(done, before.len()));
            proof {
                assert(self.list@[i as int] == all.skip(k as int)[0]);
                assert(all.take(k + 1).drop_last() =~= all.take(k as int));
            }
            let outcome = self.outbox.try_send(&self.list[i], response.clone());
            proof {
                let (a, b) = (
                    outcomes_after(done, before.len()),
                    outcomes_after(self.outbox.sent(), before.len()),
                );
                assert(b =~= a.push(outcome));
                assert(b.drop_last() =~= a);
                assert(self.outbox.sent().take(before.len() as int) =~= done.take(before.len() as int));
                assert forall|j: int| 0 <= j < k + 1 implies (#[trigger] self.outbox.sent()[before.len()
                    + j]).to == all.take(k + 1)[j] && self.outbox.sent()[before.len() + j].response
                    == response@ by {
                    if j < k {
                        assert(done[before.len() + j].to == all.take(k as int)[j]);
                    }
                }
            }
            match outcome {
                SendOutcome::Sent => {
                    i = i + 1;
                    proof {
                        assert(kept + all.skip(k as int) =~= kept.push(all[k as int]) + all.skip(
                            k + 1,
                        ));
                    }
                },
                SendOutcome::Closed => {
                    self.list.remove(i);
                    proof {
                        assert((kept + all.skip(k as int)).remove(i as int) =~= kept + all.skip(
                            k + 1,
                        ));
                    }
                },
                SendOutcome::Full => {
                    self.list.remove(i);
                    lagging = lagging + 1;
                    proof {
                        assert((kept + all.skip(k as int)).remove(i as int) =~= kept + all.skip(
                            k + 1,
                        ));
                    }
                },
            }
            k = k + 1;
        }
        proof {
            assert(all.take(k as int) =~= all);
            assert(all.skip(k as int) =~= Seq::empty());
            assert(self.list@ =~= listening(all, outcomes_after(self.outbox.sent(), before.len())));
        }
        self.publish_count(stats);
        lagging
    }

    /// Drop the clients that have hung up. Doing this eagerly rather than
    /// waiting for the next failed send keeps the reported count current.
    pub fn reap(&mut self, stats: &mut AgentStats)
        requires
            old(stats)@.clients == old(self)@.list.len(),
        ensures
            reaped(old(self)@, final(self)@),
            final(stats)@ == with_clients(old(stats)@, final(self)@.list.len()),
            final(stats)@.clients == final(self)@.list.len(),
    {
        let ghost all = self.list@;
        let ghost before = self.outbox.looked();
        let total: usize = self.list.len();
        let mut i: usize = 0;
        let mut k: usize = 0;
        proof {
            assert(all.skip(0) =~= all);
            assert(all.take(0) =~= Seq::empty());
            assert(Seq::<mpsc::Sender<Response>>::empty() + all =~= all);
            assert(before.take(before.len() as int) =~= before);
        }
        while k < total
            invariant
                k <= total == all.len(),
                i <= k,
                i + (total - k) == self.list@.len(),
                i == connected(all.take(k as int), seen_after(self.outbox.looked(), before.len())).len(),
                self.list@ == connected(
                    all.take(k as int),
                    seen_after(self.outbox.looked(), before.len()),
                ) + all.skip(k as int),
                looked_at(before, self.outbox.looked(), all.take(k as int)),
                self.outbox.sent() == old(self).outbox.sent(),
            decreases total - k,
        {
            let ghost done = self.outbox.looked();
            let ghost kept = connected(all.take(k as int), seen_after(done, before.len()));
            proof {
                assert(self.list@[i as int] == all.skip(k as int)[0]);
                assert(all.take(k + 1).drop_last() =~= all.take(k as int));
            }
            let gone = self.outbox.is_closed(&self.list[i]);
            proof {
                let (a, b) = (
                    seen_after(done, before.len()),
                    seen_after(self.outbox.looked(), before.len()),
                );
                assert(b =~= a.push(gone));
                assert(b.drop_last() =~= a);
                assert(self.outbox.looked().take(before.len() as int) =~= done.take(
                    before.len() as int,
                ));
                assert forall|j: int| 0 <= j < k + 1 implies (#[trigger] self.outbox.looked()[
                before.len() + j]).at == all.take(k + 1)[j] by {
                    if j < k {
                        assert(done[before.len() + j].at == all.take(k as int)[j]);
                    }
                }
            }
            if gone {
                self.list.remove(i);
                proof {
                    assert((kept + all.skip(k as int)).remove(i as int) =~= kept + all.skip(k + 1));
                }
            } else {
                i = i + 1;
                proof {
                    assert(kept + all.skip(k as int) =~= kept.push(all[k as int]) + all.skip(
                        k + 1,
                    ));
                }
            }
            k = k + 1;
        }
        proof {
            assert(all.take(k as int) =~= all);
            assert(all.skip(k as int) =~= Seq::empty());
            assert(self.list@ =~= connected(all, seen_after(self.outbox.looked(), before.len())));
        }
        self.publish_count(stats);
    }

    /// Hand `response` to everyone and forget them. Best-effort: a client whose
    /// queue is full has stopped reading, and dropping its sender tells it as
    /// much anyway.
    fn dismiss(&mut self, response: &Response, stats: &mut AgentStats)
        ensures
            handed_to_all(old(self)@, final(self)@, response@),
            final(self)@.list == Seq::<mpsc::Sender<Response>>::empty(),
            final(stats)@ == with_clients(old(stats)@, 0),
    {
        let ghost before = self.outbox.sent();
        let list = self.take(stats);
        let mut k: usize = 0;
        proof {
            assert(before.take(before.len() as int) =~= before);
        }
        while k < list.len()
            invariant
                k <= list@.len(),
                self.list@.len() == 0,
                delivered(before, self.outbox.sent(), list@.take(k as int), response@),
                self.outbox.looked() == old(self).outbox.looked(),
            decreases list@.len() - k,
        {
            let ghost done = self.outbox.sent();
            self.outbox.try_send(&list[k], response.clone());
            proof {
                assert(self.outbox.sent().take(before.len() as int) =~= done.take(before.len() as int));
                assert forall|j: int| 0 <= j < k + 1 implies (#[trigger] self.outbox.sent()[before.len()
                    + j]).to == list@.take(k + 1)[j] && self.outbox.sent()[before.len() + j].response
                    == response@ by {
                    if j < k {
                        assert(done[before.len() + j].to == list@.take(k as int)[j]);
                    }
                }
            }
            k = k + 1;
        }
        proof {
            assert(list@.take(k as int) =~= list@);
            assert(self.list@ =~= Seq::empty());
        }
    }

    /// Report a failure to everyone and forget them.
    pub fn abort(&mut self, reason: &str, stats: &mut AgentStats)
        ensures
            handed_to_all(old(self)@, final(self)@, ResponseView::Error(reason@)),
            final(self)@.list == Seq::<mpsc::Sender<Response>>::empty(),
            final(stats)@ == with_clients(old(stats)@, 0),
    {
        let response = Response::Error { message: reason.to_owned() };
        self.dismiss(&response, stats);
    }

    /// Tell everyone the stream is over and forget them. They read a closed
    /// socket as a protocol error, not as a normal stop.
    pub fn end(&mut self, stats: &mut AgentStats)
        ensures
            handed_to_all(old(self)@, final(self)@, ResponseView::StreamEnd),
            final(self)@.list == Seq::<mpsc::Sender<Response>>::empty(),
            final(stats)@ == with_clients(old(stats)@, 0),
    {
        self.dismiss(&Response::StreamEnd, stats);
    }

    fn take(&mut self, stats: &mut AgentStats) -> (list: Vec<mpsc::Sender<Response>>)
        ensures
            list@ == old(self)@.list,
            final(self)@ == (ClientsView { list: Seq::empty(), ..old(self)@ }),
            final(stats)@ == with_clients(old(stats)@, 0),
    {
        let mut previous: Vec<mpsc::Sender<Response>> = Vec::new();
        std::mem::swap(&mut previous, &mut self.list);
        self.publish_count(stats);
        previous
    }

    fn publish_count(&self, stats: &mut AgentStats)
        ensures
            final(stats)@ == with_clients(old(stats)@, self@.list.len()),
            final(stats)@.clients == self@.list.len(),
    {
        stats.set_clients(self.list.len());
    }

    /// Answer a one-shot request. There is room for the answer: the queue is
    /// this request's own, and one reply is all that is ever put in it.
    pub fn reply(&mut self, tx: &mpsc::Sender<Response>, response: Response)
        ensures
            handed_to(old(self)@, final(self)@, *tx, response@),
    {
        let ghost before = self.outbox.sent();
        self.outbox.try_send(tx, response);
        proof {
            assert(self.outbox.sent().take(before.len() as int) =~= before);
        }
    }
}

/// How many of the outcomes are of a client that stopped reading.
pub open spec fn full_count(outcomes: Seq<SendOutcome>) -> nat
    decreases outcomes.len(),
{
    if outcomes.len() == 0 {
        0
    } else {
        full_count(outcomes.drop_last()) + (if outcomes.last() == SendOutcome::Full {
            1nat
        } else {
            0
        })
    }
}

/// A client that took the response is still there afterwards, whatever became
/// of the others; one that did not is gone.
pub proof fn departures_do_not_disturb_the_rest(
    list: Seq<mpsc::Sender<Response>>,
    outcomes: Seq<SendOutcome>,
    i: int,
)
    requires
        list.len() == outcomes.len(),
        0 <= i < list.len(),
        outcomes[i] == SendOutcome::Sent,
    ensures
        listening(list, outcomes).contains(list[i]),
        listening(list, outcomes).len() <= list.len(),
    decreases list.len(),
{
    let (t, u) = (list.drop_last(), outcomes.drop_last());
    let kept = listening(list, outcomes);
    if i < t.len() {
        assert(t[i] == list[i] && u[i] == outcomes[i]);
        departures_do_not_disturb_the_rest(t, u, i);
        let k = choose|k: int| 0 <= k < listening(t, u).len() && listening(t, u)[k] == t[i];
        assert(kept[k] == list[i]);
    } else {
        lemma_listening_len(t, u);
        assert(kept.last() == list[i]);
    }
}

proof fn lemma_listening_len(list: Seq<mpsc::Sender<Response>>, outcomes: Seq<SendOutcome>)
    requires
        list.len() == outcomes.len(),
    ensures
        listening(list, outcomes).len() <= list.len(),
    decreases list.len(),
{
    if list.len() > 0 {
        lemma_listening_len(list.drop_last(), outcomes.drop_last());
    }
}

/// When every client takes the response, none is dropped.
pub proof fn nobody_is_dropped_without_cause(
    list: Seq<mpsc::Sender<Response>>,
    outcomes: Seq<SendOutcome>,
)
    requires
        list.len() == outcomes.len(),
        forall|i: int| 0 <= i < outcomes.len() ==> outcomes[i] == SendOutcome::Sent,
    ensures
        listening(list, outcomes) == list,
    decreases list.len(),
{
    if list.len() > 0 {
        nobody_is_dropped_without_cause(list.drop_last(), outcomes.drop_last());
        assert(list =~= list.drop_last().push(list.last()));
    } else {
        assert(listening(list, outcomes) =~= list);
    }
}

/// How far a one-shot command has come.
#[derive(Clone, Copy, Debug, PartialEq, Eq, Structural)]
pub enum Stage {
    /// The subscription to notifications is being taken out.
    Listen,
    /// The command is being written.
    Write,
    /// A reconnect on the way invalidated the subscription; it is renewed.
    Relisten,
    /// The reply is awaited.
    Await,
}

/// A one-shot command on its way.
pub struct Oneshot {
    /// Whom to answer.
    pub tx: mpsc::Sender<Response>,
    pub kind: FrameKind,
    pub payload: Vec<u8>,
    /// Whether notifications were subscribed to before it came.
    pub streaming: bool,
    pub stage: Stage,
}

/// What the agent is at, on the link to the device.
pub enum Task {
    /// Nothing: the next event decides.
    Idle,
    /// Polling: the subscription is being taken out.
    PollListen,
    /// Polling: the request for a measurement is being written.
    PollWrite,
    /// Polling: a reconnect on the way invalidated the subscription.
    PollRelisten,
    /// A client waits for the subscription; whether nothing was polled before.
    Subscribe { tx: mpsc::Sender<Response>, idle: bool },
    Oneshot(Oneshot),
    /// The stream of notifications ended; the link is being re-established.
    Reconnect,
}

/// What a one-shot command is.
#[verifier::ext_equal]
pub struct OneshotView {
    pub tx: mpsc::Sender<Response>,
    pub kind: FrameKind,
    pub payload: Seq<u8>,
    pub streaming: bool,
    pub stage: Stage,
}

/// What the agent is at.
#[verifier::ext_equal]
pub enum TaskView {
    Idle,
    PollListen,
    PollWrite,
    PollRelisten,
    Subscribe(mpsc::Sender<Response>, bool),
    Oneshot(OneshotView),
    Reconnect,
}

impl View for Oneshot {
    type V = OneshotView;

    open spec fn view(&self) -> OneshotView {
        OneshotView {
            tx: self.tx,
            kind: self.kind,
            payload: self.payload@,
            streaming: self.streaming,
            stage: self.stage,
        }
    }
}

impl View for Task {
    type V = TaskView;

    open spec fn view(&self) -> TaskView {
        match self {
            Task::Idle => TaskView::Idle,
            Task::PollListen => TaskView::PollListen,
            Task::PollWrite => TaskView::PollWrite,
            Task::PollRelisten => TaskView::PollRelisten,
            Task::Subscribe { tx, idle } => TaskView::Subscribe(*tx, *idle),
            Task::Oneshot(o) => TaskView::Oneshot(o@),
            Task::Reconnect => TaskView::Reconnect,
        }
    }
}

/// What has to be done on the link before the agent can go on.
#[derive(Debug, PartialEq, Eq)]
pub enum Action {
    /// Nothing: wait for the next tick, request or notification.
    Rest,
    /// Start the period of the ticker anew, then rest.
    ResetTicker,
    /// Subscribe to notifications, and call `listened`.
    Listen,
    /// Write these bytes, and call `written`.
    Write(Vec<u8>),
    /// Wait for notifications, each of which goes to `notified`, until the
    /// action is another; but no longer than a command may take.
    Await,
    /// Re-establish the link, subscribe, and call `reconnected`.
    Reconnect,
}

/// What has to be done.
pub enum ActionView {
    Rest,
    ResetTicker,
    Listen,
    Write(Seq<u8>),
    Await,
    Reconnect,
}

impl View for Action {
    type V = ActionView;

    open spec fn view(&self) -> ActionView {
        match self {
            Action::Rest => ActionView::Rest,
            Action::ResetTicker => ActionView::ResetTicker,
            Action::Listen => ActionView::Listen,
            Action::Write(bytes) => ActionView::Write(bytes@),
            Action::Await => ActionView::Await,
            Action::Reconnect => ActionView::Reconnect,
        }
    }
}

/// Serializes every client request onto the single BLE connection. Any number
/// of clients stream at once, all fed from the same poll, with one-shot
/// commands interleaved on the same link.
pub struct Actor {
    subscribed: bool,
    assembler: FrameAssembler,
    clients: Clients,
    poll_always: bool,
    task: Task,
    messages: Vec<String>,
    clock: WallClock,
}

/// The state of the actor.
#[verifier::ext_equal]
pub struct ActorView {
    /// Whether notifications are subscribed to.
    pub subscribed: bool,
    /// The bytes of a frame that is not complete yet.
    pub buffer: Seq<u8>,
    pub clients: ClientsView,
    /// Keep polling even with no client attached, for the metrics endpoint.
    pub poll_always: bool,
    pub task: TaskView,
    /// What is to be printed to stderr.
    pub messages: Seq<Seq<char>>,
    /// What the system's clock was asked so far.
    pub clock: ClockView,
}

impl View for Actor {
    type V = ActorView;

    closed spec fn view(&self) -> ActorView {
        ActorView {
            subscribed: self.subscribed,
            buffer: self.assembler@,
            clients: self.clients@,
            poll_always: self.poll_always,
            task: self.task@,
            messages: self.messages@.map_values(|s: String| s@),
            clock: self.clock@,
        }
    }
}

impl ActorView {
    /// Whether the device should be polled: somebody is streaming, or the
    /// metrics endpoint needs a current reading to serve.
    pub open spec fn wants_poll(self) -> bool {
        self.poll_always || self.clients.list.len() > 0
    }
}

/// Whether a stream was given up for `reason`: every client is told and
/// forgotten, the subscription is gone, the link counts as down, and the agent
/// is at nothing.
pub open spec fn stream_aborted(
    before: ActorView,
    after: ActorView,
    stats: StatsView,
    stats_after: StatsView,
    reason: Seq<char>,
) -> bool {
    &&& after == (ActorView {
        subscribed: false,
        clients: after.clients,
        task: TaskView::Idle,
        messages: before.messages.push("[ERR] "@ + reason),
        ..before
    })
    &&& after.clients.list.len() == 0
    &&& handed_to_all(before.clients, after.clients, ResponseView::Error(reason))
    &&& stats_after == (StatsView { connected: false, clients: 0, ..stats })
}

/// Whether a measurement was passed on: counted, and handed to every client.
pub open spec fn passed_on(
    before: ActorView,
    after: ActorView,
    stats: StatsView,
    stats_after: StatsView,
    m: Measurement,
    now: u64,
) -> bool {
    let outcomes = outcomes_after(after.clients.sent, before.clients.sent.len());
    &&& handed_to_all(before.clients, after.clients, ResponseView::Measurement(m))
    &&& after.clients.list == listening(before.clients.list, outcomes)
    &&& stats_after == with_clients(stats.with_sample(m, now), after.clients.list.len())
    &&& after == (ActorView {
        clients: after.clients,
        messages: if full_count(outcomes) > 0 {
            before.messages.push(lag_text(full_count(outcomes)))
        } else {
            before.messages
        },
        ..before
    })
}

/// What is said of clients that stopped reading.
pub open spec fn lag_text(lagging: nat) -> Seq<char> {
    "[WARN] Dropped "@ + text::decimal(lagging)
        + " client(s) that stopped reading, having fallen "@ + text::decimal(
        CLIENT_QUEUE_LEN as nat,
    ) + " measurements behind"@
}

/// What becomes of what was read out of a frame that nothing waits for: a
/// measurement is passed on, and why there is none is reported.
pub open spec fn handed_on(
    before: ActorView,
    after: ActorView,
    stats: StatsView,
    stats_after: StatsView,
    measured: Result<Measurement, connection::MeasureError>,
    now: u64,
) -> bool {
    match measured {
        Ok(m) => passed_on(before, after, stats, stats_after, m, now),
        Err(e) => {
            &&& stats_after == stats
            &&& after == (ActorView {
                messages: before.messages.push("[ERR] "@ + connection::parse_failure(e)),
                ..before
            })
        },
    }
}

/// What becomes of a frame that nothing waits for: it is read on the actor's
/// clock, and what was read is handed on.
pub open spec fn forwarded(
    before: ActorView,
    after: ActorView,
    stats: StatsView,
    stats_after: StatsView,
    frame: Seq<u8>,
    now: u64,
) -> bool {
    &&& connection::read_on(before.clock, after.clock, frame)
    &&& handed_on(
        ActorView { clock: after.clock, ..before },
        after,
        stats,
        stats_after,
        connection::reading(before.clock, after.clock, frame),
        now,
    )
}

/// What a command is answered with, by the frame that the device sent.
pub open spec fn command_result(frame: Seq<u8>) -> ResponseView {
    match connection::status_byte(frame) {
        Some(code) => ResponseView::CommandResult(code),
        None => ResponseView::Error("response frame too short"@),
    }
}

/// What a command is answered with, by the frame that the device sent.
pub fn parse_command_result(frame: &[u8]) -> (r: Response)
    ensures
        r@ == command_result(frame@),
{
    match connection::command_status(frame) {
        Some(code) => Response::CommandResult { code },
        None => Response::Error { message: "response frame too short".to_owned() },
    }
}

/// What a request for the device's clock is answered with, given what the frame
/// measured.
pub open spec fn rtc_result(
    measured: Result<Measurement, connection::MeasureError>,
) -> ResponseView {
    match measured {
        Ok(m) => ResponseView::Measurement(m),
        Err(e) => ResponseView::Error("get_rtc failed: "@ + e.text()),
    }
}

/// What a request for the device's clock is answered with.
pub fn rtc_reply(measured: Result<Measurement, connection::MeasureError>) -> (r: Response)
    ensures
        r@ == rtc_result(measured),
{
    match measured {
        Ok(m) => Response::from_measurement(&m),
        Err(e) => {
            let mut message = "get_rtc failed: ".to_owned();
            message.append(e.message().as_str());
            Response::Error { message }
        },
    }
}

/// Whether a clock was asked for what an answer to a one-shot command takes, and
/// nothing else.
pub open spec fn consulted(
    kind: FrameKind,
    before: ClockView,
    after: ClockView,
    frame: Seq<u8>,
) -> bool {
    match kind {
        FrameKind::Command => after == before,
        FrameKind::Measurement => connection::read_on(before, after, frame),
    }
}

/// What a one-shot command is answered with, by the frame that the device sent
/// and by what a clock answered.
pub open spec fn answer(
    kind: FrameKind,
    before: ClockView,
    after: ClockView,
    frame: Seq<u8>,
) -> ResponseView {
    match kind {
        FrameKind::Command => command_result(frame),
        FrameKind::Measurement => rtc_result(connection::reading(before, after, frame)),
    }
}

/// Whether a one-shot command ended with the answer `r`: its client is told,
/// and a subscription that was taken out for it is given up.
pub open spec fn oneshot_ended(before: ActorView, after: ActorView, o: OneshotView, r: ResponseView) -> bool {
    &&& handed_to(before.clients, after.clients, o.tx, r)
    &&& after == (ActorView {
        subscribed: before.subscribed && o.streaming,
        clients: after.clients,
        task: TaskView::Idle,
        ..before
    })
}

/// The request for a measurement.
pub open spec fn monitoring_frame() -> Seq<u8> {
    payload::frame(seq![payload::MONITORING])
}

/// The frame that sets the device's clock to what a wall clock shows, or why
/// there is none, in words: the wire format carries the year in a single byte.
pub open spec fn clock_frame(t: time::LocalTime) -> Result<Seq<u8>, Seq<char>> {
    if payload::FIRST_YEAR <= t.year <= payload::LAST_YEAR {
        Ok(payload::frame(payload::rtc_payload(t)))
    } else {
        Err((payload::YearOutOfRange { year: t.year }).text())
    }
}

/// The frame that sets the device's clock to what a wall clock shows, or why
/// there is none, in words.
pub fn rtc_frame_at(t: &time::LocalTime) -> (r: Result<Vec<u8>, String>)
    requires
        t.valid(),
    ensures
        views(r) == clock_frame(*t),
{
    match payload::rtc(t) {
        Ok(bytes) => Ok(bytes),
        Err(e) => Err(e.message()),
    }
}

/// Whether a clock was asked for what setting the device's clock to `time` takes,
/// and nothing else: what it shows at that time, where it is one.
pub open spec fn clock_asked(before: ClockView, after: ClockView, time: Seq<char>) -> bool {
    match time::rfc3339(time) {
        Ok(t) => time::shown_at(before, after, t.0 as i64),
        Err(_) => after == before,
    }
}

/// The frame that sets the device's clock to `time` by what a clock showed last,
/// or why there is none.
pub open spec fn clock_setting(clock: ClockView, time: Seq<char>) -> Result<Seq<u8>, Seq<char>> {
    match time::rfc3339(time) {
        Ok(_) => clock_frame(clock.shown.last().shown),
        Err(e) => Err("invalid time: "@ + e),
    }
}

pub open spec fn views(r: Result<Vec<u8>, String>) -> Result<Seq<u8>, Seq<char>> {
    match r {
        Ok(bytes) => Ok(bytes@),
        Err(e) => Err(e@),
    }
}

/// The frame that sets the device's clock to a time in RFC 3339, as `clock` shows
/// it, or why there is none, in words.
pub fn rtc_frame(clock: &mut WallClock, time: &str) -> (r: Result<Vec<u8>, String>)
    ensures
        clock_asked(old(clock)@, final(clock)@, time@),
        views(r) == clock_setting(final(clock)@, time@),
{
    match time::rfc3339_moment(time) {
        Err(e) => {
            let mut message = "invalid time: ".to_owned();
            message.append(e.as_str());
            Err(message)
        },
        Ok(at) => {
            let t = time::local_fields(clock, at.seconds);
            rtc_frame_at(&t)
        },
    }
}

/// The state with other clients streaming.
pub open spec fn with_list(st: ActorView, list: Seq<mpsc::Sender<Response>>) -> ActorView {
    ActorView { clients: ClientsView { list, ..st.clients }, ..st }
}

/// Whether a one-shot command was begun: the subscription comes first where
/// there is none, then the write.
pub open spec fn oneshot_begun(
    before: ActorView,
    after: ActorView,
    tx: mpsc::Sender<Response>,
    kind: FrameKind,
    payload: Seq<u8>,
    action: ActionView,
) -> bool {
    &&& after == (ActorView {
        task: TaskView::Oneshot(
            OneshotView {
                tx,
                kind,
                payload,
                streaming: before.subscribed,
                stage: if before.subscribed {
                    Stage::Write
                } else {
                    Stage::Listen
                },
            },
        ),
        ..before
    })
    &&& action == (if before.subscribed {
        ActionView::Write(payload)
    } else {
        ActionView::Listen
    })
}

/// Whether a request was turned down with `reason`.
pub open spec fn refused(
    before: ActorView,
    after: ActorView,
    tx: mpsc::Sender<Response>,
    reason: Seq<char>,
) -> bool {
    &&& handed_to(before.clients, after.clients, tx, ResponseView::Error(reason))
    &&& after == (ActorView { clients: after.clients, ..before })
}

/// Whether a request was begun on, once the clients that hung up were dropped.
pub open spec fn request_begun(
    before: ActorView,
    after: ActorView,
    request: RequestView,
    tx: mpsc::Sender<Response>,
    action: ActionView,
) -> bool {
    match request {
        // Answered without the actor, so that they never wait for the link.
        RequestView::Ping | RequestView::Shutdown => after == before && action is Rest,
        RequestView::Subscribe => if before.subscribed {
            // A subscription already in place is reused: taking out another
            // would discard a part-received frame.
            after == with_list(before, before.clients.list.push(tx)) && action == (
            if before.wants_poll() {
                ActionView::Rest
            } else {
                ActionView::ResetTicker
            })
        } else {
            after == (ActorView { task: TaskView::Subscribe(tx, !before.wants_poll()), ..before })
                && action is Listen
        },
        RequestView::GetRtc => oneshot_begun(
            before,
            after,
            tx,
            FrameKind::Measurement,
            monitoring_frame(),
            action,
        ),
        RequestView::Power(on) => oneshot_begun(
            before,
            after,
            tx,
            FrameKind::Command,
            payload::frame(
                seq![
                    payload::SWITCH,
                    if on {
                        0x01
                    } else {
                        0x00
                    },
                ],
            ),
            action,
        ),
        RequestView::TestLed => oneshot_begun(
            before,
            after,
            tx,
            FrameKind::Command,
            payload::frame(seq![0x3E, 0x01, 0x02, 0x02, 0x0F]),
            action,
        ),
        RequestView::SetRtc(time) => {
            let asked = ActorView { clock: after.clock, ..before };
            &&& clock_asked(before.clock, after.clock, time)
            &&& match clock_setting(after.clock, time) {
                Ok(bytes) => oneshot_begun(asked, after, tx, FrameKind::Command, bytes, action),
                Err(reason) => refused(asked, after, tx, reason) && action is Rest,
            }
        },
    }
}

/// The outcome of work on the link, by what it says.
pub open spec fn outcome_of<T>(r: Result<T, String>) -> Result<T, Seq<char>> {
    match r {
        Ok(t) => Ok(t),
        Err(e) => Err(e@),
    }
}

/// Whether an attempt to subscribe was followed up. A fresh stream discards any
/// half-assembled frame.
pub open spec fn listen_followed(
    before: ActorView,
    after: ActorView,
    stats: StatsView,
    stats_after: StatsView,
    r: Result<(), Seq<char>>,
    action: ActionView,
) -> bool {
    let ready = ActorView { subscribed: true, buffer: Seq::empty(), ..before };
    let lost = ActorView { subscribed: false, ..before };
    match before.task {
        TaskView::PollListen => match r {
            Ok(_) => {
                &&& after == (ActorView { task: TaskView::PollWrite, ..ready })
                &&& stats_after == stats
                &&& action == ActionView::Write(monitoring_frame())
            },
            Err(e) => stream_aborted(lost, after, stats, stats_after, "listen failed: "@ + e)
                && action is Rest,
        },
        TaskView::PollRelisten => match r {
            Ok(_) => {
                &&& after == (ActorView { task: TaskView::Idle, ..ready })
                &&& stats_after == stats
                &&& action is Rest
            },
            Err(e) => stream_aborted(lost, after, stats, stats_after, "listen failed: "@ + e)
                && action is Rest,
        },
        TaskView::Subscribe(tx, idle) => match r {
            Ok(_) => {
                &&& after == with_list(
                    ActorView { task: TaskView::Idle, ..ready },
                    before.clients.list.push(tx),
                )
                &&& stats_after == with_clients(stats, after.clients.list.len())
                // Only a client that starts the polling starts its schedule:
                // doing so for a later arrival would push back the sample the
                // others are waiting for.
                &&& action == (if idle {
                    ActionView::ResetTicker
                } else {
                    ActionView::Rest
                })
            },
            Err(e) => {
                &&& refused(
                    ActorView { task: TaskView::Idle, ..lost },
                    after,
                    tx,
                    "listen failed: "@ + e,
                )
                &&& stats_after == stats
                &&& action is Rest
            },
        },
        TaskView::Oneshot(o) => if o.stage == Stage::Listen || o.stage == Stage::Relisten {
            match r {
                Ok(_) => {
                    &&& stats_after == stats
                    &&& after == (ActorView {
                        task: TaskView::Oneshot(
                            OneshotView {
                                stage: if o.stage == Stage::Listen {
                                    Stage::Write
                                } else {
                                    Stage::Await
                                },
                                ..o
                            },
                        ),
                        ..ready
                    })
                    &&& action == (if o.stage == Stage::Listen {
                        ActionView::Write(o.payload)
                    } else {
                        ActionView::Await
                    })
                },
                Err(e) => {
                    &&& oneshot_ended(
                        lost,
                        after,
                        o,
                        ResponseView::Error("listen failed: "@ + e),
                    )
                    &&& stats_after == stats
                    &&& action is Rest
                },
            }
        } else {
            after == before && stats_after == stats && action is Rest
        },
        _ => after == before && stats_after == stats && action is Rest,
    }
}

/// Whether an attempt to write was followed up. A reconnect along the way
/// invalidates the subscription, which is then renewed.
pub open spec fn write_followed(
    before: ActorView,
    after: ActorView,
    stats: StatsView,
    stats_after: StatsView,
    r: Result<bool, Seq<char>>,
    action: ActionView,
) -> bool {
    match before.task {
        TaskView::PollWrite => match r {
            Ok(true) => {
                &&& after == (ActorView { task: TaskView::PollRelisten, ..before })
                &&& stats_after == stats.with_reconnect()
                &&& action is Listen
            },
            Ok(false) => {
                &&& after == (ActorView { task: TaskView::Idle, ..before })
                &&& stats_after == stats
                &&& action is Rest
            },
            Err(e) => stream_aborted(
                before,
                after,
                stats,
                stats_after,
                "measurement write failed: "@ + e,
            ) && action is Rest,
        },
        TaskView::Oneshot(o) => if o.stage == Stage::Write {
            &&& stats_after == stats
            &&& match r {
                Ok(reconnected) => {
                    &&& after == (ActorView {
                        task: TaskView::Oneshot(
                            OneshotView {
                                stage: if reconnected {
                                    Stage::Relisten
                                } else {
                                    Stage::Await
                                },
                                ..o
                            },
                        ),
                        ..before
                    })
                    &&& action == (if reconnected {
                        ActionView::Listen
                    } else {
                        ActionView::Await
                    })
                },
                Err(e) => oneshot_ended(
                    before,
                    after,
                    o,
                    ResponseView::Error("write failed: "@ + e),
                ) && action is Rest,
            }
        } else {
            after == before && stats_after == stats && action is Rest
        },
        _ => after == before && stats_after == stats && action is Rest,
    }
}

/// What the agent is at while its task is `t`: what has to be done goes on.
pub open spec fn pending(t: TaskView) -> ActionView {
    match t {
        TaskView::Oneshot(o) => if o.stage == Stage::Await {
            ActionView::Await
        } else {
            ActionView::Rest
        },
        _ => ActionView::Rest,
    }
}

/// Whether a notification was followed up: it may complete a frame, which is
/// the awaited reply, or is passed on.
pub open spec fn notification_followed(
    before: ActorView,
    after: ActorView,
    stats: StatsView,
    stats_after: StatsView,
    characteristic: u128,
    data: Seq<u8>,
    now: u64,
    action: ActionView,
) -> bool {
    let fed = ActorView {
        buffer: connection::kept(before.buffer, data),
        messages: if connection::overflows(before.buffer, data) {
            before.messages.push(overflow_text())
        } else {
            before.messages
        },
        ..before
    };
    if characteristic != C_RX {
        after == before && stats_after == stats && action == pending(before.task)
    } else {
        match connection::emitted(before.buffer, data) {
            None => after == fed && stats_after == stats && action == pending(before.task),
            Some(frame) => match before.task {
                TaskView::Oneshot(o) if o.stage == Stage::Await && o.kind.fits(frame.len()) => {
                    &&& stats_after == stats
                    &&& action is Rest
                    &&& consulted(o.kind, before.clock, after.clock, frame)
                    &&& oneshot_ended(
                        ActorView { clock: after.clock, ..fed },
                        after,
                        o,
                        answer(o.kind, before.clock, after.clock, frame),
                    )
                },
                _ => {
                    &&& forwarded(fed, after, stats, stats_after, frame, now)
                    &&& action == pending(before.task)
                },
            },
        }
    }
}

/// What is said when the buffer of a frame overflows.
pub open spec fn overflow_text() -> Seq<char> {
    "[WARN] Discarding oversized frame buffer, resynchronizing"@
}

proof fn lemma_push_text(v: Seq<String>, s: String)
    ensures
        v.push(s).map_values(|s: String| s@) == v.map_values(|s: String| s@).push(s@),
{
    let f = |s: String| s@;
    assert(v.push(s).map_values(f) =~= v.map_values(f).push(s@));
}

impl Actor {
    /// Whether what is buffered of a frame is in bounds.
    pub closed spec fn wf(self) -> bool {
        self.assembler.wf()
    }

    pub fn new(poll_always: bool) -> (a: Actor)
        ensures
            a.wf(),
            a@ == (ActorView {
                subscribed: false,
                buffer: Seq::empty(),
                clients: ClientsView {
                    list: Seq::empty(),
                    sent: Seq::empty(),
                    looked: Seq::empty(),
                },
                poll_always,
                task: TaskView::Idle,
                messages: Seq::empty(),
                clock: ClockView::unasked(),
            }),
            a@ == ActorView::starting(poll_always),
    {
        let a = Actor {
            subscribed: false,
            assembler: FrameAssembler::new(),
            clients: Clients::new(),
            poll_always,
            task: Task::Idle,
            messages: Vec::new(),
            clock: WallClock::new(),
        };
        assert(a@.messages =~= Seq::empty());
        assert(a@.clients =~= ClientsView {
            list: Seq::empty(),
            sent: Seq::empty(),
            looked: Seq::empty(),
        });
        a
    }

    /// Whether the device should be polled: somebody is streaming, or the
    /// metrics endpoint needs a current reading to serve.
    pub fn wants_poll(&self) -> (b: bool)
        ensures
            b == self@.wants_poll(),
    {
        self.poll_always || !self.clients.is_empty()
    }

    /// Whether notifications are subscribed to: a stream of them that is at
    /// hand is to be dropped where they are not.
    pub fn is_subscribed(&self) -> (b: bool)
        ensures
            b == self@.subscribed,
    {
        self.subscribed
    }

    /// Take what is to be printed to stderr.
    pub fn take_messages(&mut self) -> (v: Vec<String>)
        requires
            old(self).wf(),
        ensures
            final(self).wf(),
            v@.map_values(|s: String| s@) == old(self)@.messages,
            final(self)@ == (ActorView { messages: Seq::empty(), ..old(self)@ }),
    {
        let mut v: Vec<String> = Vec::new();
        std::mem::swap(&mut v, &mut self.messages);
        assert(self@.messages =~= Seq::empty());
        v
    }

    fn say(&mut self, message: String)
        requires
            old(self).wf(),
        ensures
            final(self).wf(),
            final(self)@ == (ActorView {
                messages: old(self)@.messages.push(message@),
                ..old(self)@
            }),
            final(self).task == old(self).task,
    {
        proof {
            lemma_push_text(self.messages@, message);
        }
        self.messages.push(message);
    }

    /// Tear the streaming state down and report the failure to every client.
    /// Every path that gives up on streaming goes through here.
    fn abort_stream(&mut self, reason: String, stats: &mut AgentStats)
        requires
            old(self).wf(),
        ensures
            final(self).wf(),
            stream_aborted(old(self)@, final(self)@, old(stats)@, final(stats)@, reason@),
    {
        let mut message = "[ERR] ".to_owned();
        message.append(reason.as_str());
        self.say(message);
        self.subscribed = false;
        self.task = Task::Idle;
        stats.set_connected(false);
        self.clients.abort(reason.as_str(), stats);
    }

    /// End a one-shot command with its answer.
    fn finish(&mut self, o: Oneshot, response: Response)
        requires
            old(self).wf(),
        ensures
            final(self).wf(),
            oneshot_ended(old(self)@, final(self)@, o@, response@),
    {
        if !o.streaming {
            self.subscribed = false;
        }
        self.task = Task::Idle;
        self.clients.reply(&o.tx, response);
    }

    fn begin(&mut self, tx: mpsc::Sender<Response>, kind: FrameKind, payload: Vec<u8>) -> (action:
        Action)
        requires
            old(self).wf(),
        ensures
            final(self).wf(),
            oneshot_begun(old(self)@, final(self)@, tx, kind, payload@, action@),
    {
        let streaming = self.subscribed;
        let (stage, action) = if streaming {
            (Stage::Write, Action::Write(payload::copied(&payload)))
        } else {
            (Stage::Listen, Action::Listen)
        };
        self.task = Task::Oneshot(Oneshot { tx, kind, payload, streaming, stage });
        action
    }

    /// The ticker fired: ask the device for a measurement, where something
    /// wants one.
    pub fn tick(&mut self, stats: &mut AgentStats) -> (action: Action)
        requires
            old(self).wf(),
            old(stats)@.clients == old(self)@.clients.list.len(),
        ensures
            final(self).wf(),
            reaped(old(self)@.clients, final(self)@.clients),
            final(stats)@ == with_clients(old(stats)@, final(self)@.clients.list.len()),
            final(stats)@.clients == final(self)@.clients.list.len(),
            ({
                let st = ActorView { clients: final(self)@.clients, ..old(self)@ };
                if !st.wants_poll() || !(st.task is Idle) {
                    final(self)@ == st && action@ is Rest
                } else if st.subscribed {
                    final(self)@ == (ActorView { task: TaskView::PollWrite, ..st }) && action@
                        == ActionView::Write(monitoring_frame())
                } else {
                    final(self)@ == (ActorView { task: TaskView::PollListen, ..st })
                        && action@ is Listen
                }
            }),
            ticked(old(self)@, final(self)@, action@),
    {
        self.clients.reap(stats);
        if !self.wants_poll() {
            return Action::Rest;
        }
        if !matches!(self.task, Task::Idle) {
            return Action::Rest;
        }
        // An aborted stream leaves no subscription behind, and when the endpoint
        // is what keeps the polling going nobody else will take one out.
        if !self.subscribed {
            self.task = Task::PollListen;
            return Action::Listen;
        }
        self.task = Task::PollWrite;
        Action::Write(payload::monitoring())
    }

    /// A client asks for something.
    pub fn request(
        &mut self,
        request: Request,
        tx: mpsc::Sender<Response>,
        stats: &mut AgentStats,
    ) -> (action: Action)
        requires
            old(self).wf(),
            old(self)@.task is Idle,
            old(stats)@.clients == old(self)@.clients.list.len(),
        ensures
            final(self).wf(),
            final(stats)@ == with_clients(old(stats)@, final(self)@.clients.list.len()),
            final(stats)@.clients == final(self)@.clients.list.len(),
            exists|left: ClientsView|
                #[trigger]
                reaped(old(self)@.clients, left) && request_begun(
                    (ActorView { clients: left, ..old(self)@ }),
                    final(self)@,
                    request@,
                    tx,
                    action@,
                ),
    {
        self.clients.reap(stats);
        let ghost st = self@;
        assert(reaped(old(self)@.clients, st.clients));
        let ghost asked = request@;
        let action = match request {
            Request::Ping | Request::Shutdown => Action::Rest,
            Request::Subscribe => {
                let idle = !self.wants_poll();
                if !self.subscribed {
                    self.task = Task::Subscribe { tx, idle };
                    Action::Listen
                } else {
                    self.clients.add(tx, stats);
                    if idle {
                        Action::ResetTicker
                    } else {
                        Action::Rest
                    }
                }
            },
            Request::GetRtc => self.begin(tx, FrameKind::Measurement, payload::monitoring()),
            Request::Power { on } => {
                let p = if on {
                    payload::on()
                } else {
                    payload::off()
                };
                proof {
                    let state: u8 = if on {
                        0x01
                    } else {
                        0x00
                    };
                    assert(p@ == payload::frame(seq![payload::SWITCH, state]));
                }
                self.begin(tx, FrameKind::Command, p)
            },
            Request::TestLed => self.begin(tx, FrameKind::Command, payload::blink_led()),
            Request::SetRtc { time } => {
                match rtc_frame(&mut self.clock, time.as_str()) {
                    Ok(p) => self.begin(tx, FrameKind::Command, p),
                    Err(message) => {
                        self.clients.reply(&tx, Response::Error { message });
                        Action::Rest
                    },
                }
            },
        };
        assert(request_begun(st, self@, asked, tx, action@));
        action
    }

    /// An attempt to subscribe ended.
    pub fn listened(&mut self, result: Result<(), String>, stats: &mut AgentStats) -> (action:
        Action)
        requires
            old(self).wf(),
            old(stats)@.clients == old(self)@.clients.list.len(),
        ensures
            final(self).wf(),
            final(stats)@.clients == final(self)@.clients.list.len(),
            listen_followed(
                old(self)@,
                final(self)@,
                old(stats)@,
                final(stats)@,
                outcome_of(result),
                action@,
            ),
    {
        let waiting = match &self.task {
            Task::PollListen | Task::PollRelisten | Task::Subscribe { .. } => true,
            Task::Oneshot(o) => matches!(o.stage, Stage::Listen | Stage::Relisten),
            _ => false,
        };
        if !waiting {
            return Action::Rest;
        }
        let failure = match result {
            Ok(()) => {
                self.subscribed = true;
                self.assembler.clear();
                None
            },
            Err(e) => {
                self.subscribed = false;
                let mut reason = "listen failed: ".to_owned();
                reason.append(e.as_str());
                Some(reason)
            },
        };
        let mut task = Task::Idle;
        std::mem::swap(&mut task, &mut self.task);
        match task {
            Task::PollListen => match failure {
                None => {
                    self.task = Task::PollWrite;
                    Action::Write(payload::monitoring())
                },
                Some(reason) => {
                    self.abort_stream(reason, stats);
                    Action::Rest
                },
            },
            Task::PollRelisten => {
                if let Some(reason) = failure {
                    self.abort_stream(reason, stats);
                }
                Action::Rest
            },
            Task::Subscribe { tx, idle } => match failure {
                None => {
                    self.clients.add(tx, stats);
                    if idle {
                        Action::ResetTicker
                    } else {
                        Action::Rest
                    }
                },
                Some(message) => {
                    self.clients.reply(&tx, Response::Error { message });
                    Action::Rest
                },
            },
            Task::Oneshot(mut o) => match failure {
                None => {
                    let action = if matches!(o.stage, Stage::Listen) {
                        o.stage = Stage::Write;
                        Action::Write(payload::copied(&o.payload))
                    } else {
                        o.stage = Stage::Await;
                        Action::Await
                    };
                    self.task = Task::Oneshot(o);
                    action
                },
                Some(message) => {
                    self.finish(o, Response::Error { message });
                    Action::Rest
                },
            },
            Task::Idle | Task::PollWrite | Task::Reconnect => Action::Rest,
        }
    }

    /// An attempt to write ended: whether the link was re-established on the
    /// way, or why it failed.
    pub fn written(&mut self, result: Result<bool, String>, stats: &mut AgentStats) -> (action:
        Action)
        requires
            old(self).wf(),
            old(stats)@.clients == old(self)@.clients.list.len(),
        ensures
            final(self).wf(),
            final(stats)@.clients == final(self)@.clients.list.len(),
            write_followed(
                old(self)@,
                final(self)@,
                old(stats)@,
                final(stats)@,
                outcome_of(result),
                action@,
            ),
    {
        let waiting = match &self.task {
            Task::PollWrite => true,
            Task::Oneshot(o) => matches!(o.stage, Stage::Write),
            _ => false,
        };
        if !waiting {
            return Action::Rest;
        }
        let mut task = Task::Idle;
        std::mem::swap(&mut task, &mut self.task);
        match task {
            Task::Oneshot(mut o) => match result {
                Ok(reconnected) => {
                    let action = if reconnected {
                        o.stage = Stage::Relisten;
                        Action::Listen
                    } else {
                        o.stage = Stage::Await;
                        Action::Await
                    };
                    self.task = Task::Oneshot(o);
                    action
                },
                Err(e) => {
                    let mut message = "write failed: ".to_owned();
                    message.append(e.as_str());
                    self.finish(o, Response::Error { message });
                    Action::Rest
                },
            },
            _ => match result {
                Ok(true) => {
                    stats.record_reconnect();
                    self.task = Task::PollRelisten;
                    Action::Listen
                },
                Ok(false) => Action::Rest,
                Err(e) => {
                    let mut reason = "measurement write failed: ".to_owned();
                    reason.append(e.as_str());
                    self.abort_stream(reason, stats);
                    Action::Rest
                },
            },
        }
    }

    /// Pass on what was read out of a frame that nothing waits for.
    pub fn pass_on(
        &mut self,
        measured: Result<Measurement, connection::MeasureError>,
        stats: &mut AgentStats,
        now: u64,
    )
        requires
            old(self).wf(),
            old(stats)@.clients == old(self)@.clients.list.len(),
        ensures
            final(self).wf(),
            final(stats)@.clients == final(self)@.clients.list.len(),
            handed_on(old(self)@, final(self)@, old(stats)@, final(stats)@, measured, now),
    {
        match connection::measurement_or_message(measured) {
            Ok(m) => {
                // Recorded even with no client attached: the metrics endpoint
                // serves this, and `agent status` counts it.
                stats.record_sample(&m, now);
                let response = Response::from_measurement(&m);
                let lagging: usize = self.clients.broadcast(&response, stats);
                if lagging > 0 {
                    let mut message = "[WARN] Dropped ".to_owned();
                    message.append(text::decimal_string(lagging as u64).as_str());
                    message.append(" client(s) that stopped reading, having fallen ");
                    message.append(text::decimal_string(CLIENT_QUEUE_LEN as u64).as_str());
                    message.append(" measurements behind");
                    self.say(message);
                }
                proof {
                    assert(passed_on(old(self)@, self@, old(stats)@, stats@, m, now));
                }
            },
            Err(e) => {
                let mut message = "[ERR] ".to_owned();
                message.append(e.as_str());
                self.say(message);
            },
        }
    }

    /// Pass a frame on that nothing waits for.
    fn forward(&mut self, frame: &[u8], stats: &mut AgentStats, now: u64)
        requires
            old(self).wf(),
            old(stats)@.clients == old(self)@.clients.list.len(),
        ensures
            final(self).wf(),
            forwarded(old(self)@, final(self)@, old(stats)@, final(stats)@, frame@, now),
            final(stats)@.clients == final(self)@.clients.list.len(),
    {
        let measured = connection::read_measure_on(&mut self.clock, frame);
        self.pass_on(measured, stats, now);
    }

    /// A notification arrived.
    pub fn notified(&mut self, characteristic: u128, data: &[u8], stats: &mut AgentStats, now: u64) -> (action:
        Action)
        requires
            old(self).wf(),
            old(stats)@.clients == old(self)@.clients.list.len(),
        ensures
            final(self).wf(),
            final(stats)@.clients == final(self)@.clients.list.len(),
            notification_followed(
                old(self)@,
                final(self)@,
                old(stats)@,
                final(stats)@,
                characteristic,
                data@,
                now,
                action@,
            ),
    {
        if characteristic != C_RX {
            return self.waiting();
        }
        let fed = self.assembler.feed(data);
        if self.assembler.discarded() {
            self.say("[WARN] Discarding oversized frame buffer, resynchronizing".to_owned());
        }
        let frame = match fed {
            None => return self.waiting(),
            Some(frame) => frame,
        };
        let wanted = match &self.task {
            Task::Oneshot(o) => matches!(o.stage, Stage::Await) && o.kind.matches(
                frame.as_slice(),
            ),
            _ => false,
        };
        if !wanted {
            self.forward(frame.as_slice(), stats, now);
            return self.waiting();
        }
        let mut task = Task::Idle;
        std::mem::swap(&mut task, &mut self.task);
        if let Task::Oneshot(o) = task {
            let response = match o.kind {
                FrameKind::Command => parse_command_result(frame.as_slice()),
                FrameKind::Measurement => rtc_reply(
                    connection::read_measure_on(&mut self.clock, frame.as_slice()),
                ),
            };
            self.finish(o, response);
        }
        Action::Rest
    }

    /// What has to be done while nothing changes.
    fn waiting(&self) -> (action: Action)
        ensures
            action@ == pending(self@.task),
    {
        match &self.task {
            Task::Oneshot(o) => if matches!(o.stage, Stage::Await) {
                Action::Await
            } else {
                Action::Rest
            },
            _ => Action::Rest,
        }
    }

    /// The stream of notifications ended: a command that waits for its reply
    /// fails, and otherwise the link is re-established.
    pub fn closed(&mut self) -> (action: Action)
        requires
            old(self).wf(),
        ensures
            final(self).wf(),
            match old(self)@.task {
                TaskView::Oneshot(o) if o.stage == Stage::Await => oneshot_ended(
                    old(self)@,
                    final(self)@,
                    o,
                    ResponseView::Error("notification stream closed"@),
                ) && action@ is Rest,
                TaskView::Idle => final(self)@ == (ActorView {
                    task: TaskView::Reconnect,
                    ..old(self)@
                }) && action@ is Reconnect,
                _ => final(self)@ == old(self)@ && action@ is Rest,
            },
            interrupted_by(
                old(self)@,
                final(self)@,
                "notification stream closed"@,
                true,
                action@,
            ),
    {
        self.interrupted("notification stream closed", true)
    }

    /// The reply to a command did not come in time.
    pub fn timed_out(&mut self) -> (action: Action)
        requires
            old(self).wf(),
        ensures
            final(self).wf(),
            match old(self)@.task {
                TaskView::Oneshot(o) if o.stage == Stage::Await => oneshot_ended(
                    old(self)@,
                    final(self)@,
                    o,
                    ResponseView::Error("command timed out"@),
                ) && action@ is Rest,
                _ => final(self)@ == old(self)@ && action@ is Rest,
            },
            interrupted_by(old(self)@, final(self)@, "command timed out"@, false, action@),
    {
        self.interrupted("command timed out", false)
    }

    fn interrupted(&mut self, reason: &str, reconnect: bool) -> (action: Action)
        requires
            old(self).wf(),
        ensures
            final(self).wf(),
            match old(self)@.task {
                TaskView::Oneshot(o) if o.stage == Stage::Await => oneshot_ended(
                    old(self)@,
                    final(self)@,
                    o,
                    ResponseView::Error(reason@),
                ) && action@ is Rest,
                TaskView::Idle if reconnect => final(self)@ == (ActorView {
                    task: TaskView::Reconnect,
                    ..old(self)@
                }) && action@ is Reconnect,
                _ => final(self)@ == old(self)@ && action@ is Rest,
            },
            interrupted_by(old(self)@, final(self)@, reason@, reconnect, action@),
    {
        let mut task = Task::Idle;
        std::mem::swap(&mut task, &mut self.task);
        match task {
            Task::Oneshot(o) => {
                if matches!(o.stage, Stage::Await) {
                    self.finish(o, Response::Error { message: reason.to_owned() });
                } else {
                    self.task = Task::Oneshot(o);
                }
                Action::Rest
            },
            Task::Idle => {
                if reconnect {
                    self.task = Task::Reconnect;
                    Action::Reconnect
                } else {
                    Action::Rest
                }
            },
            other => {
                self.task = other;
                Action::Rest
            },
        }
    }

    /// An attempt to re-establish the link and its subscription ended.
    pub fn reconnected(&mut self, result: Result<(), String>, stats: &mut AgentStats) -> (action:
        Action)
        requires
            old(self).wf(),
            old(stats)@.clients == old(self)@.clients.list.len(),
        ensures
            final(self).wf(),
            final(stats)@.clients == final(self)@.clients.list.len(),
            action@ is Rest,
            match (old(self)@.task, outcome_of(result)) {
                (TaskView::Reconnect, Ok(_)) => {
                    &&& final(stats)@ == old(stats)@.with_reconnect()
                    &&& final(self)@ == (ActorView {
                        subscribed: true,
                        buffer: Seq::empty(),
                        task: TaskView::Idle,
                        ..old(self)@
                    })
                },
                (TaskView::Reconnect, Err(e)) => stream_aborted(
                    old(self)@,
                    final(self)@,
                    old(stats)@,
                    final(stats)@,
                    "reconnect failed: "@ + e,
                ),
                _ => final(self)@ == old(self)@ && final(stats)@ == old(stats)@,
            },
            relinked(
                old(self)@,
                final(self)@,
                old(stats)@,
                final(stats)@,
                outcome_of(result),
                action@,
            ),
    {
        if !matches!(self.task, Task::Reconnect) {
            return Action::Rest;
        }
        self.task = Task::Idle;
        match result {
            Ok(()) => {
                stats.record_reconnect();
                self.subscribed = true;
                self.assembler.clear();
            },
            Err(e) => {
                let mut reason = "reconnect failed: ".to_owned();
                reason.append(e.as_str());
                self.abort_stream(reason, stats);
            },
        }
        Action::Rest
    }

    /// The agent stops: the streaming clients are owed a clean end.
    pub fn stop(&mut self, stats: &mut AgentStats)
        requires
            old(self).wf(),
        ensures
            final(self).wf(),
            final(self)@ == (ActorView { clients: final(self)@.clients, ..old(self)@ }),
            final(self)@.clients.list.len() == 0,
            handed_to_all(
                old(self)@.clients,
                final(self)@.clients,
                ResponseView::StreamEnd,
            ),
            final(stats)@ == with_clients(old(stats)@, 0),
            stopped(old(self)@, final(self)@),
    {
        self.clients.end(stats);
    }
}

/// A one-shot command does not disturb those who stream: it begins and ends with
/// the same clients, and what was received of a frame stays.
pub proof fn commands_do_not_disturb_streams(
    before: ActorView,
    begun: ActorView,
    waiting: ActorView,
    ended: ActorView,
    tx: mpsc::Sender<Response>,
    kind: FrameKind,
    payload: Seq<u8>,
    action: ActionView,
    o: OneshotView,
    r: ResponseView,
)
    requires
        oneshot_begun(before, begun, tx, kind, payload, action),
        oneshot_ended(waiting, ended, o, r),
    ensures
        begun.clients == before.clients,
        begun.buffer == before.buffer,
        begun.subscribed == before.subscribed,
        ended.clients.list == waiting.clients.list,
        ended.buffer == waiting.buffer,
        o.streaming ==> ended.subscribed == waiting.subscribed,
        !o.streaming ==> !ended.subscribed,
{
}

/// A further subscriber costs nothing: nothing is done on the link, the
/// subscription and what was received of a frame stay, and so do the others.
pub proof fn further_subscribers_cost_nothing(
    before: ActorView,
    after: ActorView,
    tx: mpsc::Sender<Response>,
    action: ActionView,
)
    requires
        request_begun(before, after, RequestView::Subscribe, tx, action),
        before.subscribed,
        before.clients.list.len() > 0,
    ensures
        action is Rest,
        after.subscribed,
        after.buffer == before.buffer,
        after.clients.list == before.clients.list.push(tx),
        after.clients.sent == before.clients.sent,
        after.clients.looked == before.clients.looked,
{
}

/// Whether `action` is what the task `t` waits for: the agent rests when it is at
/// nothing, and otherwise has one thing to do on the link.
pub open spec fn in_step(t: TaskView, action: ActionView) -> bool {
    match t {
        TaskView::Idle => action is Rest || action is ResetTicker,
        TaskView::PollListen | TaskView::PollRelisten | TaskView::Subscribe(_, _) => {
            action is Listen
        },
        TaskView::PollWrite => action == ActionView::Write(monitoring_frame()),
        TaskView::Oneshot(o) => match o.stage {
            Stage::Listen | Stage::Relisten => action is Listen,
            Stage::Write => action == ActionView::Write(o.payload),
            Stage::Await => action is Await,
        },
        TaskView::Reconnect => action is Reconnect,
    }
}

/// A request that is begun on leaves the agent in step: it rests only when it is
/// at nothing, so the next request can be taken.
pub proof fn requests_keep_in_step(
    before: ActorView,
    after: ActorView,
    request: RequestView,
    tx: mpsc::Sender<Response>,
    action: ActionView,
)
    requires
        before.task is Idle,
        request_begun(before, after, request, tx, action),
    ensures
        in_step(after.task, action),
{
}

/// What comes of an action on the link leaves the agent in step, where it was.
pub proof fn link_keeps_in_step(
    before: ActorView,
    after: ActorView,
    stats: StatsView,
    stats_after: StatsView,
    listened: Result<(), Seq<char>>,
    written: Result<bool, Seq<char>>,
    action: ActionView,
)
    ensures
        in_step(before.task, ActionView::Listen) && listen_followed(
            before,
            after,
            stats,
            stats_after,
            listened,
            action,
        ) ==> in_step(after.task, action),
        before.task is PollWrite && write_followed(
            before,
            after,
            stats,
            stats_after,
            written,
            action,
        ) ==> in_step(after.task, action),
        (before.task matches TaskView::Oneshot(o) && o.stage == Stage::Write) && write_followed(
            before,
            after,
            stats,
            stats_after,
            written,
            action,
        ) ==> in_step(after.task, action),
{
}

/// A notification leaves the agent in step, whether it rests or waits for the
/// reply to a command.
pub proof fn notifications_keep_in_step(
    before: ActorView,
    after: ActorView,
    stats: StatsView,
    stats_after: StatsView,
    characteristic: u128,
    data: Seq<u8>,
    now: u64,
    action: ActionView,
)
    requires
        in_step(before.task, ActionView::Rest) || in_step(before.task, ActionView::Await),
        notification_followed(
            before,
            after,
            stats,
            stats_after,
            characteristic,
            data,
            now,
            action,
        ),
    ensures
        in_step(after.task, action),
{
}

/// Whether the command `o` is still on its way, for the same client.
pub open spec fn under_way(t: TaskView, o: OneshotView) -> bool {
    t matches TaskView::Oneshot(p) && p == (OneshotView { stage: p.stage, ..o })
}

/// Whether the client of the command `o` was given its one answer.
pub open spec fn answered(before: ClientsView, after: ClientsView, o: OneshotView) -> bool {
    &&& after.sent.len() == before.sent.len() + 1
    &&& after.sent.last().to == o.tx
}

/// No command is forgotten: whatever happens on the link, it stays under way, or
/// its client is given its one answer.
pub proof fn no_command_is_forgotten(
    before: ActorView,
    after: ActorView,
    stats: StatsView,
    stats_after: StatsView,
    listened: Result<(), Seq<char>>,
    written: Result<bool, Seq<char>>,
    action: ActionView,
    o: OneshotView,
)
    requires
        before.task == TaskView::Oneshot(o),
        listen_followed(before, after, stats, stats_after, listened, action) || write_followed(
            before,
            after,
            stats,
            stats_after,
            written,
            action,
        ),
    ensures
        under_way(after.task, o) || (after.task is Idle && answered(
            before.clients,
            after.clients,
            o,
        )),
{
}

/// The frame that a command waits for ends it with its one answer; any other
/// notification leaves it under way.
pub proof fn the_awaited_frame_answers_the_command(
    before: ActorView,
    after: ActorView,
    stats: StatsView,
    stats_after: StatsView,
    data: Seq<u8>,
    now: u64,
    action: ActionView,
    o: OneshotView,
)
    requires
        before.task == TaskView::Oneshot(o),
        o.stage == Stage::Await,
        notification_followed(before, after, stats, stats_after, C_RX, data, now, action),
    ensures
        ({
            let frame = connection::emitted(before.buffer, data);
            if frame is Some && o.kind.fits(frame->0.len()) {
                after.task is Idle && answered(before.clients, after.clients, o)
            } else {
                under_way(after.task, o)
            }
        }),
{
}

/// A measurement that no command waits for is recorded, whether or not anything
/// is streaming, and handed to every client that is.
pub proof fn every_measurement_reaches_every_client(
    before: ActorView,
    after: ActorView,
    stats: StatsView,
    stats_after: StatsView,
    data: Seq<u8>,
    now: u64,
    action: ActionView,
    m: Measurement,
)
    requires
        notification_followed(before, after, stats, stats_after, C_RX, data, now, action),
        pending(before.task) is Rest,
        connection::emitted(before.buffer, data) is Some,
        connection::reading(
            before.clock,
            after.clock,
            connection::emitted(before.buffer, data)->0,
        ) == Ok::<Measurement, connection::MeasureError>(m),
    ensures
        handed_to_all(before.clients, after.clients, ResponseView::Measurement(m)),
        stats_after == with_clients(stats.with_sample(m, now), after.clients.list.len()),
{
}

/// With the metrics endpoint serving, the device is polled whether or not
/// anything is streaming; without it, only while something is.
pub proof fn endpoint_keeps_polling(st: ActorView)
    ensures
        st.poll_always ==> st.wants_poll(),
        !st.poll_always ==> (st.wants_poll() <==> st.clients.list.len() > 0),
{
}

/// What a ping is answered with.
pub open spec fn pong(addr: BDAddr, stats: StatsView, now: u64) -> ResponseView {
    ResponseView::Pong(Some(addr.text()), Some(stats.status_at(now)))
}

/// What is answered without the actor: nothing to a request that is the actor's
/// to serve.
pub open spec fn control_of(
    request: RequestView,
    actor_gone: bool,
    addr: BDAddr,
    stats: StatsView,
    now: u64,
) -> Option<ResponseView> {
    match request {
        RequestView::Ping => Some(
            if actor_gone {
                ResponseView::Error("agent actor is not running"@)
            } else {
                pong(addr, stats, now)
            },
        ),
        RequestView::Shutdown => Some(ResponseView::Done),
        _ => None,
    }
}

pub open spec fn response_of(r: Option<Response>) -> Option<ResponseView> {
    match r {
        Some(r) => Some(r@),
        None => None,
    }
}

/// The requests the connection handler answers itself, so `agent status` and
/// `agent stop` stay responsive while the actor is busy on the BLE link.
/// `None` means the request is actor-bound work.
pub fn control_response(
    request: &Request,
    actor_gone: bool,
    addr: BDAddr,
    stats: &AgentStats,
    now: u64,
) -> (r: Option<Response>)
    ensures
        response_of(r) == control_of(request@, actor_gone, addr, stats@, now),
{
    match request {
        Request::Ping => if actor_gone {
            Some(Response::Error { message: "agent actor is not running".to_owned() })
        } else {
            // The address rides along so a client can tell whether the agent it
            // found holds the device its --addr asked for; the status comes from
            // shared counters, so answering here costs nothing.
            Some(
                Response::Pong { addr: Some(addr.display()), status: Some(stats.snapshot(now)) },
            )
        },
        Request::Shutdown => Some(Response::Done),
        _ => None,
    }
}

/// What to do about the line that a client sent.
#[derive(Debug)]
pub enum Opening {
    /// Answer it, and hang up. Once the answer is written, the agent stops
    /// where `stop` says so.
    Answer { response: Response, stop: bool },
    /// Hand it to the actor.
    Queue(Request),
}

/// Decide what to do about the line that a client sent: the request that it
/// is, or why it is none.
pub fn open_exchange(
    request: Result<Request, String>,
    actor_gone: bool,
    addr: BDAddr,
    stats: &AgentStats,
    now: u64,
) -> (o: Opening)
    ensures
        match request {
            Err(e) => o matches Opening::Answer { response, stop } && response@
                == ResponseView::Error("invalid request: "@ + e@) && !stop,
            Ok(asked) => match control_of(asked@, actor_gone, addr, stats@, now) {
                Some(answer) => o matches Opening::Answer { response, stop } && response@ == answer
                    && stop == (asked@ is Shutdown),
                None => o matches Opening::Queue(queued) && queued == asked,
            },
        },
        opened(request, actor_gone, addr, stats@, now, o),
{
    match request {
        Err(e) => {
            let mut message = "invalid request: ".to_owned();
            message.append(e.as_str());
            Opening::Answer { response: Response::Error { message }, stop: false }
        },
        Ok(request) => match control_response(&request, actor_gone, addr, stats, now) {
            Some(response) => Opening::Answer {
                response,
                stop: matches!(request, Request::Shutdown),
            },
            None => Opening::Queue(request),
        },
    }
}

/// What a request is answered with once the actor no longer takes any.
pub fn shutting_down() -> (r: Response)
    ensures
        r@ == ResponseView::Error("agent shutting down"@),
{
    Response::Error { message: "agent shutting down".to_owned() }
}

/// Whether an exchange goes on after `response`: only a measurement that could
/// be written is followed by more.
pub fn exchange_goes_on(response: &Response, written: bool) -> (b: bool)
    ensures
        b == (written && response@ is Measurement),
        b == goes_on(response@, written),
{
    written && matches!(response, Response::Measurement { .. })
}

/// What is said when the pid file is held by another agent.
pub open spec fn already_running_text(pid: Option<u32>) -> Seq<char> {
    match pid {
        Some(pid) => "agent is already running (pid "@ + text::decimal(pid as nat) + ")"@,
        None => "agent is already running"@,
    }
}

/// What is said when the pid file is held by another agent, which recorded its
/// pid in it or did not.
pub fn already_running(pid: Option<u32>) -> (s: String)
    ensures
        s@ == already_running_text(pid),
{
    match pid {
        Some(pid) => {
            let mut s = "agent is already running (pid ".to_owned();
            s.append(text::decimal_string(pid as u64).as_str());
            s.append(")");
            s
        },
        None => "agent is already running".to_owned(),
    }
}

/// The umask under which a socket is bound: every permission bit that `mode`
/// does not grant. `bind` derives the mode from the umask, so narrowing it
/// closes the window in which the socket would be reachable at whatever the
/// inherited umask allowed.
pub fn umask_for(mode: SocketMode) -> (mask: u32)
    requires
        mode.bits <= ALL_PERMISSIONS,
    ensures
        mask == ALL_PERMISSIONS - mode.bits,
        mask & mode.bits == 0,
        mask | mode.bits == ALL_PERMISSIONS,
{
    let bits: u32 = mode.bits;
    let mask: u32 = !bits & 0o777;
    assert(mask == 0o777 - bits && mask & bits == 0 && mask | bits == 0o777) by (bit_vector)
        requires
            bits <= 0o777,
            mask == !bits & 0o777,
    ;
    mask
}

/// How far the agent has come in starting, serving and stopping.
#[derive(Clone, Copy, Debug, PartialEq, Eq, Structural)]
pub enum Phase {
    /// Create the directory of the socket.
    MakeDirectory,
    /// Claim the pid file.
    ClaimPid,
    /// See whether an agent answers on the socket.
    Probe,
    /// Remove the socket that a dead agent left behind.
    ClearSocket,
    /// Bind the socket.
    Bind,
    /// Write the pid.
    WritePid,
    /// Claim the metrics port.
    BindMetrics,
    /// Connect to the device.
    Connect,
    /// Serve clients.
    Serve,
    /// Let the actor finish, and stop the metrics endpoint.
    Drain,
    /// Return.
    Exit,
}

/// What happened in a phase.
#[derive(Clone, Copy, Debug, PartialEq, Eq, Structural)]
pub enum Progress {
    /// It is done.
    Done,
    /// It failed; what the probe found is an agent that answers.
    Failed,
    /// A signal asks the agent to stop.
    Signalled,
    /// A client asks the agent to stop.
    StopRequested,
    /// The actor ended on its own.
    ActorGone,
}

/// The agent's course from start to end.
#[derive(Clone, Copy, Debug, PartialEq, Eq, Structural)]
pub struct Lifecycle {
    pub phase: Phase,
    /// Whether a metrics endpoint is to be served.
    pub metrics: bool,
    /// Whether the socket and the pid file are this agent's, to be removed
    /// however it ends.
    pub owns_files: bool,
    /// Whether it served clients.
    pub served: bool,
    /// Whether it ends in an error.
    pub failed: bool,
}

impl Lifecycle {
    pub open spec fn beginning(metrics: bool) -> Lifecycle {
        Lifecycle {
            phase: Phase::MakeDirectory,
            metrics,
            owns_files: false,
            served: false,
            failed: false,
        }
    }

    pub fn new(metrics: bool) -> (l: Lifecycle)
        ensures
            l == Lifecycle::beginning(metrics),
    {
        Lifecycle {
            phase: Phase::MakeDirectory,
            metrics,
            owns_files: false,
            served: false,
            failed: false,
        }
    }

    /// The phase that follows one that is done.
    pub open spec fn successor(self) -> Phase {
        match self.phase {
            Phase::MakeDirectory => Phase::ClaimPid,
            Phase::ClaimPid => Phase::Probe,
            Phase::Probe => Phase::ClearSocket,
            Phase::ClearSocket => Phase::Bind,
            Phase::Bind => Phase::WritePid,
            Phase::WritePid => if self.metrics {
                Phase::BindMetrics
            } else {
                Phase::Connect
            },
            Phase::BindMetrics => Phase::Connect,
            Phase::Connect => Phase::Serve,
            Phase::Serve => Phase::Drain,
            Phase::Drain => Phase::Exit,
            Phase::Exit => Phase::Exit,
        }
    }

    /// The course after something happened.
    pub open spec fn after(self, p: Progress) -> Lifecycle {
        let done = Lifecycle {
            phase: self.successor(),
            owns_files: self.owns_files || self.phase == Phase::ClearSocket,
            served: self.served || self.phase == Phase::Connect,
            ..self
        };
        let failed = Lifecycle { phase: Phase::Exit, failed: true, ..self };
        match self.phase {
            Phase::Exit => self,
            // Once it serves, it ends when it is told to, which is no error, or
            // when the actor is gone, which is.
            Phase::Serve => match p {
                Progress::Signalled | Progress::StopRequested | Progress::Done => done,
                Progress::ActorGone | Progress::Failed => failed,
            },
            // Connecting can take long; a signal ends it without an error.
            Phase::Connect => match p {
                Progress::Done => done,
                Progress::Signalled => Lifecycle { phase: Phase::Exit, ..self },
                _ => failed,
            },
            // A socket that cannot be removed is left for the bind to report,
            // and an actor that fails on the way out changes nothing.
            Phase::ClearSocket | Phase::Drain => done,
            _ => match p {
                Progress::Done => done,
                _ => failed,
            },
        }
    }

    /// Go on after something happened.
    pub fn advance(&mut self, p: Progress)
        ensures
            *final(self) == old(self).after(p),
    {
        match self.phase {
            Phase::Exit => {},
            Phase::Serve => match p {
                Progress::Signalled | Progress::StopRequested | Progress::Done => self.proceed(),
                Progress::ActorGone | Progress::Failed => self.fail(),
            },
            Phase::Connect => match p {
                Progress::Done => self.proceed(),
                Progress::Signalled => {
                    self.phase = Phase::Exit;
                },
                _ => self.fail(),
            },
            Phase::ClearSocket | Phase::Drain => self.proceed(),
            _ => match p {
                Progress::Done => self.proceed(),
                _ => self.fail(),
            },
        }
    }

    fn fail(&mut self)
        ensures
            *final(self) == (Lifecycle { phase: Phase::Exit, failed: true, ..*old(self) }),
    {
        self.phase = Phase::Exit;
        self.failed = true;
    }

    fn proceed(&mut self)
        ensures
            *final(self) == (Lifecycle {
                phase: old(self).successor(),
                owns_files: old(self).owns_files || old(self).phase == Phase::ClearSocket,
                served: old(self).served || old(self).phase == Phase::Connect,
                ..*old(self)
            }),
    {
        if matches!(self.phase, Phase::ClearSocket) {
            self.owns_files = true;
        }
        if matches!(self.phase, Phase::Connect) {
            self.served = true;
        }
        self.phase = match self.phase {
            Phase::MakeDirectory => Phase::ClaimPid,
            Phase::ClaimPid => Phase::Probe,
            Phase::Probe => Phase::ClearSocket,
            Phase::ClearSocket => Phase::Bind,
            Phase::Bind => Phase::WritePid,
            Phase::WritePid => if self.metrics {
                Phase::BindMetrics
            } else {
                Phase::Connect
            },
            Phase::BindMetrics => Phase::Connect,
            Phase::Connect => Phase::Serve,
            Phase::Serve => Phase::Drain,
            Phase::Drain => Phase::Exit,
            Phase::Exit => Phase::Exit,
        };
    }

    /// Whether the course is one that can be reached: the files are this
    /// agent's in every phase after the leftovers of a dead one were cleared,
    /// and never before.
    pub open spec fn wf(self) -> bool {
        match self.phase {
            Phase::MakeDirectory | Phase::ClaimPid | Phase::Probe | Phase::ClearSocket => {
                !self.owns_files && !self.served && !self.failed
            },
            Phase::Bind | Phase::WritePid | Phase::BindMetrics | Phase::Connect => {
                self.owns_files && !self.served && !self.failed
            },
            Phase::Serve | Phase::Drain => self.owns_files && self.served && !self.failed,
            Phase::Exit => {
                &&& self.served ==> self.owns_files
                &&& !self.owns_files ==> self.failed
            },
        }
    }

    /// The agent starts on such a course and stays on it whatever happens.
    pub proof fn course_is_kept(self, metrics: bool, p: Progress)
        ensures
            Lifecycle::beginning(metrics).wf(),
            self.wf() ==> self.after(p).wf(),
    {
    }

    /// Nothing of another agent's is ever removed: a start that fails before
    /// the pid file is claimed and the probe is answered by nobody leaves every
    /// file alone, and from then on the files go with the agent however it
    /// ends.
    pub proof fn files_are_removed_only_by_their_owner(self, p: Progress)
        requires
            self.wf(),
        ensures
            self.phase == Phase::MakeDirectory || self.phase == Phase::ClaimPid || self.phase
                == Phase::Probe ==> !self.after(p).owns_files,
            self.owns_files ==> self.after(p).owns_files,
    {
    }

    /// A clean stop is reported only by an agent that served, and one that
    /// served and was told to stop ends without an error.
    pub proof fn a_stop_after_serving_is_clean(self)
        requires
            self.wf(),
            self.phase == Phase::Serve,
        ensures
            ({
                let end = self.after(Progress::StopRequested).after(Progress::Done);
                &&& end.phase == Phase::Exit
                &&& end.served
                &&& !end.failed
                &&& end.owns_files
            }),
            ({
                let end = self.after(Progress::Signalled).after(Progress::Done);
                &&& end.phase == Phase::Exit
                &&& !end.failed
            }),
            self.after(Progress::ActorGone).failed,
    {
    }

    /// The metrics port is claimed before the device is connected to, so one
    /// already in use fails the start at once.
    pub proof fn metrics_port_comes_before_the_device(self, p: Progress)
        requires
            self.wf(),
            self.metrics,
            self.after(p).phase == Phase::Connect,
            self.phase != Phase::Connect,
        ensures
            self.phase == Phase::BindMetrics,
            p == Progress::Done,
    {
    }
}

/// The payload that a request to operate the device is sent with, and the kind of
/// frame that answers it: a power request says on or off in its second byte, a
/// request for the clock is a request for a measurement.
pub open spec fn operates(request: RequestView, payload: Seq<u8>, kind: FrameKind) -> bool {
    match request {
        RequestView::Power(true) => payload == seq![0xa7u8, 1u8] && kind == FrameKind::Command,
        RequestView::Power(false) => payload == seq![0xa7u8, 0u8] && kind == FrameKind::Command,
        RequestView::TestLed => payload == seq![0x3eu8, 1u8, 2u8, 2u8, 0x0fu8] && kind
            == FrameKind::Command,
        RequestView::GetRtc => payload == seq![8u8] && kind == FrameKind::Measurement,
        RequestView::SetRtc(_) => payload.len() == 8 && payload[0] == 1 && kind
            == FrameKind::Command,
        _ => false,
    }
}

/// A command is written before its reply is awaited. Whether or not notifications
/// are subscribed to, a request that operates the device and is begun on leads to
/// the bytes of just that request being written: at once over the subscription
/// that is in place, and otherwise as soon as one is taken out. Only once they
/// were written is the reply awaited, by the client that asked.
pub proof fn a_command_is_written_before_its_reply_is_awaited(
    before: ActorView,
    begun: ActorView,
    request: RequestView,
    tx: mpsc::Sender<Response>,
    action: ActionView,
    payload: Seq<u8>,
    kind: FrameKind,
)
    requires
        before.task is Idle,
        request_begun(before, begun, request, tx, action),
        !(begun.task is Idle),
        operates(request, payload, kind),
        request is SetRtc ==> payload == payload::rtc_payload(begun.clock.shown.last().shown),
    ensures
        begun.task matches TaskView::Oneshot(o) && o.tx == tx && o.kind == kind,
        before.subscribed ==> action == ActionView::Write(payload::frame(payload)),
        !before.subscribed ==> action is Listen,
        forall|ready: ActorView, stats: StatsView, stats_after: StatsView, next: ActionView|
            !before.subscribed && #[trigger] listen_followed(
                begun,
                ready,
                stats,
                stats_after,
                Ok(()),
                next,
            ) ==> next == ActionView::Write(payload::frame(payload)) && ready.subscribed,
{
    assert(seq![payload::SWITCH, 0x01u8] =~= seq![0xa7u8, 1u8]);
    assert(seq![payload::SWITCH, 0x00u8] =~= seq![0xa7u8, 0u8]);
    assert(seq![payload::MONITORING] =~= seq![8u8]);
    assert(seq![0x3Eu8, 0x01, 0x02, 0x02, 0x0F] =~= seq![0x3eu8, 1u8, 2u8, 2u8, 0x0fu8]);
}

/// Whether a command is at `stage` in `t`.
pub open spec fn at_stage(t: TaskView, stage: Stage) -> bool {
    t matches TaskView::Oneshot(o) && o.stage == stage
}

/// A reply is awaited only for what was written: a request never begins by
/// awaiting one, and what leads there is a write that went through, or a
/// subscription that is renewed after one.
pub proof fn a_reply_is_awaited_only_for_what_was_written(
    before: ActorView,
    after: ActorView,
    stats: StatsView,
    stats_after: StatsView,
    request: RequestView,
    tx: mpsc::Sender<Response>,
    listened: Result<(), Seq<char>>,
    written: Result<bool, Seq<char>>,
    action: ActionView,
)
    ensures
        before.task is Idle && request_begun(before, after, request, tx, action) ==> !(action
            is Await) && !at_stage(after.task, Stage::Await) && !at_stage(
            after.task,
            Stage::Relisten,
        ),
        listen_followed(before, after, stats, stats_after, listened, action) && action is Await
            ==> at_stage(before.task, Stage::Relisten) && listened is Ok,
        write_followed(before, after, stats, stats_after, written, action) && action is Await
            ==> at_stage(before.task, Stage::Write) && written == Ok::<bool, Seq<char>>(false),
        listen_followed(before, after, stats, stats_after, listened, action) && at_stage(
            after.task,
            Stage::Relisten,
        ) ==> after == before,
        write_followed(before, after, stats, stats_after, written, action) && at_stage(
            after.task,
            Stage::Relisten,
        ) ==> after == before || (at_stage(before.task, Stage::Write) && written == Ok::<
            bool,
            Seq<char>,
        >(true)),
        at_stage(before.task, Stage::Write) && write_followed(
            before,
            after,
            stats,
            stats_after,
            written,
            action,
        ) ==> match written {
            Ok(false) => action is Await && at_stage(after.task, Stage::Await),
            Ok(true) => action is Listen && at_stage(after.task, Stage::Relisten),
            Err(_) => after.task is Idle,
        },
        at_stage(before.task, Stage::Relisten) && listened is Ok && listen_followed(
            before,
            after,
            stats,
            stats_after,
            listened,
            action,
        ) ==> action is Await && at_stage(after.task, Stage::Await),
{
}

/// Whether a tick of the ticker was followed up: the clients that hung up are
/// dropped, and the device is asked for a measurement where something wants one
/// and nothing else is under way.
pub open spec fn ticked(before: ActorView, after: ActorView, action: ActionView) -> bool {
    let st = ActorView { clients: after.clients, ..before };
    &&& reaped(before.clients, after.clients)
    &&& if !st.wants_poll() || !(st.task is Idle) {
        after == st && action is Rest
    } else if st.subscribed {
        after == (ActorView { task: TaskView::PollWrite, ..st }) && action == ActionView::Write(
            monitoring_frame(),
        )
    } else {
        after == (ActorView { task: TaskView::PollListen, ..st }) && action is Listen
    }
}

/// While something wants to be polled, every tick that finds the agent at nothing
/// asks the device for a measurement, at once or as soon as notifications are
/// subscribed to; and a poll that went through leaves the agent at nothing again.
/// Where nothing wants it, or something else is under way, nothing is done.
pub proof fn every_tick_asks_for_a_measurement(
    before: ActorView,
    after: ActorView,
    action: ActionView,
)
    requires
        ticked(before, after, action),
    ensures
        before.task is Idle && (before.poll_always || after.clients.list.len() > 0) ==> {
            &&& before.subscribed ==> action == ActionView::Write(payload::frame(seq![8u8]))
            &&& !before.subscribed ==> action is Listen
        },
        !(before.task is Idle) || (!before.poll_always && after.clients.list.len() == 0)
            ==> action is Rest && after.task == before.task,
        after.subscribed == before.subscribed,
        after.buffer == before.buffer,
        after.messages == before.messages,
        after.clients.sent == before.clients.sent,
        forall|ready: ActorView, stats: StatsView, stats_after: StatsView, next: ActionView|
            action is Listen && #[trigger] listen_followed(
                after,
                ready,
                stats,
                stats_after,
                Ok(()),
                next,
            ) ==> next == ActionView::Write(payload::frame(seq![8u8])) && ready.subscribed,
        forall|ready: ActorView, stats: StatsView, stats_after: StatsView, next: ActionView|
            action is Write && #[trigger] write_followed(
                after,
                ready,
                stats,
                stats_after,
                Ok(false),
                next,
            ) ==> next is Rest && ready.task is Idle && ready.clients == after.clients
                && stats_after == stats,
{
    assert(seq![payload::MONITORING] =~= seq![8u8]);
}

/// Whether something that a command may be waiting through was followed up: the
/// end of the stream of notifications, or the end of its time.
pub open spec fn interrupted_by(
    before: ActorView,
    after: ActorView,
    reason: Seq<char>,
    ended: bool,
    action: ActionView,
) -> bool {
    match before.task {
        TaskView::Oneshot(o) if o.stage == Stage::Await => oneshot_ended(
            before,
            after,
            o,
            ResponseView::Error(reason),
        ) && action is Rest,
        TaskView::Idle if ended => after == (ActorView { task: TaskView::Reconnect, ..before })
            && action is Reconnect,
        _ => after == before && action is Rest,
    }
}

/// A command that waits for its reply in vain is answered with the reason, once,
/// and those who stream are not disturbed. A stream of notifications that ends
/// while the agent is at nothing has the link re-established; a time that runs out
/// then has nothing done.
pub proof fn nobody_waits_in_vain(
    before: ActorView,
    after: ActorView,
    reason: Seq<char>,
    ended: bool,
    action: ActionView,
)
    requires
        interrupted_by(before, after, reason, ended, action),
    ensures
        at_stage(before.task, Stage::Await) ==> {
            let sent = after.clients.sent;
            &&& sent.len() == before.clients.sent.len() + 1
            &&& sent.last().to == before.task->Oneshot_0.tx
            &&& sent.last().response == ResponseView::Error(reason)
            &&& after.task is Idle
            &&& action is Rest
        },
        before.task is Idle && ended ==> action is Reconnect && after.task is Reconnect,
        before.task is Idle && !ended ==> action is Rest && after == before,
        after.clients.list == before.clients.list,
        after.buffer == before.buffer,
{
}

/// Whether an attempt to re-establish the link was followed up.
pub open spec fn relinked(
    before: ActorView,
    after: ActorView,
    stats: StatsView,
    stats_after: StatsView,
    r: Result<(), Seq<char>>,
    action: ActionView,
) -> bool {
    &&& action is Rest
    &&& match (before.task, r) {
        (TaskView::Reconnect, Ok(_)) => {
            &&& stats_after == stats.with_reconnect()
            &&& after == (ActorView {
                subscribed: true,
                buffer: Seq::empty(),
                task: TaskView::Idle,
                ..before
            })
        },
        (TaskView::Reconnect, Err(e)) => stream_aborted(
            before,
            after,
            stats,
            stats_after,
            "reconnect failed: "@ + e,
        ),
        _ => after == before && stats_after == stats,
    }
}

/// A link that is re-established goes on where it was: with the same clients,
/// subscribed to, counted, and rid of what was received of a frame. One that
/// cannot be is given up.
pub proof fn a_link_that_is_back_goes_on(
    before: ActorView,
    after: ActorView,
    stats: StatsView,
    stats_after: StatsView,
    r: Result<(), Seq<char>>,
    action: ActionView,
)
    requires
        relinked(before, after, stats, stats_after, r, action),
        before.task is Reconnect,
    ensures
        after.task is Idle,
        r is Ok ==> {
            &&& after.subscribed
            &&& after.buffer.len() == 0
            &&& after.clients == before.clients
            &&& after.messages == before.messages
            &&& stats_after.connected
            &&& stats.reconnects < u64::MAX ==> stats_after.reconnects == stats.reconnects + 1
            &&& stats_after.samples == stats.samples
            &&& stats_after.latest == stats.latest
            &&& stats_after.clients == stats.clients
        },
        r matches Err(e) ==> given_up(
            before,
            after,
            stats,
            stats_after,
            "reconnect failed: "@ + e,
        ),
{
    lemma_given_up(
        before,
        after,
        stats,
        stats_after,
        "reconnect failed: "@ + (if r is Err {
            r->Err_0
        } else {
            Seq::empty()
        }),
    );
}

/// Whether everyone who streamed was told `reason` and forgotten: each of them is
/// sent that error once, and nobody anything else; the subscription is gone, the
/// link counts as down, and the reason is said on stderr.
pub open spec fn given_up(
    before: ActorView,
    after: ActorView,
    stats: StatsView,
    stats_after: StatsView,
    reason: Seq<char>,
) -> bool {
    let (was, is) = (before.clients.sent, after.clients.sent);
    let list = before.clients.list;
    &&& is.len() == was.len() + list.len()
    &&& is.take(was.len() as int) == was
    &&& forall|i: int|
        0 <= i < list.len() ==> (#[trigger] is[was.len() + i]).to == list[i] && is[was.len()
            + i].response == ResponseView::Error(reason)
    &&& after.clients.list.len() == 0
    &&& !after.subscribed
    &&& after.task is Idle
    &&& after.messages == before.messages.push("[ERR] "@ + reason)
    &&& !stats_after.connected
    &&& stats_after.clients == 0
    &&& stats_after.samples == stats.samples
    &&& stats_after.latest == stats.latest
    &&& stats_after.reconnects == stats.reconnects
}

proof fn lemma_given_up(
    before: ActorView,
    after: ActorView,
    stats: StatsView,
    stats_after: StatsView,
    reason: Seq<char>,
)
    ensures
        stream_aborted(before, after, stats, stats_after, reason) ==> given_up(
            before,
            after,
            stats,
            stats_after,
            reason,
        ),
{
}

/// A poll that fails gives the stream up, with everyone told why: a subscription
/// that cannot be taken out or renewed, and a request that cannot be written.
pub proof fn a_poll_that_fails_tells_everyone(
    before: ActorView,
    after: ActorView,
    stats: StatsView,
    stats_after: StatsView,
    e: Seq<char>,
    action: ActionView,
)
    ensures
        (before.task is PollListen || before.task is PollRelisten) && listen_followed(
            before,
            after,
            stats,
            stats_after,
            Err(e),
            action,
        ) ==> action is Rest && given_up(
            (ActorView { subscribed: false, ..before }),
            after,
            stats,
            stats_after,
            "listen failed: "@ + e,
        ),
        before.task is PollWrite && write_followed(
            before,
            after,
            stats,
            stats_after,
            Err(e),
            action,
        ) ==> action is Rest && given_up(
            before,
            after,
            stats,
            stats_after,
            "measurement write failed: "@ + e,
        ),
{
    lemma_given_up(
        ActorView { subscribed: false, ..before },
        after,
        stats,
        stats_after,
        "listen failed: "@ + e,
    );
    lemma_given_up(before, after, stats, stats_after, "measurement write failed: "@ + e);
}

/// A poll during which the link was re-established is counted, and subscribes
/// anew before it is over.
pub proof fn a_poll_survives_a_reconnect(
    before: ActorView,
    written: ActorView,
    after: ActorView,
    stats: StatsView,
    between: StatsView,
    stats_after: StatsView,
    action: ActionView,
    next: ActionView,
)
    requires
        before.task is PollWrite,
        write_followed(before, written, stats, between, Ok(true), action),
        listen_followed(written, after, between, stats_after, Ok(()), next),
    ensures
        action is Listen,
        next is Rest,
        after.task is Idle,
        after.subscribed,
        after.buffer.len() == 0,
        after.clients == before.clients,
        stats.reconnects < u64::MAX ==> stats_after.reconnects == stats.reconnects + 1,
        stats_after.connected,
{
}

/// Whoever subscribes is let in once notifications are subscribed to, behind the
/// others, and starts the ticker if and only if nothing was polled before; where
/// they cannot be, that client alone is told.
pub proof fn a_subscriber_is_let_in(
    before: ActorView,
    begun: ActorView,
    after: ActorView,
    stats: StatsView,
    stats_after: StatsView,
    tx: mpsc::Sender<Response>,
    action: ActionView,
    r: Result<(), Seq<char>>,
    next: ActionView,
)
    requires
        before.task is Idle,
        request_begun(before, begun, RequestView::Subscribe, tx, action),
        listen_followed(begun, after, stats, stats_after, r, next),
    ensures
        before.subscribed ==> begun.clients.list == before.clients.list.push(tx) && (action
            is ResetTicker <==> !before.poll_always && before.clients.list.len() == 0),
        !before.subscribed ==> action is Listen && after.task is Idle,
        !before.subscribed && r is Ok ==> {
            &&& after.subscribed
            &&& after.clients.list == before.clients.list.push(tx)
            &&& next is ResetTicker <==> !before.poll_always && before.clients.list.len() == 0
            &&& after.clients.sent == before.clients.sent
        },
        !before.subscribed && r is Err ==> {
            let sent = after.clients.sent;
            &&& after.clients.list == before.clients.list
            &&& sent.len() == before.clients.sent.len() + 1
            &&& sent.last().to == tx
            &&& sent.last().response == ResponseView::Error("listen failed: "@ + r->Err_0)
            &&& !after.subscribed
        },
{
}

/// A command that cannot be carried out is answered with the reason: one that
/// cannot be written, or whose subscription cannot be taken out or renewed.
pub proof fn a_command_that_fails_is_answered(
    before: ActorView,
    after: ActorView,
    stats: StatsView,
    stats_after: StatsView,
    e: Seq<char>,
    action: ActionView,
)
    requires
        before.task is Oneshot,
        (at_stage(before.task, Stage::Write) && write_followed(
            before,
            after,
            stats,
            stats_after,
            Err(e),
            action,
        )) || ((at_stage(before.task, Stage::Listen) || at_stage(before.task, Stage::Relisten))
            && listen_followed(before, after, stats, stats_after, Err(e), action)),
    ensures
        ({
            let sent = after.clients.sent;
            &&& sent.len() == before.clients.sent.len() + 1
            &&& sent.take(before.clients.sent.len() as int) == before.clients.sent
            &&& sent.last().to == before.task->Oneshot_0.tx
            &&& sent.last().response == ResponseView::Error(
                if at_stage(before.task, Stage::Write) {
                    "write failed: "@ + e
                } else {
                    "listen failed: "@ + e
                },
            )
        }),
        after.task is Idle,
        after.clients.list == before.clients.list,
        stats_after == stats,
        action is Rest,
{
}

/// Whether the frame of `len` bytes is what a command waits for.
pub open spec fn awaited(t: TaskView, len: nat) -> bool {
    t matches TaskView::Oneshot(o) && o.stage == Stage::Await && (match o.kind {
        FrameKind::Command => len < 29,
        FrameKind::Measurement => len >= 29,
    })
}

/// The reply to a command is its status, told to the client that asked, and to
/// nobody else; nothing is counted.
pub proof fn a_command_is_answered_with_its_status(
    before: ActorView,
    after: ActorView,
    stats: StatsView,
    stats_after: StatsView,
    data: Seq<u8>,
    now: u64,
    action: ActionView,
    command: u8,
    code: u8,
)
    requires
        at_stage(before.task, Stage::Await),
        before.task->Oneshot_0.kind == FrameKind::Command,
        connection::emitted(before.buffer, data) == Some(payload::frame(seq![command, code])),
        notification_followed(before, after, stats, stats_after, C_RX, data, now, action),
    ensures
        ({
            let sent = after.clients.sent;
            &&& sent.len() == before.clients.sent.len() + 1
            &&& sent.take(before.clients.sent.len() as int) == before.clients.sent
            &&& sent.last().to == before.task->Oneshot_0.tx
            &&& sent.last().response == ResponseView::CommandResult(code)
        }),
        after.task is Idle,
        after.clients.list == before.clients.list,
        stats_after == stats,
        action is Rest,
{
    connection::a_reply_carries_its_status(command, code, 0);
}

/// The clock that was asked for is told to the client that asked, as the
/// measurement that the device sent, at the instant at which the system's clock
/// shows what the device's clock showed.
pub proof fn the_clock_is_told_to_whoever_asked(
    before: ActorView,
    after: ActorView,
    stats: StatsView,
    stats_after: StatsView,
    data: Seq<u8>,
    now: u64,
    action: ActionView,
    frame: Seq<u8>,
    t: i64,
)
    requires
        at_stage(before.task, Stage::Await),
        before.task->Oneshot_0.kind == FrameKind::Measurement,
        connection::emitted(before.buffer, data) == Some(frame),
        frame.len() >= 29,
        connection::device_clock(frame) is Some,
        notification_followed(before, after, stats, stats_after, C_RX, data, now, action),
        time::asked_between(before.clock, after.clock)[0].found == Some(t),
    ensures
        ({
            let sent = after.clients.sent;
            &&& sent.len() == before.clients.sent.len() + 1
            &&& sent.last().to == before.task->Oneshot_0.tx
            &&& sent.last().response matches ResponseView::Measurement(m) && m.timestamp == t
                && connection::measured(frame, Some(t)) == Ok::<
                Measurement,
                connection::MeasureError,
            >(m)
        }),
        time::asked_between(before.clock, after.clock)[0].naive == connection::device_clock(
            frame,
        )->0,
        stats_after == stats,
{
}

/// A frame that no command waits for goes to everyone who streams where it is a
/// measurement, and is recorded; where it is none, that is said, and nobody is
/// disturbed. Either way a command that waits goes on waiting.
pub proof fn other_frames_go_to_everyone(
    before: ActorView,
    after: ActorView,
    stats: StatsView,
    stats_after: StatsView,
    data: Seq<u8>,
    now: u64,
    action: ActionView,
    frame: Seq<u8>,
)
    requires
        connection::emitted(before.buffer, data) == Some(frame),
        !awaited(before.task, frame.len()),
        notification_followed(before, after, stats, stats_after, C_RX, data, now, action),
    ensures
        after.task == before.task,
        action is Await <==> at_stage(before.task, Stage::Await),
        match connection::reading(before.clock, after.clock, frame) {
            Ok(m) => {
                let (was, is) = (before.clients.sent, after.clients.sent);
                let list = before.clients.list;
                &&& is.len() == was.len() + list.len()
                &&& is.take(was.len() as int) == was
                &&& forall|i: int|
                    0 <= i < list.len() ==> (#[trigger] is[was.len() + i]).to == list[i] && is[
                    was.len() + i].response == ResponseView::Measurement(m)
                &&& stats_after.latest matches Some(s) && s.measurement == m && s.at == now
                &&& stats_after.connected
                &&& stats.samples < u64::MAX ==> stats_after.samples == stats.samples + 1
                &&& stats_after.reconnects == stats.reconnects
                &&& stats_after.clients == after.clients.list.len() || after.clients.list.len()
                    > usize::MAX
            },
            Err(e) => {
                &&& after.clients == before.clients
                &&& stats_after == stats
                &&& after.messages.last() == "[ERR] "@ + connection::parse_failure(e)
            },
        },
{
}

/// What comes from another characteristic changes nothing.
pub proof fn other_characteristics_are_passed_over(
    before: ActorView,
    after: ActorView,
    stats: StatsView,
    stats_after: StatsView,
    characteristic: u128,
    data: Seq<u8>,
    now: u64,
    action: ActionView,
)
    requires
        characteristic != 0x6e400003_b5a3_f393_e0a9_e50e24dcca9e,
        notification_followed(
            before,
            after,
            stats,
            stats_after,
            characteristic,
            data,
            now,
            action,
        ),
    ensures
        after == before,
        stats_after == stats,
{
}

/// A client stays if and only if it took what it was sent, and in their order.
pub proof fn clients_stay_that_take_what_they_are_sent(
    list: Seq<mpsc::Sender<Response>>,
    outcomes: Seq<SendOutcome>,
    tx: mpsc::Sender<Response>,
)
    requires
        list.len() == outcomes.len(),
    ensures
        listening(list, outcomes).contains(tx) <==> exists|i: int|
            0 <= i < list.len() && #[trigger] list[i] == tx && outcomes[i] == SendOutcome::Sent,
        listening(list, outcomes).len() <= list.len(),
        (forall|i: int| 0 <= i < list.len() ==> #[trigger] outcomes[i] != SendOutcome::Sent)
            ==> listening(list, outcomes).len() == 0,
    decreases list.len(),
{
    let kept = listening(list, outcomes);
    if list.len() > 0 {
        let (t, u) = (list.drop_last(), outcomes.drop_last());
        let last = list.len() - 1;
        clients_stay_that_take_what_they_are_sent(t, u, tx);
        let rest = listening(t, u);
        if kept.contains(tx) {
            let k = choose|k: int| 0 <= k < kept.len() && kept[k] == tx;
            if k < rest.len() {
                assert(rest[k] == tx);
                let i = choose|i: int|
                    0 <= i < t.len() && #[trigger] t[i] == tx && u[i] == SendOutcome::Sent;
                assert(list[i] == tx && outcomes[i] == SendOutcome::Sent);
            } else {
                assert(list[last] == tx && outcomes[last] == SendOutcome::Sent);
            }
        }
        if exists|i: int|
            0 <= i < list.len() && #[trigger] list[i] == tx && outcomes[i] == SendOutcome::Sent {
            let i = choose|i: int|
                0 <= i < list.len() && #[trigger] list[i] == tx && outcomes[i]
                    == SendOutcome::Sent;
            departures_do_not_disturb_the_rest(list, outcomes, i);
        }
        if forall|i: int| 0 <= i < list.len() ==> #[trigger] outcomes[i] != SendOutcome::Sent {
            assert(outcomes[last] != SendOutcome::Sent);
            assert forall|i: int| 0 <= i < t.len() implies #[trigger] u[i]
                != SendOutcome::Sent by {
                assert(outcomes[i] != SendOutcome::Sent);
            }
        }
    }
}

/// A client is dropped between polls if and only if it is gone.
pub proof fn clients_leave_when_they_are_gone(
    list: Seq<mpsc::Sender<Response>>,
    gone: Seq<bool>,
    tx: mpsc::Sender<Response>,
)
    requires
        list.len() == gone.len(),
    ensures
        connected(list, gone).contains(tx) <==> exists|i: int|
            0 <= i < list.len() && #[trigger] list[i] == tx && !gone[i],
        connected(list, gone).len() <= list.len(),
        (forall|i: int| 0 <= i < list.len() ==> !#[trigger] gone[i]) ==> connected(list, gone)
            == list,
        (forall|i: int| 0 <= i < list.len() ==> #[trigger] gone[i]) ==> connected(
            list,
            gone,
        ).len() == 0,
    decreases list.len(),
{
    let kept = connected(list, gone);
    if list.len() > 0 {
        let (t, u) = (list.drop_last(), gone.drop_last());
        let last = list.len() - 1;
        clients_leave_when_they_are_gone(t, u, tx);
        let rest = connected(t, u);
        if kept.contains(tx) {
            let k = choose|k: int| 0 <= k < kept.len() && kept[k] == tx;
            if k < rest.len() {
                assert(rest[k] == tx);
                let i = choose|i: int| 0 <= i < t.len() && #[trigger] t[i] == tx && !u[i];
                assert(list[i] == tx && !gone[i]);
            } else {
                assert(list[last] == tx && !gone[last]);
            }
        }
        if exists|i: int| 0 <= i < list.len() && #[trigger] list[i] == tx && !gone[i] {
            let i = choose|i: int| 0 <= i < list.len() && #[trigger] list[i] == tx && !gone[i];
            if i < last {
                assert(t[i] == tx && !u[i]);
                let k = choose|k: int| 0 <= k < rest.len() && rest[k] == tx;
                assert(kept[k] == tx);
            } else {
                assert(kept[kept.len() - 1] == tx);
            }
        }
        if forall|i: int| 0 <= i < list.len() ==> !#[trigger] gone[i] {
            assert(!gone[last]);
            assert forall|i: int| 0 <= i < t.len() implies !#[trigger] u[i] by {
                assert(!gone[i]);
            }
            assert(list =~= t.push(list.last()));
        }
        if forall|i: int| 0 <= i < list.len() ==> #[trigger] gone[i] {
            assert(gone[last]);
            assert forall|i: int| 0 <= i < t.len() implies #[trigger] u[i] by {
                assert(gone[i]);
            }
        }
    } else {
        assert(kept =~= list);
    }
}

/// Whether the agent stopped: everyone who streams is told, and forgotten.
pub open spec fn stopped(before: ActorView, after: ActorView) -> bool {
    &&& handed_to_all(before.clients, after.clients, ResponseView::StreamEnd)
    &&& after.clients.list.len() == 0
    &&& after == (ActorView { clients: after.clients, ..before })
}

/// Everyone who streams when the agent stops is told so, once, and nobody is told
/// anything else.
pub proof fn a_stop_ends_every_stream(before: ActorView, after: ActorView, i: int)
    requires
        stopped(before, after),
        0 <= i < before.clients.list.len(),
    ensures
        ({
            let (was, is) = (before.clients.sent, after.clients.sent);
            &&& is.len() == was.len() + before.clients.list.len()
            &&& is[was.len() + i].to == before.clients.list[i]
            &&& is[was.len() + i].response is StreamEnd
            &&& after.clients.list.len() == 0
        }),
{
}

/// Whether `o` is what to do about the line that a client sent.
pub open spec fn opened(
    request: Result<Request, String>,
    actor_gone: bool,
    addr: BDAddr,
    stats: StatsView,
    now: u64,
    o: Opening,
) -> bool {
    match request {
        Err(e) => o matches Opening::Answer { response, stop } && response@ == ResponseView::Error(
            "invalid request: "@ + e@,
        ) && !stop,
        Ok(asked) => match control_of(asked@, actor_gone, addr, stats, now) {
            Some(answer) => o matches Opening::Answer { response, stop } && response@ == answer
                && stop == (asked@ is Shutdown),
            None => o matches Opening::Queue(queued) && queued == asked,
        },
    }
}

/// Only a ping and a request to stop are answered without the device: everything
/// else is handed on as it was asked. Only a request to stop stops the agent, and
/// it is acknowledged. A ping tells the address of the device, so that it can be
/// read, and how the agent is; but not once nothing serves the device any more.
pub proof fn what_operates_the_device_is_handed_on(
    request: Result<Request, String>,
    actor_gone: bool,
    addr: BDAddr,
    stats: StatsView,
    now: u64,
    o: Opening,
)
    requires
        opened(request, actor_gone, addr, stats, now, o),
    ensures
        (o matches Opening::Queue(q) && Ok::<Request, String>(q) == request) <==> (
        request matches Ok(asked) && !(asked@ is Ping) && !(asked@ is Shutdown)),
        (o matches Opening::Answer { response, stop } && stop) <==> (request matches Ok(asked)
            && asked@ is Shutdown),
        request matches Ok(asked) && asked@ is Shutdown ==> {
            &&& o matches Opening::Answer { response, stop }
            &&& response@ is Done
        },
        request matches Ok(asked) && asked@ is Ping && !actor_gone ==> {
            &&& o matches Opening::Answer { response, stop }
            &&& response@ matches ResponseView::Pong(Some(a), Some(s))
            &&& crate::addr::parsed(a) == Ok::<BDAddr, crate::addr::AddrError>(addr)
            &&& s == stats.status_at(now)
        },
        (request is Err || (request->Ok_0@ is Ping && actor_gone)) ==> {
            &&& o matches Opening::Answer { response, stop }
            &&& response@ is Error
        },
{
    crate::addr::display_then_parse(addr);
}

/// Whether an exchange goes on after a response.
pub open spec fn goes_on(response: ResponseView, written: bool) -> bool {
    written && response is Measurement
}

/// An exchange ends with the first response that is no measurement, or that the
/// client did not take.
pub proof fn an_exchange_ends_with_its_answer(response: ResponseView, written: bool)
    ensures
        !written ==> !goes_on(response, written),
        response is CommandResult || response is Error || response is StreamEnd || response is Done
            || response is Pong ==> !goes_on(response, written),
        response is Measurement && written ==> goes_on(response, written),
{
}

impl Lifecycle {
    /// How far a phase is from the start.
    pub open spec fn place(phase: Phase) -> int {
        match phase {
            Phase::MakeDirectory => 0,
            Phase::ClaimPid => 1,
            Phase::Probe => 2,
            Phase::ClearSocket => 3,
            Phase::Bind => 4,
            Phase::WritePid => 5,
            Phase::BindMetrics => 6,
            Phase::Connect => 7,
            Phase::Serve => 8,
            Phase::Drain => 9,
            Phase::Exit => 10,
        }
    }

    /// The agent only ever goes forward, one phase at a time but for the metrics
    /// port, which is left out where no endpoint is served, and for the exit,
    /// which a failure leads to from anywhere. It serves only once everything
    /// before that is done, and an error is reported if and only if something
    /// failed.
    pub proof fn the_agent_goes_forward(self, p: Progress)
        requires
            self.wf(),
            self.phase != Phase::Exit,
        ensures
            Lifecycle::place(self.after(p).phase) > Lifecycle::place(self.phase),
            self.after(p).phase != Phase::Exit ==> Lifecycle::place(self.after(p).phase)
                == Lifecycle::place(self.phase) + (if self.phase == Phase::WritePid
                && !self.metrics {
                2int
            } else {
                1int
            }),
            self.after(p).phase == Phase::Serve ==> p == Progress::Done,
            self.after(p).phase == Phase::BindMetrics ==> self.metrics,
            p == Progress::Done ==> !self.after(p).failed,
            p == Progress::Failed && self.phase != Phase::ClearSocket && self.phase != Phase::Drain
                ==> self.after(p).failed && self.after(p).phase == Phase::Exit,
            p == Progress::Signalled && (self.phase == Phase::Connect || self.phase
                == Phase::Serve) ==> !self.after(p).failed,
            self.after(p).metrics == self.metrics,
            self.after(p).served <==> self.served || (self.phase == Phase::Connect && p
                == Progress::Done),
    {
    }
}

impl ActorView {
    /// Before anything happened.
    pub open spec fn starting(poll_always: bool) -> ActorView {
        ActorView {
            subscribed: false,
            buffer: Seq::empty(),
            clients: ClientsView { list: Seq::empty(), sent: Seq::empty(), looked: Seq::empty() },
            poll_always,
            task: TaskView::Idle,
            messages: Seq::empty(),
            clock: ClockView::unasked(),
        }
    }

    /// An agent starts with nothing to do and nobody to serve: its first tick asks
    /// for nothing, unless the metrics endpoint needs a reading; then, as for the
    /// first client, notifications are subscribed to before anything is written.
    pub proof fn an_agent_waits_to_be_asked(
        poll_always: bool,
        after: ActorView,
        action: ActionView,
    )
        requires
            ticked(ActorView::starting(poll_always), after, action),
        ensures
            !poll_always ==> action is Rest && after.task is Idle,
            poll_always ==> action is Listen && after.task is PollListen,
            after.clients.sent.len() == 0,
            after.messages.len() == 0,
            !after.subscribed,
    {
    }
}

} // verus!
