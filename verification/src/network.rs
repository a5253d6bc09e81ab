//! The anti-entropy protocol between peers, as state machines.
//!
//! ```text
//! client → Hello        server → HelloAck
//! client → Have(ids)    server → Want(ids it lacks)
//! client → Events       server → EventsAck, Events(what the client lacks)
//! client → EventsAck, Bye
//! ```
//!
//! Each step takes the message just received and says what to send next;
//! the transport (a newline-delimited JSON stream) is run by the caller.

use vstd::prelude::*;
use crate::ids::{EventId, IdSet, ids_view, sorted_of};
use crate::event::{Event, EventView};
use crate::dag::CausalDag;
use crate::merge::{DistributedNode, insert_sorted_events};
use crate::nf::nf_of;
use crate::persistence::{SerializableEvent, SerialView, serial_of, serial_views, rebuilt, events_not_in};
use vstd::string::StringExecFns;

verus! {

/// A message of the wire protocol.
#[derive(Debug, Clone, PartialEq, Eq)]
pub enum Message {
    /// Handshake: announces the sender.
    Hello { node_id: String },
    /// Handshake answer.
    HelloAck { node_id: String },
    /// The identifiers the sender has.
    Have { ids: Vec<EventId> },
    /// The identifiers the sender asks for.
    Want { ids: Vec<EventId> },
    /// Events delivered.
    Events { events: Vec<SerializableEvent> },
    /// Receipt of delivered events.
    EventsAck { count: usize },
    /// Events pushed in real time.
    Push { events: Vec<SerializableEvent> },
    /// Receipt of pushed events.
    PushAck { count: usize },
    /// An error report.
    Error { message: String },
    /// End of the conversation.
    Bye,
}

/// A network error.
#[derive(Debug, Clone, PartialEq, Eq)]
pub enum NetworkError {
    Io(String),
    Serialization(String),
    Protocol(String),
    Timeout,
}

impl NetworkError {
    /// The error's text.
    pub fn message(&self) -> (r: String)
        ensures
            match self {
                NetworkError::Io(e) => r@ == "I/O error: "@ + e@,
                NetworkError::Serialization(e) => r@ == "Serialization error: "@ + e@,
                NetworkError::Protocol(e) => r@ == "Protocol error: "@ + e@,
                NetworkError::Timeout => r@ == "Connection timed out"@,
            },
    {
        match self {
            NetworkError::Io(e) => "I/O error: ".to_owned().concat(e.as_str()),
            NetworkError::Serialization(e) => "Serialization error: ".to_owned().concat(e.as_str()),
            NetworkError::Protocol(e) => "Protocol error: ".to_owned().concat(e.as_str()),
            NetworkError::Timeout => "Connection timed out".to_owned(),
        }
    }
}

/// The decimal digit `d`.
pub open spec fn digit_char(d: int) -> char {
    (('0' as int) + d) as char
}

/// The decimal writing of `n`.
pub open spec fn decimal(n: nat) -> Seq<char>
    decreases n,
{
    if n < 10 {
        seq![digit_char(n as int)]
    } else {
        decimal(n / 10) + seq![digit_char((n % 10) as int)]
    }
}

fn digit_str(d: usize) -> (r: &'static str)
    requires
        d < 10,
    ensures
        r@ == seq![digit_char(d as int)],
{
    proof {
        reveal_strlit("0");
        reveal_strlit("1");
        reveal_strlit("2");
        reveal_strlit("3");
        reveal_strlit("4");
        reveal_strlit("5");
        reveal_strlit("6");
        reveal_strlit("7");
        reveal_strlit("8");
        reveal_strlit("9");
    }
    match d {
        0 => "0",
        1 => "1",
        2 => "2",
        3 => "3",
        4 => "4",
        5 => "5",
        6 => "6",
        7 => "7",
        8 => "8",
        _ => "9",
    }
}

/// The decimal writing of `n`.
pub fn to_decimal(n: usize) -> (r: String)
    ensures
        r@ == decimal(n as nat),
    decreases n,
{
    if n < 10 {
        digit_str(n).to_owned()
    } else {
        let s = to_decimal(n / 10);
        s.concat(digit_str(n % 10))
    }
}

/// Counts of a completed sync.
#[derive(Debug, Clone, PartialEq, Eq)]
pub struct SyncStats {
    pub peer_id: String,
    /// Events sent to the peer.
    pub sent: usize,
    /// Events received from the peer.
    pub received: usize,
}

impl SyncStats {
    /// `sync with <peer>: sent=<n>, received=<m>`.
    pub fn display(&self) -> (r: String)
        ensures
            r@ == "sync with "@ + self.peer_id@ + ": sent="@ + decimal(self.sent as nat) + ", received="@ + decimal(
                self.received as nat,
            ),
    {
        let sent = to_decimal(self.sent);
        let received = to_decimal(self.received);
        "sync with ".to_owned().concat(self.peer_id.as_str()).concat(": sent=").concat(sent.as_str()).concat(
            ", received=",
        ).concat(received.as_str())
    }
}

/// A short text for a message: its kind, with the sender's name, the error
/// text or how many identifiers, events or receipts it carries.
pub open spec fn message_text(msg: Message) -> Seq<char> {
    match msg {
        Message::Hello { node_id } => "Hello("@ + node_id@ + ")"@,
        Message::HelloAck { node_id } => "HelloAck("@ + node_id@ + ")"@,
        Message::Have { ids } => "Have("@ + decimal(ids@.len()) + " ids)"@,
        Message::Want { ids } => "Want("@ + decimal(ids@.len()) + " ids)"@,
        Message::Events { events } => "Events("@ + decimal(events@.len()) + " events)"@,
        Message::EventsAck { count } => "EventsAck("@ + decimal(count as nat) + ")"@,
        Message::Push { events } => "Push("@ + decimal(events@.len()) + " events)"@,
        Message::PushAck { count } => "PushAck("@ + decimal(count as nat) + ")"@,
        Message::Error { message } => "Error("@ + message@ + ")"@,
        Message::Bye => "Bye"@,
    }
}

/// What a client's protocol error starts with, by phase.
pub open spec fn client_error_prefix(p: ClientPhase) -> Seq<char> {
    match p {
        ClientPhase::AwaitHelloAck => "unexpected: "@,
        ClientPhase::AwaitWant => "expected Want, got "@,
        ClientPhase::AwaitEventsAck => "expected EventsAck, got "@,
        ClientPhase::AwaitEvents => "expected Events, got "@,
        ClientPhase::Finished => "sync already finished: "@,
    }
}

/// What a server's protocol error starts with, by phase.
pub open spec fn server_error_prefix(p: ServerPhase) -> Seq<char> {
    match p {
        ServerPhase::AwaitHello => "expected Hello, got "@,
        ServerPhase::AwaitHave => "expected Have, got "@,
        ServerPhase::AwaitEvents => "expected Events, got "@,
        ServerPhase::AwaitEventsAck => "expected EventsAck, got "@,
        ServerPhase::AwaitBye => ""@,
        ServerPhase::Finished => "sync already finished: "@,
    }
}

/// What a pusher's protocol error starts with, by phase.
pub open spec fn push_error_prefix(p: PushPhase) -> Seq<char> {
    match p {
        PushPhase::AwaitHelloAck => "expected HelloAck, got "@,
        PushPhase::AwaitPushAck => "expected PushAck, got "@,
        PushPhase::Finished => "push already finished: "@,
    }
}

/// The short text of `msg`.
fn message_text_of(msg: &Message) -> (r: String)
    ensures
        r@ == message_text(*msg),
{
    match msg {
        Message::Hello { node_id } => "Hello(".to_owned().concat(node_id.as_str()).concat(")"),
        Message::HelloAck { node_id } => "HelloAck(".to_owned().concat(node_id.as_str()).concat(")"),
        Message::Have { ids } => "Have(".to_owned().concat(to_decimal(ids.len()).as_str()).concat(" ids)"),
        Message::Want { ids } => "Want(".to_owned().concat(to_decimal(ids.len()).as_str()).concat(" ids)"),
        Message::Events { events } => "Events(".to_owned().concat(to_decimal(events.len()).as_str()).concat(
            " events)",
        ),
        Message::EventsAck { count } => "EventsAck(".to_owned().concat(to_decimal(*count).as_str()).concat(")"),
        Message::Push { events } => "Push(".to_owned().concat(to_decimal(events.len()).as_str()).concat(" events)"),
        Message::PushAck { count } => "PushAck(".to_owned().concat(to_decimal(*count).as_str()).concat(")"),
        Message::Error { message } => "Error(".to_owned().concat(message.as_str()).concat(")"),
        Message::Bye => "Bye".to_owned(),
    }
}

/// The text of a protocol error: `prefix` followed by the short text of
/// `msg`.
fn describe(prefix: &str, msg: &Message) -> (r: String)
    ensures
        r@ == prefix@ + message_text(*msg),
{
    let t = message_text_of(msg);
    prefix.to_owned().concat(t.as_str())
}

/// The serializable forms of the events under those of `ids` that are
/// present, in the order of `ids`.
pub open spec fn wanted(m: Map<Seq<char>, EventView>, ids: Seq<Seq<char>>) -> Seq<SerialView>
    decreases ids.len(),
{
    if ids.len() == 0 {
        Seq::empty()
    } else {
        let prev = wanted(m, ids.drop_last());
        if m.contains_key(ids.last()) {
            prev.push(serial_of(m[ids.last()]))
        } else {
            prev
        }
    }
}

/// The serializable forms of the events whose key `known` lacks, in key
/// order.
pub open spec fn lacking(m: Map<Seq<char>, EventView>, known: Set<Seq<char>>) -> Seq<SerialView> {
    events_not_in(m, sorted_of(m.dom()), known).map_values(|e: EventView| serial_of(e))
}

/// The events rebuilt from serializable forms.
pub open spec fn rebuilt_all(ses: Seq<SerialView>) -> Seq<EventView> {
    ses.map_values(|se: SerialView| rebuilt(se))
}

/// `m` announces the identifiers `ids`.
pub open spec fn is_have(m: Message, ids: Seq<Seq<char>>) -> bool {
    m matches Message::Have { ids: v } && ids_view(v@) == ids
}

/// `m` asks for the identifiers `ids`.
pub open spec fn is_want(m: Message, ids: Seq<Seq<char>>) -> bool {
    m matches Message::Want { ids: v } && ids_view(v@) == ids
}

/// `m` delivers the events `evs`.
pub open spec fn is_events(m: Message, evs: Seq<SerialView>) -> bool {
    m matches Message::Events { events } && serial_views(events@) == evs
}

/// `m` pushes the events `evs`.
pub open spec fn is_push(m: Message, evs: Seq<SerialView>) -> bool {
    m matches Message::Push { events } && serial_views(events@) == evs
}

/// `m` acknowledges `n` events.
pub open spec fn is_events_ack(m: Message, n: int) -> bool {
    m matches Message::EventsAck { count } && count == n
}

/// `m` answers a handshake as `name`.
pub open spec fn is_hello_ack(m: Message, name: Seq<char>) -> bool {
    m matches Message::HelloAck { node_id } && node_id@ == name
}

/// Where a client is in a sync.
#[derive(Debug, Clone, Copy, PartialEq, Eq)]
pub enum ClientPhase {
    AwaitHelloAck,
    AwaitWant,
    AwaitEventsAck,
    AwaitEvents,
    Finished,
}

/// A client's sync in progress.
#[derive(Debug, Clone, PartialEq, Eq)]
pub struct ClientSession {
    pub phase: ClientPhase,
    pub peer_id: String,
    pub sent: usize,
    pub received: usize,
}

/// Where a server is in a sync.
#[derive(Debug, Clone, Copy, PartialEq, Eq)]
pub enum ServerPhase {
    AwaitHello,
    AwaitHave,
    AwaitEvents,
    AwaitEventsAck,
    AwaitBye,
    Finished,
}

/// A server's sync in progress.
#[derive(Debug, Clone, PartialEq, Eq)]
pub struct ServerSession {
    pub phase: ServerPhase,
    pub peer_id: String,
    pub peer_ids: IdSet,
    pub sent: usize,
    pub received: usize,
}

/// Where a push is.
#[derive(Debug, Clone, Copy, PartialEq, Eq)]
pub enum PushPhase {
    AwaitHelloAck,
    AwaitPushAck,
    Finished,
}

/// What to do after a message: send these and go on, or send these and stop.
#[derive(Debug, Clone, PartialEq, Eq)]
pub enum SyncStep {
    Continue(Vec<Message>),
    Done(Vec<Message>, SyncStats),
}

/// What to do after a message of a push.
#[derive(Debug, Clone, PartialEq, Eq)]
pub enum PushStep {
    Continue(Vec<Message>),
    Done(Vec<Message>),
}

/// A network-connected node.
pub struct NetworkNode {
    pub node: DistributedNode,
    pub listen_addr: Option<String>,
}

/// The serializable forms of `events`, in order.
fn serialize_all(events: &Vec<Event>) -> (r: Vec<SerializableEvent>)
    ensures
        serial_views(r@) == events@.map_values(|e: Event| serial_of(e@)),
{
    let mut out: Vec<SerializableEvent> = Vec::new();
    let n = events.len();
    for i in 0..n
        invariant
            n == events@.len(),
            out@.len() == i,
            forall|j: int| 0 <= j < i ==> (#[trigger] out@[j])@ == serial_of(events@[j]@),
    {
        out.push(SerializableEvent::from_event(&events[i]));
    }
    assert(serial_views(out@) =~= events@.map_values(|e: Event| serial_of(e@)));
    out
}

/// The events rebuilt from serializable forms, in order.
fn rebuild_all(ses: &Vec<SerializableEvent>) -> (r: Vec<Event>)
    ensures
        r@.map_values(|e: Event| e@) == rebuilt_all(serial_views(ses@)),
{
    let mut out: Vec<Event> = Vec::new();
    let n = ses.len();
    for i in 0..n
        invariant
            n == ses@.len(),
            out@.len() == i,
            forall|j: int| 0 <= j < i ==> (#[trigger] out@[j])@ == rebuilt(ses@[j]@),
    {
        out.push(ses[i].to_event());
    }
    assert(out@.map_values(|e: Event| e@) =~= rebuilt_all(serial_views(ses@)));
    out
}

impl NetworkNode {
    /// Well-formedness of the node.
    pub open spec fn wf(&self) -> bool {
        self.node.wf()
    }

    /// The node's history.
    pub open spec fn history(&self) -> Map<Seq<char>, EventView> {
        self.node.history_view()
    }

    /// A node named `id`, not listening, whose history holds the genesis
    /// event alone.
    pub fn new(id: String) -> (r: Self)
        ensures
            r.wf(),
            r.node.name() == id@,
            r.history() == crate::kernel::genesis_history(),
            r.listen_addr is None,
    {
        NetworkNode { node: DistributedNode::new(id), listen_addr: None }
    }

    /// The keys of the history, in increasing order.
    fn my_ids(&self) -> (r: Vec<EventId>)
        requires
            self.wf(),
        ensures
            ids_view(r@) == sorted_of(self.history().dom()),
    {
        let dag = self.node.history_dag();
        proof {
            dag.lemma_view();
            crate::ids::lemma_sorted_of(dag.keys_view());
        }
        dag.keys()
    }

    /// The serializable forms of the events under those of `ids` that are
    /// present, in the order of `ids`.
    fn events_wanted(&self, ids: &Vec<EventId>) -> (r: Vec<SerializableEvent>)
        requires
            self.wf(),
        ensures
            serial_views(r@) == wanted(self.history(), ids_view(ids@)),
    {
        let dag = self.node.history_dag();
        let mut out: Vec<SerializableEvent> = Vec::new();
        let n = ids.len();
        let ghost iv = ids_view(ids@);
        for i in 0..n
            invariant
                dag.wf(),
                dag@ == self.history(),
                n == ids@.len(),
                iv == ids_view(ids@),
                serial_views(out@) == wanted(self.history(), iv.subrange(0, i as int)),
        {
            let ghost before = serial_views(out@);
            proof {
                assert(iv.subrange(0, i + 1).drop_last() =~= iv.subrange(0, i as int));
                assert(iv.subrange(0, i + 1).last() == ids@[i as int]@);
            }
            match dag.get(&ids[i]) {
                Some(e) => {
                    out.push(SerializableEvent::from_event(e));
                    assert(serial_views(out@) =~= before.push(serial_of(e@)));
                },
                None => {},
            }
        }
        assert(iv.subrange(0, n as int) =~= iv);
        out
    }

    /// The serializable forms of the events whose key is not in `known`, in
    /// key order.
    fn events_lacking(&self, known: &IdSet) -> (r: Vec<SerializableEvent>)
        requires
            self.wf(),
            known.wf(),
        ensures
            serial_views(r@) == lacking(self.history(), known.set()),
    {
        let dag = self.node.history_dag();
        proof {
            dag.lemma_view();
            crate::ids::lemma_sorted_of(dag.keys_view());
        }
        let mut out: Vec<SerializableEvent> = Vec::new();
        let n = dag.len();
        let ghost ks = dag.keys_view();
        let ghost m = dag@;
        for i in 0..n
            invariant
                dag.wf(),
                m == dag@,
                ks == dag.keys_view(),
                n == ks.len(),
                n == m.len(),
                known.wf(),
                serial_views(out@) == events_not_in(m, ks.subrange(0, i as int), known.set()).map_values(
                    |e: EventView| serial_of(e),
                ),
        {
            let k = dag.key_at(i);
            let ghost ob = serial_views(out@);
            proof {
                assert(ks.subrange(0, i + 1).drop_last() =~= ks.subrange(0, i as int));
                assert(ks.subrange(0, i + 1).last() == k@);
            }
            if !known.contains(k) {
                let e = dag.event_at(i);
                out.push(SerializableEvent::from_event(e));
                proof {
                    assert(serial_views(out@) =~= ob.push(serial_of(e@)));
                    let prev = events_not_in(m, ks.subrange(0, i as int), known.set());
                    assert(events_not_in(m, ks.subrange(0, i + 1), known.set()) == prev.push(m[k@]));
                    assert(prev.push(m[k@]).map_values(|e: EventView| serial_of(e)) =~= prev.map_values(
                        |e: EventView| serial_of(e),
                    ).push(serial_of(m[k@])));
                }
            }
        }
        assert(ks.subrange(0, n as int) =~= ks);
        out
    }

    /// Starts a sync as client: the session and the first message to send.
    pub fn begin_sync(&self) -> (r: (ClientSession, Message))
        requires
            self.wf(),
        ensures
            r.0.phase == ClientPhase::AwaitHelloAck,
            r.0.sent == 0,
            r.0.received == 0,
            r.1 matches Message::Hello { node_id } && node_id@ == self.node.name(),
    {
        let s = ClientSession { phase: ClientPhase::AwaitHelloAck, peer_id: String::new(), sent: 0, received: 0 };
        (s, Message::Hello { node_id: self.node.id_string() })
    }

    /// The client's answer to `msg`.
    pub fn client_step(&mut self, session: &mut ClientSession, msg: Message) -> (r: Result<SyncStep, NetworkError>)
        requires
            old(self).wf(),
        ensures
            final(self).wf(),
            final(self).node.name() == old(self).node.name(),
            old(session).phase == ClientPhase::AwaitEvents && msg is Events ==> final(self).history() == nf_of(
                insert_sorted_events(old(self).history(), rebuilt_all(serial_views(msg->Events_events@))),
            ),
            !(old(session).phase == ClientPhase::AwaitEvents && msg is Events) ==> final(self).history() == old(
                self,
            ).history(),
            match (old(session).phase, msg) {
                (ClientPhase::AwaitHelloAck, Message::HelloAck { node_id }) => {
                    &&& r matches Ok(SyncStep::Continue(out)) && out@.len() == 1 && is_have(out@[0], sorted_of(old(self).history().dom()))
                    &&& final(session).phase == ClientPhase::AwaitWant
                    &&& final(session).peer_id@ == node_id@
                    &&& final(session).sent == old(session).sent
                    &&& final(session).received == old(session).received
                },
                (ClientPhase::AwaitHelloAck, Message::Error { message }) => r matches Err(NetworkError::Protocol(e))
                    && e@ == message@,
                (ClientPhase::AwaitWant, Message::Want { ids }) => {
                    &&& r matches Ok(SyncStep::Continue(out)) && out@.len() == 1 && is_events(out@[0], wanted(old(self).history(), ids_view(ids@)))
                    &&& final(session).phase == ClientPhase::AwaitEventsAck
                    &&& final(session).sent == wanted(old(self).history(), ids_view(ids@)).len()
                    &&& final(session).peer_id == old(session).peer_id
                    &&& final(session).received == old(session).received
                },
                (ClientPhase::AwaitEventsAck, Message::EventsAck { .. }) => {
                    &&& r matches Ok(SyncStep::Continue(out)) && out@.len() == 0
                    &&& final(session).phase == ClientPhase::AwaitEvents
                    &&& final(session).peer_id == old(session).peer_id
                    &&& final(session).sent == old(session).sent
                    &&& final(session).received == old(session).received
                },
                (ClientPhase::AwaitEvents, Message::Events { events }) => {
                    &&& r matches Ok(SyncStep::Done(out, stats)) && out@.len() == 2 && is_events_ack(out@[0], events@.len() as int) && out@[1] is Bye && stats.peer_id == old(session).peer_id
                        && stats.sent == old(session).sent && stats.received == events@.len()
                    &&& final(session).phase == ClientPhase::Finished
                },
                (ClientPhase::AwaitEvents, Message::Want { .. }) => {
                    &&& r matches Ok(SyncStep::Done(out, stats)) && out@.len() == 3 && is_events_ack(out@[0], 0) && is_events_ack(out@[1], 0) && out@[2] is Bye
                        && stats.peer_id == old(session).peer_id && stats.sent == old(session).sent && stats.received
                        == 0
                    &&& final(session).phase == ClientPhase::Finished
                },
                _ => r matches Err(NetworkError::Protocol(e)) && e@ == client_error_prefix(old(session).phase)
                    + message_text(msg) && *final(session) == *old(session),
            },
    {
        match (session.phase, msg) {
            (ClientPhase::AwaitHelloAck, Message::HelloAck { node_id }) => {
                session.peer_id = node_id;
                session.phase = ClientPhase::AwaitWant;
                let ids = self.my_ids();
                Ok(SyncStep::Continue(vec![Message::Have { ids }]))
            },
            (ClientPhase::AwaitHelloAck, Message::Error { message }) => Err(NetworkError::Protocol(message)),
            (ClientPhase::AwaitHelloAck, other) => Err(NetworkError::Protocol(describe("unexpected: ", &other))),
            (ClientPhase::AwaitWant, Message::Want { ids }) => {
                let events = self.events_wanted(&ids);
                session.sent = events.len();
                session.phase = ClientPhase::AwaitEventsAck;
                Ok(SyncStep::Continue(vec![Message::Events { events }]))
            },
            (ClientPhase::AwaitWant, other) => Err(
                NetworkError::Protocol(describe("expected Want, got ", &other)),
            ),
            (ClientPhase::AwaitEventsAck, Message::EventsAck { .. }) => {
                session.phase = ClientPhase::AwaitEvents;
                Ok(SyncStep::Continue(Vec::new()))
            },
            (ClientPhase::AwaitEventsAck, other) => Err(
                NetworkError::Protocol(describe("expected EventsAck, got ", &other)),
            ),
            (ClientPhase::AwaitEvents, Message::Events { events }) => {
                let count = events.len();
                let evs = rebuild_all(&events);
                self.node.receive(&evs);
                session.received = count;
                session.phase = ClientPhase::Finished;
                let stats = SyncStats { peer_id: session.peer_id.clone(), sent: session.sent, received: count };
                Ok(SyncStep::Done(vec![Message::EventsAck { count }, Message::Bye], stats))
            },
            (ClientPhase::AwaitEvents, Message::Want { .. }) => {
                session.received = 0;
                session.phase = ClientPhase::Finished;
                let stats = SyncStats { peer_id: session.peer_id.clone(), sent: session.sent, received: 0 };
                Ok(
                    SyncStep::Done(
                        vec![Message::EventsAck { count: 0 }, Message::EventsAck { count: 0 }, Message::Bye],
                        stats,
                    ),
                )
            },
            (ClientPhase::AwaitEvents, other) => Err(
                NetworkError::Protocol(describe("expected Events, got ", &other)),
            ),
            (ClientPhase::Finished, other) => Err(NetworkError::Protocol(describe("sync already finished: ", &other))),
        }
    }

    /// Starts serving a sync.
    pub fn begin_serve(&self) -> (r: ServerSession)
        ensures
            r.phase == ServerPhase::AwaitHello,
            r.peer_ids.wf(),
            r.sent == 0,
            r.received == 0,
    {
        ServerSession { phase: ServerPhase::AwaitHello, peer_id: String::new(), peer_ids: IdSet::new(), sent: 0, received: 0 }
    }

    /// The server's answer to `msg`.
    pub fn server_step(&mut self, session: &mut ServerSession, msg: Message) -> (r: Result<SyncStep, NetworkError>)
        requires
            old(self).wf(),
            old(session).peer_ids.wf(),
        ensures
            final(self).wf(),
            final(self).node.name() == old(self).node.name(),
            final(session).peer_ids.wf(),
            old(session).phase == ServerPhase::AwaitEvents && msg is Events ==> final(self).history() == nf_of(
                insert_sorted_events(old(self).history(), rebuilt_all(serial_views(msg->Events_events@))),
            ),
            !(old(session).phase == ServerPhase::AwaitEvents && msg is Events) ==> final(self).history() == old(
                self,
            ).history(),
            match (old(session).phase, msg) {
                (ServerPhase::AwaitHello, Message::Hello { node_id }) => {
                    &&& r matches Ok(SyncStep::Continue(out)) && out@.len() == 1 && is_hello_ack(out@[0], old(self).node.name())
                    &&& final(session).phase == ServerPhase::AwaitHave
                    &&& final(session).peer_id@ == node_id@
                    &&& final(session).peer_ids == old(session).peer_ids
                    &&& final(session).sent == old(session).sent
                    &&& final(session).received == old(session).received
                },
                (ServerPhase::AwaitHave, Message::Have { ids }) => {
                    &&& r matches Ok(SyncStep::Continue(out)) && out@.len() == 1 && is_want(out@[0], sorted_of(ids_view(ids@).to_set().difference(old(self).history().dom())))
                    &&& final(session).phase == ServerPhase::AwaitEvents
                    &&& final(session).peer_ids.set() == ids_view(ids@).to_set()
                    &&& final(session).peer_id == old(session).peer_id
                    &&& final(session).sent == old(session).sent
                    &&& final(session).received == old(session).received
                },
                (ServerPhase::AwaitEvents, Message::Events { events }) => {
                    &&& r matches Ok(SyncStep::Continue(out)) && out@.len() == 2 && is_events_ack(out@[0], events@.len() as int) && is_events(out@[1], lacking(final(self).history(), old(session).peer_ids.set()))
                    &&& final(session).phase == ServerPhase::AwaitEventsAck
                    &&& final(session).received == events@.len()
                    &&& final(session).sent == lacking(final(self).history(), old(session).peer_ids.set()).len()
                    &&& final(session).peer_id == old(session).peer_id
                    &&& final(session).peer_ids == old(session).peer_ids
                },
                (ServerPhase::AwaitEventsAck, Message::EventsAck { .. }) => {
                    &&& r matches Ok(SyncStep::Continue(out)) && out@.len() == 0
                    &&& final(session).phase == ServerPhase::AwaitBye
                    &&& final(session).peer_id == old(session).peer_id
                    &&& final(session).peer_ids == old(session).peer_ids
                    &&& final(session).sent == old(session).sent
                    &&& final(session).received == old(session).received
                },
                (ServerPhase::AwaitBye, _) => {
                    &&& r matches Ok(SyncStep::Done(out, stats)) && out@.len() == 0 && stats.peer_id == old(
                        session,
                    ).peer_id && stats.sent == old(session).sent && stats.received == old(session).received
                    &&& final(session).phase == ServerPhase::Finished
                },
                _ => r matches Err(NetworkError::Protocol(e)) && e@ == server_error_prefix(old(session).phase)
                    + message_text(msg) && *final(session) == *old(session),
            },
    {
        match (session.phase, msg) {
            (ServerPhase::AwaitHello, Message::Hello { node_id }) => {
                session.peer_id = node_id;
                session.phase = ServerPhase::AwaitHave;
                Ok(SyncStep::Continue(vec![Message::HelloAck { node_id: self.node.id_string() }]))
            },
            (ServerPhase::AwaitHello, other) => Err(
                NetworkError::Protocol(describe("expected Hello, got ", &other)),
            ),
            (ServerPhase::AwaitHave, Message::Have { ids }) => {
                let ghost iv = ids_view(ids@);
                let peer_ids = IdSet::from_vec(ids);
                let want = self.node.history_dag().missing_from(&peer_ids);
                proof {
                    assert(peer_ids.set() == iv.to_set());
                }
                session.peer_ids = peer_ids;
                session.phase = ServerPhase::AwaitEvents;
                Ok(SyncStep::Continue(vec![Message::Want { ids: want }]))
            },
            (ServerPhase::AwaitHave, other) => Err(
                NetworkError::Protocol(describe("expected Have, got ", &other)),
            ),
            (ServerPhase::AwaitEvents, Message::Events { events }) => {
                let count = events.len();
                let evs = rebuild_all(&events);
                self.node.receive(&evs);
                let mine = self.events_lacking(&session.peer_ids);
                session.received = count;
                session.sent = mine.len();
                session.phase = ServerPhase::AwaitEventsAck;
                Ok(SyncStep::Continue(vec![Message::EventsAck { count }, Message::Events { events: mine }]))
            },
            (ServerPhase::AwaitEvents, other) => Err(
                NetworkError::Protocol(describe("expected Events, got ", &other)),
            ),
            (ServerPhase::AwaitEventsAck, Message::EventsAck { .. }) => {
                session.phase = ServerPhase::AwaitBye;
                Ok(SyncStep::Continue(Vec::new()))
            },
            (ServerPhase::AwaitEventsAck, other) => Err(
                NetworkError::Protocol(describe("expected EventsAck, got ", &other)),
            ),
            (ServerPhase::AwaitBye, _) => {
                session.phase = ServerPhase::Finished;
                let stats = SyncStats {
                    peer_id: session.peer_id.clone(),
                    sent: session.sent,
                    received: session.received,
                };
                Ok(SyncStep::Done(Vec::new(), stats))
            },
            (ServerPhase::Finished, other) => Err(
                NetworkError::Protocol(describe("sync already finished: ", &other)),
            ),
        }
    }

    /// Starts pushing `event`: the phase and the first message to send.
    pub fn begin_push(&self) -> (r: (PushPhase, Message))
        requires
            self.wf(),
        ensures
            r.0 == PushPhase::AwaitHelloAck,
            r.1 matches Message::Hello { node_id } && node_id@ == self.node.name(),
    {
        (PushPhase::AwaitHelloAck, Message::Hello { node_id: self.node.id_string() })
    }

    /// The answer of a push of `event` to `msg`.
    pub fn push_step(&self, phase: &mut PushPhase, event: &Event, msg: Message) -> (r: Result<PushStep, NetworkError>)
        ensures
            match (*old(phase), msg) {
                (PushPhase::AwaitHelloAck, Message::HelloAck { .. }) => {
                    &&& r matches Ok(PushStep::Continue(out)) && out@.len() == 1 && is_push(out@[0], seq![serial_of(event@)])
                    &&& *final(phase) == PushPhase::AwaitPushAck
                },
                (PushPhase::AwaitPushAck, Message::PushAck { .. }) => {
                    &&& r matches Ok(PushStep::Done(out)) && out@.len() == 1 && out@[0] is Bye
                    &&& *final(phase) == PushPhase::Finished
                },
                _ => r matches Err(NetworkError::Protocol(e)) && e@ == push_error_prefix(*old(phase)) + message_text(msg)
                    && *final(phase) == *old(phase),
            },
    {
        match (*phase, msg) {
            (PushPhase::AwaitHelloAck, Message::HelloAck { .. }) => {
                *phase = PushPhase::AwaitPushAck;
                let se = SerializableEvent::from_event(event);
                let events = vec![se];
                assert(serial_views(events@) =~= seq![serial_of(event@)]);
                Ok(PushStep::Continue(vec![Message::Push { events }]))
            },
            (PushPhase::AwaitHelloAck, other) => Err(
                NetworkError::Protocol(describe("expected HelloAck, got ", &other)),
            ),
            (PushPhase::AwaitPushAck, Message::PushAck { .. }) => {
                *phase = PushPhase::Finished;
                Ok(PushStep::Done(vec![Message::Bye]))
            },
            (PushPhase::AwaitPushAck, other) => Err(
                NetworkError::Protocol(describe("expected PushAck, got ", &other)),
            ),
            (PushPhase::Finished, other) => Err(NetworkError::Protocol(describe("push already finished: ", &other))),
        }
    }
}

} // verus!
