use jc_computation::event::Event;
use jc_computation::json::JsonValue;
use jc_computation::kernel::{CounterFunctor, SemanticFunctor};
use jc_computation::network::{
    to_decimal, Message, NetworkError, NetworkNode, PushPhase, PushStep, SyncStats, SyncStep,
};

fn j(text: &str) -> JsonValue {
    JsonValue::parse(text).unwrap()
}

// Runs a whole sync between a client and a server in memory, handing each
// message from one state machine to the other.
fn run_sync(client: &mut NetworkNode, server: &mut NetworkNode) -> (SyncStats, SyncStats) {
    let (mut cs, hello) = client.begin_sync();
    let mut ss = server.begin_serve();
    let mut to_server = vec![hello];
    let mut to_client: Vec<Message> = Vec::new();
    let mut client_stats = None;
    let mut server_stats = None;
    for _ in 0..20 {
        for m in std::mem::take(&mut to_server) {
            if server_stats.is_some() {
                break;
            }
            match server.server_step(&mut ss, m).unwrap() {
                SyncStep::Continue(out) => to_client.extend(out),
                SyncStep::Done(out, st) => {
                    to_client.extend(out);
                    server_stats = Some(st);
                }
            }
        }
        for m in std::mem::take(&mut to_client) {
            if client_stats.is_some() {
                break;
            }
            match client.client_step(&mut cs, m).unwrap() {
                SyncStep::Continue(out) => to_server.extend(out),
                SyncStep::Done(out, st) => {
                    to_server.extend(out);
                    client_stats = Some(st);
                }
            }
        }
        if client_stats.is_some() && server_stats.is_some() {
            break;
        }
    }
    (client_stats.unwrap(), server_stats.unwrap())
}

#[test]
fn sync_stats_display() {
    let stats = SyncStats { peer_id: "test-peer".to_string(), sent: 3, received: 7 };
    let s = stats.display();
    assert!(s.contains("test-peer"));
    assert!(s.contains("sent=3"));
    assert!(s.contains("received=7"));
    assert_eq!(s, "sync with test-peer: sent=3, received=7");
}

#[test]
fn sync_two_nodes_converge() {
    let mut node_b = NetworkNode::new("B".to_string());
    let frontier_b = node_b.node.history.frontier();
    let e_b = Event::data("increment".to_string(), j("5"), frontier_b);
    node_b.node.append(e_b);

    let mut node_a = NetworkNode::new("A".to_string());
    let frontier_a = node_a.node.history.frontier();
    let e_a = Event::data("increment".to_string(), j("10"), frontier_a);
    node_a.node.append(e_a);

    let (stats_a, stats_b) = run_sync(&mut node_a, &mut node_b);

    let state_a = CounterFunctor.interpret(&node_a.node.history);
    let state_b = CounterFunctor.interpret(&node_b.node.history);

    assert_eq!(state_a, state_b, "nodes must converge after sync");
    assert_eq!(state_a, 15, "total counter must be 15");
    assert!(stats_a.sent > 0 || stats_a.received > 0, "at least some events must be exchanged");
    assert_eq!(stats_a.peer_id, "B");
    assert_eq!(stats_b.peer_id, "A");
    assert_eq!(stats_a.sent, stats_b.received);
    assert_eq!(stats_b.sent, stats_a.received);
}

#[test]
fn already_converged_no_exchange() {
    let mut server = NetworkNode::new("server".to_string());
    let mut client = NetworkNode::new("client".to_string());
    let (stats, _server_stats) = run_sync(&mut client, &mut server);
    assert!(stats.sent + stats.received <= 2, "no unexpected event explosion");
    assert_eq!(stats.sent, 0);
    assert_eq!(stats.received, 0);
}

#[test]
fn client_rejects_unexpected_handshake() {
    let mut client = NetworkNode::new("c".to_string());
    let (mut cs, _) = client.begin_sync();
    match client.client_step(&mut cs, Message::Bye) {
        Err(NetworkError::Protocol(text)) => assert!(text.starts_with("unexpected: ")),
        other => panic!("expected a protocol error, got {:?}", other),
    }
    let (mut cs, _) = client.begin_sync();
    match client.client_step(&mut cs, Message::Error { message: "busy".to_string() }) {
        Err(NetworkError::Protocol(text)) => assert_eq!(text, "busy"),
        other => panic!("expected a protocol error, got {:?}", other),
    }
}

#[test]
fn server_wants_only_missing_ids() {
    let mut server = NetworkNode::new("s".to_string());
    let mut ss = server.begin_serve();
    server.server_step(&mut ss, Message::Hello { node_id: "c".to_string() }).unwrap();
    let g = Event::genesis().id;
    let step = server.server_step(&mut ss, Message::Have { ids: vec!["zz".to_string(), g, "aa".to_string()] }).unwrap();
    assert_eq!(step, SyncStep::Continue(vec![Message::Want { ids: vec!["aa".to_string(), "zz".to_string()] }]));
}

#[test]
fn push_protocol_steps() {
    let node = NetworkNode::new("p".to_string());
    let e = Event::genesis();
    let (mut phase, hello) = node.begin_push();
    assert_eq!(hello, Message::Hello { node_id: "p".to_string() });
    match node.push_step(&mut phase, &e, Message::HelloAck { node_id: "q".to_string() }).unwrap() {
        PushStep::Continue(out) => match &out[0] {
            Message::Push { events } => assert_eq!(events[0].id, e.id),
            other => panic!("expected a push, got {:?}", other),
        },
        other => panic!("expected to go on, got {:?}", other),
    }
    assert_eq!(phase, PushPhase::AwaitPushAck);
    assert_eq!(node.push_step(&mut phase, &e, Message::PushAck { count: 1 }).unwrap(), PushStep::Done(vec![Message::Bye]));
    assert!(node.push_step(&mut phase, &e, Message::Bye).is_err());
}

#[test]
fn decimal_and_error_text() {
    assert_eq!(to_decimal(0), "0");
    assert_eq!(to_decimal(1234567890), "1234567890");
    assert_eq!(to_decimal(usize::MAX), usize::MAX.to_string());
    assert_eq!(NetworkError::Timeout.message(), "Connection timed out");
    assert_eq!(NetworkError::Protocol("x".to_string()).message(), "Protocol error: x");
}

#[test]
fn protocol_error_texts_name_the_message() {
    let mut client = NetworkNode::new("c".to_string());
    let (mut cs, _) = client.begin_sync();
    match client.client_step(&mut cs, Message::Bye) {
        Err(NetworkError::Protocol(text)) => assert_eq!(text, "unexpected: Bye"),
        other => panic!("expected a protocol error, got {:?}", other),
    }
    let mut server = NetworkNode::new("s".to_string());
    let mut ss = server.begin_serve();
    match server.server_step(&mut ss, Message::EventsAck { count: 12 }) {
        Err(NetworkError::Protocol(text)) => assert_eq!(text, "expected Hello, got EventsAck(12)"),
        other => panic!("expected a protocol error, got {:?}", other),
    }
    match server.server_step(&mut ss, Message::HelloAck { node_id: "x".to_string() }) {
        Err(NetworkError::Protocol(text)) => assert_eq!(text, "expected Hello, got HelloAck(x)"),
        other => panic!("expected a protocol error, got {:?}", other),
    }
}
