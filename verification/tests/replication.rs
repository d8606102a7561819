use futures::sync::mpsc::{unbounded, UnboundedReceiver};
use futures::sync::oneshot;
use futures::Future;
use futures::Stream;

use replication::addr::PeerAddress;
use replication::channel::{Delivery, ListenerShutter, PeerSender, Processor};
use replication::codec::{decode_frame, encode_frame};
use replication::directory::{ConnectionState, StateKind};
use replication::event::{OutgoingAction, ReplicationEvent};
use replication::session::{RemoteSender, ReplicationConfig, ReplicationSession};
use replication::watcher::Watcher;

fn addr(n: u16) -> PeerAddress {
    PeerAddress::new(n as u32, n)
}

fn new_processor() -> (Processor, UnboundedReceiver<Delivery>) {
    let (tx, rx) = unbounded();
    (Processor::new(tx), rx)
}

fn new_session(runtime_id: u64) -> (ReplicationSession, UnboundedReceiver<Delivery>, UnboundedReceiver<OutgoingAction>) {
    let (processor, proc_rx) = new_processor();
    let (out_tx, out_rx) = unbounded();
    (ReplicationSession::new(processor, out_tx, runtime_id), proc_rx, out_rx)
}

fn peer_channel() -> (PeerSender, UnboundedReceiver<Vec<u8>>) {
    let (tx, rx) = unbounded();
    (PeerSender::new(tx), rx)
}

fn config(listen: Vec<PeerAddress>, peers: Vec<PeerAddress>) -> ReplicationConfig {
    ReplicationConfig { listen, peers }
}

fn drain<T>(rx: UnboundedReceiver<T>) -> Vec<T> {
    rx.wait().map(|r| r.unwrap()).collect()
}

#[test]
fn tick_moves_every_unknown_peer_to_connecting() {
    let (mut session, _proc_rx, _out_rx) = new_session(7);
    let to_listen = session.update(&config(vec![], vec![addr(1), addr(2), addr(3)]));
    assert!(to_listen.is_empty());
    // one peer is already connected; it must be skipped by the tick
    let (sender, _rx) = peer_channel();
    session.watcher.handle_incoming(ReplicationEvent::Attach {
        sender,
        runtime_id: 9,
        addr: addr(2),
    });

    let mut dial = session.watcher.reconnect();
    dial.sort();
    assert_eq!(dial, vec![addr(1), addr(3)]);
    assert_eq!(session.watcher.directory.kind(addr(1)), Some(StateKind::Connecting));
    assert_eq!(session.watcher.directory.kind(addr(2)), Some(StateKind::Connected));
    assert_eq!(session.watcher.directory.kind(addr(3)), Some(StateKind::Connecting));

    // a second tick finds nothing Unknown: no duplicate attempts
    let dial_again = session.watcher.reconnect();
    assert!(dial_again.is_empty());
}

#[test]
fn attach_wins_over_every_prior_state() {
    let (processor, _proc_rx) = new_processor();
    let mut watcher = Watcher::new(processor);
    let a = addr(5);

    let attach = |watcher: &mut Watcher| {
        let (sender, rx) = peer_channel();
        watcher.handle_incoming(ReplicationEvent::Attach { sender, runtime_id: 1, addr: a });
        rx
    };

    // prior: absent (no entry at all)
    let _rx1 = attach(&mut watcher);
    assert_eq!(watcher.directory.kind(a), Some(StateKind::Connected));

    // prior: Connected (stale handle is discarded, last attach wins)
    let _rx2 = attach(&mut watcher);
    assert_eq!(watcher.directory.kind(a), Some(StateKind::Connected));

    // prior: Unknown
    watcher.directory.upsert(a, ConnectionState::Unknown);
    let _rx3 = attach(&mut watcher);
    assert_eq!(watcher.directory.kind(a), Some(StateKind::Connected));

    // prior: Connecting
    watcher.directory.upsert(a, ConnectionState::Connecting);
    let _rx4 = attach(&mut watcher);
    assert_eq!(watcher.directory.kind(a), Some(StateKind::Connected));

    // prior: Disconnected
    watcher.directory.upsert(a, ConnectionState::Disconnected);
    let _rx5 = attach(&mut watcher);
    assert_eq!(watcher.directory.kind(a), Some(StateKind::Connected));
}

#[test]
fn remote_action_reaches_the_processor_and_leaves_the_directory_alone() {
    let (processor, proc_rx) = new_processor();
    let mut watcher = Watcher::new(processor);
    watcher.directory.upsert(addr(1), ConnectionState::Unknown);

    watcher.handle_incoming(ReplicationEvent::RemoteAction {
        pool: b"room1".to_vec(),
        action: b"hello".to_vec(),
    });
    assert_eq!(watcher.directory.kind(addr(1)), Some(StateKind::Unknown));

    drop(watcher);
    let delivered = drain(proc_rx);
    assert_eq!(delivered.len(), 1);
    assert_eq!(delivered[0].pool, b"room1".to_vec());
    assert_eq!(delivered[0].action, b"hello".to_vec());
}

#[test]
fn broadcast_sends_one_frame_to_each_connected_peer_only() {
    let (processor, _proc_rx) = new_processor();
    let mut watcher = Watcher::new(processor);

    let (sender_a, rx_a) = peer_channel();
    let (sender_b, rx_b) = peer_channel();
    let (sender_c, rx_c) = peer_channel();
    drop(sender_c);  // c is Disconnected; nothing may hold its write end
    watcher.directory.upsert(addr(1), ConnectionState::Connected { sender: sender_a });
    watcher.directory.upsert(addr(2), ConnectionState::Connected { sender: sender_b });
    watcher.directory.upsert(addr(3), ConnectionState::Disconnected);

    let failed = watcher.handle_outgoing(OutgoingAction {
        pool: b"room1".to_vec(),
        action: b"x".to_vec(),
    });
    assert!(failed.is_empty());

    let expected = encode_frame(&b"room1".to_vec(), &b"x".to_vec());
    drop(watcher);
    assert_eq!(drain(rx_a), vec![expected.clone()]);
    assert_eq!(drain(rx_b), vec![expected]);
    assert_eq!(drain(rx_c), Vec::<Vec<u8>>::new());
}

#[test]
fn failed_send_marks_the_peer_disconnected_without_an_error() {
    let (processor, _proc_rx) = new_processor();
    let mut watcher = Watcher::new(processor);

    let (sender_a, rx_a) = peer_channel();
    let (sender_b, rx_b) = peer_channel();
    drop(rx_b);  // peer b's connection task is gone
    watcher.directory.upsert(addr(1), ConnectionState::Connected { sender: sender_a });
    watcher.directory.upsert(addr(2), ConnectionState::Connected { sender: sender_b });

    let failed = watcher.handle_outgoing(OutgoingAction {
        pool: b"p".to_vec(),
        action: b"y".to_vec(),
    });
    assert_eq!(failed, vec![addr(2)]);
    assert_eq!(watcher.directory.kind(addr(1)), Some(StateKind::Connected));
    assert_eq!(watcher.directory.kind(addr(2)), Some(StateKind::Disconnected));

    // the healthy peer still got the frame
    let expected = encode_frame(&b"p".to_vec(), &b"y".to_vec());
    drop(watcher);
    assert_eq!(drain(rx_a), vec![expected]);
}

#[test]
fn removing_a_listen_address_signals_its_handle_once_and_readding_makes_a_new_one() {
    let (mut session, _proc_rx, _out_rx) = new_session(1);
    let l = addr(80);

    let to_listen = session.update(&config(vec![l], vec![]));
    assert_eq!(to_listen, vec![l]);
    let (tx1, rx1) = oneshot::channel();
    session.register_listener(l, ListenerShutter::new(tx1));
    assert!(session.has_listener(l));

    // removal: exactly one cancellation signal, address leaves the set
    let to_listen = session.update(&config(vec![], vec![]));
    assert!(to_listen.is_empty());
    assert!(!session.has_listener(l));
    assert_eq!(rx1.wait(), Ok(()));

    // re-adding creates a fresh listener with a fresh handle
    let to_listen = session.update(&config(vec![l], vec![]));
    assert_eq!(to_listen, vec![l]);
    let (tx2, rx2) = oneshot::channel();
    session.register_listener(l, ListenerShutter::new(tx2));
    assert!(session.has_listener(l));
    // dropping the session drops the handle without signaling it: the
    // receiver observes cancellation, which also ends an accept loop
    drop(session);
    assert!(rx2.wait().is_err());
}

#[test]
fn keeping_a_listen_address_does_not_signal_it() {
    let (mut session, _proc_rx, _out_rx) = new_session(1);
    let l = addr(81);
    session.update(&config(vec![l], vec![]));
    let (tx, rx) = oneshot::channel();
    session.register_listener(l, ListenerShutter::new(tx));

    let to_listen = session.update(&config(vec![l], vec![]));
    assert!(to_listen.is_empty());
    assert!(session.has_listener(l));

    drop(session);  // dropping the handle cancels the receiver, it is not completed
    assert!(rx.wait().is_err());
}

#[test]
fn pool_send_is_a_silent_no_op_when_the_consumer_is_gone() {
    let (out_tx, out_rx) = unbounded();
    let sender = RemoteSender::new(out_tx);
    let pool = sender.pool(&b"room1".to_vec());
    drop(out_rx);
    // returns immediately, surfaces nothing
    pool.send(b"lost".to_vec());
    pool.send(b"also lost".to_vec());
}

#[test]
fn pool_send_enqueues_the_pool_scoped_action() {
    let (out_tx, out_rx) = unbounded();
    let sender = RemoteSender::new(out_tx);
    let pool = sender.pool(&b"room1".to_vec());
    pool.send(b"payload".to_vec());
    drop(pool);
    drop(sender);
    let items = drain(out_rx);
    assert_eq!(items.len(), 1);
    assert_eq!(items[0].pool, b"room1".to_vec());
    assert_eq!(items[0].action, b"payload".to_vec());
}

#[test]
fn two_nodes_see_each_other_connected_after_their_ticks() {
    let (mut session_a, _proc_a, _out_a) = new_session(1);
    let (mut session_b, _proc_b, _out_b) = new_session(2);
    let a = addr(1);
    let b = addr(2);

    session_a.update(&config(vec![a], vec![b]));
    session_b.update(&config(vec![b], vec![a]));

    // tick on each node: each dials the other
    assert_eq!(session_a.watcher.reconnect(), vec![b]);
    assert_eq!(session_b.watcher.reconnect(), vec![a]);

    // the transport completes both handshakes and posts the attach events
    let (sender_to_b, _rx_b) = peer_channel();
    let (sender_to_a, _rx_a) = peer_channel();
    session_a.watcher.handle_incoming(ReplicationEvent::Attach {
        sender: sender_to_b,
        runtime_id: 2,
        addr: b,
    });
    session_b.watcher.handle_incoming(ReplicationEvent::Attach {
        sender: sender_to_a,
        runtime_id: 1,
        addr: a,
    });

    assert_eq!(session_a.watcher.directory.kind(b), Some(StateKind::Connected));
    assert_eq!(session_b.watcher.directory.kind(a), Some(StateKind::Connected));
}

#[test]
fn published_action_reaches_the_remote_processor_exactly_once() {
    // node A publishes; node B processes
    let (mut session_a, _proc_a, out_a) = new_session(1);
    let (processor_b, proc_b_rx) = new_processor();
    let mut watcher_b = Watcher::new(processor_b);

    // A is connected to B
    let (sender_to_b, frames_to_b) = peer_channel();
    session_a.watcher.handle_incoming(ReplicationEvent::Attach {
        sender: sender_to_b,
        runtime_id: 2,
        addr: addr(2),
    });

    // application code on A publishes payload P for pool "room1"
    let pool = session_a.remote_sender.pool(&b"room1".to_vec());
    pool.send(b"P".to_vec());

    // A's outgoing loop drains the queue and broadcasts
    let item = out_a.wait().next().unwrap().unwrap();
    let failed = session_a.watcher.handle_outgoing(item);
    assert!(failed.is_empty());

    // B's transport reads the frame and posts the decoded event
    drop(session_a);
    let frames: Vec<Vec<u8>> = drain(frames_to_b);
    assert_eq!(frames.len(), 1);
    let (pool_name, action) = decode_frame(&frames[0]).expect("canonical frame");
    watcher_b.handle_incoming(ReplicationEvent::RemoteAction { pool: pool_name, action });

    drop(watcher_b);
    let delivered = drain(proc_b_rx);
    assert_eq!(delivered.len(), 1);
    assert_eq!(delivered[0].pool, b"room1".to_vec());
    assert_eq!(delivered[0].action, b"P".to_vec());
}

#[test]
fn frames_use_the_documented_text_encoding() {
    let frame = encode_frame(&b"room1".to_vec(), &b"P".to_vec());
    assert_eq!(frame, b"{\"pool\":\"room1\",\"action\":\"P\"}".to_vec());
}

#[test]
fn quotes_and_backslashes_survive_the_wire_round_trip() {
    let pool = b"a\"b".to_vec();
    let action = b"c\\d\"".to_vec();
    let frame = encode_frame(&pool, &action);
    assert_eq!(decode_frame(&frame), Some((pool, action)));
}

#[test]
fn empty_payloads_round_trip() {
    let frame = encode_frame(&Vec::new(), &Vec::new());
    assert_eq!(frame, b"{\"pool\":\"\",\"action\":\"\"}".to_vec());
    assert_eq!(decode_frame(&frame), Some((Vec::new(), Vec::new())));
}

#[test]
fn decode_rejects_what_the_encoder_never_writes() {
    assert_eq!(decode_frame(&Vec::new()), None);
    assert_eq!(decode_frame(&b"not a frame".to_vec()), None);
    // truncated
    assert_eq!(decode_frame(&b"{\"pool\":\"a\",\"action\":\"b\"".to_vec()), None);
    // an escape the encoder never produces
    assert_eq!(decode_frame(&b"{\"pool\":\"\\x\",\"action\":\"b\"}".to_vec()), None);
    // trailing garbage
    assert_eq!(decode_frame(&b"{\"pool\":\"a\",\"action\":\"b\"}z".to_vec()), None);
}

#[test]
fn peers_survive_reconfiguration_and_new_ones_start_unknown() {
    let (mut session, _proc_rx, _out_rx) = new_session(3);
    session.update(&config(vec![], vec![addr(1)]));
    let (sender, _rx) = peer_channel();
    session.watcher.handle_incoming(ReplicationEvent::Attach {
        sender,
        runtime_id: 4,
        addr: addr(1),
    });

    // addr(1) is no longer configured but is not pruned; addr(2) is new
    session.update(&config(vec![], vec![addr(2)]));
    assert_eq!(session.watcher.directory.kind(addr(1)), Some(StateKind::Connected));
    assert_eq!(session.watcher.directory.kind(addr(2)), Some(StateKind::Unknown));
    // an already-known peer is not reset by reappearing in the configuration
    session.update(&config(vec![], vec![addr(1), addr(2)]));
    assert_eq!(session.watcher.directory.kind(addr(1)), Some(StateKind::Connected));
}
