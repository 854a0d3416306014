use filecast::client::ClientAction;
use filecast::client::ClientEvent;
use filecast::client::client_step;
use filecast::client::heartbeat_delay;
use filecast::codec::encode;
use filecast::debounce::DebounceStore;
use filecast::debounce::EventKind;
use filecast::debounce::TOLERANCE_MILLIS;
use filecast::paths::PathRep;
use filecast::session::Broadcaster;
use filecast::session::SessionAction;
use filecast::session::SessionEvent;
use filecast::session::SessionState;
use filecast::session::SessionState::Active;
use filecast::session::SessionState::Closing;
use filecast::session::SessionEvent::InboundMessage;
use filecast::session::SessionEvent::InboundError;
use filecast::session::SessionEvent::InboundTimeout;
use filecast::session::SessionEvent::InboundClosed;
use filecast::session::SessionEvent::OutboundFrame;
use filecast::session::SessionEvent::OutboundClosed;
use filecast::session::SessionEvent::WriteFailed;
use filecast::session::SessionAction::KeepWaiting;
use filecast::session::SessionAction::WriteFrame;
use filecast::session::SessionAction::Shutdown;
use filecast::session::emission_frame;
use filecast::session::session_step;
use filecast::watch::record_now;

fn path(parts: &[&str]) -> PathRep {
    PathRep { components: parts.iter().map(|p| p.as_bytes().to_vec()).collect() }
}

#[test]
fn burst_yields_one_emission_with_last_kind() {
    let mut store = DebounceStore::new();
    let p = path(&["tmp", "f.txt"]);
    // three rapid events inside one tolerance window
    store.record(&p, EventKind::Create, 1000);
    store.record(&p, EventKind::Modify, 1040);
    store.record(&p, EventKind::Remove, 1080);
    // a sweep before quiescence emits nothing
    let early = store.drain_expired(1080 + TOLERANCE_MILLIS - 1, TOLERANCE_MILLIS);
    assert!(early.is_empty());
    assert_eq!(store.len(), 1);
    // once quiet for the window, exactly one emission, last kind
    let out = store.drain_expired(1080 + TOLERANCE_MILLIS, TOLERANCE_MILLIS);
    assert_eq!(out.len(), 1);
    assert_eq!(out[0].0.components, p.components);
    assert_eq!(out[0].1, EventKind::Remove);
    assert_eq!(store.len(), 0);
    // nothing left to emit
    assert!(store.drain_expired(10_000, TOLERANCE_MILLIS).is_empty());
}

#[test]
fn spaced_events_yield_separate_emissions() {
    let mut store = DebounceStore::new();
    let p = path(&["tmp", "f.txt"]);
    let mut emitted = Vec::new();
    let kinds = [EventKind::Create, EventKind::Modify, EventKind::Remove];
    let mut t = 0i64;
    for k in kinds {
        store.record(&p, k, t);
        let out = store.drain_expired(t + TOLERANCE_MILLIS, TOLERANCE_MILLIS);
        assert_eq!(out.len(), 1);
        emitted.push(out[0].1);
        t += 10 * TOLERANCE_MILLIS;
    }
    assert_eq!(emitted, vec![EventKind::Create, EventKind::Modify, EventKind::Remove]);
}

#[test]
fn distinct_paths_are_tracked_independently() {
    let mut store = DebounceStore::new();
    let a = path(&["tmp", "a"]);
    let b = path(&["tmp", "b"]);
    store.record(&a, EventKind::Modify, 0);
    store.record(&b, EventKind::Create, 90);
    let out = store.drain_expired(100, 100);
    assert_eq!(out.len(), 1);
    assert_eq!(out[0].0.components, a.components);
    assert_eq!(store.len(), 1);
}

#[test]
fn record_now_uses_the_clock() {
    let mut store = DebounceStore::new();
    let p = path(&["tmp", "now"]);
    record_now(&mut store, &p, EventKind::Modify);
    assert_eq!(store.len(), 1);
    // an entry stamped by the real clock is not yet expired against it
    let out = store.drain_expired(0, TOLERANCE_MILLIS);
    assert!(out.is_empty());
}

#[test]
fn session_transition_table() {
    assert_eq!(session_step(Active, InboundMessage), (Active, KeepWaiting));
    assert_eq!(session_step(Active, InboundError), (Closing, Shutdown));
    assert_eq!(session_step(Active, InboundTimeout), (Closing, Shutdown));
    assert_eq!(session_step(Active, InboundClosed), (Closing, Shutdown));
    assert_eq!(session_step(Active, OutboundFrame), (Active, WriteFrame));
    assert_eq!(session_step(Active, OutboundClosed), (Closing, Shutdown));
    assert_eq!(session_step(Active, WriteFailed), (Closing, Shutdown));
    // Closing is terminal whatever arrives
    assert_eq!(session_step(Closing, InboundMessage), (Closing, Shutdown));
    assert_eq!(session_step(Closing, OutboundFrame), (Closing, Shutdown));
}

#[test]
fn broadcast_reaches_every_subscriber() {
    let mut b = Broadcaster::new();
    let first = b.subscribe();
    let second = b.subscribe();
    assert_ne!(first, second);
    let frame = b"payload".to_vec();
    b.broadcast(&frame);
    assert_eq!(b.subs.len(), 2);
    for sub in &b.subs {
        assert_eq!(sub.queue, vec![frame.clone()]);
    }
}

#[test]
fn take_queue_drains_one_subscriber_only() {
    let mut b = Broadcaster::new();
    let first = b.subscribe();
    let second = b.subscribe();
    b.broadcast(&b"one".to_vec());
    b.broadcast(&b"two".to_vec());
    let drained = b.take_queue(first);
    assert_eq!(drained, vec![b"one".to_vec(), b"two".to_vec()]);
    assert!(b.subs[0].queue.is_empty());
    assert_eq!(b.subs[1].id, second);
    assert_eq!(b.subs[1].queue, vec![b"one".to_vec(), b"two".to_vec()]);
    // an absent id yields nothing and changes nothing
    assert!(b.take_queue(999).is_empty());
    assert_eq!(b.subs.len(), 2);
}

#[test]
fn evicted_subscriber_does_not_block_the_rest() {
    let mut b = Broadcaster::new();
    let slow = b.subscribe();
    let healthy = b.subscribe();
    b.broadcast(&b"one".to_vec());
    // the slow subscriber times out and is evicted; its queue goes with it
    b.evict(slow);
    assert_eq!(b.subs.len(), 1);
    assert_eq!(b.subs[0].id, healthy);
    b.broadcast(&b"two".to_vec());
    assert_eq!(b.subs[0].queue, vec![b"one".to_vec(), b"two".to_vec()]);
    // evicting an absent id changes nothing
    b.evict(slow);
    assert_eq!(b.subs.len(), 1);
}

#[test]
fn emission_frame_uses_base_name() {
    let p = path(&["watched", "dir", "file.bin"]);
    let contents = vec![9u8, 8, 7];
    let frame = emission_frame(&p, &contents).unwrap();
    assert_eq!(frame, encode(&b"file.bin".to_vec(), &contents));
    let rootless = PathRep { components: Vec::new() };
    assert!(emission_frame(&rootless, &contents).is_none());
}

#[test]
fn heartbeat_delay_clamps_at_zero() {
    assert_eq!(heartbeat_delay(50_000, 10_000), 0);
    assert_eq!(heartbeat_delay(30_000, 10_000), 0);
    assert_eq!(heartbeat_delay(25_000, 10_000), 5_000);
    assert_eq!(heartbeat_delay(10_000, 10_000), 20_000);
    // a clock that went backwards just waits longer
    assert_eq!(heartbeat_delay(9_000, 10_000), 21_000);
}

#[test]
fn client_decisions() {
    let name = b"f.txt".to_vec();
    let contents = b"data".to_vec();
    let frame = encode(&name, &contents);
    match client_step(&ClientEvent::Binary(frame)) {
        ClientAction::StoreFile(n, c) => {
            assert_eq!(n, name);
            assert_eq!(c, contents);
        },
        _ => panic!("a well-formed frame must become a file write"),
    }
    assert!(matches!(client_step(&ClientEvent::Binary(vec![1, 2, 3])), ClientAction::Ignore));
    assert!(matches!(client_step(&ClientEvent::OtherMessage), ClientAction::Ignore));
    assert!(matches!(client_step(&ClientEvent::ReaderError), ClientAction::Stop));
    assert!(matches!(client_step(&ClientEvent::ReaderClosed), ClientAction::Stop));
    assert!(matches!(client_step(&ClientEvent::HeartbeatDue), ClientAction::SendHeartbeat));
}
