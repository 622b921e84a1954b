use std::time::Duration;

use wail::e2e::{
    all_passed, found_peer, gaps, has_joined, has_left, is_reconnector, reply_to_ping,
    validate_audio_str, ReceiveTally, SyncExchange, TestResult,
};
use wail::mesh::MeshEvent;
use wail::protocol::SyncMessage;
use wail::test_tone::{encode_test_interval, AudioError};

#[test]
fn results_are_tagged() {
    let ok = TestResult::pass("Sync", "fine".into(), Duration::from_millis(5));
    let bad = TestResult::fail("Audio", "silent".into(), Duration::ZERO);
    assert_eq!((ok.phase, ok.tag(), ok.message.as_str()), ("Sync", "PASS", "fine"));
    assert_eq!((bad.tag(), bad.passed), ("FAIL", false));
    assert_eq!(ok.duration, Duration::from_millis(5));
    let mut results = vec![ok];
    assert!(all_passed(&results));
    results.push(bad);
    assert!(!all_passed(&results));
    assert!(all_passed(&Vec::new()));
}

#[test]
fn audio_is_described() {
    let frames = encode_test_interval(2, vec![vec![1, 2]], 0, 4, 0);
    assert_eq!(
        validate_audio_str(&frames[0]).ok().unwrap(),
        "WAIF frame: 51 bytes, frame #0, interval 2, final=true"
    );
    assert_eq!(validate_audio_str(&[1]).err(), Some(AudioError::TooShort { len: 1 }));
}

#[test]
fn exactly_one_peer_reconnects() {
    for (a, b) in [("e2e-a", "e2e-b"), ("x", "xy"), ("", "a"), ("e2e-1", "e2e-é")] {
        assert_eq!(is_reconnector(a, b), a < b);
        assert_eq!(is_reconnector(b, a), b < a);
        assert_ne!(is_reconnector(a, b), is_reconnector(b, a));
    }
    assert!(!is_reconnector("same", "same"));
}

#[test]
fn sync_exchange_needs_hello_and_pong() {
    let mut x = SyncExchange::new();
    assert_eq!(x.missing(), "no Hello received");
    let ping = SyncMessage::Ping { id: 3, sent_at_us: 4 };
    assert!(matches!(
        x.on_message(&ping, 9),
        Some(SyncMessage::Pong { id: 3, ping_sent_at_us: 4, pong_sent_at_us: 9 })
    ));
    let hello = SyncMessage::Hello { peer_id: "a".into(), display_name: None, identity: Some("i".into()) };
    assert!(x.on_message(&hello, 10).is_none());
    assert!(x.hello_had_identity);
    assert_eq!(x.missing(), "Hello OK but no Pong");
    assert!(!x.is_done());
    let pong = SyncMessage::Pong { id: 1, ping_sent_at_us: 100, pong_sent_at_us: 0 };
    assert!(x.on_message(&pong, 350).is_none());
    assert_eq!(x.rtt_us, Some(250));
    assert!(x.is_done());
    assert!(reply_to_ping(&pong, 1).is_none());
}

#[test]
fn events_of_the_other_peer() {
    let left = MeshEvent::PeerLeft("a".into());
    let joined = MeshEvent::PeerJoined { peer_id: "a".into(), display_name: None };
    assert!(has_left(&left, "a") && !has_left(&left, "b") && !has_left(&joined, "a"));
    assert!(has_joined(&joined, "a") && !has_joined(&joined, "b") && !has_joined(&left, "a"));
    assert_eq!(found_peer(&joined, &Vec::new()), Some("a".to_string()));
    let list = MeshEvent::PeerListReceived(1);
    assert_eq!(found_peer(&list, &vec!["x".to_string(), "y".to_string()]), Some("x".to_string()));
    assert_eq!(found_peer(&list, &Vec::new()), None);
    assert_eq!(found_peer(&left, &vec!["x".to_string()]), None);
}

#[test]
fn tally_counts_intervals_and_bytes() {
    let mut t = ReceiveTally::new(6);
    for _ in 0..5 {
        assert!(!t.is_done());
        t.on_audio(10);
    }
    assert!(t.reports_progress());
    t.on_audio(1);
    assert!(t.is_done() && t.reports_progress());
    assert_eq!(t.bytes, 51);
    assert!(ReceiveTally::new(0).is_done());
}

#[test]
fn gaps_between_arrivals() {
    assert_eq!(gaps(&Vec::new()), (0, 0));
    assert_eq!(gaps(&vec![5]), (0, 0));
    assert_eq!(gaps(&vec![0, 10, 11, 31]), (10, 20));
    assert_eq!(gaps(&vec![0, 1, 1, 2, 5]), (1, 3));
}
