use wail::ipc::{IpcMessage, IpcRecvBuffer};
use wail::link::LinkCommand;
use wail::protocol::SyncMessage;
use wail::session::{new_peer_id, peer_id_from, Session, SessionAction};

fn differs(a: u64, b: u64) -> bool {
    (f64::from_bits(a) - f64::from_bits(b)).abs() > 0.01
}

fn session() -> Session {
    Session::new("me".into(), Some("Ringo".into()), 120f64.to_bits(), 4, 4f64.to_bits())
}

fn snapshot(bpm: f64) -> SyncMessage {
    SyncMessage::StateSnapshot {
        bpm_bits: bpm.to_bits(),
        beat_bits: 7f64.to_bits(),
        phase_bits: 3f64.to_bits(),
        quantum_bits: 4f64.to_bits(),
        timestamp_us: 1,
    }
}

#[test]
fn peer_ids_are_short_and_hexadecimal() {
    let a = new_peer_id();
    let b = new_peer_id();
    assert_eq!(a.len(), 8);
    assert!(a.chars().all(|c| c.is_ascii_digit() || ('a'..='f').contains(&c)));
    assert_ne!(a, b);
    assert_eq!(peer_id_from("01234567-89ab-cdef-0123-456789abcdef"), "01234567");
}

#[test]
fn a_new_peer_is_greeted() {
    let actions = session().on_peer_joined();
    assert_eq!(actions.len(), 3);
    assert!(matches!(
        &actions[0],
        SessionAction::Broadcast { message: SyncMessage::Hello { peer_id, display_name: Some(name), identity: None } }
            if peer_id == "me" && name == "Ringo"
    ));
    assert!(matches!(
        &actions[1],
        SessionAction::Broadcast { message: SyncMessage::IntervalConfig { bars: 4, quantum_bits } }
            if *quantum_bits == 4f64.to_bits()
    ));
    assert!(matches!(
        &actions[2],
        SessionAction::Broadcast { message: SyncMessage::AudioCapabilities { sample_rates, channel_counts, .. } }
            if *sample_rates == [48000] && *channel_counts == [1, 2]
    ));
}

#[test]
fn pings_are_answered_and_pongs_measured() {
    let mut s = session();
    let actions = s.on_message("a", &SyncMessage::Ping { id: 5, sent_at_us: 10 }, 99, &differs);
    assert_eq!(actions.len(), 1);
    assert!(matches!(
        &actions[0],
        SessionAction::SendTo { peer_id, message: SyncMessage::Pong { id: 5, ping_sent_at_us: 10, pong_sent_at_us: 99 } }
            if peer_id == "a"
    ));
    assert_eq!(s.rtt_us("a"), None);
    let pong = SyncMessage::Pong { id: 1, ping_sent_at_us: 100, pong_sent_at_us: 0 };
    assert!(s.on_message("a", &pong, 350, &differs).is_empty());
    assert_eq!(s.rtt_us("a"), Some(250));
    assert!(matches!(s.on_ping_tick(7), SyncMessage::Ping { id: 0, sent_at_us: 7 }));
    assert!(matches!(s.on_ping_tick(8), SyncMessage::Ping { id: 1, sent_at_us: 8 }));
}

#[test]
fn the_beat_is_forced_once() {
    let mut s = session();
    let first = s.on_message("a", &snapshot(120.0), 0, &differs);
    assert_eq!(first.len(), 1);
    assert!(matches!(
        &first[0],
        SessionAction::Link { command: LinkCommand::ForceBeat { beat_bits, rtt_us: None } } if *beat_bits == 7f64.to_bits()
    ));
    s.on_message("b", &SyncMessage::IntervalBoundary { index: 3 }, 0, &differs);
    assert!(s.on_message("a", &snapshot(120.0), 0, &differs).is_empty());
    let other = s.on_message("a", &snapshot(130.0), 0, &differs);
    assert_eq!(other.len(), 1);
    assert!(matches!(
        &other[0],
        SessionAction::Link { command: LinkCommand::SetTempo(bpm) } if *bpm == 130f64.to_bits()
    ));
}

#[test]
fn an_adopted_tempo_is_not_broadcast_back() {
    let mut s = session();
    let change = SyncMessage::TempoChange { bpm_bits: 140f64.to_bits(), quantum_bits: 0, timestamp_us: 0 };
    assert_eq!(s.on_message("a", &change, 0, &differs).len(), 1);
    let news = s.on_tempo_changed(140f64.to_bits(), 0, 0, &differs);
    assert_eq!(news.len(), 1);
    assert!(matches!(
        &news[0],
        SessionAction::Broadcast { message: SyncMessage::IntervalBoundary { index: 0 } }
    ));
    let news = s.on_tempo_changed(150f64.to_bits(), 3, 0, &differs);
    assert_eq!(news.len(), 1);
    assert!(matches!(
        &news[0],
        SessionAction::Broadcast { message: SyncMessage::TempoChange { bpm_bits, timestamp_us: 3, .. } }
            if *bpm_bits == 150f64.to_bits()
    ));
}

#[test]
fn interval_announcements_only_move_forward() {
    let mut s = session();
    s.on_message("a", &SyncMessage::IntervalBoundary { index: 5 }, 0, &differs);
    s.on_message("a", &SyncMessage::IntervalBoundary { index: 3 }, 0, &differs);
    // Interval 5 was announced already
    assert_eq!(s.on_state_update(0, 0, 0, 0, 0, 5).len(), 1);
    assert_eq!(s.on_state_update(0, 0, 0, 0, 0, 6).len(), 2);
}

#[test]
fn interval_config_is_adopted() {
    let mut s = session();
    let config = SyncMessage::IntervalConfig { bars: 8, quantum_bits: 3f64.to_bits() };
    s.on_message("a", &config, 0, &differs);
    assert_eq!(s.interval_config(), (8, 3f64.to_bits()));
}

#[test]
fn audio_passes_between_plugins_and_peers() {
    let mut s = session();
    let frame = IpcMessage::encode_audio("", &[1, 2, 3]);
    assert_eq!(s.on_plugin_frame(&frame), Some(vec![1, 2, 3]));
    assert_eq!(s.on_plugin_frame(&[0x07, 0]), None);
    assert_eq!(s.on_peer_audio("a", &[4, 5], false), None);
    let bytes = s.on_peer_audio("a", &[4, 5], true).unwrap();
    let mut buf = IpcRecvBuffer::new();
    buf.push(&bytes);
    let payload = buf.next_frame().unwrap();
    assert_eq!(IpcMessage::decode_audio(&payload), Some(("a".to_string(), vec![4, 5])));
    assert_eq!(s.audio_counts(), (1, 2));
    assert_eq!(s.peer_id(), "me");
    assert!(s.now_us() >= 0);
}

#[test]
fn a_bad_tempo_is_ignored() {
    for bad in [f64::NAN, -f64::NAN, 0.0, -0.0, -120.0, f64::NEG_INFINITY] {
        let mut s = session();
        let change =
            SyncMessage::TempoChange { bpm_bits: bad.to_bits(), quantum_bits: 0, timestamp_us: 0 };
        assert!(s.on_message("a", &change, 0, &differs).is_empty());
        // The beat is still snapped to the remote one, once
        let asked = s.on_message("a", &snapshot(bad), 0, &differs);
        assert_eq!(asked.len(), 1);
        assert!(matches!(asked[0], SessionAction::Link { command: LinkCommand::ForceBeat { .. } }));
        assert!(s.on_message("a", &snapshot(bad), 0, &differs).is_empty());
        // A good one still counts as a change
        let asked = s.on_message("a", &snapshot(90.0), 0, &differs);
        assert_eq!(asked.len(), 1);
        assert!(matches!(
            asked[0],
            SessionAction::Link { command: LinkCommand::SetTempo(bits) } if bits == 90f64.to_bits()
        ));
    }
}
