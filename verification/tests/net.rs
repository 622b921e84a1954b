use wail::mesh::{MeshEvent, PeerMesh};
use wail::peer::{
    channel_role, send_or_queue, split_audio, take_pending, AudioReassembly, Candidate,
    CandidateQueue, ChannelRole, CHUNK_MAX,
};
use wail::protocol::{PeerFrameReport, SignalMessage, SyncMessage};
use wail::signaling::{
    closing_message, deliver, join_outcome, join_request, join_step, log_message,
    metrics_message, outgoing, parse_sender_frame, rooms_url, ws_url, Delivery, JoinEvent,
    JoinStep, SenderError, ServerMsg,
};
use wail::version::semver_less_than;

#[test]
fn semver_comparison_basic() {
    assert!(semver_less_than("1.0.0", "2.0.0"));
    assert!(semver_less_than("1.2.3", "1.10.0"));
    assert!(!semver_less_than("2.0.0", "1.9.9"));
    assert!(!semver_less_than("1.2.3", "1.2.3"));
}

#[test]
fn urls_are_built_from_the_server_address() {
    assert_eq!(ws_url("wss://wail.example"), "wss://wail.example/ws");
    assert_eq!(ws_url("ws://localhost:8080//"), "ws://localhost:8080/ws");
    assert_eq!(ws_url("///"), "/ws");
    assert_eq!(rooms_url("wss://wail.example/"), "https://wail.example/rooms");
    assert_eq!(rooms_url("ws://localhost:8080"), "http://localhost:8080/rooms");
    assert_eq!(rooms_url("http://localhost"), "http://localhost/rooms");
    assert_eq!(rooms_url("ws://a/ws://b"), "http://a/http://b/rooms");
}

#[test]
fn join_request_holds_the_given_members() {
    let text = join_request("jam", "p1", None, 2, None, "1.2.3");
    let v: serde_json::Value = serde_json::from_str(&text).unwrap();
    assert_eq!(v["type"], "join");
    assert_eq!(v["room"], "jam");
    assert_eq!(v["peer_id"], "p1");
    assert_eq!(v["stream_count"], 2);
    assert_eq!(v["client_version"], "1.2.3");
    assert_eq!(v.as_object().unwrap().len(), 5);
    let text = join_request("jam", "p1", Some("pw\""), 1, Some("Ringo"), "1.2.3");
    let v: serde_json::Value = serde_json::from_str(&text).unwrap();
    assert_eq!(v["password"], "pw\"");
    assert_eq!(v["display_name"], "Ringo");
    assert_eq!(v.as_object().unwrap().len(), 7);
}

#[test]
fn log_and_leave_messages() {
    let v: serde_json::Value = serde_json::from_str(&log_message("info", "t", "hi", 7)).unwrap();
    assert_eq!(v["type"], "log");
    assert_eq!(v["level"], "info");
    assert_eq!(v["target"], "t");
    assert_eq!(v["message"], "hi");
    assert_eq!(v["timestamp_us"], 7);
    assert_eq!(closing_message(true), None);
    assert_eq!(closing_message(false).unwrap(), "{\"type\":\"leave\"}");
}

#[test]
fn only_logs_and_metrics_go_out() {
    let mesh = PeerMesh::new("me", 1, Vec::new());
    let log = mesh.send_log("warn", "net", "slow", 3);
    assert_eq!(outgoing(&log), Some(log_message("warn", "net", "slow", 3)));
    let metrics = mesh.send_metrics_report(true, false, Vec::new(), 4, Some(-5));
    assert_eq!(outgoing(&metrics), Some(metrics_message(true, false, &Vec::new(), 4, Some(-5))));
    assert!(matches!(
        metrics,
        SignalMessage::MetricsReport { dc_open: true, plugin_connected: false, ipc_drops: 4, boundary_drift_us: Some(-5), .. }
    ));
    assert_eq!(outgoing(&SignalMessage::PeerLeft { peer_id: "x".into() }), None);
}

fn frame_report(rtt_us: Option<i64>, jitter_us: Option<i64>) -> PeerFrameReport {
    PeerFrameReport {
        frames_expected: 10,
        frames_received: 9,
        rtt_us,
        jitter_us,
        dc_drops: 1,
        late_frames: 2,
        decode_failures: 3,
    }
}

#[test]
fn metrics_report_on_no_peer() {
    let text = metrics_message(true, false, &Vec::new(), 4, None);
    let v: serde_json::Value = serde_json::from_str(&text).unwrap();
    let expected = "{\"type\":\"metrics_report\",\"dc_open\":true,\"plugin_connected\":false,\
        \"per_peer\":{},\"ipc_drops\":4,\"boundary_drift_us\":null}";
    assert_eq!(v, serde_json::from_str::<serde_json::Value>(expected).unwrap());
}

#[test]
fn metrics_report_leaves_unknown_times_out() {
    let peers = vec![
        ("a.b\"".to_string(), frame_report(None, Some(-7))),
        ("type".to_string(), frame_report(Some(8), None)),
    ];
    let text = metrics_message(false, true, &peers, u64::MAX, Some(-5));
    let v: serde_json::Value = serde_json::from_str(&text).unwrap();
    let expected = "{\"type\":\"metrics_report\",\"dc_open\":false,\"plugin_connected\":true,\
        \"per_peer\":{\
        \"a.b\\\"\":{\"frames_expected\":10,\"frames_received\":9,\"jitter_us\":-7,\
        \"dc_drops\":1,\"late_frames\":2,\"decode_failures\":3},\
        \"type\":{\"frames_expected\":10,\"frames_received\":9,\"rtt_us\":8,\
        \"dc_drops\":1,\"late_frames\":2,\"decode_failures\":3}},\
        \"ipc_drops\":18446744073709551615,\"boundary_drift_us\":-5}";
    assert_eq!(v, serde_json::from_str::<serde_json::Value>(expected).unwrap());
}

fn refused(code: &str, min_version: Option<&str>, slots: Option<u64>) -> String {
    let msg = ServerMsg::JoinError {
        code: code.into(),
        min_version: min_version.map(|v| v.to_string()),
        slots_available: slots,
    };
    join_outcome(msg, "0.9.0").err().unwrap()
}

#[test]
fn join_answers() {
    let ok = join_outcome(
        ServerMsg::JoinOk { peers: vec!["a".into()], peer_display_names: vec![("a".into(), None)] },
        "0.9.0",
    );
    assert_eq!(ok.ok().unwrap().peers, vec!["a".to_string()]);
    assert_eq!(
        refused("unauthorized", None, None),
        "Invalid room password — the room exists and the password doesn't match"
    );
    assert_eq!(refused("room_full", None, Some(12)), "Room full — only 12 stream slots available");
    assert_eq!(refused("room_full", None, None), "Room full — only 0 stream slots available");
    assert_eq!(
        refused("version_outdated", Some("1.0.0"), None),
        "Your WAIL version (0.9.0) is outdated. Please update to at least version 1.0.0."
    );
    assert_eq!(
        refused("version_outdated", None, None),
        "Your WAIL version (0.9.0) is outdated. Please update to at least version unknown."
    );
    assert_eq!(refused("teapot", None, None), "Join failed: teapot");
    assert_eq!(
        join_outcome(ServerMsg::Evicted, "0.9.0").err().unwrap(),
        "Unexpected server message before join_ok"
    );
}

#[test]
fn waiting_for_the_join_answer() {
    assert!(matches!(join_step(JoinEvent::Text), JoinStep::Read));
    assert!(matches!(join_step(JoinEvent::Other), JoinStep::Wait));
    match join_step(JoinEvent::Closed) {
        JoinStep::Fail(t) => assert_eq!(t, "WebSocket closed before join response"),
        _ => panic!("closing ends the wait"),
    }
    match join_step(JoinEvent::Failed("reset".into())) {
        JoinStep::Fail(t) => assert_eq!(t, "WebSocket error waiting for join response: reset"),
        _ => panic!("an error ends the wait"),
    }
}

#[test]
fn server_messages_are_delivered() {
    match deliver(ServerMsg::PeerJoined { peer_id: "a".into(), display_name: Some("A".into()) }) {
        Delivery::Control(SignalMessage::PeerJoined { peer_id, display_name }) => {
            assert_eq!((peer_id.as_str(), display_name.as_deref()), ("a", Some("A")));
        }
        _ => panic!("goes to the control plane"),
    }
    assert!(matches!(
        deliver(ServerMsg::PeerLeft { peer_id: "a".into() }),
        Delivery::Control(SignalMessage::PeerLeft { .. })
    ));
    let ping = SyncMessage::Ping { id: 1, sent_at_us: 2 };
    match deliver(ServerMsg::Sync { from: "a".into(), payload: Some(ping) }) {
        Delivery::Sync { from, message } => {
            assert_eq!(from, "a");
            assert!(matches!(message, SyncMessage::Ping { id: 1, sent_at_us: 2 }));
        }
        _ => panic!("goes to the sync receiver"),
    }
    assert!(matches!(deliver(ServerMsg::Sync { from: "a".into(), payload: None }), Delivery::Nothing));
    assert!(matches!(deliver(ServerMsg::Evicted), Delivery::Stop));
    assert!(matches!(deliver(ServerMsg::Signal), Delivery::Nothing));
    let log = ServerMsg::Log {
        from: "a".into(),
        level: "info".into(),
        target: "t".into(),
        message: "m".into(),
        timestamp_us: 9,
    };
    assert!(matches!(
        deliver(log),
        Delivery::Control(SignalMessage::LogBroadcast { timestamp_us: 9, .. })
    ));
}

#[test]
fn sender_frames() {
    assert_eq!(parse_sender_frame(&[2, b'a', b'b', 7, 8]), Ok(("ab".to_string(), vec![7, 8])));
    assert_eq!(parse_sender_frame(&[0, 7]), Ok((String::new(), vec![7])));
    assert_eq!(parse_sender_frame(&[]), Err(SenderError::Empty));
    assert_eq!(parse_sender_frame(&[3, b'a', b'b']), Err(SenderError::TooShort));
    assert_eq!(parse_sender_frame(&[2, 0xff, 0xfe, 1]), Err(SenderError::BadSender));
    assert_eq!(parse_sender_frame(&[2, 0xc3, 0xa9]), Ok(("é".to_string(), vec![])));
}

#[test]
fn mesh_tracks_presence() {
    let mut mesh = PeerMesh::new("me", 3, vec![("a".into(), Some("A".into()))]);
    assert!(!mesh.any_audio_dc_open());
    assert_eq!(mesh.stream_count(), 3);
    assert_eq!(mesh.peer_id(), "me");
    let list = SignalMessage::PeerList { peers: vec!["a".into(), "me".into(), "b".into(), "a".into()] };
    assert!(matches!(mesh.handle_signal_message(list), Some(MeshEvent::PeerListReceived(4))));
    assert_eq!(mesh.connected_peers(), vec!["a".to_string(), "b".to_string()]);
    assert!(mesh.any_audio_dc_open());
    assert!(!mesh.is_peer_audio_dc_open("me"));

    let joined = SignalMessage::PeerJoined { peer_id: "c".into(), display_name: None };
    match mesh.handle_signal_message(joined) {
        Some(MeshEvent::PeerJoined { peer_id, display_name: None }) => assert_eq!(peer_id, "c"),
        _ => panic!("a join is an event"),
    }
    assert!(mesh.is_peer_audio_dc_open("c"));
    let left = SignalMessage::PeerLeft { peer_id: "a".into() };
    assert!(matches!(mesh.handle_signal_message(left), Some(MeshEvent::PeerLeft(p)) if p == "a"));
    assert_eq!(mesh.peer_network_state("a"), None);
    assert_eq!(
        mesh.peer_network_state("b"),
        Some(("connected".to_string(), "open".to_string(), "open".to_string()))
    );
    mesh.remove_peer("b");
    assert_eq!(mesh.connected_peers(), vec!["c".to_string()]);
    let ignored = SignalMessage::Join { room: "r".into(), peer_id: "p".into() };
    assert!(mesh.handle_signal_message(ignored).is_none());
    let log = mesh.send_log("l", "t", "m", 1);
    assert!(matches!(
        mesh.handle_signal_message(log),
        Some(MeshEvent::PeerLogBroadcast { timestamp_us: 1, .. })
    ));
}

#[test]
fn mesh_hands_names_out_once_and_counts_drops() {
    let mut mesh = PeerMesh::new("me", 1, vec![("a".into(), None)]);
    assert_eq!(mesh.take_initial_peer_names(), vec![("a".to_string(), None)]);
    assert!(mesh.take_initial_peer_names().is_empty());
    mesh.audio_queued(true);
    assert_eq!(mesh.dc_audio_drops("a"), 0);
    mesh.audio_queued(false);
    mesh.audio_queued(false);
    assert_eq!(mesh.dc_audio_drops("b"), 2);
}

#[test]
fn mesh_reconnects() {
    let mut mesh = PeerMesh::new("me", 1, Vec::new());
    mesh.handle_signal_message(SignalMessage::PeerList { peers: vec!["a".into()] });
    let first = SignalMessage::PeerList { peers: vec!["b".into(), "me".into()] };
    assert!(mesh.reconnected(vec![("b".into(), None)], Some(first)));
    assert_eq!(mesh.connected_peers(), vec!["a".to_string(), "b".to_string()]);
    assert_eq!(mesh.take_initial_peer_names().len(), 1);
    assert!(!mesh.reconnected(Vec::new(), None));
    assert!(!mesh.reconnected(Vec::new(), Some(SignalMessage::PeerLeft { peer_id: "a".into() })));
    assert_eq!(mesh.connected_peers().len(), 2);
}

#[test]
fn long_audio_is_chunked_and_reassembled() {
    let data: Vec<u8> = (0..3000u32).map(|i| (i % 251) as u8).collect();
    let messages = split_audio(&data);
    assert_eq!(messages.len(), 3);
    assert!(messages.iter().all(|m| m.len() <= CHUNK_MAX));
    assert_eq!(&messages[0][..8], &[b'W', b'A', b'C', b'H', 0xb8, 0x0b, 0, 0]);
    let mut r = AudioReassembly::new();
    assert_eq!(r.on_message(&messages[0]), None);
    assert_eq!(r.on_message(&messages[1]), None);
    assert_eq!(r.on_message(&messages[2]), Some(data));
    // Ready for the next one
    assert_eq!(split_audio(&[1, 2, 3]), vec![vec![1, 2, 3]]);
    assert_eq!(r.on_message(&[1, 2, 3]), Some(vec![1, 2, 3]));
}

#[test]
fn sync_messages_wait_for_the_channel() {
    let mut pending = Vec::new();
    assert_eq!(send_or_queue(&mut pending, false, "a".into()), None);
    assert_eq!(send_or_queue(&mut pending, false, "b".into()), None);
    assert_eq!(take_pending(&mut pending), vec!["a".to_string(), "b".to_string()]);
    assert!(pending.is_empty());
    assert_eq!(send_or_queue(&mut pending, true, "c".into()), Some("c".to_string()));
    assert!(pending.is_empty());
}

fn candidate(text: &str) -> Candidate {
    Candidate { candidate: text.into(), sdp_mid: None, sdp_mline_index: Some(0) }
}

#[test]
fn candidates_wait_for_the_remote_description() {
    let mut queue = CandidateQueue::new();
    assert!(queue.add_ice_candidate(candidate("one")).is_none());
    assert!(queue.add_ice_candidate(candidate("two")).is_none());
    let waiting = queue.remote_description_set();
    assert_eq!(waiting.len(), 2);
    assert_eq!(waiting[0].candidate, "one");
    assert_eq!(queue.add_ice_candidate(candidate("three")).unwrap().candidate, "three");
    assert!(queue.remote_description_set().is_empty());
}

#[test]
fn channels_by_label() {
    assert!(matches!(channel_role("sync"), ChannelRole::Sync));
    assert!(matches!(channel_role("audio"), ChannelRole::Audio));
    assert!(matches!(channel_role("video"), ChannelRole::Unknown));
}
