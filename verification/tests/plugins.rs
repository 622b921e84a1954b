use wail::codec::AudioDecoder;
use wail::editor::{peer_count_label, row_label, EditorData, SlotVisual, NAME_BUF_LEN, SPARKLINE_LEN};
use wail::ipc::{IpcFramer, IpcMessage, IpcRecvBuffer};
use wail::names::NameTable;
use wail::recv::{PeerEvent, WailRecvPlugin};
use wail::recv_link::{decoder_for, packet_samples, IpcAction, ReadOutcome, ReadStep, RecvLink};
use wail::send::{frame_message, handshake, RawFrame, WailSendParams, WailSendPlugin};
use wail::wire::{AudioFrame, AudioFrameWire};

const CAPACITY: usize = 100_000;

fn mix(a: u32, b: u32) -> u32 {
    (f32::from_bits(a) + f32::from_bits(b)).to_bits()
}

fn fade(new: u32, _tail: u32, _i: usize, _n: usize) -> u32 {
    new
}

fn bpm() -> u64 {
    120f64.to_bits()
}

#[test]
fn send_params_have_defaults_and_a_range() {
    let p = WailSendParams::default();
    assert_eq!((p.stream_index, p.passthrough), (1, false));
    assert_eq!(WailSendParams::new(0, true).stream_index, 1);
    assert_eq!(WailSendParams::new(15, true).stream_index, 14);
    assert_eq!(WailSendParams::new(7, true).stream_index, 7);
}

#[test]
fn sender_streams_whole_frames() {
    let mut s = WailSendPlugin::new(48000, 1, CAPACITY);
    let mut playback = vec![0u32; 1000];
    let input: Vec<u32> = (0..1000).collect();
    let (_, frames) = s.capture(&input, &mut playback, 0, 3, &mix, &fade);
    assert_eq!(frames.len(), 1);
    assert_eq!(frames[0].samples, input[..960].to_vec());
    assert_eq!((frames[0].stream_id, frames[0].frame_number, frames[0].is_final), (3, 0, false));
    let (_, frames) = s.capture(&input, &mut playback, 0, 3, &mix, &fade);
    assert_eq!(frames.len(), 1);
    assert_eq!(frames[0].frame_number, 1);
    assert_eq!(frames[0].samples[..40], input[960..]);
    assert_eq!(frames[0].samples[40..], input[..920]);
}

#[test]
fn sender_closes_an_interval() {
    let mut s = WailSendPlugin::new(48000, 1, CAPACITY);
    let mut playback = vec![0u32; 1000];
    let input: Vec<u32> = vec![1; 1000];
    s.capture(&input, &mut playback, 0, 0, &mix, &fade);
    let (done, frames) = s.capture(&input, &mut playback, 1, 0, &mix, &fade);
    assert_eq!(done.len(), 1);
    assert_eq!(done[0].samples, input);
    // The rest of interval 0, then the first whole frame of interval 1
    assert_eq!(frames.len(), 2);
    assert!(frames[0].is_final);
    assert_eq!(frames[0].interval_index, 0);
    assert_eq!(frames[0].samples.len(), 40);
    assert_eq!((frames[0].frame_number, frames[0].total_frames), (1, 2));
    assert_eq!(frames[0].sample_rate, 48000);
    assert_eq!((frames[1].interval_index, frames[1].frame_number), (1, 0));
}

#[test]
fn sender_closes_an_interval_without_rest() {
    let mut s = WailSendPlugin::new(48000, 2, CAPACITY);
    let mut playback = vec![0u32; 1920];
    s.capture(&vec![1; 1920], &mut playback, 0, 0, &mix, &fade);
    let (_, frames) = s.capture(&[], &mut playback, 1, 0, &mix, &fade);
    assert_eq!(frames.len(), 1);
    assert!(frames[0].is_final);
    assert!(frames[0].samples.is_empty());
    assert_eq!((frames[0].frame_number, frames[0].total_frames), (1, 1));
}

#[test]
fn sender_starts_over_with_the_transport() {
    let mut s = WailSendPlugin::new(48000, 1, CAPACITY);
    let mut playback = vec![0u32; 100];
    assert_eq!(s.begin(true, 100, bpm()), 0);
    s.capture(&vec![1; 100], &mut playback, 0, 0, &mix, &fade);
    assert_eq!(s.begin(true, 100, bpm()), 100);
    assert_eq!(s.begin(false, 100, bpm()), 200);
    assert_eq!(s.begin(true, 100, bpm()), 0);
    // What waited is gone, and no interval is closed
    let (_, frames) = s.capture(&vec![2; 960], &mut playback, 5, 0, &mix, &fade);
    assert_eq!(frames.len(), 1);
    assert_eq!(frames[0].samples, vec![2; 960]);
    s.reset();
    assert_eq!(s.begin(true, 100, bpm()), 0);
}

#[test]
fn handshake_names_role_and_stream() {
    assert_eq!(handshake(0x0102), vec![0x00, 0x02, 0x01]);
}

#[test]
fn sent_frame_reaches_the_app() {
    let raw = RawFrame {
        samples: vec![1, 2],
        interval_index: 9,
        stream_id: 2,
        frame_number: 4,
        channels: 2,
        is_final: true,
        sample_rate: 48000,
        total_frames: 5,
        bpm_bits: bpm(),
        quantum_bits: 4f64.to_bits(),
        bars: 4,
    };
    let mut buf = IpcRecvBuffer::new();
    buf.push(&frame_message(&raw, vec![7, 8, 9]));
    let wire = IpcMessage::decode_audio_frame(&buf.next_frame().unwrap()).unwrap();
    let frame = AudioFrameWire::decode(&wire).ok().unwrap();
    assert_eq!(frame.interval_index, 9);
    assert_eq!(frame.opus_data, vec![7, 8, 9]);
    assert_eq!((frame.total_frames, frame.bars), (5, 4));
}

#[test]
fn receiver_is_silent_before_audio() {
    let mut r = WailRecvPlugin::new(48000, 2, CAPACITY);
    let mut out = vec![7u32; 8];
    r.play(&mut out, &mix, &fade);
    assert_eq!(out, vec![0; 8]);
    assert_eq!(r.remote_interval(), None);
    assert_eq!(r.show_interval(), (0, false));
}

#[test]
fn receiver_plays_and_names_outputs() {
    let mut r = WailRecvPlugin::new(48000, 2, CAPACITY);
    let sound = vec![0.5f32.to_bits(); 4];
    assert!(!r.on_peer_event(PeerEvent::Connected));
    assert!(r.ipc_connected());
    r.on_peer_event(PeerEvent::NameChanged { peer_id: "a".into(), display_name: "Ringo".into() });
    assert!(r.rename_outputs().is_empty());

    let mut out = vec![0u32; 4];
    r.on_audio("a".into(), 0, 3, sound.clone(), &mix);
    r.play(&mut out, &mix, &fade);
    r.on_audio("a".into(), 0, 4, vec![0; 4], &mix);
    r.play(&mut out, &mix, &fade);
    assert_eq!(out, sound);
    assert_eq!(r.remote_interval(), Some(4));
    // An older interval does not move the ring back
    r.on_audio("a".into(), 0, 2, vec![0; 4], &mix);
    assert_eq!(r.remote_interval(), Some(4));
    assert_eq!(r.show_interval(), (4, true));
    assert_eq!(r.show_interval(), (4, false));

    assert_eq!(r.rename_outputs(), vec![(0, "Ringo".to_string())]);
    assert!(r.rename_outputs().is_empty());
    let mut slot = vec![0u32; 4];
    assert_eq!(r.read_peer_playback(0, &mut slot), 4);
    assert_eq!(slot, sound);
}

#[test]
fn receiver_numbers_the_streams_of_a_peer() {
    let mut r = WailRecvPlugin::new(48000, 2, CAPACITY);
    let mut out = vec![0u32; 4];
    r.on_peer_event(PeerEvent::NameChanged { peer_id: "a".into(), display_name: "Ringo".into() });
    r.on_audio("a".into(), 0, 0, vec![1; 4], &mix);
    r.on_audio("a".into(), 1, 0, vec![1; 4], &mix);
    r.play(&mut out, &mix, &fade);
    r.on_audio("a".into(), 0, 1, vec![1; 4], &mix);
    r.play(&mut out, &mix, &fade);
    assert_eq!(
        r.rename_outputs(),
        vec![(0, "Ringo 1".to_string()), (1, "Ringo 2".to_string())]
    );
    // A peer that left loses its names, so that they are given again
    r.on_peer_event(PeerEvent::Left { peer_id: "a".into() });
    assert!(r.rename_outputs().is_empty());
    r.on_audio("a".into(), 1, 1, vec![1; 4], &mix);
    r.play(&mut out, &mix, &fade);
    r.on_audio("a".into(), 1, 2, vec![1; 4], &mix);
    r.play(&mut out, &mix, &fade);
    assert_eq!(
        r.rename_outputs(),
        vec![(0, "Ringo 1".to_string()), (1, "Ringo 2".to_string())]
    );
}

#[test]
fn receiver_forgets_on_disconnect() {
    let mut r = WailRecvPlugin::new(48000, 2, CAPACITY);
    let mut out = vec![0u32; 4];
    r.on_peer_event(PeerEvent::Connected);
    r.on_peer_event(PeerEvent::Joined { peer_id: "a".into(), identity: "alice".into() });
    r.on_audio("a".into(), 0, 0, vec![1; 4], &mix);
    r.play(&mut out, &mix, &fade);
    assert!(r.on_peer_event(PeerEvent::Disconnected));
    assert!(!r.ipc_connected());
    assert_eq!(r.remote_interval(), None);
    r.play(&mut out, &mix, &fade);
    assert_eq!(out, vec![0; 4]);
    assert_eq!(r.begin(true, 10, bpm()), 0);
    assert_eq!(r.begin(false, 10, bpm()), 10);
    assert_eq!(r.begin(true, 10, bpm()), 0);
    r.initialize(44100, 1, CAPACITY);
    assert_eq!(r.begin(true, 10, bpm()), 0);
    r.reset();
    assert_eq!(r.begin(true, 10, bpm()), 0);
}

#[test]
fn editor_shows_active_slots() {
    let mut r = WailRecvPlugin::new(48000, 2, CAPACITY);
    let mut editor = EditorData::new();
    assert_eq!(f64::from_bits(editor.bpm_bits), 120.0);
    assert!(editor.snapshot().is_empty());
    let mut out = vec![0u32; 4];
    r.on_peer_event(PeerEvent::Connected);
    r.on_peer_event(PeerEvent::NameChanged { peer_id: "a".into(), display_name: "Ringo".into() });
    r.on_audio("a".into(), 0, 0, vec![1; 4], &mix);
    r.play(&mut out, &mix, &fade);
    r.on_audio("a".into(), 0, 1, vec![1; 4], &mix);
    r.play(&mut out, &mix, &fade);
    editor.slots[0].push_rms(5, true);
    editor.slots[0].set_peak(6);
    r.show_slots(&mut editor);
    assert!(editor.ipc_connected);
    let drawn = editor.snapshot();
    assert_eq!(drawn.len(), 1);
    assert_eq!(drawn[0].name, "Ringo");
    assert_eq!(drawn[0].peak, 6);
    assert_eq!(drawn[0].history.len(), SPARKLINE_LEN);
    assert_eq!(*drawn[0].history.last().unwrap(), (5, true));
    r.on_peer_event(PeerEvent::Left { peer_id: "a".into() });
    r.show_slots(&mut editor);
    assert!(editor.snapshot().is_empty());
}

#[test]
fn visual_keeps_the_latest_levels() {
    let mut v = SlotVisual::default();
    for i in 0..SPARKLINE_LEN as u32 + 3 {
        v.push_rms(i, i == 5);
    }
    let h = v.history();
    assert_eq!(h[0], (3, false));
    assert_eq!(h[2], (5, true));
    assert_eq!(h[SPARKLINE_LEN - 1].0, SPARKLINE_LEN as u32 + 2);
}

#[test]
fn visual_keeps_short_names() {
    let mut v = SlotVisual::new();
    assert_eq!(v.name_str(), "");
    v.set_name("Zoë");
    assert_eq!(v.name_str(), "Zoë");
    let long = "x".repeat(NAME_BUF_LEN + 5);
    v.set_name(&long);
    assert_eq!(v.name_str(), "x".repeat(NAME_BUF_LEN));
    // A character that is cut in the middle cannot be shown
    let cut = "x".repeat(NAME_BUF_LEN - 1) + "é";
    v.set_name(&cut);
    assert_eq!(v.name_str(), "?");
}

#[test]
fn editor_labels() {
    assert_eq!(peer_count_label(0), "0 peers");
    assert_eq!(peer_count_label(1), "1 peer");
    assert_eq!(peer_count_label(12), "12 peers");
    assert_eq!(row_label(""), "???");
    assert_eq!(row_label("Ringo"), "Ringo");
}

#[test]
fn names_are_replaced() {
    let mut names = NameTable::new();
    assert_eq!(names.get("a"), None);
    names.insert("a".into(), "one".into());
    names.insert("b".into(), "two".into());
    names.insert("a".into(), "three".into());
    assert_eq!(names.get("a"), Some("three"));
    assert_eq!(names.get("b"), Some("two"));
    names.clear();
    assert_eq!(names.get("b"), None);
}

fn frame(stream_id: u16, opus_data: Vec<u8>) -> Vec<u8> {
    AudioFrameWire::encode(&AudioFrame {
        interval_index: 7,
        stream_id,
        frame_number: 0,
        channels: 2,
        opus_data,
        is_final: false,
        sample_rate: 0,
        total_frames: 0,
        bpm_bits: 0,
        quantum_bits: 0,
        bars: 0,
    })
}

#[test]
fn link_decodes_each_stream_with_one_decoder() {
    let mut link = RecvLink::new();
    let one = IpcFramer::encode_frame(&IpcMessage::encode_audio("a", &frame(0, vec![1, 2])));
    let actions = link.on_bytes(&one);
    assert_eq!(actions.len(), 1);
    assert!(matches!(
        &actions[0],
        IpcAction::Decode { peer_id, stream_id: 0, interval_index: 7, opus_data, new_decoder: true }
            if peer_id == "a" && *opus_data == [1, 2]
    ));
    assert!(matches!(&link.on_bytes(&one)[0], IpcAction::Decode { new_decoder: false, .. }));
    let empty = IpcFramer::encode_frame(&IpcMessage::encode_audio("a", &frame(1, Vec::new())));
    assert!(matches!(&link.on_bytes(&empty)[0], IpcAction::Prepare { stream_id: 1, .. }));
    assert!(matches!(&link.on_bytes(&empty)[0], IpcAction::Ignore));
    // A peer that left starts over
    let left = IpcFramer::encode_frame(&IpcMessage::encode_peer_left("a"));
    assert!(matches!(&link.on_bytes(&left)[0], IpcAction::Event(PeerEvent::Left { .. })));
    assert!(matches!(&link.on_bytes(&one)[0], IpcAction::Decode { new_decoder: true, .. }));
}

#[test]
fn link_hands_events_on_and_ignores_the_rest() {
    let mut link = RecvLink::new();
    let mut bytes = IpcFramer::encode_frame(&IpcMessage::encode_peer_joined("a", "alice"));
    bytes.extend(IpcFramer::encode_frame(&IpcMessage::encode_peer_name("a", "Ringo")));
    bytes.extend(IpcFramer::encode_frame(&IpcMessage::encode_audio("a", b"WAILold")));
    bytes.extend(IpcFramer::encode_frame(&[0x7f, 1]));
    bytes.extend(IpcFramer::encode_frame(&[]));
    // Split in the middle of the second message
    let first = link.on_bytes(&bytes[..20]);
    let rest = link.on_bytes(&bytes[20..]);
    assert_eq!(first.len() + rest.len(), 5);
    let all: Vec<IpcAction> = first.into_iter().chain(rest).collect();
    assert!(matches!(
        &all[0],
        IpcAction::Event(PeerEvent::Joined { peer_id, identity }) if peer_id == "a" && identity == "alice"
    ));
    assert!(matches!(
        &all[1],
        IpcAction::Event(PeerEvent::NameChanged { display_name, .. }) if display_name == "Ringo"
    ));
    assert!(all[2..].iter().all(|a| matches!(a, IpcAction::Ignore)));
}

#[test]
fn link_reads_until_told_otherwise() {
    let mut link = RecvLink::new();
    assert!(matches!(link.connected(), PeerEvent::Connected));
    assert!(matches!(link.on_read(ReadOutcome::TimedOut, false), ReadStep::ReadOn));
    assert!(matches!(link.on_read(ReadOutcome::TimedOut, true), ReadStep::Exit));
    let one = IpcFramer::encode_frame(&IpcMessage::encode_audio("a", &frame(0, vec![1])));
    match link.on_read(ReadOutcome::Bytes(one.clone()), true) {
        ReadStep::Act(actions) => assert_eq!(actions.len(), 1),
        _ => panic!("bytes are handled"),
    }
    assert!(matches!(
        link.on_read(ReadOutcome::Closed, false),
        ReadStep::Reconnect(PeerEvent::Disconnected)
    ));
    assert!(matches!(link.on_read(ReadOutcome::Failed, false), ReadStep::Reconnect(_)));
    assert!(matches!(&link.on_bytes(&one)[0], IpcAction::Decode { new_decoder: true, .. }));
}

#[test]
fn lost_packets_are_concealed_or_silent() {
    let decoder: AudioDecoder = decoder_for(44100, 2).unwrap();
    assert_eq!(decoder.sample_rate(), 48000);
    assert!(decoder_for(44100, 3).is_none());
    assert_eq!(packet_samples(Some(vec![1]), Some(vec![2]), &decoder), vec![1]);
    assert_eq!(packet_samples(None, Some(vec![2]), &decoder), vec![2]);
    assert_eq!(packet_samples(None, None, &decoder), vec![0; 1920]);
}

#[test]
fn text_that_is_not_utf8_is_replaced() {
    // Tag, length 2, bytes that are not UTF-8
    let peer = IpcMessage::decode_peer_left(&[0x03, 2, 0xff, b'x']).unwrap();
    assert_eq!(peer, "\u{fffd}x");
}

#[test]
fn output_passes_or_is_silenced() {
    let channels = vec![vec![1u32, 2], vec![3]];
    let mut out = channels.clone();
    WailSendParams::new(1, true).pass_through(&mut out);
    assert_eq!(out, channels);
    WailSendParams::new(1, false).pass_through(&mut out);
    assert_eq!(out, vec![vec![0u32, 0], vec![0]]);
}

#[test]
fn an_interval_is_streamed_whole() {
    // 20 ms at 48 kHz mono are 960 samples
    let mut sender = WailSendPlugin::new(48000, 1, 100_000);
    let audio: Vec<u32> = (0..2500).collect();
    let mut frames = Vec::new();
    for piece in audio.chunks(700) {
        let mut out = vec![0u32; piece.len()];
        sender.begin(true, piece.len() as u64, bpm());
        frames.extend(sender.capture(piece, &mut out, 4, 2, &mix, &fade).1);
    }
    sender.begin(true, 0, bpm());
    frames.extend(sender.capture(&[], &mut [], 5, 2, &mix, &fade).1);
    let numbers: Vec<u32> = frames.iter().map(|f| f.frame_number).collect();
    assert_eq!(numbers, vec![0, 1, 2]);
    let sizes: Vec<usize> = frames.iter().map(|f| f.samples.len()).collect();
    assert_eq!(sizes, vec![960, 960, 580]);
    assert!(frames.iter().all(|f| f.interval_index == 4 && f.stream_id == 2));
    assert!(!frames[0].is_final && !frames[1].is_final && frames[2].is_final);
    assert_eq!(frames[2].total_frames, 3);
    let joined: Vec<u32> = frames.iter().flat_map(|f| f.samples.clone()).collect();
    assert_eq!(joined, audio);
}

#[test]
fn sender_processes_a_buffer_of_the_host() {
    let mut s = WailSendPlugin::new(48000, 2, CAPACITY);
    let settings = WailSendParams::new(3, true);
    let left: Vec<u32> = (0..960).collect();
    let right: Vec<u32> = (1000..1960).collect();
    let mut channels = vec![left.clone(), right.clone()];
    let at_start = |start: u64| {
        assert_eq!(start, 0);
        7
    };
    let (done, frames) = s.process(&mut channels, 960, true, bpm(), &settings, &at_start, &mix, &fade);
    assert!(done.is_empty());
    assert_eq!(channels, vec![left.clone(), right.clone()]);
    assert_eq!(frames.len(), 1);
    assert_eq!((frames[0].interval_index, frames[0].stream_id), (7, 3));
    assert_eq!(frames[0].samples.len(), 1920);
    assert_eq!(frames[0].samples[..4], [0, 1000, 1, 1001]);
    assert_eq!((frames[0].bpm_bits, frames[0].bars), (bpm(), 4));

    // While the transport stands still, silence is sent; the output is silenced too
    let quiet = WailSendParams::new(3, false);
    let next = |start: u64| {
        assert_eq!(start, 960);
        8
    };
    let (done, frames) = s.process(&mut channels, 960, false, bpm(), &quiet, &next, &mix, &fade);
    assert_eq!(done.len(), 1);
    assert_eq!(done[0].samples.len(), 1920);
    assert_eq!(channels, vec![vec![0; 960], vec![0; 960]]);
    assert_eq!(frames.len(), 2);
    assert!(frames[0].is_final && frames[0].samples.is_empty());
    assert_eq!(frames[1].samples, vec![0; 1920]);

    // Starting again starts over
    let mut channels = vec![left.clone(), right];
    let (done, frames) = s.process(&mut channels, 960, true, bpm(), &quiet, &at_start, &mix, &fade);
    assert!(done.is_empty());
    assert_eq!(frames.len(), 1);
    assert_eq!(frames[0].frame_number, 0);
}
