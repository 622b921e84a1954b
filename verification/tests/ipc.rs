use wail::ipc::{IpcFramer, IpcMessage, IpcRecvBuffer, IPC_ROLE_RECV, IPC_ROLE_SEND, IPC_TAG_AUDIO, IPC_TAG_AUDIO_FRAME, IPC_TAG_AUDIO_FRAME_PUB, IPC_TAG_METRICS, IPC_TAG_METRICS_PUB, IPC_TAG_PEER_JOINED, IPC_TAG_PEER_LEFT, IPC_TAG_PEER_NAME};

// --- IpcFramer ---

#[test]
fn encode_frame_prepends_length() {
    let payload = vec![1u8, 2, 3, 4, 5];
    let frame = IpcFramer::encode_frame(&payload);
    assert_eq!(frame.len(), 9);
    assert_eq!(&frame[0..4], &5u32.to_le_bytes());
    assert_eq!(&frame[4..], &[1, 2, 3, 4, 5]);
}

#[test]
fn encode_empty_payload() {
    let frame = IpcFramer::encode_frame(&[]);
    assert_eq!(frame.len(), 4);
    assert_eq!(&frame[0..4], &0u32.to_le_bytes());
}

#[test]
fn decode_frame_from_complete_buffer() {
    let payload = vec![10u8, 20, 30];
    let frame = IpcFramer::encode_frame(&payload);
    let (decoded, consumed) = IpcFramer::decode_frame(&frame).unwrap();
    assert_eq!(decoded, vec![10, 20, 30]);
    assert_eq!(consumed, 7);
}

#[test]
fn decode_returns_none_for_incomplete_header() {
    assert!(IpcFramer::decode_frame(&[0, 0]).is_none());
}

#[test]
fn decode_returns_none_for_incomplete_payload() {
    let mut buf = Vec::new();
    buf.extend_from_slice(&10u32.to_le_bytes());
    buf.extend_from_slice(&[1, 2, 3]);
    assert!(IpcFramer::decode_frame(&buf).is_none());
}

#[test]
fn decode_frame_with_trailing_data() {
    let frame1 = IpcFramer::encode_frame(&[0xAA, 0xBB]);
    let frame2 = IpcFramer::encode_frame(&[0xCC]);
    let mut buf = frame1.clone();
    buf.extend_from_slice(&frame2);

    let (payload, consumed) = IpcFramer::decode_frame(&buf).unwrap();
    assert_eq!(payload, vec![0xAA, 0xBB]);
    assert_eq!(consumed, 6);
    assert_eq!(buf.len() - consumed, 5);
}

// --- IpcRecvBuffer ---

#[test]
fn recv_buffer_empty_on_create() {
    let buf = IpcRecvBuffer::new();
    assert_eq!(buf.buffered(), 0);
}

#[test]
fn recv_buffer_yields_complete_frame() {
    let mut buf = IpcRecvBuffer::new();
    let frame = IpcFramer::encode_frame(&[1, 2, 3]);
    buf.push(&frame);

    let payload = buf.next_frame().unwrap();
    assert_eq!(payload, vec![1, 2, 3]);
    assert_eq!(buf.buffered(), 0);
}

#[test]
fn recv_buffer_handles_partial_delivery() {
    let mut buf = IpcRecvBuffer::new();
    let frame = IpcFramer::encode_frame(&[10, 20, 30, 40, 50]);

    buf.push(&frame[..3]);
    assert!(buf.next_frame().is_none());
    assert_eq!(buf.buffered(), 3);

    buf.push(&frame[3..]);
    let payload = buf.next_frame().unwrap();
    assert_eq!(payload, vec![10, 20, 30, 40, 50]);
    assert_eq!(buf.buffered(), 0);
}

#[test]
fn recv_buffer_handles_multiple_frames_in_one_push() {
    let mut buf = IpcRecvBuffer::new();
    let frame1 = IpcFramer::encode_frame(&[0xAA]);
    let frame2 = IpcFramer::encode_frame(&[0xBB, 0xCC]);

    let mut combined = frame1;
    combined.extend_from_slice(&frame2);
    buf.push(&combined);

    let p1 = buf.next_frame().unwrap();
    assert_eq!(p1, vec![0xAA]);

    let p2 = buf.next_frame().unwrap();
    assert_eq!(p2, vec![0xBB, 0xCC]);

    assert!(buf.next_frame().is_none());
    assert_eq!(buf.buffered(), 0);
}

#[test]
fn recv_buffer_handles_byte_at_a_time() {
    let mut buf = IpcRecvBuffer::new();
    let frame = IpcFramer::encode_frame(&[42]);

    for (i, &byte) in frame.iter().enumerate() {
        buf.push(&[byte]);
        if i < frame.len() - 1 {
            assert!(buf.next_frame().is_none(), "Should not yield frame at byte {i}");
        }
    }

    let payload = buf.next_frame().unwrap();
    assert_eq!(payload, vec![42]);
}

// --- IpcMessage ---

#[test]
fn ipc_message_roundtrip_with_peer_id() {
    let wire_data = vec![0x01, 0x02, 0x03, 0x04];
    let encoded = IpcMessage::encode_audio("peer-abc", &wire_data);
    let (peer_id, decoded_wire) = IpcMessage::decode_audio(&encoded).unwrap();
    assert_eq!(peer_id, "peer-abc");
    assert_eq!(decoded_wire, wire_data);
}

#[test]
fn ipc_message_roundtrip_empty_peer_id() {
    let wire_data = vec![0xAA, 0xBB];
    let encoded = IpcMessage::encode_audio("", &wire_data);
    let (peer_id, decoded_wire) = IpcMessage::decode_audio(&encoded).unwrap();
    assert_eq!(peer_id, "");
    assert_eq!(decoded_wire, wire_data);
}

#[test]
fn ipc_message_decode_rejects_short() {
    assert!(IpcMessage::decode_audio(&[]).is_none());
    assert!(IpcMessage::decode_audio(&[0x01]).is_none());
}

#[test]
fn ipc_message_decode_rejects_wrong_tag() {
    assert!(IpcMessage::decode_audio(&[0xFF, 0x00]).is_none());
}

#[test]
fn ipc_message_through_framing() {
    let wire_data = vec![0xDE, 0xAD];
    let msg = IpcMessage::encode_audio("peer-1", &wire_data);
    let frame = IpcFramer::encode_frame(&msg);

    let mut recv = IpcRecvBuffer::new();
    recv.push(&frame);
    let payload = recv.next_frame().unwrap();

    let (peer_id, decoded) = IpcMessage::decode_audio(&payload).unwrap();
    assert_eq!(peer_id, "peer-1");
    assert_eq!(decoded, vec![0xDE, 0xAD]);
}

// --- IPC Role ---

#[test]
fn ipc_role_byte_constants_exist() {
    assert_eq!(IPC_ROLE_SEND, 0x00);
    assert_eq!(IPC_ROLE_RECV, 0x01);
}

// --- Peer lifecycle messages ---

#[test]
fn peer_joined_roundtrip() {
    let encoded = IpcMessage::encode_peer_joined("peer-abc", "uuid-1234");
    let (peer_id, identity) = IpcMessage::decode_peer_joined(&encoded).unwrap();
    assert_eq!(peer_id, "peer-abc");
    assert_eq!(identity, "uuid-1234");
}

#[test]
fn peer_joined_empty_identity() {
    let encoded = IpcMessage::encode_peer_joined("peer-abc", "");
    let (peer_id, identity) = IpcMessage::decode_peer_joined(&encoded).unwrap();
    assert_eq!(peer_id, "peer-abc");
    assert_eq!(identity, "");
}

#[test]
fn peer_joined_rejects_wrong_tag() {
    let encoded = IpcMessage::encode_audio("peer-1", &[0xAA]);
    assert!(IpcMessage::decode_peer_joined(&encoded).is_none());
}

#[test]
fn peer_left_roundtrip() {
    let encoded = IpcMessage::encode_peer_left("peer-xyz");
    let peer_id = IpcMessage::decode_peer_left(&encoded).unwrap();
    assert_eq!(peer_id, "peer-xyz");
}

#[test]
fn peer_left_rejects_wrong_tag() {
    let encoded = IpcMessage::encode_audio("peer-1", &[0xBB]);
    assert!(IpcMessage::decode_peer_left(&encoded).is_none());
}

#[test]
fn tag_extraction() {
    assert_eq!(IpcMessage::tag(&[IPC_TAG_AUDIO, 0x00]), Some(IPC_TAG_AUDIO));
    assert_eq!(IpcMessage::tag(&[IPC_TAG_PEER_JOINED, 0x05]), Some(IPC_TAG_PEER_JOINED));
    assert_eq!(IpcMessage::tag(&[IPC_TAG_PEER_LEFT, 0x03]), Some(IPC_TAG_PEER_LEFT));
    assert_eq!(IpcMessage::tag(&[IPC_TAG_PEER_NAME, 0x02]), Some(IPC_TAG_PEER_NAME));
    assert_eq!(IpcMessage::tag(&[]), None);
}

// --- PeerName messages ---

#[test]
fn peer_name_roundtrip() {
    let encoded = IpcMessage::encode_peer_name("peer-abc", "Ringo");
    let (peer_id, name) = IpcMessage::decode_peer_name(&encoded).unwrap();
    assert_eq!(peer_id, "peer-abc");
    assert_eq!(name, "Ringo");
}

#[test]
fn peer_name_empty_display_name() {
    let encoded = IpcMessage::encode_peer_name("peer-abc", "");
    let (peer_id, name) = IpcMessage::decode_peer_name(&encoded).unwrap();
    assert_eq!(peer_id, "peer-abc");
    assert_eq!(name, "");
}

#[test]
fn peer_name_rejects_wrong_tag() {
    let encoded = IpcMessage::encode_audio("peer-1", &[0xAA]);
    assert!(IpcMessage::decode_peer_name(&encoded).is_none());
}

#[test]
fn peer_name_rejects_truncated() {
    assert!(IpcMessage::decode_peer_name(&[]).is_none());
    assert!(IpcMessage::decode_peer_name(&[IPC_TAG_PEER_NAME]).is_none());
}

// --- Audio frame messages ---

#[test]
fn audio_frame_roundtrip() {
    let wire_data = vec![0xDE, 0xAD, 0xBE, 0xEF];
    let encoded = IpcMessage::encode_audio_frame(&wire_data);
    assert_eq!(encoded[0], IPC_TAG_AUDIO_FRAME);

    let decoded = IpcMessage::decode_audio_frame(&encoded).unwrap();
    assert_eq!(decoded, wire_data);
}

#[test]
fn audio_frame_rejects_wrong_tag() {
    let encoded = IpcMessage::encode_audio("peer-1", &[0xAA]);
    assert!(IpcMessage::decode_audio_frame(&encoded).is_none());
}

#[test]
fn audio_frame_rejects_short() {
    assert!(IpcMessage::decode_audio_frame(&[]).is_none());
    assert!(IpcMessage::decode_audio_frame(&[IPC_TAG_AUDIO_FRAME]).is_none());
}

#[test]
fn audio_frame_tag_constant() {
    assert_eq!(IPC_TAG_AUDIO_FRAME_PUB, 0x05);
}

// --- Metrics messages ---

#[test]
fn metrics_roundtrip() {
    let encoded = IpcMessage::encode_metrics(42);
    assert_eq!(encoded[0], IPC_TAG_METRICS);
    assert_eq!(encoded.len(), 9);
    let decoded = IpcMessage::decode_metrics(&encoded).unwrap();
    assert_eq!(decoded, 42);
}

#[test]
fn metrics_rejects_wrong_tag() {
    let encoded = IpcMessage::encode_audio("peer-1", &[0xAA]);
    assert!(IpcMessage::decode_metrics(&encoded).is_none());
}

#[test]
fn metrics_rejects_short() {
    assert!(IpcMessage::decode_metrics(&[]).is_none());
    assert!(IpcMessage::decode_metrics(&[IPC_TAG_METRICS]).is_none());
}

#[test]
fn metrics_tag_constant() {
    assert_eq!(IPC_TAG_METRICS_PUB, 0x06);
}

#[test]
fn messages_allow_trailing_bytes_and_reject_prefixes() {
    let joined = IpcMessage::encode_peer_joined("peer", "id");
    let mut longer = joined.clone();
    longer.push(7);
    assert_eq!(IpcMessage::decode_peer_joined(&longer), Some(("peer".to_string(), "id".to_string())));
    for n in 0..joined.len() {
        assert_eq!(IpcMessage::decode_peer_joined(&joined[..n]), None);
    }
    let left = IpcMessage::encode_peer_left("peer");
    for n in 0..left.len() {
        assert_eq!(IpcMessage::decode_peer_left(&left[..n]), None);
    }
    let metrics = IpcMessage::encode_metrics(77);
    for n in 0..metrics.len() {
        assert_eq!(IpcMessage::decode_metrics(&metrics[..n]), None);
    }
    let audio = IpcMessage::encode_audio("peer", &[1, 2, 3]);
    assert_eq!(IpcMessage::decode_audio(&audio[..5]), None);
    assert_eq!(IpcMessage::decode_audio(&audio[..7]), Some(("peer".to_string(), vec![1])));
}
