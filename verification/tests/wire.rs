use wail::wire::{peek_waif_header, rewrite_waif_interval_index, AudioFrame, AudioFrameWire, WireError};

const FRAME_FLAG_STEREO: u8 = 0x01;
const FRAME_FLAG_FINAL: u8 = 0x02;

#[test]
fn frame_wire_non_final_roundtrip() {
    let frame = AudioFrame {
        interval_index: 42,
        stream_id: 3,
        frame_number: 7,
        channels: 2,
        opus_data: vec![0xDE, 0xAD, 0xBE, 0xEF],
        is_final: false,
        sample_rate: 0,
        total_frames: 0,
        bpm_bits: f64::to_bits(0.0),
        quantum_bits: f64::to_bits(0.0),
        bars: 0,
    };

    let encoded = AudioFrameWire::encode(&frame);
    assert_eq!(&encoded[0..4], b"WAIF");
    assert_eq!(encoded[4], FRAME_FLAG_STEREO); // stereo, not final
    // Total: 21 header + 4 opus = 25 bytes
    assert_eq!(encoded.len(), 25);

    let decoded = AudioFrameWire::decode(&encoded).unwrap();
    assert_eq!(decoded.interval_index, 42);
    assert_eq!(decoded.stream_id, 3);
    assert_eq!(decoded.frame_number, 7);
    assert_eq!(decoded.channels, 2);
    assert_eq!(decoded.opus_data, vec![0xDE, 0xAD, 0xBE, 0xEF]);
    assert!(!decoded.is_final);
}

#[test]
fn frame_wire_final_roundtrip() {
    let frame = AudioFrame {
        interval_index: 10,
        stream_id: 0,
        frame_number: 399,
        channels: 1,
        opus_data: vec![0xAB],
        is_final: true,
        sample_rate: 48000,
        total_frames: 400,
        bpm_bits: f64::to_bits(120.0),
        quantum_bits: f64::to_bits(4.0),
        bars: 4,
    };

    let encoded = AudioFrameWire::encode(&frame);
    assert_eq!(&encoded[0..4], b"WAIF");
    assert_eq!(encoded[4], FRAME_FLAG_FINAL); // mono + final
    // Total: 21 header + 1 opus + 28 final metadata = 50
    assert_eq!(encoded.len(), 50);

    let decoded = AudioFrameWire::decode(&encoded).unwrap();
    assert_eq!(decoded.interval_index, 10);
    assert_eq!(decoded.frame_number, 399);
    assert_eq!(decoded.channels, 1);
    assert!(decoded.is_final);
    assert_eq!(decoded.sample_rate, 48000);
    assert_eq!(decoded.total_frames, 400);
    assert!((f64::from_bits(decoded.bpm_bits) - 120.0).abs() < f64::EPSILON);
    assert!((f64::from_bits(decoded.quantum_bits) - 4.0).abs() < f64::EPSILON);
    assert_eq!(decoded.bars, 4);
}

#[test]
fn frame_wire_rejects_bad_magic() {
    let mut data = vec![0u8; 25];
    data[0..4].copy_from_slice(b"NOPE");
    assert!(AudioFrameWire::decode(&data).is_err());
}

#[test]
fn frame_wire_rejects_truncated() {
    assert!(AudioFrameWire::decode(&[0u8; 10]).is_err());
}

#[test]
fn frame_wire_rejects_truncated_final_metadata() {
    let frame = AudioFrame {
        interval_index: 0,
        stream_id: 0,
        frame_number: 0,
        channels: 1,
        opus_data: vec![0xAB],
        is_final: true,
        sample_rate: 48000,
        total_frames: 1,
        bpm_bits: f64::to_bits(120.0),
        quantum_bits: f64::to_bits(4.0),
        bars: 4,
    };

    let mut encoded = AudioFrameWire::encode(&frame);
    // Truncate the final metadata
    encoded.truncate(encoded.len() - 10);
    assert!(AudioFrameWire::decode(&encoded).is_err());
}

// --- peek_waif_header tests ---

#[test]
fn peek_waif_header_non_final() {
    let frame = AudioFrame {
        interval_index: 42,
        stream_id: 3,
        frame_number: 7,
        channels: 2,
        opus_data: vec![0xDE, 0xAD],
        is_final: false,
        sample_rate: 0,
        total_frames: 0,
        bpm_bits: f64::to_bits(0.0),
        quantum_bits: f64::to_bits(0.0),
        bars: 0,
    };
    let encoded = AudioFrameWire::encode(&frame);
    let peek = peek_waif_header(&encoded).unwrap();
    assert_eq!(peek.interval_index, 42);
    assert_eq!(peek.frame_number, 7);
    assert!(!peek.is_final);
    assert_eq!(peek.total_frames, 0);
}

#[test]
fn peek_waif_header_final_frame() {
    let frame = AudioFrame {
        interval_index: 10,
        stream_id: 0,
        frame_number: 49,
        channels: 1,
        opus_data: vec![0xAB],
        is_final: true,
        sample_rate: 48000,
        total_frames: 50,
        bpm_bits: f64::to_bits(120.0),
        quantum_bits: f64::to_bits(4.0),
        bars: 4,
    };
    let encoded = AudioFrameWire::encode(&frame);
    let peek = peek_waif_header(&encoded).unwrap();
    assert_eq!(peek.interval_index, 10);
    assert_eq!(peek.frame_number, 49);
    assert!(peek.is_final);
    assert_eq!(peek.total_frames, 50);
}

#[test]
fn peek_waif_header_too_short() {
    assert!(peek_waif_header(&[0u8; 10]).is_none());
}

#[test]
fn peek_waif_header_wrong_magic() {
    let mut data = vec![0u8; 25];
    data[0..4].copy_from_slice(b"NOPE");
    assert!(peek_waif_header(&data).is_none());
}

#[test]
fn rewrite_waif_interval_index_roundtrip() {
    let frame = AudioFrame {
        interval_index: 5,
        stream_id: 3,
        frame_number: 7,
        channels: 2,
        opus_data: vec![0xAA; 100],
        is_final: false,
        sample_rate: 0,
        total_frames: 0,
        bpm_bits: f64::to_bits(0.0),
        quantum_bits: f64::to_bits(0.0),
        bars: 0,
    };
    let mut data = AudioFrameWire::encode(&frame);

    // Verify original index.
    let header = peek_waif_header(&data).unwrap();
    assert_eq!(header.interval_index, 5);

    // Rewrite to 42.
    assert!(rewrite_waif_interval_index(&mut data, 42));

    // Verify new index, other fields unchanged.
    let header = peek_waif_header(&data).unwrap();
    assert_eq!(header.interval_index, 42);
    assert_eq!(header.frame_number, 7);
    assert_eq!(header.is_final, false);

    // Full decode confirms stream_id and opus_data intact.
    let decoded = AudioFrameWire::decode(&data).unwrap();
    assert_eq!(decoded.interval_index, 42);
    assert_eq!(decoded.stream_id, 3);
    assert_eq!(decoded.opus_data, vec![0xAA; 100]);
}

#[test]
fn rewrite_waif_interval_index_short_data() {
    let mut data = vec![0u8; 10];
    assert!(!rewrite_waif_interval_index(&mut data, 42));
}

#[test]
fn rewrite_waif_interval_index_wrong_magic() {
    let mut data = vec![0u8; 25];
    data[0..4].copy_from_slice(b"NOPE");
    assert!(!rewrite_waif_interval_index(&mut data, 42));
}

#[test]
fn wire_errors_say_why() {
    let short = AudioFrameWire::decode(&[0u8; 10]).err().unwrap();
    assert_eq!(short, WireError::TooShort { len: 10 });
    assert_eq!(short.message(), "Audio frame wire data too short: 10 bytes, need at least 21");
    let mut data = vec![0u8; 25];
    data[0..4].copy_from_slice(b"NOPE");
    let magic = AudioFrameWire::decode(&data).err().unwrap();
    assert_eq!(magic, WireError::BadMagic { b0: 78, b1: 79, b2: 80, b3: 69 });
    assert_eq!(magic.message(), "Invalid audio frame wire magic: [78, 79, 80, 69]");
    data[0..4].copy_from_slice(b"WAIF");
    data[19] = 9;
    let payload = AudioFrameWire::decode(&data).err().unwrap();
    assert_eq!(payload, WireError::TruncatedPayload { expected: 9, got: 4 });
    assert_eq!(payload.message(), "Audio frame wire truncated: expected 9 opus bytes, got 4");
    data[19] = 4;
    data[4] = FRAME_FLAG_FINAL;
    let metadata = AudioFrameWire::decode(&data).err().unwrap();
    assert_eq!(metadata, WireError::TruncatedMetadata { missing: 28 });
    assert_eq!(metadata.message(), "Audio frame final metadata truncated: need 28 more bytes");
}
