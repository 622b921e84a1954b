use wail::bridge::AudioBridge;
use wail::codec::{
    nearest_opus_rate, pack_packets, unpack_packets, AudioDecoder, AudioEncoder, CodecError,
};
use wail::interval::IntervalRecorder;
use wail::test_tone::{encode_test_interval, validate_audio, AudioError};
use wail::wire::{AudioFrameWire, WireError};

fn mix(a: u32, b: u32) -> u32 {
    (f32::from_bits(a) + f32::from_bits(b)).to_bits()
}

fn fade(new: u32, _tail: u32, _i: usize, _n: usize) -> u32 {
    new
}

fn bits(samples: &[f32]) -> Vec<u32> {
    samples.iter().map(|s| s.to_bits()).collect()
}

fn make_bridge(sample_rate: u32, channels: u16, bars: u32, quantum: f64, kbps: u32) -> AudioBridge {
    let seconds = bars as f64 * quantum / (20.0 / 60.0);
    let capacity = (sample_rate as f64 * seconds * channels as f64) as usize;
    AudioBridge::new(sample_rate, channels, bars, quantum.to_bits(), kbps, capacity)
}

#[test]
fn nearest_opus_rate_maps_common_daw_rates() {
    assert_eq!(nearest_opus_rate(48000), 48000);
    assert_eq!(nearest_opus_rate(44100), 48000);
    assert_eq!(nearest_opus_rate(96000), 48000);
    assert_eq!(nearest_opus_rate(88200), 48000);
    assert_eq!(nearest_opus_rate(24000), 24000);
    assert_eq!(nearest_opus_rate(16000), 16000);
    assert_eq!(nearest_opus_rate(8000), 8000);
    assert_eq!(nearest_opus_rate(22050), 24000);
}

#[test]
fn nearest_opus_rate_of_two_equally_near_is_the_lower() {
    assert_eq!(nearest_opus_rate(10000), 8000);
    assert_eq!(nearest_opus_rate(14000), 12000);
    assert_eq!(nearest_opus_rate(20000), 16000);
    assert_eq!(nearest_opus_rate(36000), 24000);
    assert_eq!(nearest_opus_rate(0), 8000);
    assert_eq!(nearest_opus_rate(u32::MAX), 48000);
}

#[test]
fn recorder_basic_flow() {
    let mut rec = IntervalRecorder::new(48000, 2);

    // Push some samples for interval 0
    rec.push_samples(&bits(&[0.1, 0.2, 0.3, 0.4]), 0);
    rec.push_samples(&bits(&[0.5, 0.6]), 0);
    assert!(rec.is_recording());

    // Finish interval
    let (idx, samples) = rec.finish_interval().unwrap();
    assert_eq!(idx, 0);
    assert_eq!(samples.len(), 6);
    assert!(!rec.is_recording());
}

#[test]
fn creates_with_valid_params() {
    let bridge = make_bridge(48000, 2, 4, 4.0, 128);
    assert_eq!(bridge.sample_rate(), 48000);
    assert_eq!(bridge.channels(), 2);
}

#[test]
fn bridge_without_codec_still_plays() {
    let bridge = make_bridge(44100, 2, 4, 4.0, 128);
    assert!(bridge.encoder().is_none());
    assert!(bridge.decoder().is_none());
    let bridge = make_bridge(48000, 2, 4, 4.0, 128);
    assert_eq!(bridge.encoder().unwrap().bits_per_second(), 128_000);
    assert_eq!(bridge.decoder().unwrap().frame_samples(), 1920);
}

#[test]
fn bridge_exchanges_an_interval() {
    let mut a = make_bridge(48000, 2, 4, 4.0, 128);
    let mut b = make_bridge(48000, 2, 4, 4.0, 128);
    let signal = bits(&[0.5f32; 512]);
    let silence = vec![0u32; 512];
    let mut out = vec![0u32; 512];
    assert!(a.process_rt(&signal, &mut out, 0, &mix, &fade).is_empty());
    let done = a.process_rt(&silence, &mut out, 1, &mix, &fade);
    assert_eq!(done.len(), 1);
    assert_eq!(done[0].index, 0);
    assert_eq!(done[0].samples, signal);

    b.process_rt(&silence, &mut out, 0, &mix, &fade);
    b.feed_decoded("a".into(), 0, 0, done[0].samples.clone(), &mix);
    b.process_rt(&silence, &mut out, 1, &mix, &fade);
    assert_eq!(out, signal);
    assert_eq!(b.peer_info(), vec![(0, "a".to_string(), 0)]);
    assert_eq!(b.current_interval_index(), 1);
}

#[test]
fn bridge_uses_returned_buffers() {
    let (tx, rx) = crossbeam_channel::bounded::<Vec<u32>>(8);
    let mut bridge = make_bridge(48000, 2, 4, 4.0, 128);
    bridge.set_buffer_return_rx(rx);
    let signal = vec![5u32; 64];
    let mut out = vec![0u32; 64];
    for index in 0..4 {
        for mut done in bridge.process_rt(&signal, &mut out, index, &mix, &fade) {
            assert_eq!(done.index, index - 1);
            assert_eq!(done.samples, signal);
            done.samples.clear();
            tx.try_send(done.samples).unwrap();
        }
    }
    // The buffers were taken, not left in the channel
    assert!(tx.len() < 3);
}

#[test]
fn encoder_rejects_unknown_parameters() {
    assert_eq!(AudioEncoder::new(44100, 2, 128).err(), Some(CodecError::EncoderRate(44100)));
    assert_eq!(AudioEncoder::new(48000, 3, 128).err(), Some(CodecError::EncoderChannels(3)));
    assert_eq!(AudioDecoder::new(44100, 2).err(), Some(CodecError::DecoderRate(44100)));
    assert_eq!(AudioDecoder::new(48000, 0).err(), Some(CodecError::DecoderChannels(0)));
    assert_eq!(
        CodecError::EncoderRate(44100).message(),
        "Unsupported sample rate: 44100. Must be 8000/12000/16000/24000/48000"
    );
    assert_eq!(CodecError::EncoderChannels(3).message(), "Unsupported channel count: 3. Must be 1 or 2");
    assert_eq!(CodecError::DecoderRate(44100).message(), "Unsupported sample rate: 44100");
    assert_eq!(CodecError::DecoderChannels(0).message(), "Unsupported channel count: 0");
}

#[test]
fn encoder_splits_an_interval_into_blocks() {
    let encoder = AudioEncoder::new(48000, 2, 128).unwrap();
    assert_eq!(encoder.frame_size(), 960);
    let samples: Vec<u32> = (1..=2000).collect();
    let blocks = encoder.split_interval(&samples);
    assert_eq!(blocks.len(), 2);
    assert_eq!(blocks[0], samples[..1920].to_vec());
    assert_eq!(blocks[1][..80], samples[1920..]);
    assert_eq!(blocks[1].len(), 1920);
    assert!(blocks[1][80..].iter().all(|s| *s == 0));
    assert!(encoder.split_interval(&[]).is_empty());
}

#[test]
fn packed_packets_come_back() {
    let packets = vec![vec![1u8, 2, 3], vec![], vec![9]];
    let data = pack_packets(&packets);
    assert_eq!(data, vec![3, 0, 0, 0, 3, 0, 1, 2, 3, 0, 0, 1, 0, 9]);
    let back = unpack_packets(&data);
    assert_eq!(back.packets, packets);
    assert_eq!(back.error, None);
}

#[test]
fn truncated_packets_keep_what_precedes() {
    let data = pack_packets(&vec![vec![1u8, 2], vec![3, 4]]);
    let short = unpack_packets(&data[..3]);
    assert_eq!((short.packets.len(), short.error), (0, Some(CodecError::MissingFrameCount)));
    let no_len = unpack_packets(&data[..9]);
    assert_eq!((no_len.packets, no_len.error), (vec![vec![1, 2]], Some(CodecError::MissingFrameLength)));
    let no_payload = unpack_packets(&data[..11]);
    assert_eq!((no_payload.packets, no_payload.error), (vec![vec![1, 2]], Some(CodecError::MissingFramePayload)));
    assert_eq!(CodecError::MissingFrameCount.message(), "Audio data too short for frame count header");
    assert_eq!(CodecError::MissingFrameLength.message(), "Truncated audio data: missing frame length");
    assert_eq!(CodecError::MissingFramePayload.message(), "Truncated audio data: missing frame payload");
}

#[test]
fn validate_rejects_garbage() {
    let garbage = vec![0u8; 10];
    assert!(validate_audio(&garbage).is_err());
}

#[test]
fn validate_rejects_short_data() {
    let short = vec![0u8; 2];
    assert!(validate_audio(&short).is_err());
}

#[test]
fn validate_says_why() {
    assert_eq!(validate_audio(&[1, 2]).err(), Some(AudioError::TooShort { len: 2 }));
    assert_eq!(AudioError::TooShort { len: 2 }.message(), "audio data too short (2 bytes)");
    let unknown = validate_audio(b"NOPE!").err().unwrap();
    assert_eq!(unknown, AudioError::UnknownFormat { b0: 78, b1: 79, b2: 80, b3: 69 });
    assert_eq!(unknown.message(), "unknown wire format: magic=[78, 79, 80, 69]");
    let bad = validate_audio(b"WAIFxx").err().unwrap();
    assert_eq!(bad, AudioError::BadFrame(WireError::TooShort { len: 6 }));
    assert_eq!(bad.message(), "Audio frame wire data too short: 6 bytes, need at least 21");
}

#[test]
fn test_interval_is_framed_and_validated() {
    let frames = encode_test_interval(-3, vec![vec![1u8], vec![2, 3]], 120f64.to_bits(), 4, 4f64.to_bits());
    assert_eq!(frames.len(), 2);
    let v = validate_audio(&frames[0]).ok().unwrap();
    assert_eq!(v.format, "WAIF");
    assert_eq!(v.size_bytes, 22);
    assert_eq!(v.detail, "WAIF frame: 22 bytes, frame #0, interval -3, final=false");
    let last = AudioFrameWire::decode(&frames[1]).ok().unwrap();
    assert!(last.is_final);
    assert_eq!(last.total_frames, 2);
    assert_eq!(last.sample_rate, 48000);
    assert_eq!(f64::from_bits(last.bpm_bits), 120.0);
    assert_eq!(
        validate_audio(&frames[1]).ok().unwrap().detail,
        "WAIF frame: 51 bytes, frame #1, interval -3, final=true"
    );
}
