use wail::ring::{IntervalRing, MAX_REMOTE_PEERS};
use wail::ring_state::XFADE_SAMPLES;

const SR: u32 = 48000;
const CH: u16 = 2;
const BARS: u32 = 4;
const QUANTUM: f64 = 4.0;
// 4 bars * 4 beats = 16 beats per interval

/// Crossfade window length.
const XFADE_LEN: usize = XFADE_SAMPLES;

fn mix(a: u32, b: u32) -> u32 {
    (f32::from_bits(a) + f32::from_bits(b)).to_bits()
}

/// Equal-power crossfade.
fn fade(new: u32, tail: u32, i: usize, fade_len: usize) -> u32 {
    let t = (i + 1) as f32 / fade_len as f32;
    let new_w = (t * std::f32::consts::FRAC_PI_2).sin();
    let old_w = (t * std::f32::consts::FRAC_PI_2).cos();
    (f32::from_bits(new) * new_w + f32::from_bits(tail) * old_w).to_bits()
}

fn bits(samples: &[f32]) -> Vec<u32> {
    samples.iter().map(|s| s.to_bits()).collect()
}

/// A recorded interval.
struct Completed {
    index: i64,
    samples: Vec<f32>,
}

/// A ring on float samples that is driven by beats.
struct FloatRing {
    inner: IntervalRing,
}

impl FloatRing {
    fn new(sample_rate: u32, channels: u16, bars: u32, quantum: f64) -> Self {
        let beats = bars.max(1) as f64 * quantum.max(f64::EPSILON);
        let seconds = beats / (20.0 / 60.0);
        let capacity = (sample_rate as f64 * seconds * channels as f64) as usize;
        FloatRing { inner: IntervalRing::new(sample_rate, channels, bars, quantum.to_bits(), capacity) }
    }

    fn process(&mut self, input: &[f32], output: &mut [f32], beat: f64) -> Option<i64> {
        let quantum = f64::from_bits(self.inner.quantum_bits());
        let index = (beat / (self.inner.bars() as f64 * quantum)).floor() as i64;
        let mut out = bits(output);
        let boundary = self.inner.process(&bits(input), &mut out, index, &mix, &fade);
        for (o, s) in output.iter_mut().zip(out) {
            *o = f32::from_bits(s);
        }
        boundary
    }

    fn feed_remote(&mut self, peer_id: String, stream_id: u16, index: i64, samples: Vec<f32>) {
        self.inner.feed_remote(peer_id, stream_id, index, bits(&samples), &mix);
    }

    fn take_completed(&mut self) -> Vec<Completed> {
        self.inner
            .take_completed()
            .into_iter()
            .map(|c| Completed { index: c.index, samples: c.samples.into_iter().map(f32::from_bits).collect() })
            .collect()
    }

    fn read_peer_playback(&mut self, slot: usize, output: &mut [f32]) -> usize {
        let mut out = bits(output);
        let n = self.inner.read_peer_playback(slot, &mut out);
        for (o, s) in output.iter_mut().zip(out) {
            *o = f32::from_bits(s);
        }
        n
    }

    fn set_config(&mut self, bars: u32, quantum: f64) {
        self.inner.set_config(bars, quantum.to_bits());
    }

    fn reset(&mut self) {
        self.inner.reset();
    }

    fn reset_transport(&mut self) {
        self.inner.reset_transport();
    }

    fn active_peer_slots(&self) -> Vec<(usize, String, u16)> {
        self.inner.active_peer_slots()
    }

    fn notify_peer_joined(&mut self, peer_id: &str, identity: &str) {
        self.inner.notify_peer_joined(peer_id, identity);
    }

    fn remove_peer(&mut self, peer_id: &str) {
        self.inner.remove_peer(peer_id);
    }

    fn current_interval(&self) -> Option<i64> {
        self.inner.current_interval()
    }

    fn record_position(&self) -> usize {
        self.inner.record_position()
    }

    fn playback_remaining(&self) -> usize {
        self.inner.playback_remaining()
    }

    fn pending_remote_count(&self) -> usize {
        self.inner.pending_remote_count()
    }
}

fn make_ring() -> FloatRing {
    FloatRing::new(SR, CH, BARS, QUANTUM)
}

// --- Test: Basic record and playback ---

#[test]
fn new_ring_starts_empty() {
    let ring = make_ring();
    assert_eq!(ring.current_interval(), None);
    assert_eq!(ring.record_position(), 0);
    assert_eq!(ring.playback_remaining(), 0);
    assert_eq!(ring.pending_remote_count(), 0);
}

#[test]
fn process_records_input() {
    let mut ring = make_ring();
    let input = vec![0.5f32; 256];
    let mut output = vec![0.0f32; 256];

    // Beat 0.0 = interval 0
    let boundary = ring.process(&input, &mut output, 0.0);
    assert!(boundary.is_none()); // first call, no boundary
    assert_eq!(ring.current_interval(), Some(0));
    assert_eq!(ring.record_position(), 256);
}

#[test]
fn process_outputs_silence_when_no_remote_audio() {
    let mut ring = make_ring();
    let input = vec![0.5f32; 256];
    let mut output = vec![1.0f32; 256]; // pre-fill with non-zero

    ring.process(&input, &mut output, 0.0);
    assert!(output.iter().all(|&s| s == 0.0), "Expected silence");
}

// --- Test: Interval boundary detection ---

#[test]
fn detects_interval_boundary() {
    let mut ring = make_ring();
    let input = vec![0.1f32; 128];
    let mut output = vec![0.0f32; 128];

    // Record in interval 0 (beat 0 to beat 15.9)
    ring.process(&input, &mut output, 0.0);
    ring.process(&input, &mut output, 8.0);
    ring.process(&input, &mut output, 15.0);

    // Cross into interval 1 (beat 16.0)
    let boundary = ring.process(&input, &mut output, 16.0);
    assert_eq!(boundary, Some(0), "Should detect boundary of interval 0");
    assert_eq!(ring.current_interval(), Some(1));
}

#[test]
fn completed_interval_available_after_boundary() {
    let mut ring = make_ring();
    let input = vec![0.3f32; 128];
    let mut output = vec![0.0f32; 128];

    // Record in interval 0
    ring.process(&input, &mut output, 0.0);
    ring.process(&input, &mut output, 8.0);

    // No completed intervals yet
    assert!(ring.take_completed().is_empty());

    // Cross boundary
    ring.process(&input, &mut output, 16.0);

    // Now interval 0 should be completed
    let completed = ring.take_completed();
    assert_eq!(completed.len(), 1);
    assert_eq!(completed[0].index, 0);
    assert_eq!(completed[0].samples.len(), 256); // 2 calls * 128 samples
}

// --- Test: Remote audio playback ---

#[test]
fn plays_remote_audio_after_boundary() {
    let mut ring = make_ring();
    let buf = XFADE_LEN + 64;
    let input = vec![0.0f32; buf];
    let mut output = vec![0.0f32; buf];

    // Start in interval 0
    ring.process(&input, &mut output, 0.0);

    // Feed remote audio for next playback
    ring.feed_remote("peer-a".into(), 0, 0, vec![0.7f32; buf]);

    // Cross into interval 1 — remote audio should become playback
    ring.process(&input, &mut output, 16.0);

    // First sample near-zero: equal-power crossfade from silence
    assert!(output[0] < 0.02, "First sample should be near zero, got: {}", output[0]);
    // Post-fade region should contain the remote audio at full amplitude
    assert!(output[XFADE_LEN..].iter().all(|&s| (s - 0.7).abs() < f32::EPSILON),
        "Output should be remote audio after fade-in, got: {:?}", &output[XFADE_LEN..XFADE_LEN+4]);
}

#[test]
fn mixes_multiple_remote_peers() {
    let mut ring = make_ring();
    let buf = XFADE_LEN + 64;
    let input = vec![0.0f32; buf];
    let mut output = vec![0.0f32; buf];

    // Start in interval 0
    ring.process(&input, &mut output, 0.0);

    // Feed from two peers
    ring.feed_remote("peer-a".into(), 0, 0, vec![0.3f32; buf]);
    ring.feed_remote("peer-b".into(), 0, 0, vec![0.5f32; buf]);

    // Cross boundary — both should be mixed (summed)
    ring.process(&input, &mut output, 16.0);

    // Post-fade region: both peers at full amplitude
    assert!(output[XFADE_LEN..].iter().all(|&s| (s - 0.8).abs() < 0.001),
        "Expected 0.3 + 0.5 = 0.8 after fade, got: {:?}", &output[XFADE_LEN..XFADE_LEN+4]);
}

#[test]
fn remote_audio_longer_than_buffer_spans_calls() {
    let mut ring = make_ring();
    let buf = XFADE_LEN / 2;
    let remote_len = XFADE_LEN + buf * 2;
    let input = vec![0.0f32; buf];
    let mut output = vec![0.0f32; buf];

    // Start interval 0
    ring.process(&input, &mut output, 0.0);

    // Feed remote audio spanning multiple buffers
    ring.feed_remote("peer-a".into(), 0, 0, vec![0.4f32; remote_len]);

    // Cross into interval 1 — first buffer is in the fade region
    ring.process(&input, &mut output, 16.0);
    assert_eq!(ring.playback_remaining(), remote_len - buf);

    // Keep reading until we're past the fade region
    ring.process(&input, &mut output, 16.5);
    assert_eq!(ring.playback_remaining(), remote_len - buf * 2);

    // Third call: now past fade — should be full amplitude
    ring.process(&input, &mut output, 17.0);
    assert!(output.iter().all(|&s| (s - 0.4).abs() < f32::EPSILON),
        "Post-fade samples should be 0.4, got: {:?}", &output[..4]);
}

#[test]
fn silence_after_playback_exhausted() {
    let mut ring = make_ring();
    let input = vec![0.0f32; 64];
    let mut output = vec![0.0f32; 64];

    ring.process(&input, &mut output, 0.0);
    ring.feed_remote("peer-a".into(), 0, 0, vec![0.5f32; 32]); // only 32 samples

    // Cross boundary
    ring.process(&input, &mut output, 16.0);

    // First sample near-zero: equal-power crossfade from silence, sin(1/32·π/2) ≈ 0.049
    assert!(output[0] < 0.1, "First sample should be near zero (faded), got: {}", output[0]);
    // Last sample (i=31, t=1.0): new_w = sin(π/2) = 1.0 → output = 0.5 * 1.0 = 0.5
    assert!((output[31] - 0.5).abs() < 0.01,
        "Last audio sample should be ~0.5, got: {}", output[31]);
    // Rest = silence
    assert_eq!(output[32], 0.0);
    assert_eq!(output[63], 0.0);
}

// --- Test: Multiple intervals ---

#[test]
fn multiple_interval_cycle() {
    let mut ring = make_ring();
    let buf = XFADE_LEN + 64;
    let ones = vec![1.0f32; buf];
    let twos = vec![2.0f32; buf];
    let mut output = vec![0.0f32; buf];

    // Interval 0: record ones
    ring.process(&ones, &mut output, 0.0);
    ring.process(&ones, &mut output, 8.0);

    // Feed remote for playback in interval 1
    ring.feed_remote("peer-a".into(), 0, 0, vec![0.9f32; buf]);

    // Interval 1: record twos, play remote (first interval = faded)
    ring.process(&twos, &mut output, 16.0);
    let completed = ring.take_completed();
    assert_eq!(completed.len(), 1);
    assert_eq!(completed[0].index, 0);
    // First interval from peer-a is faded — check post-fade
    assert!((output[XFADE_LEN] - 0.9).abs() < f32::EPSILON);

    // Feed new remote for interval 2
    ring.feed_remote("peer-a".into(), 0, 1, vec![0.6f32; buf]);

    // Interval 2: record ones, play new remote
    ring.process(&ones, &mut output, 32.0);
    let completed = ring.take_completed();
    assert_eq!(completed.len(), 1);
    assert_eq!(completed[0].index, 1);
    // Completed interval 1 should contain twos
    assert!((completed[0].samples[0] - 2.0).abs() < f32::EPSILON);
    // Second interval crossfades from old tail (0.9) to new (0.6).
    // Post-crossfade should be pure new audio.
    assert!((output[XFADE_LEN] - 0.6).abs() < f32::EPSILON);
}

// --- Test: Configuration ---

#[test]
fn config_change_affects_interval_index() {
    let mut ring = make_ring(); // 4 bars * 4 quantum = 16 beats
    let input = vec![0.0f32; 64];
    let mut output = vec![0.0f32; 64];

    ring.process(&input, &mut output, 0.0);
    assert_eq!(ring.current_interval(), Some(0));

    // Beat 10 is still interval 0 (< 16)
    ring.process(&input, &mut output, 10.0);
    assert_eq!(ring.current_interval(), Some(0));

    // Change to 2 bars * 4 quantum = 8 beats per interval
    ring.set_config(2, 4.0);

    // Beat 10 is now interval 1 (10/8 = 1.25, floor = 1)
    let boundary = ring.process(&input, &mut output, 10.0);
    assert_eq!(boundary, Some(0)); // crossed from 0 to 1
    assert_eq!(ring.current_interval(), Some(1));
}

#[test]
fn reset_clears_all_state() {
    let mut ring = make_ring();
    let input = vec![0.5f32; 128];
    let mut output = vec![0.0f32; 128];

    ring.process(&input, &mut output, 0.0);
    ring.feed_remote("peer-a".into(), 0, 0, vec![0.3f32; 64]);

    ring.reset();

    assert_eq!(ring.current_interval(), None);
    assert_eq!(ring.record_position(), 0);
    assert_eq!(ring.playback_remaining(), 0);
    assert_eq!(ring.pending_remote_count(), 0);
    assert!(ring.take_completed().is_empty());
}

// --- Test: Beat position edge cases ---

#[test]
fn negative_beat_position() {
    let mut ring = make_ring();
    let input = vec![0.0f32; 64];
    let mut output = vec![0.0f32; 64];

    // Negative beats (pre-roll)
    ring.process(&input, &mut output, -4.0);
    assert_eq!(ring.current_interval(), Some(-1));
}

#[test]
fn fractional_beat_position() {
    let mut ring = make_ring();
    let input = vec![0.0f32; 64];
    let mut output = vec![0.0f32; 64];

    // Beat 15.999 is still interval 0
    ring.process(&input, &mut output, 15.999);
    assert_eq!(ring.current_interval(), Some(0));

    // Beat 16.001 is interval 1
    let boundary = ring.process(&input, &mut output, 16.001);
    assert_eq!(boundary, Some(0));
    assert_eq!(ring.current_interval(), Some(1));
}

#[test]
fn zero_bars_clamped_to_one() {
    let mut ring = FloatRing::new(SR, CH, 0, QUANTUM);
    let input = vec![0.0f32; 64];
    let mut output = vec![0.0f32; 64];
    // Must not panic — bars=0 is clamped to 1, so interval = 1*4 = 4 beats
    ring.process(&input, &mut output, 0.0);
    assert_eq!(ring.current_interval(), Some(0));
}

#[test]
fn zero_quantum_clamped() {
    let mut ring = FloatRing::new(SR, CH, BARS, 0.0);
    let input = vec![0.0f32; 64];
    let mut output = vec![0.0f32; 64];
    // Must not panic or produce NaN interval index
    ring.process(&input, &mut output, 10.0);
    assert!(ring.current_interval().is_some());
}

#[test]
fn set_config_clamps_zero_values() {
    let mut ring = make_ring();
    let input = vec![0.0f32; 64];
    let mut output = vec![0.0f32; 64];

    ring.process(&input, &mut output, 0.0);
    ring.set_config(0, 0.0);
    // Must not panic
    ring.process(&input, &mut output, 10.0);
    assert!(ring.current_interval().is_some());
}

// --- Test: Partial feed before swap causes truncated playback ---
//
// Simulates real-time streaming where the sender's audio arrives as
// incremental 20ms decoded chunks. If only half the interval's audio
// has arrived when the receiver crosses the boundary, only that half
// plays — the rest is silence ("2 bars sound, 2 bars silence").

#[test]
fn partial_feed_before_swap_causes_silence_in_second_half() {
    let mut ring = make_ring();
    let buf = 256; // small process buffer
    let input = vec![0.0f32; buf];
    let mut output = vec![0.0f32; buf];

    // Start interval 0
    ring.process(&input, &mut output, 0.0);

    // Simulate: only HALF an interval's audio arrives before the swap.
    // Full interval at 48kHz stereo, 4 bars, 120 BPM = 768,000 samples.
    // Feed only the first half.
    let full_interval_samples = 768_000;
    let half = full_interval_samples / 2;
    ring.feed_remote("peer-a".into(), 0, 0, vec![0.5f32; half]);

    // Cross into interval 1 — swap_intervals() mixes pending_remote
    ring.process(&input, &mut output, 16.0);

    // Playback should have audio (first buffer is in crossfade region)
    let energy: f32 = output.iter().map(|s| s * s).sum::<f32>().sqrt();
    assert!(energy > 0.0, "First buffer after swap should have audio");

    // Read through the first half — should have audio
    let mut audio_samples_read = buf;
    let beats_per_sample = 120.0 / 60.0 / 48000.0 * 0.5; // stereo: 2 samples per frame
    let mut beat = 16.0 + (buf as f64 * beats_per_sample);

    while audio_samples_read < half {
        ring.process(&input, &mut output, beat);
        let energy: f32 = output.iter().map(|s| s * s).sum::<f32>().sqrt();
        assert!(energy > 0.01, "Should have audio at sample offset {audio_samples_read}");
        audio_samples_read += buf;
        beat += buf as f64 * beats_per_sample;
    }

    // Now read past the half-way point — should be SILENCE
    // (this is the bug: playback_len was only half the interval)
    ring.process(&input, &mut output, beat);
    let silence_energy: f32 = output.iter().map(|s| s * s).sum::<f32>().sqrt();
    assert!(
        silence_energy < f32::EPSILON,
        "Expected silence after partial feed exhausted, got energy={silence_energy}"
    );
}

#[test]
fn incremental_feed_with_network_latency() {
    // Simulates real-time streaming with network latency. The sender
    // streams 20ms Opus frames during interval N, but they arrive at
    // the receiver with a delay. This means some of interval N's frames
    // arrive after the receiver has already crossed the N→N+1 boundary.
    //
    // Without live-append, those late frames are queued for the N+1→N+2
    // swap, causing ~50% silence per interval ("2 bars sound, 2 bars
    // silence"). With live-append, late frames extend the active playback
    // slot, providing continuous audio.
    //
    // Setup: 48kHz stereo, buffer=256, 4 bars @ 120 BPM = 8s intervals.
    // Network latency: ~200ms → ~75 callbacks worth of delay.

    let mut ring = make_ring();
    let buf = 256;
    let input = vec![0.0f32; buf];
    let mut output = vec![0.0f32; buf];
    let frame_size = 1920; // 20ms Opus frame, stereo

    let callbacks_per_interval = 768_000 / buf; // 3000
    let callbacks_per_frame = 8; // ~one frame per 8 callbacks (20ms / 2.67ms)
    // Network latency: frames arrive ~75 callbacks late (~200ms).
    // This pushes ~10% of each interval's frames past the swap boundary.
    let latency_callbacks: usize = 75;

    // Use a queue to simulate delayed frame delivery.
    // Each entry: (delivery_callback, interval_index, samples)
    let mut frame_queue: std::collections::VecDeque<(usize, i64, Vec<f32>)> =
        std::collections::VecDeque::new();

    let total_intervals = 4;
    let mut interval_audio_pcts: Vec<f64> = Vec::new();
    let mut global_cb: usize = 0;

    ring.process(&input, &mut output, 0.0);
    global_cb += 1;

    for interval in 0..total_intervals {
        let base_beat = interval as f64 * 16.0;
        let mut audio_buffers = 0u32;
        let mut silent_buffers = 0u32;
        let mut frames_fed = 0u32;

        for cb in 1..=callbacks_per_interval {
            let beat = base_beat + cb as f64 * buf as f64 * (120.0 / 60.0 / 48000.0 * 0.5);

            // Schedule a frame with network latency
            if cb % callbacks_per_frame == 0 {
                frame_queue.push_back((
                    global_cb + latency_callbacks,
                    interval as i64,
                    vec![0.5f32; frame_size],
                ));
            }

            // Deliver any frames whose latency has elapsed
            while let Some(&(delivery_cb, _, _)) = frame_queue.front() {
                if delivery_cb <= global_cb {
                    let (_, idx, samples) = frame_queue.pop_front().unwrap();
                    ring.feed_remote("peer-a".into(), 0, idx, samples);
                    frames_fed += 1;
                } else {
                    break;
                }
            }

            ring.process(&input, &mut output, beat);
            global_cb += 1;

            if output.iter().any(|&s| s.abs() > 0.001) {
                audio_buffers += 1;
            } else {
                silent_buffers += 1;
            }
        }

        // Cross into next interval
        let next_beat = (interval as f64 + 1.0) * 16.0;

        // Deliver queued frames before the swap callback
        while let Some(&(delivery_cb, _, _)) = frame_queue.front() {
            if delivery_cb <= global_cb {
                let (_, idx, samples) = frame_queue.pop_front().unwrap();
                ring.feed_remote("peer-a".into(), 0, idx, samples);
                frames_fed += 1;
            } else {
                break;
            }
        }

        ring.process(&input, &mut output, next_beat);
        global_cb += 1;
        if output.iter().any(|&s| s.abs() > 0.001) {
            audio_buffers += 1;
        } else {
            silent_buffers += 1;
        }

        let total = audio_buffers + silent_buffers;
        let pct = audio_buffers as f64 / total as f64 * 100.0;
        interval_audio_pcts.push(pct);
        println!(
            "[test]   Interval {interval}: {audio_buffers}/{total} audio ({pct:.0}%), fed {frames_fed} frames"
        );
    }

    // Interval 0 has no playback (pipeline warmup). Interval 1 may have
    // reduced coverage. By interval 2, live-append should provide >90%.
    let steady_state_pct = interval_audio_pcts[2..].iter().copied()
        .min_by(|a, b| a.partial_cmp(b).unwrap())
        .unwrap_or(0.0);

    println!("[test] Steady-state min coverage (intervals 2+): {steady_state_pct:.0}%");

    assert!(
        steady_state_pct > 90.0,
        "Expected >90% audio coverage in steady state (intervals 2+), \
         got {steady_state_pct:.0}%. Late-arriving frames should be \
         live-appended to the active playback slot."
    );
}

#[test]
fn late_arriving_audio_after_swap_is_live_appended() {
    // Verifies that audio fed AFTER a swap for the currently playing
    // interval is live-appended to the playback slot immediately,
    // rather than waiting for the next swap (which caused silence gaps).
    let mut ring = make_ring();
    let buf = XFADE_LEN + 128;
    let input = vec![0.0f32; buf];
    let mut output = vec![0.0f32; buf];

    // Interval 0
    ring.process(&input, &mut output, 0.0);

    // Feed first half before swap
    let half = 384_000;
    ring.feed_remote("peer-a".into(), 0, 0, vec![0.5f32; half]);

    // Cross into interval 1 — first half mixed into playback
    ring.process(&input, &mut output, 16.0);
    let initial_remaining = ring.playback_remaining();
    assert!(initial_remaining > 0, "Should have partial playback");

    // Feed second half AFTER the swap (tagged as interval 0 = currently playing).
    // With live-append, this should extend the playback slot directly.
    ring.feed_remote("peer-a".into(), 0, 0, vec![0.5f32; half]);

    // Playback should have grown — NOT queued in pending_remote
    assert_eq!(
        ring.pending_remote_count(), 0,
        "Late audio should be live-appended, not queued in pending_remote"
    );
    assert!(
        ring.playback_remaining() > initial_remaining,
        "Playback should have grown after live append"
    );

    // Read through — second half should produce audio, not silence
    let mut found_audio_after_half = false;
    let mut beat = 16.5;
    for _ in 0..(half / buf + 10) {
        ring.process(&input, &mut output, beat);
        beat += 0.01;
        if output.iter().any(|&s| s.abs() > 0.001) {
            found_audio_after_half = true;
        }
    }
    assert!(found_audio_after_half, "Live-appended audio should be audible");
}

// --- Test: Per-peer playback slots ---

#[test]
fn per_peer_playback_slots() {
    let mut ring = make_ring();
    let buf = XFADE_LEN + 64;
    let input = vec![0.0f32; buf];
    let mut output = vec![0.0f32; buf];

    ring.process(&input, &mut output, 0.0);

    // Feed from two distinct peers
    ring.feed_remote("peer-a".into(), 0, 0, vec![0.3f32; buf]);
    ring.feed_remote("peer-b".into(), 0, 0, vec![0.7f32; buf]);

    // Cross boundary to activate playback
    ring.process(&input, &mut output, 16.0);

    // Read per-peer slots independently
    let mut slot_a_out = vec![0.0f32; buf];
    let mut slot_b_out = vec![0.0f32; buf];

    let active = ring.active_peer_slots();
    assert_eq!(active.len(), 2);

    // Find which slot is which
    let (a_idx, _, _) = active.iter().find(|(_, pid, _)| pid == "peer-a").unwrap();
    let (b_idx, _, _) = active.iter().find(|(_, pid, _)| pid == "peer-b").unwrap();

    ring.read_peer_playback(*a_idx, &mut slot_a_out);
    ring.read_peer_playback(*b_idx, &mut slot_b_out);

    // Post-fade: Peer A's slot should have 0.3
    assert!(
        slot_a_out[XFADE_LEN..].iter().all(|&s| (s - 0.3).abs() < f32::EPSILON),
        "Peer A slot should be 0.3 after fade, got: {:?}", &slot_a_out[XFADE_LEN..XFADE_LEN+4]
    );
    // Post-fade: Peer B's slot should have 0.7
    assert!(
        slot_b_out[XFADE_LEN..].iter().all(|&s| (s - 0.7).abs() < f32::EPSILON),
        "Peer B slot should be 0.7 after fade, got: {:?}", &slot_b_out[XFADE_LEN..XFADE_LEN+4]
    );
}

#[test]
fn per_peer_and_summed_mix_consistent() {
    let mut ring = make_ring();
    let buf = XFADE_LEN + 64;
    let input = vec![0.0f32; buf];
    let mut output = vec![0.0f32; buf];

    ring.process(&input, &mut output, 0.0);

    ring.feed_remote("peer-x".into(), 0, 0, vec![0.2f32; buf]);
    ring.feed_remote("peer-y".into(), 0, 0, vec![0.5f32; buf]);

    // Cross boundary
    ring.process(&input, &mut output, 16.0);

    // Post-fade: summed mix should be 0.2 + 0.5 = 0.7
    assert!(
        output[XFADE_LEN..].iter().all(|&s| (s - 0.7).abs() < 0.001),
        "Summed mix should be 0.7 after fade, got: {:?}", &output[XFADE_LEN..XFADE_LEN+4]
    );

    // Per-peer should sum to the same thing
    let active = ring.active_peer_slots();
    let mut sum = vec![0.0f32; buf];
    for (idx, _, _) in &active {
        let mut peer_buf = vec![0.0f32; buf];
        ring.read_peer_playback(*idx, &mut peer_buf);
        for (i, s) in peer_buf.iter().enumerate() {
            sum[i] += s;
        }
    }

    for (i, &s) in sum.iter().enumerate().skip(XFADE_LEN) {
        assert!(
            (s - 0.7).abs() < 0.001,
            "Sum of per-peer slots at {i} = {s}, expected 0.7"
        );
    }
}

#[test]
fn inactive_peer_slot_returns_silence() {
    let mut ring = make_ring();
    let mut output = vec![1.0f32; 64];

    // Slot 6 has never been assigned
    ring.read_peer_playback(6, &mut output);
    assert!(output.iter().all(|&s| s == 0.0));
}

// --- Test: Realistic DAW timing fills the full interval ---

#[test]
fn interval_fill_ratio_realistic_daw() {
    let mut ring = make_ring();
    let bpm = 120.0_f64;
    let buf_frames: usize = 256;
    let buf_size = buf_frames * CH as usize;

    let input: Vec<f32> = (0..buf_size)
        .map(|i| {
            let t = (i / CH as usize) as f32 / SR as f32;
            (t * 440.0 * 2.0 * std::f32::consts::PI).sin() * 0.5
        })
        .collect();
    let mut output = vec![0.0f32; buf_size];

    let beats_per_callback = buf_frames as f64 / SR as f64 * bpm / 60.0;
    let mut beat = 0.0_f64;
    let mut callbacks = 0_u32;

    while beat < 16.0 {
        ring.process(&input, &mut output, beat);
        beat += beats_per_callback;
        callbacks += 1;
    }

    ring.process(&input, &mut output, beat);
    callbacks += 1;

    let completed = ring.take_completed();
    assert_eq!(completed.len(), 1, "Should produce exactly 1 completed interval");

    let interval = &completed[0];
    assert_eq!(interval.index, 0);

    let expected_samples = (SR as f64 * 8.0 * CH as f64) as usize;
    let tolerance = buf_size * 2;

    assert!(
        interval.samples.len() > expected_samples - tolerance,
        "Interval should contain near-full recording. Got {} samples, expected ~{} (callbacks={})",
        interval.samples.len(), expected_samples, callbacks,
    );
    assert!(
        interval.samples.len() <= expected_samples + tolerance,
        "Interval should not exceed expected size. Got {} samples, expected ~{}",
        interval.samples.len(), expected_samples,
    );

    let rms: f32 = (interval.samples.iter().map(|s| s * s).sum::<f32>()
        / interval.samples.len() as f32)
        .sqrt();
    assert!(rms > 0.1, "Completed interval should contain real audio, RMS={rms}");

    println!(
        "[test] interval_fill_ratio: callbacks={}, samples={}, expected≈{}, RMS={:.4}",
        callbacks, interval.samples.len(), expected_samples, rms,
    );
}

// --- Test: Peer affinity slots ---

#[test]
fn remove_peer_frees_slot() {
    let mut ring = make_ring();
    let input = vec![0.0f32; 128];
    let mut output = vec![0.0f32; 128];

    ring.process(&input, &mut output, 0.0);
    ring.feed_remote("peer-a".into(), 0, 0, vec![0.3f32; 128]);
    ring.process(&input, &mut output, 16.0);

    assert_eq!(ring.active_peer_slots().len(), 1);
    let (slot_a, _, _) = ring.active_peer_slots()[0].clone();

    ring.remove_peer("peer-a");
    assert_eq!(ring.active_peer_slots().len(), 0);

    // The freed slot should be reusable by a new peer
    ring.feed_remote("peer-b".into(), 0, 1, vec![0.5f32; 128]);
    ring.process(&input, &mut output, 32.0);

    let active = ring.active_peer_slots();
    assert_eq!(active.len(), 1);
    assert_eq!(active[0].0, slot_a, "New peer should get the freed slot");
    assert_eq!(active[0].1, "peer-b");
}

#[test]
fn affinity_reclaims_same_slot_on_reconnect() {
    let mut ring = make_ring();
    let input = vec![0.0f32; 128];
    let mut output = vec![0.0f32; 128];

    // peer-a gets slot 0, peer-b gets slot 1
    ring.notify_peer_joined("peer-a", "identity-alice");
    ring.notify_peer_joined("peer-b", "identity-bob");

    ring.process(&input, &mut output, 0.0);
    ring.feed_remote("peer-a".into(), 0, 0, vec![0.3f32; 128]);
    ring.feed_remote("peer-b".into(), 0, 0, vec![0.7f32; 128]);
    ring.process(&input, &mut output, 16.0);

    let active = ring.active_peer_slots();
    let slot_a = active.iter().find(|(_, pid, _)| pid == "peer-a").unwrap().0;
    let slot_b = active.iter().find(|(_, pid, _)| pid == "peer-b").unwrap().0;
    assert_ne!(slot_a, slot_b);

    // peer-a disconnects
    ring.remove_peer("peer-a");
    assert_eq!(ring.active_peer_slots().len(), 1);

    // peer-a reconnects with a NEW peer_id but same identity
    ring.notify_peer_joined("peer-a-new", "identity-alice");

    // Feed audio from the new peer_id
    ring.feed_remote("peer-a-new".into(), 0, 2, vec![0.9f32; 128]);
    ring.process(&input, &mut output, 32.0);

    // peer-a-new should have reclaimed peer-a's original slot
    let active = ring.active_peer_slots();
    let new_slot = active.iter().find(|(_, pid, _)| pid == "peer-a-new").unwrap().0;
    assert_eq!(new_slot, slot_a, "Reconnected peer should reclaim original slot via affinity");

    // peer-b should still have their original slot
    let bob_slot = active.iter().find(|(_, pid, _)| pid == "peer-b").unwrap().0;
    assert_eq!(bob_slot, slot_b);
}

#[test]
fn affinity_slot_taken_falls_back_to_first_fit() {
    let mut ring = make_ring();
    let input = vec![0.0f32; 128];
    let mut output = vec![0.0f32; 128];

    // Set up: peer-a at slot 0
    ring.notify_peer_joined("peer-a", "identity-alice");
    ring.process(&input, &mut output, 0.0);
    ring.feed_remote("peer-a".into(), 0, 0, vec![0.3f32; 128]);
    ring.process(&input, &mut output, 16.0);
    let slot_a = ring.active_peer_slots()[0].0;

    // peer-a leaves — affinity reserved
    ring.remove_peer("peer-a");

    // A different peer takes slot 0
    ring.feed_remote("peer-c".into(), 0, 1, vec![0.1f32; 128]);
    ring.process(&input, &mut output, 32.0);
    let slot_c = ring.active_peer_slots().iter().find(|(_, pid, _)| pid == "peer-c").unwrap().0;
    assert_eq!(slot_c, slot_a, "peer-c should take the freed slot");

    // Now peer-a reconnects — their affinity slot is taken
    ring.notify_peer_joined("peer-a-new", "identity-alice");
    ring.feed_remote("peer-a-new".into(), 0, 2, vec![0.5f32; 128]);
    ring.process(&input, &mut output, 48.0);

    // Should get a different slot (first-fit fallback)
    let active = ring.active_peer_slots();
    let new_slot = active.iter().find(|(_, pid, _)| pid == "peer-a-new").unwrap().0;
    assert_ne!(new_slot, slot_a, "Affinity slot is occupied — should get a different one");
}

#[test]
fn remove_peer_without_identity_frees_without_affinity() {
    let mut ring = make_ring();
    let input = vec![0.0f32; 128];
    let mut output = vec![0.0f32; 128];

    // peer-a joins WITHOUT identity (old client)
    ring.process(&input, &mut output, 0.0);
    ring.feed_remote("peer-a".into(), 0, 0, vec![0.3f32; 128]);
    ring.process(&input, &mut output, 16.0);

    assert_eq!(ring.active_peer_slots().len(), 1);
    ring.remove_peer("peer-a");
    assert_eq!(ring.active_peer_slots().len(), 0);

    // Slot is freed with no affinity reservation (no identity)
    ring.feed_remote("peer-b".into(), 0, 1, vec![0.5f32; 128]);
    ring.process(&input, &mut output, 32.0);
    assert_eq!(ring.active_peer_slots().len(), 1);
}

#[test]
fn reset_clears_affinity() {
    let mut ring = make_ring();
    let input = vec![0.0f32; 128];
    let mut output = vec![0.0f32; 128];

    ring.notify_peer_joined("peer-a", "identity-alice");
    ring.process(&input, &mut output, 0.0);
    ring.feed_remote("peer-a".into(), 0, 0, vec![0.3f32; 128]);
    ring.process(&input, &mut output, 16.0);
    ring.remove_peer("peer-a");

    // Reset clears everything including affinity
    ring.reset();

    // Reconnect — should get first-fit (slot 0), not necessarily from affinity
    ring.notify_peer_joined("peer-a-new", "identity-alice");
    ring.process(&input, &mut output, 0.0);
    ring.feed_remote("peer-a-new".into(), 0, 0, vec![0.5f32; 128]);
    ring.process(&input, &mut output, 16.0);

    let active = ring.active_peer_slots();
    assert_eq!(active.len(), 1);
    assert_eq!(active[0].0, 0, "After reset, slot 0 should be assigned first-fit");
}

// --- Test: Multi-stream support ---

#[test]
fn multi_stream_same_peer_separate_slots() {
    let mut ring = make_ring();
    let buf = XFADE_LEN + 64;
    let input = vec![0.0f32; buf];
    let mut output = vec![0.0f32; buf];

    ring.process(&input, &mut output, 0.0);

    // Same peer, two different streams
    ring.feed_remote("peer-a".into(), 0, 0, vec![0.3f32; buf]);
    ring.feed_remote("peer-a".into(), 1, 0, vec![0.7f32; buf]);

    ring.process(&input, &mut output, 16.0);

    let active = ring.active_peer_slots();
    assert_eq!(active.len(), 2, "Two streams from same peer should get separate slots");

    // Find slots by stream_id
    let (s0_idx, _, _) = active.iter().find(|(_, pid, sid)| pid == "peer-a" && *sid == 0).unwrap();
    let (s1_idx, _, _) = active.iter().find(|(_, pid, sid)| pid == "peer-a" && *sid == 1).unwrap();
    assert_ne!(s0_idx, s1_idx);

    let mut s0_out = vec![0.0f32; buf];
    let mut s1_out = vec![0.0f32; buf];
    ring.read_peer_playback(*s0_idx, &mut s0_out);
    ring.read_peer_playback(*s1_idx, &mut s1_out);

    // Post-fade: each stream at full amplitude
    assert!(s0_out[XFADE_LEN..].iter().all(|&s| (s - 0.3).abs() < f32::EPSILON));
    assert!(s1_out[XFADE_LEN..].iter().all(|&s| (s - 0.7).abs() < f32::EPSILON));

    // Summed playback should be 0.3 + 0.7 = 1.0 (post-fade)
    assert!(output[XFADE_LEN..].iter().all(|&s| (s - 1.0).abs() < 0.001),
        "Summed mix should be 1.0 after fade, got: {:?}", &output[XFADE_LEN..XFADE_LEN+4]);
}

#[test]
fn slot_exhaustion_merges_to_stream_0() {
    let mut ring = make_ring();
    let buf = XFADE_LEN + 64;
    let input = vec![0.0f32; buf];
    let mut output = vec![0.0f32; buf];

    ring.process(&input, &mut output, 0.0);

    // Fill all 15 slots with distinct peer-streams
    // Peer-a stream 0 is at slot 0 (this is the merge target)
    ring.feed_remote("peer-a".into(), 0, 0, vec![0.1f32; buf]);
    for i in 1..MAX_REMOTE_PEERS {
        let peer = format!("peer-fill-{i}");
        ring.feed_remote(peer, 0, 0, vec![0.01f32; buf]);
    }

    // 16th stream should overflow — merge into peer-a's stream 0
    ring.feed_remote("peer-a".into(), 5, 0, vec![0.5f32; buf]);

    ring.process(&input, &mut output, 16.0);

    // Should still have exactly 15 active slots (no new slot for overflow)
    let active = ring.active_peer_slots();
    assert_eq!(active.len(), MAX_REMOTE_PEERS);

    // peer-a stream 0 should contain merged audio post-fade
    // stream 0 (0.1) is faded, overflow stream 5 (0.5) is unfaded (no slot assigned)
    // After fade region: faded(0.1) converges to 0.1, so total = 0.1 + 0.5 = 0.6
    let (s0_idx, _, _) = active.iter().find(|(_, pid, sid)| pid == "peer-a" && *sid == 0).unwrap();
    let mut s0_out = vec![0.0f32; buf];
    ring.read_peer_playback(*s0_idx, &mut s0_out);
    assert!(
        s0_out[XFADE_LEN..].iter().all(|&s| (s - 0.6).abs() < 0.01),
        "Overflowed stream should merge into stream 0 (post-fade), got: {:?}",
        &s0_out[XFADE_LEN..XFADE_LEN+4]
    );
}

#[test]
fn remove_peer_frees_all_streams() {
    let mut ring = make_ring();
    let input = vec![0.0f32; 128];
    let mut output = vec![0.0f32; 128];

    ring.process(&input, &mut output, 0.0);

    // Peer-a sends 3 streams
    ring.feed_remote("peer-a".into(), 0, 0, vec![0.1f32; 128]);
    ring.feed_remote("peer-a".into(), 1, 0, vec![0.2f32; 128]);
    ring.feed_remote("peer-a".into(), 2, 0, vec![0.3f32; 128]);

    ring.process(&input, &mut output, 16.0);
    assert_eq!(ring.active_peer_slots().len(), 3);

    // Remove peer-a — all 3 streams should be freed
    ring.remove_peer("peer-a");
    assert_eq!(ring.active_peer_slots().len(), 0);
}

#[test]
fn affinity_multi_stream_reclaims_all_slots() {
    let mut ring = make_ring();
    let input = vec![0.0f32; 128];
    let mut output = vec![0.0f32; 128];

    ring.notify_peer_joined("peer-a", "identity-alice");
    ring.process(&input, &mut output, 0.0);

    // Peer-a sends 2 streams
    ring.feed_remote("peer-a".into(), 0, 0, vec![0.1f32; 128]);
    ring.feed_remote("peer-a".into(), 1, 0, vec![0.2f32; 128]);
    ring.process(&input, &mut output, 16.0);

    let active = ring.active_peer_slots();
    let slot_s0 = active.iter().find(|(_, _, sid)| *sid == 0).unwrap().0;
    let slot_s1 = active.iter().find(|(_, _, sid)| *sid == 1).unwrap().0;

    // Disconnect
    ring.remove_peer("peer-a");

    // Reconnect with new peer_id, same identity
    ring.notify_peer_joined("peer-a-new", "identity-alice");
    ring.feed_remote("peer-a-new".into(), 0, 1, vec![0.3f32; 128]);
    ring.feed_remote("peer-a-new".into(), 1, 1, vec![0.4f32; 128]);
    ring.process(&input, &mut output, 32.0);

    let active = ring.active_peer_slots();
    let new_s0 = active.iter().find(|(_, _, sid)| *sid == 0).unwrap().0;
    let new_s1 = active.iter().find(|(_, _, sid)| *sid == 1).unwrap().0;

    assert_eq!(new_s0, slot_s0, "Stream 0 should reclaim original slot");
    assert_eq!(new_s1, slot_s1, "Stream 1 should reclaim original slot");
}

// --- Test: Fade-in on peer join/reconnect ---

#[test]
fn fade_in_applied_to_first_interval_from_new_peer() {
    let mut ring = make_ring();
    let buf = XFADE_LEN + 64;
    let input = vec![0.0f32; buf];
    let mut output = vec![0.0f32; buf];

    ring.process(&input, &mut output, 0.0);

    // Feed constant-amplitude audio from a new peer
    ring.feed_remote("peer-a".into(), 0, 0, vec![1.0f32; buf]);
    ring.process(&input, &mut output, 16.0);

    // First sample near-zero: equal-power from silence, sin(1/XFADE_LEN·π/2) is small
    assert!(output[0] < 0.02,
        "First sample should be near 0.0 (faded), got: {}", output[0]);

    // Mid-fade: equal-power formula, not linear
    let mid = XFADE_LEN / 2;
    let expected_mid = ((mid + 1) as f32 / XFADE_LEN as f32 * std::f32::consts::FRAC_PI_2).sin();
    assert!((output[mid] - expected_mid).abs() < 0.01,
        "Mid-fade sample should be ~{expected_mid:.3} (sin curve), got: {}", output[mid]);

    // Post-fade should be full amplitude
    assert!((output[XFADE_LEN] - 1.0).abs() < f32::EPSILON,
        "Post-fade sample should be 1.0, got: {}", output[XFADE_LEN]);

    // Per-peer slot should match the summed output
    let active = ring.active_peer_slots();
    let (slot_idx, _, _) = active.iter().find(|(_, pid, _)| pid == "peer-a").unwrap();
    let mut peer_out = vec![0.0f32; buf];
    ring.read_peer_playback(*slot_idx, &mut peer_out);

    assert!(peer_out[0] < 0.02,
        "Per-peer first sample should be near 0.0, got: {}", peer_out[0]);
    assert!((peer_out[XFADE_LEN] - 1.0).abs() < f32::EPSILON,
        "Per-peer post-fade sample should be 1.0, got: {}", peer_out[XFADE_LEN]);
}

#[test]
fn crossfades_between_successive_intervals() {
    let mut ring = make_ring();
    let buf = XFADE_LEN + 64;
    let input = vec![0.0f32; buf];
    let mut output = vec![0.0f32; buf];

    ring.process(&input, &mut output, 0.0);

    // First interval from new peer — fades in from silence
    ring.feed_remote("peer-a".into(), 0, 0, vec![1.0f32; buf]);
    ring.process(&input, &mut output, 16.0);
    assert!(output[0] < 0.02, "First interval should start near zero, got: {}", output[0]);

    // Feed second interval from same peer (old tail = 1.0)
    ring.feed_remote("peer-a".into(), 0, 1, vec![0.8f32; buf]);
    ring.process(&input, &mut output, 32.0);

    // At the boundary: old tail blends into new audio (0.8).
    // First sample should differ from pure new audio (crossfade is active).
    // Post-crossfade sample is pure new audio.
    assert!((output[0] - 0.8).abs() > 0.001, "Start of crossfade should blend, not pass through");
    assert!((output[XFADE_LEN] - 0.8).abs() < f32::EPSILON,
        "Post-crossfade should be pure new audio (0.8), got: {}", output[XFADE_LEN]);
}

#[test]
fn fade_in_applied_on_reconnect_via_affinity() {
    let mut ring = make_ring();
    let buf = XFADE_LEN + 64;
    let input = vec![0.0f32; buf];
    let mut output = vec![0.0f32; buf];

    ring.notify_peer_joined("peer-a", "identity-alice");
    ring.process(&input, &mut output, 0.0);

    // First interval — faded
    ring.feed_remote("peer-a".into(), 0, 0, vec![1.0f32; buf]);
    ring.process(&input, &mut output, 16.0);

    // Second interval — crossfades from 1.0 to 1.0 (same amplitude, effectively seamless)
    ring.feed_remote("peer-a".into(), 0, 1, vec![1.0f32; buf]);
    ring.process(&input, &mut output, 32.0);
    assert!((output[XFADE_LEN] - 1.0).abs() < f32::EPSILON,
        "Post-crossfade should be 1.0, got: {}", output[XFADE_LEN]);

    // Disconnect
    ring.remove_peer("peer-a");

    // Reconnect with new peer_id, same identity
    ring.notify_peer_joined("peer-a-new", "identity-alice");

    // First interval after reconnect — should be faded again
    ring.feed_remote("peer-a-new".into(), 0, 2, vec![1.0f32; buf]);
    ring.process(&input, &mut output, 48.0);

    assert!(output[0] < 0.02,
        "First sample after reconnect should be near 0.0 (faded), got: {}", output[0]);
    assert!((output[XFADE_LEN] - 1.0).abs() < f32::EPSILON,
        "Post-fade should be 1.0, got: {}", output[XFADE_LEN]);
}

#[test]
fn fade_in_summed_mix_consistency() {
    let mut ring = make_ring();
    let buf = XFADE_LEN + 64;
    let input = vec![0.0f32; buf];
    let mut output = vec![0.0f32; buf];

    ring.process(&input, &mut output, 0.0);

    // Two new peers, both should be faded
    ring.feed_remote("peer-a".into(), 0, 0, vec![0.5f32; buf]);
    ring.feed_remote("peer-b".into(), 0, 0, vec![0.5f32; buf]);

    ring.process(&input, &mut output, 16.0);

    // First sample: both peers crossfade from silence → sum near zero
    assert!(output[0] < 0.02,
        "Summed first sample should be near 0.0, got: {}", output[0]);

    // After fade: 0.5 + 0.5 = 1.0
    assert!((output[XFADE_LEN] - 1.0).abs() < f32::EPSILON,
        "Post-fade summed should be 1.0, got: {}", output[XFADE_LEN]);

    // Per-peer slots should sum to the same as the main output
    let active = ring.active_peer_slots();
    let mut sum = vec![0.0f32; buf];
    for (idx, _, _) in &active {
        let mut peer_buf = vec![0.0f32; buf];
        ring.read_peer_playback(*idx, &mut peer_buf);
        for (i, s) in peer_buf.iter().enumerate() {
            sum[i] += s;
        }
    }

    for i in 0..buf {
        assert!((sum[i] - output[i]).abs() < 0.001,
            "Per-peer sum at {i} = {}, expected {}", sum[i], output[i]);
    }
}

#[test]
fn fade_in_short_interval_clamped() {
    let mut ring = make_ring();
    let input = vec![0.0f32; 64];
    let mut output = vec![0.0f32; 64];

    ring.process(&input, &mut output, 0.0);

    // Feed only 32 samples (much shorter than the crossfade window)
    ring.feed_remote("peer-a".into(), 0, 0, vec![1.0f32; 32]);
    ring.process(&input, &mut output, 16.0);

    // Should not panic; first sample near zero (sin(1/32·π/2) ≈ 0.098)
    assert!(output[0] < 0.15, "First sample should be near zero, got: {}", output[0]);
    // Last audio sample (i=31, t=1.0): sin(π/2) = 1.0, so output = 1.0 * 1.0 = 1.0
    assert!((output[31] - 1.0).abs() < 0.01,
        "Last sample should be ~1.0, got: {}", output[31]);
    // Silence after audio
    assert_eq!(output[32], 0.0);
}

// --- Tests: reconnect with same peer_id (WebRTC-level reconnect, no new peer_id) ---

/// When the WebRTC connection drops and reconnects without a new peer_id
/// (session retries the same connection), no PeerLeft IPC is sent.
/// The session sends PeerJoined again with the same peer_id and identity.
/// The ring must keep the peer on the same slot — the slot was never freed.
#[test]
fn same_peer_id_reconnect_keeps_same_slot() {
    let mut ring = make_ring();
    let input = vec![0.0f32; 128];
    let mut output = vec![0.0f32; 128];

    // Initial connection: peer-a joins and is assigned slot 0
    ring.notify_peer_joined("peer-a", "identity-alice");
    ring.process(&input, &mut output, 0.0);
    ring.feed_remote("peer-a".into(), 0, 0, vec![0.3f32; 128]);
    ring.process(&input, &mut output, 16.0);

    let slot_a = ring.active_peer_slots()
        .iter()
        .find(|(_, pid, _)| pid == "peer-a")
        .unwrap()
        .0;

    // WebRTC reconnect: PeerJoined IPC re-sent with same peer_id/identity,
    // but NO PeerLeft was sent (slot is still active)
    ring.notify_peer_joined("peer-a", "identity-alice");

    // Audio resumes from the same peer_id
    ring.feed_remote("peer-a".into(), 0, 1, vec![0.5f32; 128]);
    ring.process(&input, &mut output, 32.0);

    let active = ring.active_peer_slots();
    let slot_after = active.iter()
        .find(|(_, pid, _)| pid == "peer-a")
        .unwrap()
        .0;

    assert_eq!(slot_after, slot_a,
        "Same peer_id reconnect must stay on the same slot");
    assert_eq!(active.len(), 1, "Only one peer should be tracked");
}

// --- Tests: reconnect with stale peer ---

/// The old peer was not removed: its identity maps the new peer_id to the same slot.
#[test]
fn reconnect_without_eviction_inherits_same_slot() {
    let mut ring = make_ring();
    let input = vec![0.0f32; 128];
    let mut output = vec![0.0f32; 128];

    // peer-a joins and is assigned slot 0 via audio
    ring.notify_peer_joined("peer-a", "identity-alice");
    ring.process(&input, &mut output, 0.0);
    ring.feed_remote("peer-a".into(), 0, 0, vec![0.3f32; 128]);
    ring.process(&input, &mut output, 16.0);

    let slot_a = ring.active_peer_slots()
        .iter()
        .find(|(_, pid, _)| pid == "peer-a")
        .unwrap()
        .0;

    // peer-a-new arrives with the same identity — even without explicit
    // remove_peer("peer-a"), the ClientChannelMapping is the same so it
    // maps to the same slot. The new peer_id takes over the slot.
    ring.notify_peer_joined("peer-a-new", "identity-alice");
    ring.feed_remote("peer-a-new".into(), 0, 1, vec![0.5f32; 128]);
    ring.process(&input, &mut output, 32.0);

    let active = ring.active_peer_slots();
    let slot_new = active.iter()
        .find(|(_, pid, _)| pid == "peer-a-new")
        .unwrap()
        .0;

    // Same ClientChannelMapping → same slot, new peer_id takes over
    assert_eq!(slot_new, slot_a,
        "Same identity maps to same slot via ClientChannelMapping");
}

/// The old peer is removed first: remove_peer(old) → notify_peer_joined(new, same
/// identity). The ring restores the slot via affinity.
#[test]
fn eviction_before_reconnect_reclaims_slot() {
    let mut ring = make_ring();
    let input = vec![0.0f32; 128];
    let mut output = vec![0.0f32; 128];

    // peer-a joins and is assigned slot 0
    ring.notify_peer_joined("peer-a", "identity-alice");
    ring.process(&input, &mut output, 0.0);
    ring.feed_remote("peer-a".into(), 0, 0, vec![0.3f32; 128]);
    ring.process(&input, &mut output, 16.0);

    let slot_a = ring.active_peer_slots()
        .iter()
        .find(|(_, pid, _)| pid == "peer-a")
        .unwrap()
        .0;

    // Session eviction: PeerLeft IPC → remove_peer; PeerJoined IPC → notify_peer_joined
    ring.remove_peer("peer-a");
    ring.notify_peer_joined("peer-a-new", "identity-alice");

    ring.feed_remote("peer-a-new".into(), 0, 1, vec![0.5f32; 128]);
    ring.process(&input, &mut output, 32.0);

    let active = ring.active_peer_slots();
    let slot_new = active.iter()
        .find(|(_, pid, _)| pid == "peer-a-new")
        .unwrap()
        .0;

    assert_eq!(slot_new, slot_a,
        "After eviction the reconnecting peer reclaims its original slot");
    assert_eq!(active.len(), 1);
}

/// Two peers are active. One peer reconnects with a new peer_id (old slot
/// occupied).  The session evicts the stale entry.  The reconnecting peer
/// reclaims their original slot; the other peer is unaffected.
#[test]
fn eviction_with_bystander_peer_unaffected() {
    let mut ring = make_ring();
    let input = vec![0.0f32; 128];
    let mut output = vec![0.0f32; 128];

    ring.notify_peer_joined("peer-a", "identity-alice");
    ring.notify_peer_joined("peer-b", "identity-bob");
    ring.process(&input, &mut output, 0.0);
    ring.feed_remote("peer-a".into(), 0, 0, vec![0.3f32; 128]);
    ring.feed_remote("peer-b".into(), 0, 0, vec![0.7f32; 128]);
    ring.process(&input, &mut output, 16.0);

    let slot_a = ring.active_peer_slots()
        .iter()
        .find(|(_, pid, _)| pid == "peer-a")
        .unwrap()
        .0;
    let slot_b = ring.active_peer_slots()
        .iter()
        .find(|(_, pid, _)| pid == "peer-b")
        .unwrap()
        .0;
    assert_ne!(slot_a, slot_b);

    // Session evicts peer-a (reconnect detected) and registers new peer_id
    ring.remove_peer("peer-a");
    ring.notify_peer_joined("peer-a-new", "identity-alice");

    ring.feed_remote("peer-a-new".into(), 0, 1, vec![0.5f32; 128]);
    ring.feed_remote("peer-b".into(), 0, 1, vec![0.7f32; 128]);
    ring.process(&input, &mut output, 32.0);

    let active = ring.active_peer_slots();
    let new_a = active.iter().find(|(_, pid, _)| pid == "peer-a-new").unwrap().0;
    let new_b = active.iter().find(|(_, pid, _)| pid == "peer-b").unwrap().0;

    assert_eq!(new_a, slot_a, "peer-a-new reclaims peer-a's original slot");
    assert_eq!(new_b, slot_b, "peer-b is unaffected by peer-a's reconnect");
}

/// Audio arriving before identity is known should not leak a slot when
/// notify_peer_joined later provides the real identity.
#[test]
fn audio_before_identity_rekeys_slot() {
    let mut ring = make_ring();
    let input = vec![0.0f32; 128];
    let mut output = vec![0.0f32; 128];

    // Audio arrives before Hello — identity unknown, slot assigned under peer_id
    ring.process(&input, &mut output, 0.0);
    ring.feed_remote("peer-a".to_string(), 0, 0, vec![0.3f32; 128]);
    ring.process(&input, &mut output, 16.0);

    let slot_before = ring.active_peer_slots()
        .iter()
        .find(|(_, pid, _)| pid == "peer-a")
        .unwrap()
        .0;

    // Hello arrives — identity becomes known
    ring.notify_peer_joined("peer-a", "identity-alice");

    // Next audio uses the real identity key
    ring.feed_remote("peer-a".to_string(), 0, 1, vec![0.5f32; 128]);
    ring.process(&input, &mut output, 32.0);

    let active = ring.active_peer_slots();
    let slot_after = active.iter()
        .find(|(_, pid, _)| pid == "peer-a")
        .unwrap()
        .0;

    // Same slot — no double-allocation
    assert_eq!(slot_before, slot_after,
        "Slot should be re-keyed, not duplicated");
    assert_eq!(active.len(), 1, "Only one active slot should exist");
}

// --- Test: feed_remote accumulation ---

#[test]
fn feed_remote_accumulates_same_peer_stream_interval() {
    let mut ring = make_ring();

    // Feed three chunks for the same (peer, stream, interval)
    ring.feed_remote("peer-a".into(), 0, 1, vec![0.1f32; 100]);
    ring.feed_remote("peer-a".into(), 0, 1, vec![0.2f32; 200]);
    ring.feed_remote("peer-a".into(), 0, 1, vec![0.3f32; 50]);

    // Should produce exactly 1 pending entry, not 3
    assert_eq!(ring.pending_remote_count(), 1);
}

#[test]
fn feed_remote_different_keys_stay_separate() {
    let mut ring = make_ring();

    // Different peer
    ring.feed_remote("peer-a".into(), 0, 1, vec![0.1f32; 100]);
    ring.feed_remote("peer-b".into(), 0, 1, vec![0.2f32; 100]);

    // Different stream_id
    ring.feed_remote("peer-a".into(), 1, 1, vec![0.3f32; 100]);

    // Different interval_index
    ring.feed_remote("peer-a".into(), 0, 2, vec![0.4f32; 100]);

    assert_eq!(ring.pending_remote_count(), 4);
}

#[test]
fn reset_produces_silence_after_active_playback() {
    let mut ring = make_ring();
    let input = vec![0.0f32; 128];
    let mut output = vec![0.0f32; 128];

    // Start interval 0
    ring.process(&input, &mut output, 0.0);

    // Feed remote audio for interval 0
    ring.feed_remote("peer-a".into(), 0, 0, vec![0.5f32; 1920]);

    // Cross into interval 1 — remote audio mixes into playback
    ring.process(&input, &mut output, 16.0);
    let energy: f32 = output.iter().map(|s| s.abs()).sum();
    assert!(energy > 0.0, "Should have audio before reset");

    // Reset clears all state
    ring.reset();

    // Process again — should be silence
    let mut output2 = vec![1.0f32; 128];
    ring.process(&input, &mut output2, 16.5);
    assert!(
        output2.iter().all(|&s| s == 0.0),
        "Expected silence after reset, but got audio"
    );
}

// --- Transport restart ---

#[test]
fn loop_playback_does_not_reset_positions() {
    let mut ring = make_ring();
    let input = vec![0.5f32; 256];
    let mut output = vec![0.0f32; 256];

    // Advance through a full interval
    ring.process(&input, &mut output, 0.0);
    ring.process(&input, &mut output, 4.0);
    ring.process(&input, &mut output, 8.0);
    ring.process(&input, &mut output, 12.0);

    assert_eq!(ring.current_interval(), Some(0));
    let pos_before = ring.record_position();
    assert!(pos_before > 0, "Should have recorded samples");

    // Simulate DAW loop: beat jumps back to 0 while transport stays playing.
    // This must NOT reset positions — only explicit reset_transport() should.
    ring.process(&input, &mut output, 0.0);

    // Record position should continue accumulating (loop did not reset)
    assert!(
        ring.record_position() > pos_before,
        "Loop boundary should not reset record position"
    );
}

#[test]
fn reset_transport_preserves_peer_slots() {
    let mut ring = make_ring();
    let input = vec![0.0f32; 256];
    let mut output = vec![0.0f32; 256];

    // Start an interval and feed remote audio
    ring.process(&input, &mut output, 0.0);
    ring.feed_remote("peer-a".into(), 0, 0, vec![0.3f32; 512]);

    // Cross boundary so peer slot gets assigned
    ring.process(&input, &mut output, 16.0);

    let peers_before = ring.active_peer_slots();
    assert!(!peers_before.is_empty(), "Should have active peer slots");

    // Reset transport
    ring.reset_transport();

    // Peer slots should still be active
    let peers_after = ring.active_peer_slots();
    assert_eq!(peers_before.len(), peers_after.len());
    assert_eq!(peers_before[0].1, peers_after[0].1, "Peer ID should be preserved");
}

#[test]
fn reset_transport_resets_positions() {
    let mut ring = make_ring();
    let input = vec![0.5f32; 256];
    let mut output = vec![0.0f32; 256];

    ring.process(&input, &mut output, 0.0);
    ring.process(&input, &mut output, 8.0);

    assert!(ring.record_position() > 0);
    assert!(ring.current_interval().is_some());

    ring.reset_transport();

    assert_eq!(ring.record_position(), 0);
    assert_eq!(ring.current_interval(), None);
    assert_eq!(ring.playback_remaining(), 0);
}

#[test]
fn transport_restart_full_playback() {
    let mut ring = make_ring();
    let input = vec![0.0f32; 256];
    let mut output = vec![0.0f32; 256];

    // Process first interval
    ring.process(&input, &mut output, 0.0);

    // Feed remote audio for interval 0
    let remote = vec![0.5f32; 1024];
    ring.feed_remote("peer-a".into(), 0, 0, remote.clone());

    // Cross boundary to interval 1 — remote audio becomes playback
    ring.process(&input, &mut output, 16.0);

    // Read some playback (simulate partial playback before transport stop)
    ring.process(&input, &mut output, 17.0);
    let played_before_stop = output.iter().filter(|&&s| s != 0.0).count();
    assert!(played_before_stop > 0, "Should have played some audio");

    // Simulate transport restart at beat 0
    ring.reset_transport();

    // Feed the same remote audio again for the new interval 0
    ring.feed_remote("peer-a".into(), 0, 0, remote.clone());

    // Start fresh interval
    ring.process(&input, &mut output, 0.0);

    // Cross boundary again
    ring.process(&input, &mut output, 16.0);

    // Now playback should start from the beginning (full audio)
    let mut full_output = vec![0.0f32; 1024];
    ring.process(&input, &mut full_output, 17.0);
    let played_after_restart = full_output.iter().filter(|&&s| s != 0.0).count();
    assert!(
        played_after_restart > 0,
        "Should have full playback after transport restart"
    );
}

#[test]
fn bulk_decode_after_boundary_causes_silence() {
    let mut ring = make_ring();

    let buf_size = 4096;
    let input = vec![0.0f32; buf_size];
    let mut output = vec![0.0f32; buf_size];

    // Start interval 0
    ring.process(&input, &mut output, 0.0);

    // Cross boundary into interval 1 — NO remote audio fed yet
    ring.process(&input, &mut output, 16.0);

    // Verify: silence at the boundary
    let energy: f32 = output.iter().map(|s| s * s).sum::<f32>() / output.len() as f32;
    assert!(energy.sqrt() < 0.001,
        "Should be silence when no audio was fed before boundary, RMS={}",
        energy.sqrt());

    // NOW the bulk-decoded audio arrives (too late for interval 0 playback).
    // Tagged as interval 1 (the current recording interval).
    ring.feed_remote("peer-a".into(), 0, 1, vec![0.5f32; buf_size]);

    // It sits in pending_remote, won't play until the NEXT boundary swap.
    // Process more within interval 1 — still silence from the missed swap.
    ring.process(&input, &mut output, 20.0);
    let energy2: f32 = output.iter().map(|s| s * s).sum::<f32>() / output.len() as f32;
    assert!(energy2.sqrt() < 0.001,
        "Late-arriving audio should NOT play mid-interval, RMS={}",
        energy2.sqrt());

    // Only at the NEXT boundary (interval 2) does it finally play
    ring.process(&input, &mut output, 32.0);
    let energy3: f32 = output.iter().map(|s| s * s).sum::<f32>() / output.len() as f32;
    assert!(energy3.sqrt() > 0.01,
        "Audio should finally play at the next boundary, RMS={}",
        energy3.sqrt());
}

#[test]
fn each_of_three_streams_is_heard_alone_in_its_slot() {
    let mut ring = make_ring();
    let buf = XFADE_LEN + 64;
    let input = vec![0.0f32; buf];
    let mut output = vec![0.0f32; buf];
    ring.process(&input, &mut output, 0.0);

    // Fed in two pieces, between those of the others
    ring.feed_remote("peer-a".into(), 0, 0, vec![0.25f32; buf / 2]);
    ring.feed_remote("peer-b".into(), 0, 0, vec![0.5f32; buf]);
    ring.feed_remote("peer-b".into(), 1, 0, vec![1.0f32; buf]);
    ring.feed_remote("peer-a".into(), 0, 0, vec![0.25f32; buf / 2]);

    ring.process(&input, &mut output, 16.0);
    assert!(output[XFADE_LEN..].iter().all(|&s| s == 1.75));

    let active = ring.active_peer_slots();
    assert_eq!(active.len(), 3);
    for (slot, peer, stream) in active {
        let expected = match (peer.as_str(), stream) {
            ("peer-a", 0) => 0.25,
            ("peer-b", 0) => 0.5,
            _ => 1.0,
        };
        let mut alone = vec![0.0f32; buf];
        ring.read_peer_playback(slot, &mut alone);
        assert!(alone[XFADE_LEN..].iter().all(|&s| s == expected));
    }
}

#[test]
fn live_audio_goes_to_its_own_slot_only() {
    let mut ring = make_ring();
    let buf = XFADE_LEN + 64;
    let input = vec![0.0f32; buf];
    let mut output = vec![0.0f32; buf];
    ring.process(&input, &mut output, 0.0);
    ring.feed_remote("peer-a".into(), 0, 0, vec![0.25f32; buf]);
    ring.feed_remote("peer-b".into(), 0, 0, vec![0.5f32; buf]);
    ring.process(&input, &mut output, 16.0);

    // More audio of the interval that is playing
    ring.feed_remote("peer-b".into(), 0, 0, vec![0.5f32; buf]);
    for (slot, peer, _) in ring.active_peer_slots() {
        let mut alone = vec![9.0f32; 2 * buf];
        let n = ring.read_peer_playback(slot, &mut alone);
        if peer == "peer-b" {
            assert_eq!(n, 2 * buf);
            assert!(alone[XFADE_LEN..].iter().all(|&s| s == 0.5));
        } else {
            assert_eq!(n, buf);
            assert!(alone[buf..].iter().all(|&s| s == 0.0));
        }
    }
}

#[test]
fn slot_without_audio_fades_in_from_silence() {
    let mut ring = make_ring();
    let mut nothing: Vec<f32> = Vec::new();
    ring.process(&[], &mut nothing, 0.0);
    ring.feed_remote("a".into(), 0, 0, vec![1.0, 1.0]);
    ring.process(&[], &mut nothing, 16.0);
    // Nothing for interval 1
    ring.process(&[], &mut nothing, 32.0);
    ring.feed_remote("a".into(), 0, 2, vec![1.0, 1.0]);
    ring.process(&[], &mut nothing, 48.0);

    let mut out = vec![9.0f32; 2];
    assert_eq!(ring.read_peer_playback(0, &mut out), 2);
    assert!((out[0] - std::f32::consts::FRAC_1_SQRT_2).abs() < 0.001, "{:?}", out);
    assert!((out[1] - 1.0).abs() < 0.001, "{:?}", out);
}

#[test]
fn audio_before_identity_does_not_leak_a_reserved_slot() {
    let mut ring = make_ring();
    let input = vec![0.0f32; 64];
    let mut output = vec![0.0f32; 64];
    ring.process(&input, &mut output, 0.0);
    ring.notify_peer_joined("a", "id");
    ring.feed_remote("b".into(), 0, 0, vec![0.1; 64]);
    ring.feed_remote("a".into(), 0, 0, vec![0.2; 64]);
    ring.process(&input, &mut output, 16.0);
    assert_eq!(ring.active_peer_slots(), vec![(0, "b".to_string(), 0), (1, "a".to_string(), 0)]);
    ring.remove_peer("b");
    ring.remove_peer("a");

    // Audio of the second peer, under a new id, before its identity
    ring.feed_remote("p".into(), 0, 1, vec![0.3; 64]);
    ring.process(&input, &mut output, 32.0);
    assert_eq!(ring.active_peer_slots(), vec![(0, "p".to_string(), 0)]);
    ring.notify_peer_joined("p", "id");
    assert_eq!(ring.active_peer_slots(), vec![(0, "p".to_string(), 0)]);

    ring.feed_remote("p".into(), 0, 2, vec![0.3; 64]);
    ring.process(&input, &mut output, 48.0);
    assert_eq!(ring.active_peer_slots(), vec![(0, "p".to_string(), 0)]);
}

#[test]
fn reconnect_restores_the_whole_list() {
    let mut ring = make_ring();
    let input = vec![0.0f32; 64];
    let mut output = vec![0.0f32; 64];
    ring.process(&input, &mut output, 0.0);
    ring.notify_peer_joined("a", "id");
    ring.feed_remote("a".into(), 0, 0, vec![0.1; 64]);
    ring.feed_remote("b".into(), 0, 0, vec![0.2; 64]);
    ring.feed_remote("a".into(), 4, 0, vec![0.3; 64]);
    ring.process(&input, &mut output, 16.0);
    ring.remove_peer("a");
    ring.notify_peer_joined("a2", "id");
    assert_eq!(
        ring.active_peer_slots(),
        vec![(0, "a2".to_string(), 0), (1, "b".to_string(), 0), (2, "a2".to_string(), 4)]
    );
}

#[test]
fn a_stream_that_moves_leaves_its_old_slot() {
    let mut ring = make_ring();
    let input = vec![0.0f32; 64];
    let mut output = vec![0.0f32; 64];
    ring.process(&input, &mut output, 0.0);
    // Two peers with one identity; the first leaves, and a third one comes with audio
    // before its identity
    ring.notify_peer_joined("p1", "id");
    ring.notify_peer_joined("p2", "id");
    ring.feed_remote("p2".into(), 0, 0, vec![0.1; 64]);
    ring.feed_remote("p3".into(), 0, 0, vec![0.2; 64]);
    ring.process(&input, &mut output, 16.0);
    ring.remove_peer("p1");
    ring.notify_peer_joined("p3", "id");
    ring.feed_remote("p2".into(), 0, 1, vec![0.1; 64]);
    ring.process(&input, &mut output, 32.0);
    let active = ring.active_peer_slots();
    assert_eq!(active.iter().filter(|(_, p, s)| p == "p2" && *s == 0).count(), 1);
}

#[test]
fn playback_is_one_interval_behind() {
    let mut ring = make_ring();
    let mut out = vec![9.0f32; 200];
    ring.process(&[], &mut out, 0.0);
    let x: Vec<f32> = (0..300).map(|i| i as f32).collect();
    ring.feed_remote("p".into(), 0, 0, x.clone());
    ring.process(&[], &mut out, 8.0);
    assert!(out.iter().all(|&s| s == 0.0));
    let mut heard: Vec<f32> = Vec::new();
    for beat in [16.0, 20.0, 24.0] {
        ring.process(&[], &mut out, beat);
        heard.extend_from_slice(&out);
    }
    for (i, &s) in heard.iter().enumerate() {
        if i < XFADE_LEN {
            let t = (i + 1) as f32 / XFADE_LEN as f32;
            let expected = x[i] * (t * std::f32::consts::FRAC_PI_2).sin();
            assert!((s - expected).abs() < 0.001, "{i}: {s} {expected}");
        } else if i < x.len() {
            assert_eq!(s, x[i]);
        } else {
            assert_eq!(s, 0.0);
        }
    }
}

#[test]
fn live_pieces_are_joined() {
    let make = |pieces: &[&[f32]]| {
        let mut ring = make_ring();
        let mut nothing: Vec<f32> = Vec::new();
        ring.process(&[], &mut nothing, 0.0);
        ring.feed_remote("a".into(), 0, 0, vec![0.5; 4]);
        ring.process(&[], &mut nothing, 16.0);
        for piece in pieces {
            ring.feed_remote("a".into(), 0, 0, piece.to_vec());
        }
        let mut out = vec![0.0f32; 12];
        ring.process(&[], &mut out, 17.0);
        out
    };
    assert_eq!(make(&[&[1.0, 2.0], &[3.0]]), make(&[&[1.0, 2.0, 3.0]]));
    assert_eq!(make(&[&[1.0, 2.0], &[3.0]])[4..8], [1.0, 2.0, 3.0, 0.0]);
}

#[test]
fn pieces_are_as_good_as_the_whole() {
    let make = |live: bool, pieces: &[&[f32]]| {
        let mut ring = make_ring();
        let mut nothing: Vec<f32> = Vec::new();
        ring.process(&[], &mut nothing, 0.0);
        ring.feed_remote("a".into(), 0, 0, vec![0.5; 4]);
        if live {
            ring.process(&[], &mut nothing, 16.0);
        }
        let waiting = ring.pending_remote_count();
        for piece in pieces {
            ring.feed_remote("a".into(), 0, 0, piece.to_vec());
            ring.feed_remote("b".into(), 1, 5, piece.to_vec());
        }
        assert_eq!(ring.pending_remote_count(), waiting + 1);
        let mut out = vec![0.0f32; 12];
        ring.process(&[], &mut out, 17.0);
        (out, ring.active_peer_slots(), ring.playback_remaining())
    };
    let three: [&[f32]; 2] = [&[1.0, 2.0], &[3.0]];
    for live in [true, false] {
        assert_eq!(make(live, &three), make(live, &[&[1.0, 2.0, 3.0]]));
    }
}

#[test]
fn swapping_plays_what_is_due() {
    let mut ring = IntervalRing::new(SR, 1, BARS, QUANTUM.to_bits(), 6);
    let mut nothing: Vec<u32> = Vec::new();
    ring.process(&bits(&[9.0]), &mut nothing, 3, &mix, &fade);
    ring.feed_remote("a".into(), 0, 4, bits(&[1.0, 2.0]), &mix);
    ring.feed_remote("b".into(), 0, 4, bits(&[10.0, 20.0, 30.0]), &mix);
    ring.feed_remote("c".into(), 0, 6, bits(&[5.0]), &mix);
    ring.swap_intervals(4, &mix, &fade);
    assert_eq!(ring.playback_remaining(), 3);
    assert_eq!(ring.pending_remote_count(), 1);
    let done = ring.take_completed();
    assert_eq!(done.len(), 1);
    assert_eq!((done[0].index, &done[0].samples), (4, &bits(&[9.0])));
    let mut b = vec![0u32; 3];
    assert_eq!(ring.read_peer_playback(1, &mut b), 3);
    let mut a = vec![0u32; 3];
    assert_eq!(ring.read_peer_playback(0, &mut a), 2);
    let mut out = vec![0u32; 3];
    ring.process(&[], &mut out, 3, &mix, &fade);
    for i in 0..3 {
        assert_eq!(out[i], mix(a[i], b[i]));
    }
}

#[test]
fn a_reconnect_does_not_mind_what_others_hold() {
    let mut ring = make_ring();
    let mut nothing: Vec<f32> = Vec::new();
    ring.notify_peer_joined("q1", "twin");
    ring.notify_peer_joined("q2", "twin");
    ring.notify_peer_joined("a", "alice");
    ring.process(&[], &mut nothing, 0.0);
    ring.feed_remote("q1".into(), 0, 0, vec![0.1; 4]);
    ring.feed_remote("q2".into(), 0, 0, vec![0.2; 4]);
    ring.feed_remote("a".into(), 0, 0, vec![0.3; 4]);
    ring.feed_remote("a".into(), 1, 0, vec![0.4; 4]);
    ring.process(&[], &mut nothing, 16.0);
    // One twin leaves: the other one still plays, in a slot that the table calls free
    ring.remove_peer("q1");
    assert!(!ring.inner.slot_table().is_occupied(0));
    let before = ring.active_peer_slots();
    assert_eq!(before, vec![(0, "q2".into(), 0), (1, "a".into(), 0), (2, "a".into(), 1)]);
    ring.remove_peer("a");
    ring.notify_peer_joined("a2", "alice");
    assert_eq!(
        ring.active_peer_slots(),
        vec![(0, "q2".into(), 0), (1, "a2".into(), 0), (2, "a2".into(), 1)]
    );
    ring.remove_peer("a2");
    ring.notify_peer_joined("a3", "alice");
    assert_eq!(
        ring.active_peer_slots(),
        vec![(0, "q2".into(), 0), (1, "a3".into(), 0), (2, "a3".into(), 1)]
    );
}
