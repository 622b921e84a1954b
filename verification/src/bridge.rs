//! The audio bridge: an interval ring together with its codec parameters.

use crossbeam_channel::Receiver;
use vstd::prelude::*;

use crate::codec::{AudioDecoder, AudioEncoder};
use crate::ring::{CompletedInterval, IntervalRing};
use crate::ring_state::{CompletedState, RingState};

verus! {

/// The bit pattern of 120 beats per minute.
pub const DEFAULT_BPM_BITS: u64 = 0x405E_0000_0000_0000;

/// Connects the interval ring to encoding and framing.
///
/// 1. Wraps the ring's `process()` for the audio thread
/// 2. Holds the encoder and decoder parameters, absent when the codec does not
///    support the rate or channel count
pub struct AudioBridge {
    ring: IntervalRing,
    encoder: Option<AudioEncoder>,
    decoder: Option<AudioDecoder>,
    sample_rate: u32,
    channels: u16,
    bitrate_kbps: u32,
    bpm_bits: u64,
    bars: u32,
    quantum_bits: u64,
}

/// What a bridge holds besides its codec parameters.
#[verifier::ext_equal]
pub struct BridgeState {
    pub ring: RingState,
    pub sample_rate: u32,
    pub channels: u16,
    pub bitrate_kbps: u32,
    pub bpm: u64,
    pub bars: u32,
    pub quantum: u64,
}

/// Whether the codec supports a rate and channel count.
pub open spec fn is_supported(sample_rate: u32, channels: u16) -> bool {
    crate::codec::is_opus_rate(sample_rate) && (channels == 1 || channels == 2)
}

impl View for AudioBridge {
    type V = BridgeState;

    closed spec fn view(&self) -> BridgeState {
        BridgeState {
            ring: self.ring@,
            sample_rate: self.sample_rate,
            channels: self.channels,
            bitrate_kbps: self.bitrate_kbps,
            bpm: self.bpm_bits,
            bars: self.bars,
            quantum: self.quantum_bits,
        }
    }
}

/// A buffer takes a bridge from `s` to `t`, gives out `out` and hands out `completed`: it
/// is a buffer of the ring, whose recordings are handed out.
pub open spec fn processed<M: Fn(u32, u32) -> u32, F: Fn(u32, u32, usize, usize) -> u32>(
    mix: M,
    fade: F,
    s: BridgeState,
    input: Seq<u32>,
    index: i64,
    out: Seq<u32>,
    completed: Seq<CompletedState>,
    t: BridgeState,
) -> bool {
    exists|r: RingState|
        {
            &&& #[trigger] crate::ring_state::took(mix, fade, s.ring, input, index, out, r)
            &&& completed == r.completed
            &&& t == BridgeState { ring: RingState { completed: Seq::empty(), ..r }, ..s }
        }
}

/// The encoder parameters for a bridge, if the codec supports them.
fn make_encoder(sample_rate: u32, channels: u16, bitrate_kbps: u32) -> (r: Option<AudioEncoder>)
    requires
        is_supported(sample_rate, channels) ==> crate::codec::bitrate_fits(bitrate_kbps),
    ensures
        r is Some == is_supported(sample_rate, channels),
        r is Some ==> r->0.wf() && r->0.rate() == sample_rate && r->0.channel_count() == channels
            && r->0.bitrate() == (bitrate_kbps as i32) * 1000,
{
    match AudioEncoder::new(sample_rate, channels, bitrate_kbps) {
        Ok(e) => Some(e),
        Err(_) => None,
    }
}

/// The decoder parameters for a bridge, if the codec supports them.
fn make_decoder(sample_rate: u32, channels: u16) -> (r: Option<AudioDecoder>)
    ensures
        r is Some == is_supported(sample_rate, channels),
        r is Some ==> r->0.wf() && r->0.rate() == sample_rate && r->0.channel_count() == channels,
{
    match AudioDecoder::new(sample_rate, channels) {
        Ok(d) => Some(d),
        Err(_) => None,
    }
}

impl AudioBridge {
    /// The ring is consistent, and the codec parameters are those of the bridge.
    pub closed spec fn wf(&self) -> bool {
        &&& self.ring.wf()
        &&& is_supported(self.sample_rate, self.channels) ==> crate::codec::bitrate_fits(
            self.bitrate_kbps,
        )
        &&& self.encoder is Some == is_supported(self.sample_rate, self.channels)
        &&& self.encoder is Some ==> self.encoder->0.wf() && self.encoder->0.rate()
            == self.sample_rate && self.encoder->0.channel_count() == self.channels
            && self.encoder->0.bitrate() == (self.bitrate_kbps as i32) * 1000
        &&& self.decoder is Some == is_supported(self.sample_rate, self.channels)
        &&& self.decoder is Some ==> self.decoder->0.wf() && self.decoder->0.rate()
            == self.sample_rate && self.decoder->0.channel_count() == self.channels
    }

    /// A consistent bridge has a valid ring.
    pub proof fn lemma_wf_is_valid(&self)
        requires
            self.wf(),
        ensures
            self@.ring.valid(),
    {
        self.ring.lemma_wf_is_valid();
    }

    pub fn new(
        sample_rate: u32,
        channels: u16,
        bars: u32,
        quantum_bits: u64,
        bitrate_kbps: u32,
        slot_capacity: usize,
    ) -> (r: Self)
        requires
            4 * slot_capacity <= isize::MAX,
            is_supported(sample_rate, channels) ==> crate::codec::bitrate_fits(bitrate_kbps),
        ensures
            r.wf(),
            r@ == (BridgeState {
                ring: RingState::fresh(
                    sample_rate,
                    channels,
                    slot_capacity as nat,
                    crate::ring::clamped_bars(bars),
                    crate::ring::clamped_quantum(quantum_bits),
                ),
                sample_rate,
                channels,
                bitrate_kbps,
                bpm: DEFAULT_BPM_BITS,
                bars,
                quantum: quantum_bits,
            }),
    {
        AudioBridge {
            ring: IntervalRing::new(sample_rate, channels, bars, quantum_bits, slot_capacity),
            encoder: make_encoder(sample_rate, channels, bitrate_kbps),
            decoder: make_decoder(sample_rate, channels),
            sample_rate,
            channels,
            bitrate_kbps,
            bpm_bits: DEFAULT_BPM_BITS,
            bars,
            quantum_bits,
        }
    }

    /// Drive the ring buffer and return the recordings it completed.
    pub fn process_rt<M: Fn(u32, u32) -> u32, F: Fn(u32, u32, usize, usize) -> u32>(
        &mut self,
        input: &[u32],
        output: &mut [u32],
        interval_index: i64,
        mix: &M,
        fade: &F,
    ) -> (r: Vec<CompletedInterval>)
        requires
            old(self).wf(),
            forall|a: u32, b: u32| call_requires(mix, (a, b)),
            forall|a: u32, b: u32, i: usize, n: usize| call_requires(fade, (a, b, i, n)),
        ensures
            final(self).wf(),
            exists|m: RingState|
                {
                    &&& #[trigger] crate::ring_state::reached(
                        mix,
                        fade,
                        old(self)@.ring,
                        interval_index,
                        m,
                    )
                    &&& crate::ring::completed_states(r@) == m.completed
                    &&& final(output)@ == m.heard(old(output)@.len())
                    &&& final(self)@ == BridgeState {
                        ring: RingState {
                            completed: Seq::empty(),
                            ..m.recorded(input@).advanced(old(output)@.len())
                        },
                        ..old(self)@
                    }
                },
            final(output)@.len() == old(output)@.len(),
            processed(
                mix,
                fade,
                old(self)@,
                input@,
                interval_index,
                final(output)@,
                crate::ring::completed_states(r@),
                final(self)@,
            ),
    {
        self.ring.process(input, output, interval_index, mix, fade);
        self.ring.take_completed()
    }

    /// Feed already-decoded samples to the ring for playback.
    pub fn feed_decoded<M: Fn(u32, u32) -> u32>(
        &mut self,
        peer_id: String,
        stream_id: u16,
        interval_index: i64,
        samples: Vec<u32>,
        mix: &M,
    )
        requires
            old(self).wf(),
            forall|a: u32, b: u32| call_requires(mix, (a, b)),
        ensures
            final(self).wf(),
            crate::ring_state::fed(
                mix,
                old(self)@.ring,
                peer_id@,
                stream_id,
                interval_index,
                samples@,
                final(self)@.ring,
            ),
            final(self)@ == (BridgeState { ring: final(self)@.ring, ..old(self)@ }),
    {
        self.ring.feed_remote(peer_id, stream_id, interval_index, samples, mix);
    }

    /// Set the channel on which the encoding thread gives sample buffers back.
    pub fn set_buffer_return_rx(&mut self, rx: Receiver<Vec<u32>>)
        requires
            old(self).wf(),
        ensures
            final(self).wf(),
            final(self)@ == (BridgeState {
                ring: RingState { buffer_return: Some(rx), ..old(self)@.ring },
                ..old(self)@
            }),
    {
        self.ring.set_buffer_return_rx(rx);
    }

    /// Update tempo and interval configuration from the transport.
    pub fn update_config(&mut self, bars: u32, quantum_bits: u64, bpm_bits: u64)
        requires
            old(self).wf(),
        ensures
            final(self).wf(),
            final(self)@ == (BridgeState {
                ring: RingState {
                    bars: crate::ring::clamped_bars(bars),
                    quantum: crate::ring::clamped_quantum(quantum_bits),
                    ..old(self)@.ring
                },
                bars,
                quantum: quantum_bits,
                bpm: bpm_bits,
                ..old(self)@
            }),
    {
        self.bars = bars;
        self.quantum_bits = quantum_bits;
        self.bpm_bits = bpm_bits;
        self.ring.set_config(bars, quantum_bits);
    }

    /// Reset all state (on transport stop, etc.)
    pub fn reset(&mut self)
        requires
            old(self).wf(),
        ensures
            final(self).wf(),
            final(self)@ == (BridgeState { ring: final(self)@.ring, ..old(self)@ }),
            final(self)@.ring == old(self)@.ring.cleared(),
    {
        self.ring.reset();
        self.encoder = make_encoder(self.sample_rate, self.channels, self.bitrate_kbps);
        self.decoder = make_decoder(self.sample_rate, self.channels);
    }

    /// Reset interval tracking and buffer positions without clearing peer state.
    pub fn reset_transport(&mut self)
        requires
            old(self).wf(),
        ensures
            final(self).wf(),
            final(self)@ == (BridgeState { ring: old(self)@.ring.restarted(), ..old(self)@ }),
    {
        self.ring.reset_transport();
    }

    /// Read per-peer isolated audio from a specific slot.
    pub fn read_peer_playback(&mut self, slot: usize, output: &mut [u32]) -> (r: usize)
        requires
            old(self).wf(),
        ensures
            final(self).wf(),
            r == old(self)@.ring.slot_playable(slot, old(output)@.len()),
            final(output)@ == old(self)@.ring.slot_heard(slot, old(output)@.len()),
            final(self)@ == (BridgeState {
                ring: old(self)@.ring.slot_advanced(slot, old(output)@.len()),
                ..old(self)@
            }),
            final(output)@.len() == old(output)@.len(),
            crate::ring_state::slot_read(
                old(self)@.ring,
                slot,
                final(output)@,
                r as nat,
                final(self)@.ring,
            ),
    {
        self.ring.read_peer_playback(slot, output)
    }

    /// Return (slot_index, peer_id, stream_id) for all active remote peer-streams.
    pub fn peer_info(&self) -> (r: Vec<(usize, String, u16)>)
        requires
            self.wf(),
        ensures
            crate::ring::active_views(r@) == crate::ring_state::active_list(self@.ring.slots),
    {
        self.ring.active_peer_slots()
    }

    /// Register a peer's persistent identity for slot affinity.
    pub fn notify_peer_joined(&mut self, peer_id: &str, identity: &str)
        requires
            old(self).wf(),
        ensures
            final(self).wf(),
            final(self)@ == (BridgeState {
                ring: old(self)@.ring.peer_joined(peer_id@, identity@),
                ..old(self)@
            }),
    {
        self.ring.notify_peer_joined(peer_id, identity);
    }

    /// Remove a peer and free their slots, reserving them for affinity reconnect.
    pub fn remove_peer(&mut self, peer_id: &str)
        requires
            old(self).wf(),
        ensures
            final(self).wf(),
            final(self)@ == (BridgeState {
                ring: old(self)@.ring.peer_removed(peer_id@),
                ..old(self)@
            }),
    {
        self.ring.remove_peer(peer_id);
    }

    /// The encoder parameters, if the codec supports those of the bridge.
    pub fn encoder(&self) -> (r: Option<&AudioEncoder>)
        requires
            self.wf(),
        ensures
            r is Some == is_supported(self@.sample_rate, self@.channels),
            r is Some ==> r->0.wf() && r->0.rate() == self@.sample_rate && r->0.channel_count()
                == self@.channels && r->0.bitrate() == (self@.bitrate_kbps as i32) * 1000,
    {
        self.encoder.as_ref()
    }

    /// The decoder parameters, if the codec supports those of the bridge.
    pub fn decoder(&self) -> (r: Option<&AudioDecoder>)
        requires
            self.wf(),
        ensures
            r is Some == is_supported(self@.sample_rate, self@.channels),
            r is Some ==> r->0.wf() && r->0.rate() == self@.sample_rate && r->0.channel_count()
                == self@.channels,
    {
        self.decoder.as_ref()
    }

    pub fn sample_rate(&self) -> (r: u32)
        ensures
            r == self@.sample_rate,
    {
        self.sample_rate
    }

    pub fn channels(&self) -> (r: u16)
        ensures
            r == self@.channels,
    {
        self.channels
    }

    /// Bit pattern of the tempo.
    pub fn bpm(&self) -> (r: u64)
        ensures
            r == self@.bpm,
    {
        self.bpm_bits
    }

    /// Bit pattern of the beats per bar.
    pub fn quantum(&self) -> (r: u64)
        ensures
            r == self@.quantum,
    {
        self.quantum_bits
    }

    pub fn bars(&self) -> (r: u32)
        ensures
            r == self@.bars,
    {
        self.bars
    }

    pub fn bitrate_kbps(&self) -> (r: u32)
        ensures
            r == self@.bitrate_kbps,
    {
        self.bitrate_kbps
    }

    /// The current interval index, or 0 if no interval has started yet.
    pub fn current_interval_index(&self) -> (r: i64)
        ensures
            r == match self@.ring.current {
                Some(i) => i,
                None => 0,
            },
    {
        match self.ring.current_interval() {
            Some(i) => i,
            None => 0,
        }
    }

    /// The interval configuration in use: bars and the bit pattern of the quantum.
    pub fn interval_config(&self) -> (r: (u32, u64))
        ensures
            r == (self@.ring.bars, self@.ring.quantum),
    {
        (self.ring.bars(), self.ring.quantum_bits())
    }
}

/// A bridge encodes and decodes at the five rates of the codec, in mono and in stereo.
pub proof fn law_codec_takes_mono_and_stereo(sample_rate: u32, channels: u16)
    ensures
        is_supported(sample_rate, channels) <==> (sample_rate == 8000 || sample_rate == 12000
            || sample_rate == 16000 || sample_rate == 24000 || sample_rate == 48000) && (channels
            == 1 || channels == 2),
{
}

} // verus!
