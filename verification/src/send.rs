//! The sender: captures the host's audio and streams it in frames of 20 ms.

use vstd::arithmetic::div_mod::*;
use vstd::arithmetic::mul::*;
use vstd::prelude::*;

use crate::bridge::{AudioBridge, BridgeState};
use crate::buffers::{interleave_channels, silent_samples};
use crate::codec::nearest_opus_rate;
use crate::ipc::{IpcFramer, IpcMessage, IPC_ROLE_SEND};
use crate::le::push_u16;
use crate::recv::{DEFAULT_BARS, DEFAULT_QUANTUM_BITS};
use crate::ring::CompletedInterval;
use crate::ring_state::{CompletedState, RingState};
use crate::wire::{AudioFrame, AudioFrameWire, FrameState};

verus! {

pub const DEFAULT_BITRATE_KBPS: u32 = 128;

/// What the user sets.
#[derive(Debug, Clone, Copy)]
pub struct WailSendParams {
    /// Stream index (1 to 14). Each index sends on a separate stream. Index 0 is
    /// reserved for the built-in test tone generator.
    pub stream_index: i32,
    /// Whether input audio passes through to the output instead of being silenced.
    pub passthrough: bool,
}

impl WailSendParams {
    /// Settings with a stream index brought into range.
    pub fn new(stream_index: i32, passthrough: bool) -> (r: Self)
        ensures
            r.passthrough == passthrough,
            r.stream_index == if stream_index < 1 {
                1
            } else if stream_index > 14 {
                14
            } else {
                stream_index as int
            },
    {
        let stream_index: i32 = if stream_index < 1 {
            1
        } else if stream_index > 14 {
            14
        } else {
            stream_index
        };
        WailSendParams { stream_index, passthrough }
    }
}

/// What the samples of each channel become on the way through: they pass, or they
/// are silenced.
pub open spec fn passed(channels: Seq<Seq<u32>>, passthrough: bool) -> Seq<Seq<u32>> {
    if passthrough {
        channels
    } else {
        Seq::new(channels.len(), |c: int| crate::ring_state::silence(channels[c].len()))
    }
}

impl WailSendParams {
    /// Let the host's audio pass through to the output, or silence it.
    pub fn pass_through(&self, channels: &mut Vec<Vec<u32>>)
        ensures
            crate::buffers::channel_samples(final(channels)@) == passed(
                crate::buffers::channel_samples(old(channels)@),
                self.passthrough,
            ),
    {
        if self.passthrough {
            return;
        }
        let ghost before = channels@;
        let mut c: usize = 0;
        while c < channels.len()
            invariant
                c <= channels@.len(),
                channels@.len() == before.len(),
                forall|j: int|
                    0 <= j < c ==> (#[trigger] channels@[j])@ == crate::ring_state::silence(
                        before[j]@.len(),
                    ),
                forall|j: int| c <= j < channels@.len() ==> #[trigger] channels@[j] == before[j],
            decreases channels@.len() - c,
        {
            let silent = silent_samples(channels[c].len());
            channels.set(c, silent);
            c += 1;
        }
        assert(crate::buffers::channel_samples(channels@) =~= passed(
            crate::buffers::channel_samples(before),
            false,
        ));
    }
}

impl Default for WailSendParams {
    fn default() -> (r: Self)
        ensures
            r.stream_index == 1,
            !r.passthrough,
    {
        WailSendParams { stream_index: 1, passthrough: false }
    }
}

/// One 20 ms frame of raw samples, ready to be encoded. The last frame of an interval
/// may be shorter, or empty.
pub struct RawFrame {
    pub samples: Vec<u32>,
    pub interval_index: i64,
    pub stream_id: u16,
    pub frame_number: u32,
    pub channels: u16,
    pub is_final: bool,
    pub sample_rate: u32,
    pub total_frames: u32,
    pub bpm_bits: u64,
    pub quantum_bits: u64,
    pub bars: u32,
}

/// What a raw frame says.
#[verifier::ext_equal]
pub struct RawState {
    pub samples: Seq<u32>,
    pub interval_index: i64,
    pub stream_id: u16,
    pub frame_number: u32,
    pub channels: u16,
    pub is_final: bool,
    pub sample_rate: u32,
    pub total_frames: u32,
    pub bpm: u64,
    pub quantum: u64,
    pub bars: u32,
}

impl View for RawFrame {
    type V = RawState;

    open spec fn view(&self) -> RawState {
        RawState {
            samples: self.samples@,
            interval_index: self.interval_index,
            stream_id: self.stream_id,
            frame_number: self.frame_number,
            channels: self.channels,
            is_final: self.is_final,
            sample_rate: self.sample_rate,
            total_frames: self.total_frames,
            bpm: self.bpm_bits,
            quantum: self.quantum_bits,
            bars: self.bars,
        }
    }
}

/// What raw frames say.
pub open spec fn raw_states(s: Seq<RawFrame>) -> Seq<RawState> {
    s.map_values(|f: RawFrame| f@)
}

/// A frame number, counted modulo 2^32.
pub open spec fn counted(number: u32, n: int) -> u32 {
    ((number + n) % 0x1_0000_0000) as u32
}

/// What a sender knows.
#[verifier::ext_equal]
pub struct SendState {
    pub bridge: BridgeState,
    /// Samples that do not fill a frame yet.
    pub buffer: Seq<u32>,
    /// The interval being streamed.
    pub index: Option<i64>,
    /// The number of the next frame of the interval.
    pub number: u32,
    /// Samples per channel in a frame.
    pub frame_size: nat,
    pub was_playing: Option<bool>,
    /// Samples per channel since the transport started, modulo 2^64.
    pub samples: u64,
}

impl SendState {
    /// The ring is valid, frames are not empty, and nothing waits while no interval is
    /// streamed.
    pub open spec fn valid(self) -> bool {
        &&& self.bridge.ring.valid()
        &&& self.frame_samples() > 0
        &&& self.index is None ==> self.buffer.len() == 0 && self.number == 0
    }

    /// Interleaved samples in a frame.
    pub open spec fn frame_samples(self) -> nat {
        self.frame_size * self.bridge.channels as nat
    }

    /// The sender after the host reset it.
    pub open spec fn reset(self) -> SendState {
        SendState {
            bridge: BridgeState { ring: self.bridge.ring.cleared(), ..self.bridge },
            buffer: Seq::empty(),
            index: None,
            number: 0,
            was_playing: None,
            samples: 0,
            ..self
        }
    }

    /// Whether the transport starts again.
    pub open spec fn restarts(self, playing: bool) -> bool {
        self.was_playing == Some(false) && playing
    }

    /// The sender when the transport starts again.
    pub open spec fn restarted(self) -> SendState {
        SendState {
            bridge: BridgeState { ring: self.bridge.ring.restarted(), ..self.bridge },
            buffer: Seq::empty(),
            index: None,
            number: 0,
            samples: 0,
            ..self
        }
    }

    /// The sample count at the start of the next buffer.
    pub open spec fn sample_count(self, playing: bool) -> u64 {
        if self.restarts(playing) {
            0
        } else {
            self.samples
        }
    }

    /// The sender when a buffer of the host begins.
    pub open spec fn begun(self, playing: bool, num_samples: u64, bpm: u64) -> SendState {
        let s = if self.restarts(playing) {
            self.restarted()
        } else {
            self
        };
        SendState {
            was_playing: Some(playing),
            samples: ((s.samples + num_samples) % 0x1_0000_0000_0000_0000) as u64,
            bridge: BridgeState {
                ring: RingState {
                    bars: DEFAULT_BARS,
                    quantum: DEFAULT_QUANTUM_BITS,
                    ..s.bridge.ring
                },
                bars: DEFAULT_BARS,
                quantum: DEFAULT_QUANTUM_BITS,
                bpm,
                ..s.bridge
            },
            ..s
        }
    }

    /// Whether interval `index` ends another one.
    pub open spec fn turns(self, index: i64) -> bool {
        self.index is Some && self.index->0 != index
    }

    /// The final frame of the interval that ends: what is left of it, or an empty frame
    /// so that the receiver knows that the interval is complete.
    pub open spec fn final_frame(self, stream: u16) -> RawState {
        RawState {
            samples: self.buffer,
            interval_index: self.index->0,
            stream_id: stream,
            frame_number: self.number,
            channels: self.bridge.channels,
            is_final: true,
            sample_rate: self.bridge.sample_rate,
            total_frames: if self.buffer.len() == 0 {
                self.number
            } else {
                counted(self.number, 1)
            },
            bpm: self.bridge.bpm,
            quantum: self.bridge.quantum,
            bars: self.bridge.bars,
        }
    }

    /// The sender once the interval that ends was closed.
    pub open spec fn turned(self, index: i64) -> SendState {
        if self.turns(index) {
            SendState { buffer: Seq::empty(), number: 0, index: Some(index), ..self }
        } else {
            SendState { index: Some(index), ..self }
        }
    }

    /// How many whole frames there are once `input` came in.
    pub open spec fn whole_frames(self, input: Seq<u32>) -> nat {
        (self.buffer + input).len() / self.frame_samples()
    }

    /// Whole frame `j` once `input` came in.
    pub open spec fn whole_frame(self, input: Seq<u32>, index: i64, stream: u16, j: int) -> RawState {
        let n = self.frame_samples();
        RawState {
            samples: (self.buffer + input).subrange(j * n, j * n + n),
            interval_index: index,
            stream_id: stream,
            frame_number: counted(self.number, j),
            channels: self.bridge.channels,
            is_final: false,
            sample_rate: self.bridge.sample_rate,
            total_frames: 0,
            bpm: self.bridge.bpm,
            quantum: self.bridge.quantum,
            bars: self.bridge.bars,
        }
    }

    /// The frames that go out when `input` of interval `index` comes in.
    pub open spec fn dispatched(self, input: Seq<u32>, index: i64, stream: u16) -> Seq<RawState> {
        let t = self.turned(index);
        (if self.turns(index) {
            seq![self.final_frame(stream)]
        } else {
            Seq::empty()
        }) + Seq::new(t.whole_frames(input), |j: int| t.whole_frame(input, index, stream, j))
    }

    /// The sender after `input` of interval `index` came in.
    pub open spec fn streamed(self, input: Seq<u32>, index: i64) -> SendState {
        let t = self.turned(index);
        let k = t.whole_frames(input) as int;
        SendState {
            buffer: (t.buffer + input).skip(k * t.frame_samples()),
            number: counted(t.number, k),
            ..t
        }
    }
}

/// The sender: captures the host's audio per interval and streams it in frames of
/// 20 ms. It plays nothing.
pub struct WailSendPlugin {
    bridge: AudioBridge,
    frame_buffer: Vec<u32>,
    streaming_interval_index: Option<i64>,
    streaming_frame_number: u32,
    opus_frame_size: usize,
    was_playing: Option<bool>,
    cumulative_samples: u64,
}

impl View for WailSendPlugin {
    type V = SendState;

    closed spec fn view(&self) -> SendState {
        SendState {
            bridge: self.bridge@,
            buffer: self.frame_buffer@,
            index: self.streaming_interval_index,
            number: self.streaming_frame_number,
            frame_size: self.opus_frame_size as nat,
            was_playing: self.was_playing,
            samples: self.cumulative_samples,
        }
    }
}

/// Samples per channel in 20 ms at the codec rate nearest to a rate.
fn frame_size_for(sample_rate: u32) -> (r: usize)
    ensures
        160 <= r <= 960,
        exists|rate: u32|
            #[trigger] crate::codec::is_nearest_rate(rate, sample_rate) && r
                == crate::codec::block_size(rate),
{
    let rate: u32 = nearest_opus_rate(sample_rate);
    assert(crate::codec::is_opus_rate(rate));
    rate as usize * 20 / 1000
}

/// Capturing `input` of interval `index` takes the sender from `s` to `t`, hands out the
/// recordings `completed` and sends `frames`.
pub open spec fn is_captured<M: Fn(u32, u32) -> u32, F: Fn(u32, u32, usize, usize) -> u32>(
    mix: M,
    fade: F,
    s: SendState,
    input: Seq<u32>,
    index: i64,
    stream: u16,
    completed: Seq<CompletedState>,
    frames: Seq<RawState>,
    t: SendState,
) -> bool {
    &&& frames == s.dispatched(input, index, stream)
    &&& exists|m: RingState|
        {
            &&& #[trigger] crate::ring_state::reached(mix, fade, s.bridge.ring, index, m)
            &&& completed == m.completed
            &&& t == SendState {
                bridge: BridgeState {
                    ring: RingState {
                        completed: Seq::empty(),
                        ..m.recorded(input).advanced(input.len())
                    },
                    ..s.bridge
                },
                ..s.streamed(input, index)
            }
        }
}

impl WailSendPlugin {
    pub closed spec fn wf(&self) -> bool {
        &&& self.bridge.wf()
        &&& self.bridge@.channels > 0
        &&& 160 <= self.opus_frame_size <= 960
        &&& self.streaming_interval_index is None ==> self.frame_buffer@.len() == 0
            && self.streaming_frame_number == 0
    }

    /// A consistent sender has valid contents.
    pub proof fn lemma_wf_is_valid(&self)
        requires
            self.wf(),
        ensures
            self@.valid(),
    {
        self.bridge.lemma_wf_is_valid();
        lemma_mul_strictly_positive(
            self.opus_frame_size as int,
            self.bridge@.channels as int,
        );
    }

    /// A sender for a host's sample rate and channel count.
    pub fn new(sample_rate: u32, channels: u16, slot_capacity: usize) -> (r: Self)
        requires
            4 * slot_capacity <= isize::MAX,
            channels > 0,
        ensures
            r.wf(),
            exists|rate: u32|
                #[trigger] crate::codec::is_nearest_rate(rate, sample_rate) && r@.frame_size
                    == crate::codec::block_size(rate),
            r@ == (SendState {
                bridge: BridgeState {
                    ring: RingState::fresh(
                        sample_rate,
                        channels,
                        slot_capacity as nat,
                        DEFAULT_BARS,
                        DEFAULT_QUANTUM_BITS,
                    ),
                    sample_rate,
                    channels,
                    bitrate_kbps: DEFAULT_BITRATE_KBPS,
                    bpm: crate::bridge::DEFAULT_BPM_BITS,
                    bars: DEFAULT_BARS,
                    quantum: DEFAULT_QUANTUM_BITS,
                },
                buffer: Seq::empty(),
                index: None,
                number: 0,
                frame_size: r@.frame_size,
                was_playing: None,
                samples: 0,
            }),
    {
        WailSendPlugin {
            bridge: AudioBridge::new(
                sample_rate,
                channels,
                DEFAULT_BARS,
                DEFAULT_QUANTUM_BITS,
                DEFAULT_BITRATE_KBPS,
                slot_capacity,
            ),
            frame_buffer: Vec::new(),
            streaming_interval_index: None,
            streaming_frame_number: 0,
            opus_frame_size: frame_size_for(sample_rate),
            was_playing: None,
            cumulative_samples: 0,
        }
    }

    /// Set the channel on which the encoding thread gives sample buffers back.
    pub fn set_buffer_return_rx(&mut self, rx: crossbeam_channel::Receiver<Vec<u32>>)
        requires
            old(self).wf(),
        ensures
            final(self).wf(),
            final(self)@ == (SendState {
                bridge: BridgeState {
                    ring: RingState { buffer_return: Some(rx), ..old(self)@.bridge.ring },
                    ..old(self)@.bridge
                },
                ..old(self)@
            }),
    {
        self.bridge.set_buffer_return_rx(rx);
    }

    /// Reset everything.
    pub fn reset(&mut self)
        requires
            old(self).wf(),
        ensures
            final(self).wf(),
            final(self)@ == old(self)@.reset(),
    {
        self.cumulative_samples = 0;
        self.frame_buffer = Vec::new();
        self.streaming_interval_index = None;
        self.streaming_frame_number = 0;
        self.was_playing = None;
        self.bridge.reset();
    }

    /// Begin a buffer of `num_samples` samples per channel. Returns the sample count
    /// at its start, which stands in for a beat position that the host does not give.
    /// When the transport starts again, streaming starts over.
    pub fn begin(&mut self, playing: bool, num_samples: u64, bpm_bits: u64) -> (r: u64)
        requires
            old(self).wf(),
        ensures
            final(self).wf(),
            r == old(self)@.sample_count(playing),
            final(self)@ == old(self)@.begun(playing, num_samples, bpm_bits),
    {
        let restarted = match self.was_playing {
            Some(was) => !was && playing,
            None => false,
        };
        self.was_playing = Some(playing);
        if restarted {
            self.cumulative_samples = 0;
            self.streaming_interval_index = None;
            self.streaming_frame_number = 0;
            self.frame_buffer = Vec::new();
            self.bridge.reset_transport();
        }
        let start: u64 = self.cumulative_samples;
        self.cumulative_samples = start.wrapping_add(num_samples);
        self.bridge.update_config(DEFAULT_BARS, DEFAULT_QUANTUM_BITS, bpm_bits);
        start
    }

    /// Close the interval that ends, if interval `index` ends one.
    fn turn(&mut self, index: i64, stream_id: u16) -> (r: Option<RawFrame>)
        requires
            old(self).wf(),
        ensures
            final(self).wf(),
            final(self)@ == old(self)@.turned(index),
            match r {
                Some(f) => old(self)@.turns(index) && f@ == old(self)@.final_frame(stream_id),
                None => !old(self)@.turns(index),
            },
    {
        let mut out: Option<RawFrame> = None;
        if let Some(prev) = self.streaming_interval_index {
            if prev != index {
                let mut samples: Vec<u32> = Vec::new();
                std::mem::swap(&mut samples, &mut self.frame_buffer);
                let total_frames: u32 = if samples.len() == 0 {
                    self.streaming_frame_number
                } else {
                    self.streaming_frame_number.wrapping_add(1)
                };
                out = Some(
                    RawFrame {
                        samples,
                        interval_index: prev,
                        stream_id,
                        frame_number: self.streaming_frame_number,
                        channels: self.bridge.channels(),
                        is_final: true,
                        sample_rate: self.bridge.sample_rate(),
                        total_frames,
                        bpm_bits: self.bridge.bpm(),
                        quantum_bits: self.bridge.quantum(),
                        bars: self.bridge.bars(),
                    },
                );
                self.streaming_frame_number = 0;
            }
        }
        self.streaming_interval_index = Some(index);
        out
    }

    /// Stream captured samples of interval `index`: each whole frame goes out at once.
    fn dispatch(&mut self, input: &[u32], index: i64, stream_id: u16) -> (r: Vec<RawFrame>)
        requires
            old(self).wf(),
        ensures
            final(self).wf(),
            final(self)@ == old(self)@.streamed(input@, index),
            raw_states(r@) == old(self)@.dispatched(input@, index, stream_id),
    {
        let ghost s0 = self@;
        let mut out: Vec<RawFrame> = Vec::new();
        if let Some(f) = self.turn(index, stream_id) {
            out.push(f);
        }
        let ghost head = raw_states(out@);
        let ghost t = self@;
        proof {
            assert(head =~= if s0.turns(index) {
                seq![s0.final_frame(stream_id)]
            } else {
                Seq::empty()
            });
        }
        let size: usize = self.opus_frame_size;
        let channels: usize = self.bridge.channels() as usize;
        assert(160 <= size * channels <= 960 * 65535) by (nonlinear_arith)
            requires
                160 <= size <= 960,
                1 <= channels <= 65535,
        ;
        let n: usize = size * channels;
        self.frame_buffer.extend_from_slice(input);
        let ghost all = t.buffer + input@;
        let ghost mut k: int = 0;
        proof {
            assert(self@.buffer =~= all.skip(0));
            assert(all.skip(0) =~= all.skip(0 * n));
            assert(head + Seq::new(0, |j: int| t.whole_frame(input@, index, stream_id, j))
                =~= head);
        }
        while self.frame_buffer.len() >= n
            invariant
                self.wf(),
                n > 0,
                n == t.frame_samples(),
                all == t.buffer + input@,
                0 <= k,
                k * n <= all.len(),
                self@ == (SendState {
                    buffer: all.skip(k * n),
                    number: counted(t.number, k),
                    ..t
                }),
                raw_states(out@) == head + Seq::new(
                    k as nat,
                    |j: int| t.whole_frame(input@, index, stream_id, j),
                ),
            decreases self.frame_buffer@.len(),
        {
            let ghost out0 = raw_states(out@);
            let rest = self.frame_buffer.split_off(n);
            let mut samples: Vec<u32> = rest;
            std::mem::swap(&mut samples, &mut self.frame_buffer);
            let f = RawFrame {
                samples,
                interval_index: index,
                stream_id,
                frame_number: self.streaming_frame_number,
                channels: self.bridge.channels(),
                is_final: false,
                sample_rate: self.bridge.sample_rate(),
                total_frames: 0,
                bpm_bits: self.bridge.bpm(),
                quantum_bits: self.bridge.quantum(),
                bars: self.bridge.bars(),
            };
            proof {
                assert((k + 1) * n == k * n + n) by {
                    lemma_mul_is_distributive_add_other_way(n as int, k, 1);
                    lemma_mul_basics(n as int);
                }
                assert(f.samples@ =~= all.subrange(k * n, k * n + n));
                assert(f@ == t.whole_frame(input@, index, stream_id, k));
                assert(self.frame_buffer@ =~= all.skip((k + 1) * n));
            }
            out.push(f);
            self.streaming_frame_number = self.streaming_frame_number.wrapping_add(1);
            proof {
                assert(raw_states(out@) =~= out0.push(f@));
                assert(raw_states(out@) =~= head + Seq::new(
                    (k + 1) as nat,
                    |j: int| t.whole_frame(input@, index, stream_id, j),
                ));
                k = k + 1;
            }
        }
        proof {
            lemma_fundamental_div_mod_converse(
                all.len() as int,
                n as int,
                k,
                all.len() - k * n,
            );
        }
        out
    }

    /// Capture a buffer of interval `index`. Returns the recordings that the boundary
    /// completed, whose buffers are to be given back, and the frames to send.
    pub fn capture<M: Fn(u32, u32) -> u32, F: Fn(u32, u32, usize, usize) -> u32>(
        &mut self,
        input: &[u32],
        playback: &mut [u32],
        index: i64,
        stream_id: u16,
        mix: &M,
        fade: &F,
    ) -> (r: (Vec<CompletedInterval>, Vec<RawFrame>))
        requires
            old(self).wf(),
            forall|a: u32, b: u32| call_requires(mix, (a, b)),
            forall|a: u32, b: u32, i: usize, n: usize| call_requires(fade, (a, b, i, n)),
        ensures
            final(self).wf(),
            raw_states(r.1@) == old(self)@.dispatched(input@, index, stream_id),
            exists|m: RingState|
                {
                    &&& #[trigger] crate::ring_state::reached(
                        mix,
                        fade,
                        old(self)@.bridge.ring,
                        index,
                        m,
                    )
                    &&& crate::ring::completed_states(r.0@) == m.completed
                    &&& final(playback)@ == m.heard(old(playback)@.len())
                    &&& final(self)@ == SendState {
                        bridge: BridgeState {
                            ring: RingState {
                                completed: Seq::empty(),
                                ..m.recorded(input@).advanced(old(playback)@.len())
                            },
                            ..old(self)@.bridge
                        },
                        ..old(self)@.streamed(input@, index)
                    }
                },
    {
        let ghost s0 = self@;
        let completed = self.bridge.process_rt(input, playback, index, mix, fade);
        let ghost s1 = self@;
        let frames = self.dispatch(input, index, stream_id);
        proof {
            let m = choose|m: RingState|
                {
                    &&& #[trigger] crate::ring_state::reached(mix, fade, s0.bridge.ring, index, m)
                    &&& crate::ring::completed_states(completed@) == m.completed
                    &&& playback@ == m.heard(old(playback)@.len())
                    &&& s1.bridge == BridgeState {
                        ring: RingState {
                            completed: Seq::empty(),
                            ..m.recorded(input@).advanced(old(playback)@.len())
                        },
                        ..s0.bridge
                    }
                };
            assert(s1.dispatched(input@, index, stream_id) =~= s0.dispatched(
                input@,
                index,
                stream_id,
            ));
            assert(self@ =~= SendState {
                bridge: s1.bridge,
                ..s0.streamed(input@, index)
            });
        }
        (completed, frames)
    }

    /// Process a buffer of the host, given as one list of samples for each channel: its
    /// audio is captured and streamed, silence while the transport stands still, and
    /// then passes through or is silenced. `interval_at` says which interval the buffer
    /// belongs to, given the sample count at its start.
    ///
    /// Returns the recordings that a boundary completed, whose buffers are to be given
    /// back, and the frames to send.
    pub fn process<
        I: Fn(u64) -> i64,
        M: Fn(u32, u32) -> u32,
        F: Fn(u32, u32, usize, usize) -> u32,
    >(
        &mut self,
        channels: &mut Vec<Vec<u32>>,
        num_samples: usize,
        playing: bool,
        bpm_bits: u64,
        settings: &WailSendParams,
        interval_at: &I,
        mix: &M,
        fade: &F,
    ) -> (r: (Vec<CompletedInterval>, Vec<RawFrame>))
        requires
            old(self).wf(),
            num_samples * old(channels)@.len() <= usize::MAX,
            playing ==> forall|c: int|
                0 <= c < old(channels)@.len() ==> num_samples <= (#[trigger] old(
                    channels,
                )@[c])@.len(),
            forall|n: u64| call_requires(interval_at, (n,)),
            forall|a: u32, b: u32| call_requires(mix, (a, b)),
            forall|a: u32, b: u32, i: usize, n: usize| call_requires(fade, (a, b, i, n)),
        ensures
            final(self).wf(),
            crate::buffers::channel_samples(final(channels)@) == passed(
                crate::buffers::channel_samples(old(channels)@),
                settings.passthrough,
            ),
            exists|index: i64|
                {
                    &&& #[trigger] call_ensures(
                        interval_at,
                        (old(self)@.sample_count(playing),),
                        index,
                    )
                    &&& is_captured(
                        mix,
                        fade,
                        old(self)@.begun(playing, num_samples as u64, bpm_bits),
                        crate::buffers::interleaved(
                            crate::buffers::channel_samples(old(channels)@),
                            num_samples as nat,
                            playing,
                        ),
                        index,
                        settings.stream_index as u16,
                        crate::ring::completed_states(r.0@),
                        raw_states(r.1@),
                        final(self)@,
                    )
                },
    {
        let ghost before = crate::buffers::channel_samples(channels@);
        let ghost input = crate::buffers::interleaved(before, num_samples as nat, playing);
        let start: u64 = self.begin(playing, num_samples as u64, bpm_bits);
        let index: i64 = interval_at(start);
        let ghost s = self@;
        assert(0 <= num_samples * channels@.len()) by {
            lemma_mul_nonnegative(num_samples as int, channels@.len() as int);
        }
        let size: usize = num_samples * channels.len();
        let mut interleave = silent_samples(size);
        let mut playback = silent_samples(size);
        interleave_channels(channels, interleave.as_mut_slice(), num_samples, playing);
        assert(interleave@ =~= input);
        let r = self.capture(
            interleave.as_slice(),
            playback.as_mut_slice(),
            index,
            settings.stream_index as u16,
            mix,
            fade,
        );
        settings.pass_through(channels);
        r
    }
}

/// What the app is told on connecting: the role and the stream index.
pub fn handshake(stream_index: u16) -> (r: Vec<u8>)
    ensures
        r@ == seq![IPC_ROLE_SEND] + crate::le::u16_bytes(stream_index),
{
    let mut out: Vec<u8> = Vec::new();
    out.push(IPC_ROLE_SEND);
    push_u16(&mut out, stream_index);
    assert(out@ =~= seq![IPC_ROLE_SEND] + crate::le::u16_bytes(stream_index));
    out
}

/// The frame of a raw frame and the packet that it was encoded to.
pub open spec fn encoded(raw: RawState, packet: Seq<u8>) -> FrameState {
    FrameState {
        interval_index: raw.interval_index,
        stream_id: raw.stream_id,
        frame_number: raw.frame_number,
        channels: raw.channels,
        opus: packet,
        is_final: raw.is_final,
        sample_rate: raw.sample_rate,
        total_frames: raw.total_frames,
        bpm: raw.bpm,
        quantum: raw.quantum,
        bars: raw.bars,
    }
}

/// The bytes that send a raw frame to the app, once it was encoded.
pub fn frame_message(raw: &RawFrame, opus_data: Vec<u8>) -> (r: Vec<u8>)
    ensures
        r@ == crate::ipc::framed(
            seq![0x05u8] + crate::wire::frame_bytes(encoded(raw@, opus_data@)),
        ),
{
    let frame = AudioFrame {
        interval_index: raw.interval_index,
        stream_id: raw.stream_id,
        frame_number: raw.frame_number,
        channels: raw.channels,
        opus_data,
        is_final: raw.is_final,
        sample_rate: raw.sample_rate,
        total_frames: raw.total_frames,
        bpm_bits: raw.bpm_bits,
        quantum_bits: raw.quantum_bits,
        bars: raw.bars,
    };
    let wire = AudioFrameWire::encode(&frame);
    let msg = IpcMessage::encode_audio_frame(wire.as_slice());
    IpcFramer::encode_frame(msg.as_slice())
}

/// The samples of frames one after the other.
pub open spec fn frames_audio(frames: Seq<RawState>) -> Seq<u32>
    decreases frames.len(),
{
    if frames.len() == 0 {
        Seq::empty()
    } else {
        frames_audio(frames.drop_last()) + frames.last().samples
    }
}

/// Streaming loses nothing: the frames that go out, followed by what waits, are what
/// waited, followed by the input.
pub proof fn law_streaming_loses_nothing(s: SendState, input: Seq<u32>, index: i64, stream: u16)
    requires
        s.frame_samples() > 0,
    ensures
        frames_audio(s.dispatched(input, index, stream)) + s.streamed(input, index).buffer
            == s.buffer + input,
{
    let t = s.turned(index);
    let n = t.frame_samples() as int;
    let all = t.buffer + input;
    let k = t.whole_frames(input) as int;
    let head = if s.turns(index) {
        seq![s.final_frame(stream)]
    } else {
        Seq::empty()
    };
    lemma_fundamental_div_mod(all.len() as int, n);
    lemma_mul_is_commutative(n, k);
    lemma_mod_bound(all.len() as int, n);
    lemma_whole_frames_audio(s, input, index, stream, k as nat);
    let before = if s.turns(index) {
        s.buffer
    } else {
        Seq::empty()
    };
    let frames = Seq::new(k as nat, |j: int| t.whole_frame(input, index, stream, j));
    assert(s.dispatched(input, index, stream) =~= head + frames);
    assert(before + all.take(k * n) + all.skip(k * n) =~= s.buffer + input);
}

proof fn lemma_whole_frames_audio(
    s: SendState,
    input: Seq<u32>,
    index: i64,
    stream: u16,
    k: nat,
)
    requires
        s.frame_samples() > 0,
        k * s.frame_samples() <= (s.turned(index).buffer + input).len(),
    ensures
        ({
            let t = s.turned(index);
            let head = if s.turns(index) {
                seq![s.final_frame(stream)]
            } else {
                Seq::empty()
            };
            let before = if s.turns(index) {
                s.buffer
            } else {
                Seq::empty()
            };
            frames_audio(head + Seq::new(k, |j: int| t.whole_frame(input, index, stream, j)))
                == before + (t.buffer + input).take((k * s.frame_samples()) as int)
        }),
    decreases k,
{
    let t = s.turned(index);
    let n = t.frame_samples() as int;
    let all = t.buffer + input;
    let head = if s.turns(index) {
        seq![s.final_frame(stream)]
    } else {
        Seq::empty()
    };
    let frames = Seq::new(k, |j: int| t.whole_frame(input, index, stream, j));
    let before = if s.turns(index) {
        s.buffer
    } else {
        Seq::empty()
    };
    if k == 0 {
        lemma_mul_basics(n);
        assert(head + frames =~= head);
        if s.turns(index) {
            assert(head.drop_last() =~= Seq::empty());
            assert(frames_audio(head.drop_last()) =~= Seq::empty());
            assert(frames_audio(head) =~= s.buffer);
        } else {
            assert(frames_audio(head) =~= Seq::empty());
        }
        assert(before + all.take(0) =~= before);
    } else {
        let j = (k - 1) as nat;
        assert(k * n == j * n + n) by {
            lemma_mul_is_distributive_add_other_way(n, j as int, 1);
            lemma_mul_basics(n);
        }
        lemma_whole_frames_audio(s, input, index, stream, j);
        let fewer = Seq::new(j, |i: int| t.whole_frame(input, index, stream, i));
        assert((head + frames).drop_last() =~= head + fewer);
        assert((head + frames).last() == t.whole_frame(input, index, stream, j as int));
        assert(all.take(j * n) + all.subrange(j * n, j * n + n) =~= all.take(k * n));
        assert((before + all.take(j * n)) + all.subrange(j * n, j * n + n) =~= before + all.take(
            k * n,
        ));
    }
}

/// What waits never fills a frame.
pub proof fn law_no_whole_frame_waits(s: SendState, input: Seq<u32>, index: i64)
    requires
        s.frame_samples() > 0,
    ensures
        s.streamed(input, index).buffer.len() < s.frame_samples(),
{
    let t = s.turned(index);
    let n = t.frame_samples() as int;
    let all = t.buffer + input;
    lemma_fundamental_div_mod(all.len() as int, n);
    lemma_mul_is_commutative(n, t.whole_frames(input) as int);
    lemma_mod_bound(all.len() as int, n);
}

/// An interval is closed by exactly one final frame, which goes out first, belongs to
/// the interval that ended, and counts its frames.
pub proof fn law_interval_is_closed_once(s: SendState, input: Seq<u32>, index: i64, stream: u16)
    ensures
        ({
            let out = s.dispatched(input, index, stream);
            &&& forall|i: int| 0 < i < out.len() ==> !(#[trigger] out[i]).is_final
            &&& s.turns(index) ==> out.len() > 0 && out[0].is_final && out[0].interval_index
                == s.index->0 && out[0].total_frames == counted(
                s.number,
                if s.buffer.len() > 0 {
                    1
                } else {
                    0
                },
            )
            &&& !s.turns(index) && out.len() > 0 ==> !out[0].is_final
            &&& forall|i: int|
                0 <= i < out.len() && !(#[trigger] out[i]).is_final ==> out[i].interval_index
                    == index
        }),
{
}

} // verus!
