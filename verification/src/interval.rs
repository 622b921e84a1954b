//! Recorded intervals and the recorder that collects them.

use vstd::prelude::*;

verus! {

/// A complete audio interval ready for transmission or playback.
#[derive(Debug)]
pub struct AudioInterval {
    /// Interval index (monotonically increasing per the beat grid)
    pub index: i64,
    /// Stream index within a peer (0 = default, supports multi-stream send)
    pub stream_id: u16,
    /// Encoded audio data (length-prefixed packets)
    pub opus_data: Vec<u8>,
    /// Sample rate of the source audio
    pub sample_rate: u32,
    /// Number of channels (1=mono, 2=stereo)
    pub channels: u16,
    /// Total number of source samples per channel before encoding
    pub num_frames: u32,
    /// Bit pattern of the BPM at the time of recording
    pub bpm_bits: u64,
    /// Bit pattern of the quantum (beats per bar) at the time of recording
    pub quantum_bits: u64,
    /// Bars per interval
    pub bars: u32,
}

/// What a recorder holds: the interval it records, and its samples.
#[verifier::ext_equal]
pub struct RecorderState {
    pub index: Option<i64>,
    pub samples: Seq<u32>,
}

impl RecorderState {
    /// The recorder after samples of interval `index` came in. Samples of another
    /// interval that was not finished are discarded.
    pub open spec fn pushed(self, samples: Seq<u32>, index: i64) -> RecorderState {
        RecorderState {
            index: Some(index),
            samples: if self.index is Some && self.index != Some(index) {
                samples
            } else {
                self.samples + samples
            },
        }
    }
}

/// Records audio samples into intervals.
///
/// 1. Call `push_samples()` with each audio buffer
/// 2. Call `finish_interval()` at interval boundaries to get the recorded interval
pub struct IntervalRecorder {
    /// Accumulated interleaved samples for the current interval
    buffer: Vec<u32>,
    /// Current interval index being recorded
    current_index: Option<i64>,
    /// Audio parameters
    sample_rate: u32,
    channels: u16,
}

impl View for IntervalRecorder {
    type V = RecorderState;

    closed spec fn view(&self) -> RecorderState {
        RecorderState { index: self.current_index, samples: self.buffer@ }
    }
}

impl IntervalRecorder {
    pub closed spec fn rate(&self) -> u32 {
        self.sample_rate
    }

    pub closed spec fn channel_count(&self) -> u16 {
        self.channels
    }

    pub fn new(sample_rate: u32, channels: u16) -> (r: Self)
        ensures
            r@ == (RecorderState { index: None, samples: Seq::empty() }),
            r.rate() == sample_rate,
            r.channel_count() == channels,
    {
        let r = IntervalRecorder { buffer: Vec::new(), current_index: None, sample_rate, channels };
        assert(r@.samples =~= Seq::empty());
        r
    }

    /// Push interleaved samples into the current interval buffer.
    pub fn push_samples(&mut self, samples: &[u32], interval_index: i64)
        ensures
            final(self)@ == old(self)@.pushed(samples@, interval_index),
            final(self).rate() == old(self).rate(),
            final(self).channel_count() == old(self).channel_count(),
    {
        // If the interval changed, discard the buffer
        match self.current_index {
            Some(i) => {
                if i != interval_index {
                    self.buffer.clear();
                }
            },
            None => {},
        }
        self.current_index = Some(interval_index);
        self.buffer.extend_from_slice(samples);
        assert(self@.samples =~= old(self)@.pushed(samples@, interval_index).samples);
    }

    /// Finish the current interval and return the raw samples for encoding.
    /// Resets the buffer for the next interval.
    pub fn finish_interval(&mut self) -> (r: Option<(i64, Vec<u32>)>)
        ensures
            match r {
                Some((index, samples)) => {
                    &&& old(self)@.index == Some(index)
                    &&& samples@ == old(self)@.samples
                    &&& samples@.len() > 0
                    &&& final(self)@ == (RecorderState { index: None, samples: Seq::empty() })
                },
                None => {
                    &&& old(self)@.index is None || old(self)@.samples.len() == 0
                    &&& final(self)@ == (RecorderState { index: None, ..old(self)@ })
                },
            },
            final(self).rate() == old(self).rate(),
            final(self).channel_count() == old(self).channel_count(),
    {
        match self.current_index.take() {
            Some(index) => {
                if self.buffer.len() == 0 {
                    return None;
                }
                let mut samples: Vec<u32> = Vec::new();
                std::mem::swap(&mut samples, &mut self.buffer);
                assert(self@.samples =~= Seq::empty());
                Some((index, samples))
            },
            None => None,
        }
    }

    pub fn sample_rate(&self) -> (r: u32)
        ensures
            r == self.rate(),
    {
        self.sample_rate
    }

    pub fn channels(&self) -> (r: u16)
        ensures
            r == self.channel_count(),
    {
        self.channels
    }

    pub fn is_recording(&self) -> (r: bool)
        ensures
            r == (self@.index is Some),
    {
        self.current_index.is_some()
    }
}

} // verus!
