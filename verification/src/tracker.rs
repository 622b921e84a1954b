//! Interval tracking on top of the beat grid.

use vstd::prelude::*;

verus! {

/// What a tracker knows.
#[verifier::ext_equal]
pub struct TrackerState {
    pub bars: u32,
    /// Bit pattern of the beats per bar.
    pub quantum: u64,
    pub last: Option<i64>,
}

impl TrackerState {
    /// What is reported when interval `index` is seen: the index, if it is another
    /// interval than the last one.
    pub open spec fn reported(self, index: i64) -> Option<i64> {
        if self.last == Some(index) {
            None
        } else {
            Some(index)
        }
    }

    /// The tracker after interval `index` was seen.
    pub open spec fn updated(self, index: i64) -> TrackerState {
        TrackerState { last: Some(index), ..self }
    }

    /// The tracker with another configuration; tracking starts over.
    pub open spec fn configured(self, bars: u32, quantum: u64) -> TrackerState {
        TrackerState { bars, quantum, last: None }
    }
}

/// Interval tracking on top of the beat grid.
///
/// An interval is N bars of a given quantum (time signature numerator).
/// For example, 4 bars of quantum 4 (4/4) = 16 beats per interval. The interval at
/// a beat position is the beat divided by the beats per interval, rounded down;
/// the tracker takes it as a number.
pub struct IntervalTracker {
    bars: u32,
    quantum_bits: u64,
    last_interval_index: Option<i64>,
}

impl View for IntervalTracker {
    type V = TrackerState;

    closed spec fn view(&self) -> TrackerState {
        TrackerState {
            bars: self.bars,
            quantum: self.quantum_bits,
            last: self.last_interval_index,
        }
    }
}

impl IntervalTracker {
    pub fn new(bars: u32, quantum_bits: u64) -> (r: Self)
        ensures
            r@ == (TrackerState { bars, quantum: quantum_bits, last: None }),
    {
        IntervalTracker { bars, quantum_bits, last_interval_index: None }
    }

    /// Call this with the interval at the current beat position. Returns
    /// `Some(interval_index)` if we just crossed an interval boundary; the first
    /// update reports the initial interval.
    pub fn update(&mut self, index: i64) -> (r: Option<i64>)
        ensures
            r == old(self)@.reported(index),
            final(self)@ == old(self)@.updated(index),
    {
        let same = match self.last_interval_index {
            Some(last) => last == index,
            None => false,
        };
        self.last_interval_index = Some(index);
        if same {
            None
        } else {
            Some(index)
        }
    }

    /// The interval seen last.
    pub fn current_index(&self) -> (r: Option<i64>)
        ensures
            r == self@.last,
    {
        self.last_interval_index
    }

    /// Adopt an interval announced by a peer.
    pub fn sync_to(&mut self, index: i64)
        ensures
            final(self)@ == old(self)@.updated(index),
    {
        self.last_interval_index = Some(index);
    }

    pub fn bars(&self) -> (r: u32)
        ensures
            r == self@.bars,
    {
        self.bars
    }

    /// Bit pattern of the beats per bar.
    pub fn quantum(&self) -> (r: u64)
        ensures
            r == self@.quantum,
    {
        self.quantum_bits
    }

    /// Change the configuration; tracking starts over.
    pub fn set_config(&mut self, bars: u32, quantum_bits: u64)
        ensures
            final(self)@ == old(self)@.configured(bars, quantum_bits),
    {
        self.bars = bars;
        self.quantum_bits = quantum_bits;
        self.last_interval_index = None;
    }
}

/// A boundary is reported once: seeing the same interval again reports nothing,
/// and seeing another one does.
pub proof fn law_boundary_reported_once(t: TrackerState, index: i64, next: i64)
    ensures
        t.updated(index).reported(index) is None,
        next != index ==> t.updated(index).reported(next) == Some(next),
{
}

/// After a new configuration the next interval is reported, whatever it is.
pub proof fn law_new_config_reports_again(t: TrackerState, bars: u32, quantum: u64, index: i64)
    ensures
        t.configured(bars, quantum).reported(index) == Some(index),
{
}

} // verus!
