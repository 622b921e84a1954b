//! Tempo change detection on the local beat-sync session.
//!
//! Tempos are held as the bit patterns of doubles, times as microseconds. Whether
//! two tempos differ by more than the threshold is passed as a function.

use vstd::prelude::*;

use crate::ring::INFINITY_BITS;

verus! {

/// How long the echo guard stays armed, in microseconds.
pub const ECHO_GUARD_US: u64 = 150_000;

/// Time between two polls, in milliseconds (50 Hz).
pub const POLL_INTERVAL_MS: u64 = 20;

/// A snapshot is due every this many polls (about 200 ms at 50 Hz).
pub const SNAPSHOT_INTERVAL_TICKS: u32 = 10;

/// The bit pattern of negative infinity.
pub const NEGATIVE_INFINITY_BITS: u64 = 0xFFF0_0000_0000_0000;

/// The bit pattern of negative zero, the lowest with the sign bit.
pub const SIGN_BITS: u64 = 0x8000_0000_0000_0000;

/// Events emitted by the bridge when local session state changes.
#[derive(Debug, Clone, Copy, PartialEq, Eq)]
pub enum LinkEvent {
    TempoChanged { bpm_bits: u64, beat_bits: u64, timestamp_us: i64 },
    StateUpdate {
        bpm_bits: u64,
        beat_bits: u64,
        phase_bits: u64,
        quantum_bits: u64,
        timestamp_us: i64,
    },
}

/// Commands sent to the bridge.
#[derive(Debug, Clone, Copy, PartialEq, Eq)]
pub enum LinkCommand {
    SetTempo(u64),
    /// Snap the local beat clock to the given position (join-time sync only).
    /// `rtt_us` compensates for one-way network transit time.
    ForceBeat { beat_bits: u64, rtt_us: Option<i64> },
    GetState,
}

/// Snapshot of the current session state.
#[derive(Debug, Clone, Copy, PartialEq, Eq)]
pub struct LinkState {
    pub bpm_bits: u64,
    pub beat_bits: u64,
    pub phase_bits: u64,
    pub quantum_bits: u64,
    pub timestamp_us: i64,
    pub num_peers: u64,
}

/// Whether a bit pattern is not a number.
pub open spec fn is_nan(bits: u64) -> bool {
    INFINITY_BITS < bits < SIGN_BITS || NEGATIVE_INFINITY_BITS < bits
}

/// Whether a bit pattern is a number above zero.
pub open spec fn is_tempo(bits: u64) -> bool {
    0 < bits <= INFINITY_BITS
}

/// Whether a bit pattern is a number above zero.
pub fn is_valid_tempo(bits: u64) -> (r: bool)
    ensures
        r == is_tempo(bits),
{
    0 < bits && bits <= INFINITY_BITS
}

/// What a detector knows.
#[verifier::ext_equal]
pub struct DetectorState {
    pub last_tempo: u64,
    /// Until when changes are taken for echoes of a remote change.
    pub guard: Option<u64>,
}

impl DetectorState {
    /// Whether the echo guard is active at `now`.
    pub open spec fn guarded(self, now: u64) -> bool {
        self.guard is Some && now < self.guard->0
    }

    /// The detector after a tempo was read at `now`; `differs` says whether the
    /// tempo is off the last one by more than the threshold.
    pub open spec fn checked(self, bpm: u64, now: u64, differs: bool) -> DetectorState {
        if self.guarded(now) {
            self
        } else if is_tempo(bpm) && differs {
            DetectorState { last_tempo: bpm, guard: None }
        } else {
            DetectorState { guard: None, ..self }
        }
    }

    /// What reading a tempo at `now` reports.
    pub open spec fn reported(self, bpm: u64, now: u64, differs: bool) -> Option<u64> {
        if !self.guarded(now) && is_tempo(bpm) && differs {
            Some(bpm)
        } else {
            None
        }
    }

    /// The detector with another baseline; what is not a number is ignored.
    pub open spec fn rebased(self, bpm: u64) -> DetectorState {
        if is_nan(bpm) {
            self
        } else {
            DetectorState { last_tempo: bpm, ..self }
        }
    }
}

/// Tempo change detector with echo guard.
pub struct TempoChangeDetector {
    last_tempo: u64,
    echo_guard_until: Option<u64>,
}

impl View for TempoChangeDetector {
    type V = DetectorState;

    closed spec fn view(&self) -> DetectorState {
        DetectorState { last_tempo: self.last_tempo, guard: self.echo_guard_until }
    }
}

impl TempoChangeDetector {
    pub fn new(initial_tempo: u64) -> (r: Self)
        ensures
            r@ == (DetectorState { last_tempo: initial_tempo, guard: None }),
    {
        TempoChangeDetector { last_tempo: initial_tempo, echo_guard_until: None }
    }

    /// Arm the echo guard (called after applying a remote tempo change).
    pub fn arm_echo_guard(&mut self, until: u64)
        ensures
            final(self)@ == (DetectorState { guard: Some(until), ..old(self)@ }),
    {
        self.echo_guard_until = Some(until);
    }

    /// Check whether a tempo reading constitutes a reportable change.
    ///
    /// Returns the tempo if it is a number above zero, differs from the baseline by
    /// more than the threshold, and the echo guard is not active. A reported tempo
    /// becomes the baseline.
    pub fn check<D: Fn(u64, u64) -> bool>(&mut self, bpm: u64, now: u64, differs: &D) -> (r: Option<
        u64,
    >)
        requires
            forall|a: u64, b: u64| call_requires(differs, (a, b)),
        ensures
            exists|d: bool|
                {
                    &&& #[trigger] says_differ(differs, bpm, old(self)@.last_tempo, d)
                    &&& final(self)@ == old(self)@.checked(bpm, now, d)
                    &&& r == old(self)@.reported(bpm, now, d)
                },
    {
        let d: bool = differs(bpm, self.last_tempo);
        assert(says_differ(differs, bpm, old(self)@.last_tempo, d));
        if let Some(until) = self.echo_guard_until {
            if now < until {
                return None;
            }
            self.echo_guard_until = None;
        }
        if is_valid_tempo(bpm) && d {
            self.last_tempo = bpm;
            Some(bpm)
        } else {
            None
        }
    }

    pub fn last_tempo(&self) -> (r: u64)
        ensures
            r == self@.last_tempo,
    {
        self.last_tempo
    }

    /// Set the baseline. What is not a number is ignored, so that it cannot stop all
    /// later detection.
    pub fn set_last_tempo(&mut self, bpm: u64)
        ensures
            final(self)@ == old(self)@.rebased(bpm),
    {
        let nan = (INFINITY_BITS < bpm && bpm < SIGN_BITS) || NEGATIVE_INFINITY_BITS < bpm;
        if !nan {
            self.last_tempo = bpm;
        }
    }
}

/// `d` is an answer of `differs` for two tempos.
pub open spec fn says_differ<D: Fn(u64, u64) -> bool>(differs: D, a: u64, b: u64, d: bool) -> bool {
    call_ensures(differs, (a, b), d)
}

/// What the poller of a session does on a tick.
#[derive(Debug, Clone, Copy, PartialEq, Eq)]
pub struct TickOutcome {
    /// The tempo to report, if it changed.
    pub tempo_changed: Option<u64>,
    /// Whether a state snapshot is due.
    pub snapshot_due: bool,
}

/// What a monitor knows.
#[verifier::ext_equal]
pub struct MonitorState {
    pub detector: DetectorState,
    /// Polls since the last snapshot.
    pub ticks: nat,
}

impl MonitorState {
    /// Whether the next poll is the one with a snapshot.
    pub open spec fn snapshot_due(self) -> bool {
        self.ticks + 1 >= SNAPSHOT_INTERVAL_TICKS
    }

    pub open spec fn ticked(self, bpm: u64, now: u64, differs: bool) -> MonitorState {
        MonitorState {
            detector: self.detector.checked(bpm, now, differs),
            ticks: if self.snapshot_due() {
                0
            } else {
                self.ticks + 1
            },
        }
    }

    /// The monitor after a command was carried out at `now`: a command that changes
    /// the local session arms the echo guard, and a tempo becomes the baseline.
    pub open spec fn commanded(self, command: LinkCommand, now: u64) -> MonitorState {
        match command {
            LinkCommand::SetTempo(bpm) => MonitorState {
                detector: DetectorState {
                    guard: Some((now + ECHO_GUARD_US) as u64),
                    ..self.detector.rebased(bpm)
                },
                ..self
            },
            LinkCommand::ForceBeat { .. } => MonitorState {
                detector: DetectorState {
                    guard: Some((now + ECHO_GUARD_US) as u64),
                    ..self.detector
                },
                ..self
            },
            LinkCommand::GetState => self,
        }
    }
}

/// The decisions of the poller of the local session.
pub struct LinkMonitor {
    detector: TempoChangeDetector,
    snapshot_counter: u32,
}

impl View for LinkMonitor {
    type V = MonitorState;

    closed spec fn view(&self) -> MonitorState {
        MonitorState { detector: self.detector@, ticks: self.snapshot_counter as nat }
    }
}

impl LinkMonitor {
    pub closed spec fn wf(&self) -> bool {
        self.snapshot_counter < SNAPSHOT_INTERVAL_TICKS
    }

    pub fn new(initial_bpm: u64) -> (r: Self)
        ensures
            r.wf(),
            r@ == (MonitorState {
                detector: DetectorState { last_tempo: initial_bpm, guard: None },
                ticks: 0,
            }),
    {
        LinkMonitor { detector: TempoChangeDetector::new(initial_bpm), snapshot_counter: 0 }
    }

    /// One poll at `now`, with the session tempo `bpm`.
    pub fn on_tick<D: Fn(u64, u64) -> bool>(&mut self, bpm: u64, now: u64, differs: &D) -> (r:
        TickOutcome)
        requires
            old(self).wf(),
            forall|a: u64, b: u64| call_requires(differs, (a, b)),
        ensures
            final(self).wf(),
            r.snapshot_due == old(self)@.snapshot_due(),
            exists|d: bool|
                {
                    &&& #[trigger] says_differ(differs, bpm, old(self)@.detector.last_tempo, d)
                    &&& final(self)@ == old(self)@.ticked(bpm, now, d)
                    &&& r.tempo_changed == old(self)@.detector.reported(bpm, now, d)
                },
    {
        let tempo_changed = self.detector.check(bpm, now, differs);
        self.snapshot_counter = self.snapshot_counter + 1;
        let snapshot_due = self.snapshot_counter >= SNAPSHOT_INTERVAL_TICKS;
        if snapshot_due {
            self.snapshot_counter = 0;
        }
        TickOutcome { tempo_changed, snapshot_due }
    }

    /// Record that a command was carried out on the local session at `now`.
    pub fn on_command(&mut self, command: &LinkCommand, now: u64)
        requires
            old(self).wf(),
            now + ECHO_GUARD_US <= u64::MAX,
        ensures
            final(self).wf(),
            final(self)@ == old(self)@.commanded(*command, now),
    {
        match command {
            LinkCommand::SetTempo(bpm) => {
                self.detector.set_last_tempo(*bpm);
                self.detector.arm_echo_guard(now + ECHO_GUARD_US);
            },
            LinkCommand::ForceBeat { .. } => {
                self.detector.arm_echo_guard(now + ECHO_GUARD_US);
            },
            LinkCommand::GetState => {},
        }
    }

    /// The tempo reported or applied last.
    pub fn last_tempo(&self) -> (r: u64)
        ensures
            r == self@.detector.last_tempo,
    {
        self.detector.last_tempo()
    }
}

/// While the echo guard is active nothing is reported and nothing changes.
pub proof fn law_guard_suppresses(s: DetectorState, bpm: u64, now: u64, differs: bool)
    requires
        s.guarded(now),
    ensures
        s.reported(bpm, now, differs) is None,
        s.checked(bpm, now, differs) == s,
{
}

/// Tempos that are zero, negative or not a number are never reported and never
/// become the baseline by being read.
pub proof fn law_bad_tempo_is_rejected(s: DetectorState, bpm: u64, now: u64, differs: bool)
    requires
        bpm == 0 || bpm >= SIGN_BITS || is_nan(bpm),
    ensures
        s.reported(bpm, now, differs) is None,
        s.checked(bpm, now, differs).last_tempo == s.last_tempo,
{
}

/// A baseline that is a number stays one, whatever a peer sends.
pub proof fn law_baseline_stays_a_number(s: DetectorState, bpm: u64, now: u64, differs: bool)
    requires
        !is_nan(s.last_tempo),
    ensures
        !is_nan(s.rebased(bpm).last_tempo),
        !is_nan(s.checked(bpm, now, differs).last_tempo),
{
}

/// A reported tempo is the baseline afterwards.
pub proof fn law_reported_tempo_is_baseline(s: DetectorState, bpm: u64, now: u64, differs: bool)
    requires
        s.reported(bpm, now, differs) is Some,
    ensures
        s.checked(bpm, now, differs) == (DetectorState { last_tempo: bpm, guard: None }),
{
}

/// Which doubles are tempos and which are no numbers, by their bit patterns: a tempo is
/// above zero, and a pattern above that of infinity, in either half, is no number.
pub proof fn law_tempos_are_positive(bits: u64)
    ensures
        is_tempo(bits) <==> 0 < bits <= 0x7ff0_0000_0000_0000,
        is_nan(bits) <==> 0x7ff0_0000_0000_0000 < bits < 0x8000_0000_0000_0000 || bits
            > 0xfff0_0000_0000_0000,
        !(is_tempo(bits) && is_nan(bits)),
{
}

} // verus!
