use std::time::Duration;

use wail::link::{LinkCommand, LinkMonitor, TempoChangeDetector, TickOutcome};

/// Whether two tempos differ by more than the detection threshold.
fn differs(a: u64, b: u64) -> bool {
    (f64::from_bits(a) - f64::from_bits(b)).abs() > 0.01
}

/// A detector for tempos as numbers.
struct Detector {
    inner: TempoChangeDetector,
}

fn micros(t: Duration) -> u64 {
    t.as_micros() as u64
}

impl Detector {
    fn check(&mut self, bpm: f64, now: Duration) -> Option<f64> {
        self.inner.check(bpm.to_bits(), micros(now), &differs).map(f64::from_bits)
    }

    fn arm_echo_guard(&mut self, until: Duration) {
        self.inner.arm_echo_guard(micros(until));
    }

    fn last_tempo(&self) -> f64 {
        f64::from_bits(self.inner.last_tempo())
    }

    fn set_last_tempo(&mut self, bpm: f64) {
        self.inner.set_last_tempo(bpm.to_bits());
    }
}

fn detector(bpm: f64) -> Detector {
    Detector { inner: TempoChangeDetector::new(bpm.to_bits()) }
}

#[test]
fn above_threshold_emits_change() {
    let mut d = detector(120.0);
    let now = Duration::from_secs(1);
    let result = d.check(120.02, now);
    assert_eq!(result, Some(120.02));
}

#[test]
fn below_threshold_ignored() {
    let mut d = detector(120.0);
    let now = Duration::from_secs(1);
    assert!(d.check(120.005, now).is_none());
}

#[test]
fn at_threshold_boundary() {
    let mut d = detector(120.0);
    let now = Duration::from_secs(1);
    // Use a value whose f64 difference from 120.0 lands exactly at the threshold.
    // Due to IEEE 754, 120.01 - 120.0 > 0.01 by ~1e-14, so it *does* trigger.
    // Verify the boundary: 0.009 is below threshold, 0.011 is above.
    assert!(d.check(120.009, now).is_none());
    assert!(d.check(120.02, now).is_some()); // reset baseline
    let mut d2 = detector(120.0);
    assert!(d2.check(120.011, now).is_some());
}

#[test]
fn echo_guard_suppresses_detection() {
    let mut d = detector(120.0);
    let now = Duration::from_secs(1);
    d.arm_echo_guard(now + Duration::from_millis(150));

    // Large change while guard is active → suppressed
    assert!(d.check(130.0, now).is_none());
    // Still suppressed 100ms later
    assert!(d.check(130.0, now + Duration::from_millis(100)).is_none());
}

#[test]
fn echo_guard_expires_allows_detection() {
    let mut d = detector(120.0);
    let now = Duration::from_secs(1);
    d.arm_echo_guard(now + Duration::from_millis(150));

    // After guard expires, change is detected
    let after = now + Duration::from_millis(151);
    assert_eq!(d.check(130.0, after), Some(130.0));
}

#[test]
fn echo_guard_clears_after_expiry() {
    let mut d = detector(120.0);
    let now = Duration::from_secs(1);
    d.arm_echo_guard(now + Duration::from_millis(150));

    // First check after expiry clears the guard
    let t1 = now + Duration::from_millis(200);
    d.check(130.0, t1);

    // Second change should also work (guard is cleared, not re-armed)
    let t2 = t1 + Duration::from_millis(10);
    assert_eq!(d.check(140.0, t2), Some(140.0));
}

#[test]
fn last_tempo_tracks_across_changes() {
    let mut d = detector(120.0);
    let now = Duration::from_secs(1);

    d.check(125.0, now);
    assert_eq!(d.last_tempo(), 125.0);

    d.check(130.0, now);
    assert_eq!(d.last_tempo(), 130.0);

    // Below-threshold from 130: baseline unchanged
    d.check(130.005, now);
    assert_eq!(d.last_tempo(), 130.0);
}

#[test]
fn negative_tempo_change_detected() {
    let mut d = detector(120.0);
    let now = Duration::from_secs(1);
    assert_eq!(d.check(119.0, now), Some(119.0));
}

#[test]
fn set_last_tempo_updates_baseline() {
    let mut d = detector(120.0);
    let now = Duration::from_secs(1);
    // Simulate set_tempo() updating baseline to 130
    d.set_last_tempo(130.0);

    // 130.005 is within threshold → no change
    assert!(d.check(130.005, now).is_none());
    // 130.02 exceeds threshold → change
    assert_eq!(d.check(130.02, now), Some(130.02));
}

#[test]
fn nan_bpm_does_not_poison_detector() {
    let mut d = detector(120.0);
    let now = Duration::from_secs(1);

    // A remote peer sends NaN BPM
    d.set_last_tempo(f64::NAN);

    // The detector should still work — NaN must not have been stored
    // as the baseline. A legitimate tempo change should be detected.
    let result = d.check(130.0, now);
    assert_eq!(
        result,
        Some(130.0),
        "After NaN BPM, detector must still detect legitimate changes. \
         Got None because NaN poisoned the baseline: (130.0 - NaN).abs() > 0.01 is false"
    );
}

#[test]
fn zero_bpm_rejected_by_detector() {
    let mut d = detector(120.0);
    let now = Duration::from_secs(1);

    // Remote peer sends 0 BPM (bug or malicious)
    let result = d.check(0.0, now);
    assert!(
        result.is_none(),
        "Zero BPM should be rejected by the detector, but got Some(0.0). \
         A 0 BPM value would be forwarded to the Ableton Link C FFI, \
         which could freeze the session timeline."
    );
    // Baseline must remain at 120.0
    assert_eq!(d.last_tempo(), 120.0, "Baseline must not change after zero BPM");
}

#[test]
fn negative_bpm_rejected_by_detector() {
    let mut d = detector(120.0);
    let now = Duration::from_secs(1);

    let result = d.check(-120.0, now);
    assert!(
        result.is_none(),
        "Negative BPM should be rejected by the detector, but got Some(-120.0). \
         A negative BPM value would corrupt the Ableton Link session."
    );
    assert_eq!(d.last_tempo(), 120.0, "Baseline must not change after negative BPM");
}

#[test]
fn monitor_reports_changes_and_snapshots() {
    let mut m = LinkMonitor::new(120f64.to_bits());
    let mut snapshots = 0;
    for tick in 0..wail::link::SNAPSHOT_INTERVAL_TICKS {
        let outcome: TickOutcome = m.on_tick(120f64.to_bits(), tick as u64, &differs);
        assert_eq!(outcome.tempo_changed, None);
        if outcome.snapshot_due {
            snapshots += 1;
            assert_eq!(tick + 1, wail::link::SNAPSHOT_INTERVAL_TICKS);
        }
    }
    assert_eq!(snapshots, 1);
    m.on_command(&LinkCommand::SetTempo(130f64.to_bits()), 1000);
    assert_eq!(m.last_tempo(), 130f64.to_bits());
    // The echo of the command is not a change
    assert_eq!(m.on_tick(131f64.to_bits(), 1000, &differs).tempo_changed, None);
    let later = 1000 + wail::link::ECHO_GUARD_US;
    assert_eq!(m.on_tick(131f64.to_bits(), later, &differs).tempo_changed, Some(131f64.to_bits()));
}
