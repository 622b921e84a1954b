//! Laws of a running peer: what each message of another peer leads to, and what is
//! announced.

use vstd::prelude::*;

use crate::link::{DetectorState, LinkCommand, MonitorState};
use crate::protocol::SyncMessage;
use crate::session::{ActionState, SessionAction, SessionState};
use crate::tracker::TrackerState;

verus! {

/// A tempo change of a peer with a valid tempo leads to exactly one action: the local
/// session is set to that tempo, which is also what local changes are measured against
/// from then on. Nothing else changes.
pub proof fn law_remote_tempo_is_applied(
    s: SessionState,
    from: Seq<char>,
    bpm: u64,
    quantum: u64,
    timestamp_us: i64,
    now: i64,
    differs: bool,
    out: Seq<SessionAction>,
)
    requires
        0 < bpm <= 0x7ff0_0000_0000_0000,
        crate::session::actions(out) == s.reaction(
            from,
            (SyncMessage::TempoChange { bpm_bits: bpm, quantum_bits: quantum, timestamp_us })@,
            now,
            differs,
        ),
    ensures
        out.len() == 1,
        out[0] matches SessionAction::Link { command } && command == LinkCommand::SetTempo(bpm),
        ({
            let m = (SyncMessage::TempoChange {
                bpm_bits: bpm,
                quantum_bits: quantum,
                timestamp_us,
            })@;
            s.after_message(from, m, now, differs) == SessionState { last_bpm: bpm, ..s }
        }),
{
    let a = crate::session::actions(out);
    assert(a.len() == out.len());
    assert(a[0] == out[0]@);
}

/// A tempo of a peer that is not a number above zero leads to nothing.
pub proof fn law_bad_remote_tempo_is_ignored(
    s: SessionState,
    from: Seq<char>,
    bpm: u64,
    quantum: u64,
    timestamp_us: i64,
    now: i64,
    differs: bool,
)
    requires
        bpm == 0 || bpm > 0x7ff0_0000_0000_0000,
    ensures
        ({
            let m = (SyncMessage::TempoChange {
                bpm_bits: bpm,
                quantum_bits: quantum,
                timestamp_us,
            })@;
            &&& s.reaction(from, m, now, differs).len() == 0
            &&& s.after_message(from, m, now, differs) == s
        }),
{
}

/// The first snapshot of a peer snaps the local beat to the peer's, and tracking starts
/// over with this peer's own configuration; later ones do not. A snapshot with another
/// valid tempo sets the local session to it, and it is measured against from then on;
/// one with the same tempo, or with a tempo that is not a number above zero, does not.
pub proof fn law_snapshot_is_adopted(
    s: SessionState,
    from: Seq<char>,
    bpm: u64,
    beat: u64,
    phase: u64,
    quantum: u64,
    timestamp_us: i64,
    now: i64,
    differs: bool,
)
    ensures
        ({
            let m = (SyncMessage::StateSnapshot {
                bpm_bits: bpm,
                beat_bits: beat,
                phase_bits: phase,
                quantum_bits: quantum,
                timestamp_us,
            })@;
            let out = s.reaction(from, m, now, differs);
            let t = s.after_message(from, m, now, differs);
            let retunes = differs && 0 < bpm <= 0x7ff0_0000_0000_0000;
            let force = ActionState::Link(LinkCommand::ForceBeat { beat_bits: beat, rtt_us: None });
            let set = ActionState::Link(LinkCommand::SetTempo(bpm));
            &&& !s.beat_synced && retunes ==> out.len() == 2 && out[0] == force && out[1] == set
            &&& !s.beat_synced && !retunes ==> out.len() == 1 && out[0] == force
            &&& s.beat_synced && retunes ==> out.len() == 1 && out[0] == set
            &&& s.beat_synced && !retunes ==> out.len() == 0
            &&& t.beat_synced
            &&& t.last_bpm == if retunes {
                bpm
            } else {
                s.last_bpm
            }
            &&& s.beat_synced ==> t.tracker == s.tracker
            &&& !s.beat_synced ==> t.tracker.last is None && t.tracker.bars == s.bars
                && t.tracker.quantum == s.quantum
            &&& t.clock == s.clock
            &&& t.bars == s.bars && t.quantum == s.quantum && t.peer_id == s.peer_id
                && t.display_name == s.display_name && t.sent == s.sent && t.received
                == s.received
        }),
{
}

/// A ping is answered to its sender alone, with its own number and time and the time of
/// the answer; it changes nothing.
pub proof fn law_ping_is_answered(
    s: SessionState,
    from: Seq<char>,
    id: u64,
    sent_at_us: i64,
    now: i64,
    differs: bool,
    out: Seq<SessionAction>,
)
    requires
        crate::session::actions(out) == s.reaction(
            from,
            (SyncMessage::Ping { id, sent_at_us })@,
            now,
            differs,
        ),
    ensures
        out.len() == 1,
        out[0] matches SessionAction::SendTo { peer_id, message } && peer_id@ == from
            && message == (SyncMessage::Pong {
            id,
            ping_sent_at_us: sent_at_us,
            pong_sent_at_us: now,
        }),
        s.after_message(from, (SyncMessage::Ping { id, sent_at_us })@, now, differs) == s,
{
    let a = crate::session::actions(out);
    assert(a.len() == out.len());
    assert(a[0] == out[0]@);
}

/// A pong adds the time that passed since its ping was sent to what is known of its
/// sender, whatever times the sender claims; a time that is not from the past adds
/// nothing. It asks for nothing.
pub proof fn law_pong_is_measured(
    s: SessionState,
    from: Seq<char>,
    id: u64,
    ping_sent_at_us: i64,
    pong_sent_at_us: i64,
    now: i64,
    differs: bool,
)
    ensures
        ({
            let m = (SyncMessage::Pong { id, ping_sent_at_us, pong_sent_at_us })@;
            let t = s.after_message(from, m, now, differs);
            let before = s.clock.window(from);
            let after = t.clock.window(from);
            &&& s.reaction(from, m, now, differs).len() == 0
            &&& now < ping_sent_at_us ==> t == s
            &&& ping_sent_at_us <= now && now - ping_sent_at_us <= i64::MAX ==> after.len() > 0
                && after.last() == now - ping_sent_at_us && t.clock.windows.dom().contains(from)
            &&& ping_sent_at_us <= now && now - ping_sent_at_us <= i64::MAX && before.len() < 8
                ==> after.len() == before.len() + 1 && after.drop_last() == before
            &&& ping_sent_at_us <= now && now - ping_sent_at_us <= i64::MAX && before.len() == 8
                ==> after.len() == 8 && after.drop_last() == before.skip(1)
            &&& forall|q: Seq<char>|
                q != from ==> #[trigger] t.clock.window(q) == s.clock.window(q)
            &&& t.clock.next_ping_id == s.clock.next_ping_id
            &&& t == SessionState { clock: t.clock, ..s }
        }),
{
    let m = (SyncMessage::Pong { id, ping_sent_at_us, pong_sent_at_us })@;
    let t = s.after_message(from, m, now, differs);
    let before = s.clock.window(from);
    let after = t.clock.window(from);
    if ping_sent_at_us <= now && now - ping_sent_at_us <= i64::MAX {
        if before.len() < 8 {
            assert(after.drop_last() =~= before);
        } else if before.len() == 8 {
            assert(after.drop_last() =~= before.skip(1));
        }
    }
}

/// The interval configuration of a peer is taken over, and tracking starts over; it asks
/// for nothing, and what this peer announces itself stays.
pub proof fn law_interval_config_is_taken_over(
    s: SessionState,
    from: Seq<char>,
    bars: u32,
    quantum: u64,
    now: i64,
    differs: bool,
)
    ensures
        ({
            let m = (SyncMessage::IntervalConfig { bars, quantum_bits: quantum })@;
            let t = s.after_message(from, m, now, differs);
            &&& s.reaction(from, m, now, differs).len() == 0
            &&& t.tracker.bars == bars
            &&& t.tracker.quantum == quantum
            &&& t.tracker.last is None
            &&& t == SessionState { tracker: t.tracker, ..s }
        }),
{
}

/// A boundary of a peer that is ahead is caught up with; one of a peer that is behind, or
/// level, is ignored. It asks for nothing.
pub proof fn law_boundary_is_caught_up_with(
    s: SessionState,
    from: Seq<char>,
    index: i64,
    now: i64,
    differs: bool,
)
    ensures
        ({
            let m = (SyncMessage::IntervalBoundary { index })@;
            let t = s.after_message(from, m, now, differs);
            let ahead = s.tracker.last is None || index > s.tracker.last->0;
            &&& s.reaction(from, m, now, differs).len() == 0
            &&& ahead ==> t.tracker.last == Some(index) && t.tracker.bars == s.tracker.bars
                && t.tracker.quantum == s.tracker.quantum
            &&& !ahead ==> t == s
            &&& t == SessionState { tracker: t.tracker, ..s }
        }),
{
}

/// Messages that are not about tempo, beat or intervals change nothing of the session and
/// ask it for nothing.
pub proof fn law_other_messages_change_nothing(
    s: SessionState,
    from: Seq<char>,
    m: SyncMessage,
    now: i64,
    differs: bool,
)
    requires
        m is Hello || m is AudioCapabilities || m is AudioIntervalReady || m is AudioStatus || m
            is ChatMessage || m is StreamNames,
    ensures
        s.reaction(from, m@, now, differs).len() == 0,
        s.after_message(from, m@, now, differs) == s,
{
}

/// A local tempo change that is one is told to all peers, with the tempo, this peer's
/// beats per bar and the time; an echo is not. An interval that begins with it is
/// announced once.
pub proof fn law_local_tempo_is_announced(
    s: SessionState,
    bpm: u64,
    timestamp_us: i64,
    index: i64,
    differs: bool,
    out: Seq<SessionAction>,
)
    requires
        crate::session::actions(out) == s.tempo_news(bpm, timestamp_us, index, differs),
    ensures
        ({
            let crossed = s.tracker.last != Some(index);
            let n: int = if differs {
                1
            } else {
                0
            };
            &&& out.len() == n + if crossed {
                1int
            } else {
                0int
            }
            &&& differs ==> (out[0] matches SessionAction::Broadcast { message } && message == (
            SyncMessage::TempoChange { bpm_bits: bpm, quantum_bits: s.quantum, timestamp_us }))
            &&& crossed ==> (out[n] matches SessionAction::Broadcast { message } && message == (
            SyncMessage::IntervalBoundary { index }))
        }),
{
    let a = crate::session::actions(out);
    assert(a.len() == out.len());
    assert(forall|i: int| 0 <= i < out.len() ==> a[i] == (#[trigger] out[i])@);
    if out.len() > 0 {
        assert(a[0] == out[0]@);
    }
    if out.len() > 1 {
        assert(a[1] == out[1]@);
    }
}

/// Reaching an interval announces it exactly when it is another one than before; once
/// reached it is the current one, and the configuration stays.
pub proof fn law_new_interval_is_announced(s: SessionState, index: i64, out: Seq<SessionAction>)
    requires
        crate::session::actions(out) == s.boundary(index),
    ensures
        s.tracker.last == Some(index) ==> out.len() == 0,
        s.tracker.last != Some(index) ==> out.len() == 1 && (
        out[0] matches SessionAction::Broadcast { message } && message == (
        SyncMessage::IntervalBoundary { index })),
        s.tracker.updated(index) == (TrackerState { last: Some(index), ..s.tracker }),
{
    let a = crate::session::actions(out);
    assert(a.len() == out.len());
    if out.len() > 0 {
        assert(a[0] == out[0]@);
    }
}

/// A peer that connects is told this peer's id and name, its interval configuration, and
/// that it sends and receives mono and stereo at 48 kHz, in that order, and nothing else.
pub proof fn law_greeting_introduces_this_peer(s: SessionState, out: Seq<SessionAction>)
    requires
        crate::session::actions(out) == s.greeting(),
    ensures
        out.len() == 3,
        out[0] matches SessionAction::Broadcast { message } && (message matches SyncMessage::Hello {
            peer_id,
            display_name,
            identity,
        } && peer_id@ == s.peer_id && crate::protocol::opt_text(display_name) == s.display_name
            && identity is None),
        out[1] matches SessionAction::Broadcast { message } && message == (
        SyncMessage::IntervalConfig { bars: s.bars, quantum_bits: s.quantum }),
        out[2] matches SessionAction::Broadcast { message } && (
        message matches SyncMessage::AudioCapabilities {
            sample_rates,
            channel_counts,
            can_send,
            can_receive,
            max_streams,
        } && sample_rates@ == seq![48000u32] && channel_counts@ == seq![1u16, 2u16] && can_send
            && can_receive && max_streams is None),
{
    let a = crate::session::actions(out);
    assert(a.len() == out.len());
    assert(a[0] == out[0]@);
    assert(a[1] == out[1]@);
    assert(a[2] == out[2]@);
}

/// A tempo that is read is reported exactly when no echo is expected, it is a number above
/// zero, and it is off the last one; only then does it become what tempos are measured
/// against.
pub proof fn law_tempo_change_is_detected(s: DetectorState, bpm: u64, now: u64, differs: bool)
    ensures
        ({
            let quiet = s.guard is Some && now < s.guard->0;
            let news = !quiet && differs && 0 < bpm <= 0x7ff0_0000_0000_0000;
            let t = s.checked(bpm, now, differs);
            &&& s.reported(bpm, now, differs) == if news {
                Some(bpm)
            } else {
                None
            }
            &&& t.last_tempo == if news {
                bpm
            } else {
                s.last_tempo
            }
            &&& quiet ==> t.guard == s.guard
            &&& !quiet ==> t.guard is None
        }),
{
}

/// A tempo that was set from outside is what tempos are measured against, unless it is not
/// a number, and for 150 ms whatever is read is taken for its echo; snapping the beat is
/// followed by the same pause. Asking for the state changes nothing.
pub proof fn law_commands_are_not_echoed(
    s: MonitorState,
    bpm: u64,
    beat: u64,
    rtt_us: Option<i64>,
    now: u64,
    later: u64,
    read: u64,
    differs: bool,
)
    requires
        now + 150_000 <= u64::MAX,
        now <= later < now + 150_000,
    ensures
        ({
            let t = s.commanded(LinkCommand::SetTempo(bpm), now);
            let nan = 0x7ff0_0000_0000_0000 < bpm < 0x8000_0000_0000_0000 || bpm
                > 0xfff0_0000_0000_0000;
            &&& t.detector.reported(read, later, differs) is None
            &&& t.detector.guard == Some((now + 150_000) as u64)
            &&& t.detector.last_tempo == if nan {
                s.detector.last_tempo
            } else {
                bpm
            }
            &&& t.ticks == s.ticks
        }),
        ({
            let t = s.commanded(LinkCommand::ForceBeat { beat_bits: beat, rtt_us }, now);
            &&& t.detector.reported(read, later, differs) is None
            &&& t.detector.guard == Some((now + 150_000) as u64)
            &&& t.detector.last_tempo == s.detector.last_tempo
            &&& t.ticks == s.ticks
        }),
        s.commanded(LinkCommand::GetState, now) == s,
{
}

/// The monitor after `n` polls that read nothing new.
pub open spec fn polled(s: MonitorState, n: nat, bpm: u64, now: u64) -> MonitorState
    decreases n,
{
    if n == 0 {
        s
    } else {
        polled(s, (n - 1) as nat, bpm, now).ticked(bpm, now, false)
    }
}

/// One poll after another, every tenth asks for a snapshot.
pub proof fn law_snapshots_come_regularly(s: MonitorState, n: nat, bpm: u64, now: u64)
    requires
        s.ticks == 0,
    ensures
        polled(s, n, bpm, now).snapshot_due() <==> n % 10 == 9,
        polled(s, n, bpm, now).ticks == n % 10,
    decreases n,
{
    if n > 0 {
        law_snapshots_come_regularly(s, (n - 1) as nat, bpm, now);
    }
}

} // verus!
