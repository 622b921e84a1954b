//! The decisions of a running peer: what it answers, broadcasts and applies.

use vstd::prelude::*;

use crate::clock::{ClockState, ClockSync};
use crate::ipc::{IpcFramer, IpcMessage};
use crate::link::{is_valid_tempo, LinkCommand};
use crate::protocol::{SyncMessage, SyncState};
use crate::text::take_chars;
use crate::tracker::{IntervalTracker, TrackerState};

verus! {

/// Whether a character is a lower-case hexadecimal digit.
pub open spec fn is_hex_digit(c: char) -> bool {
    '0' <= c <= '9' || 'a' <= c <= 'f'
}

/// Whether a text has the hyphenated form of a UUID.
pub open spec fn is_uuid_text(s: Seq<char>) -> bool {
    &&& s.len() == 36
    &&& forall|i: int|
        0 <= i < 36 ==> if i == 8 || i == 13 || i == 18 || i == 23 {
            #[trigger] s[i] == '-'
        } else {
            is_hex_digit(s[i])
        }
}

/// `uuid::Uuid::new_v4` and its text: 32 lower-case hexadecimal digits in groups of
/// 8, 4, 4, 4 and 12, with hyphens between the groups. Which digits is random.
#[verifier::external_body]
fn random_uuid_text() -> (r: String)
    ensures
        is_uuid_text(r@),
{
    uuid::Uuid::new_v4().to_string()
}

/// A peer id for this session: eight random hexadecimal digits.
pub fn new_peer_id() -> (r: String)
    ensures
        r@.len() == 8,
        forall|i: int| 0 <= i < 8 ==> is_hex_digit(#[trigger] r@[i]),
{
    let full = random_uuid_text();
    let r = peer_id_from(full.as_str());
    assert forall|i: int| 0 <= i < 8 implies is_hex_digit(#[trigger] r@[i]) by {
        assert(r@[i] == full@[i]);
    }
    r
}

/// The peer id that a UUID text gives: its first eight characters.
pub fn peer_id_from(uuid_text: &str) -> (r: String)
    ensures
        r@ == crate::text::prefix(uuid_text@, 8),
{
    take_chars(uuid_text, 8)
}

/// Something the session asks for.
pub enum SessionAction {
    /// Send a message to one peer.
    SendTo { peer_id: String, message: SyncMessage },
    /// Send a message to all peers.
    Broadcast { message: SyncMessage },
    /// Carry out a command on the local beat-sync session.
    Link { command: LinkCommand },
}

/// What an action says.
pub enum ActionState {
    SendTo(Seq<char>, SyncState),
    Broadcast(SyncState),
    Link(LinkCommand),
}

impl View for SessionAction {
    type V = ActionState;

    open spec fn view(&self) -> ActionState {
        match *self {
            SessionAction::SendTo { peer_id, message } => ActionState::SendTo(peer_id@, message@),
            SessionAction::Broadcast { message } => ActionState::Broadcast(message@),
            SessionAction::Link { command } => ActionState::Link(command),
        }
    }
}

/// What a list of actions says.
pub open spec fn actions(s: Seq<SessionAction>) -> Seq<ActionState> {
    s.map_values(|a: SessionAction| a@)
}

/// A message that came in: from whom, what it said, when it came, and whether its
/// tempo is off the last one by more than the threshold.
pub struct Arrival {
    pub from: Seq<char>,
    pub message: SyncState,
    pub now: i64,
    pub differs: bool,
}

/// What a session knows.
#[verifier::ext_equal]
pub struct SessionState {
    pub peer_id: Seq<char>,
    pub display_name: Option<Seq<char>>,
    /// The interval configuration that this peer announces.
    pub bars: u32,
    pub quantum: u64,
    pub tracker: TrackerState,
    pub clock: ClockState,
    /// The tempo broadcast or adopted last.
    pub last_bpm: u64,
    /// Whether the beat clock was snapped to a remote one.
    pub beat_synced: bool,
    pub sent: nat,
    pub received: nat,
}

impl SessionState {
    /// What a peer that just connected is told: who this is, its interval
    /// configuration, and its audio capabilities.
    pub open spec fn greeting(self) -> Seq<ActionState> {
        seq![
            ActionState::Broadcast(
                SyncState::Hello {
                    peer_id: self.peer_id,
                    display_name: self.display_name,
                    identity: None,
                },
            ),
            ActionState::Broadcast(
                SyncState::IntervalConfig { bars: self.bars, quantum: self.quantum },
            ),
            ActionState::Broadcast(
                SyncState::AudioCapabilities {
                    sample_rates: seq![48000u32],
                    channel_counts: seq![1u16, 2u16],
                    can_send: true,
                    can_receive: true,
                    max_streams: None,
                },
            ),
        ]
    }

    /// The session after a message of peer `from` came in at `now`. `differs` says
    /// whether a snapshot's tempo is off the last one by more than the threshold. A
    /// tempo that is not a number above zero is ignored.
    pub open spec fn after_message(
        self,
        from: Seq<char>,
        m: SyncState,
        now: i64,
        differs: bool,
    ) -> SessionState {
        match m {
            SyncState::Pong { ping_sent_at_us, .. } => SessionState {
                clock: self.clock.ponged(from, ping_sent_at_us, now),
                ..self
            },
            SyncState::TempoChange { bpm, .. } => if crate::link::is_tempo(bpm) {
                SessionState { last_bpm: bpm, ..self }
            } else {
                self
            },
            SyncState::StateSnapshot { bpm, .. } => SessionState {
                beat_synced: true,
                tracker: if self.beat_synced {
                    self.tracker
                } else {
                    self.tracker.configured(self.bars, self.quantum)
                },
                last_bpm: if crate::link::is_tempo(bpm) && differs {
                    bpm
                } else {
                    self.last_bpm
                },
                ..self
            },
            SyncState::IntervalConfig { bars, quantum } => SessionState {
                tracker: self.tracker.configured(bars, quantum),
                ..self
            },
            SyncState::IntervalBoundary { index } => if self.is_behind(index) {
                SessionState { tracker: self.tracker.updated(index), ..self }
            } else {
                self
            },
            _ => self,
        }
    }

    /// The session after a number of messages, one after the other.
    pub open spec fn after_messages(self, arrivals: Seq<Arrival>) -> SessionState
        decreases arrivals.len(),
    {
        if arrivals.len() == 0 {
            self
        } else {
            let a = arrivals.last();
            self.after_messages(arrivals.drop_last()).after_message(
                a.from,
                a.message,
                a.now,
                a.differs,
            )
        }
    }

    /// Whether this peer's interval is behind `index`.
    pub open spec fn is_behind(self, index: i64) -> bool {
        match self.tracker.last {
            Some(l) => index > l,
            None => true,
        }
    }

    /// What a message of peer `from` asks for. A tempo that is not a number above zero
    /// is not applied.
    pub open spec fn reaction(self, from: Seq<char>, m: SyncState, now: i64, differs: bool) -> Seq<
        ActionState,
    > {
        match m {
            SyncState::Ping { id, sent_at_us } => seq![
                ActionState::SendTo(
                    from,
                    SyncState::Pong { id, ping_sent_at_us: sent_at_us, pong_sent_at_us: now },
                ),
            ],
            SyncState::TempoChange { bpm, .. } => if crate::link::is_tempo(bpm) {
                seq![ActionState::Link(LinkCommand::SetTempo(bpm))]
            } else {
                Seq::empty()
            },
            SyncState::StateSnapshot { bpm, beat, .. } => (if self.beat_synced {
                Seq::empty()
            } else {
                seq![ActionState::Link(LinkCommand::ForceBeat { beat_bits: beat, rtt_us: None })]
            }) + (if crate::link::is_tempo(bpm) && differs {
                seq![ActionState::Link(LinkCommand::SetTempo(bpm))]
            } else {
                Seq::empty()
            }),
            _ => Seq::empty(),
        }
    }

    /// What reaching interval `index` announces.
    pub open spec fn boundary(self, index: i64) -> Seq<ActionState> {
        match self.tracker.reported(index) {
            Some(i) => seq![ActionState::Broadcast(SyncState::IntervalBoundary { index: i })],
            None => Seq::empty(),
        }
    }

    /// What a local tempo change announces.
    pub open spec fn tempo_news(
        self,
        bpm: u64,
        timestamp_us: i64,
        index: i64,
        differs: bool,
    ) -> Seq<ActionState> {
        (if differs {
            seq![
                ActionState::Broadcast(
                    SyncState::TempoChange { bpm, quantum: self.quantum, timestamp_us },
                ),
            ]
        } else {
            Seq::empty()
        }) + self.boundary(index)
    }
}

/// A running peer.
pub struct Session {
    peer_id: String,
    display_name: Option<String>,
    bars: u32,
    quantum_bits: u64,
    interval: IntervalTracker,
    clock: ClockSync,
    last_broadcast_bpm: u64,
    beat_synced: bool,
    audio_sent: u64,
    audio_received: u64,
}

impl View for Session {
    type V = SessionState;

    closed spec fn view(&self) -> SessionState {
        SessionState {
            peer_id: self.peer_id@,
            display_name: crate::protocol::opt_text(self.display_name),
            bars: self.bars,
            quantum: self.quantum_bits,
            tracker: self.interval@,
            clock: self.clock@,
            last_bpm: self.last_broadcast_bpm,
            beat_synced: self.beat_synced,
            sent: self.audio_sent as nat,
            received: self.audio_received as nat,
        }
    }
}

/// A copy of an optional text.
fn copy_opt(s: &Option<String>) -> (r: Option<String>)
    ensures
        crate::protocol::opt_text(r) == crate::protocol::opt_text(*s),
{
    match s {
        Some(t) => Some(t.clone()),
        None => None,
    }
}

impl Session {
    pub closed spec fn wf(&self) -> bool {
        self.clock.wf()
    }

    pub fn new(
        peer_id: String,
        display_name: Option<String>,
        bpm_bits: u64,
        bars: u32,
        quantum_bits: u64,
    ) -> (r: Self)
        ensures
            r.wf(),
            r@ == (SessionState {
                peer_id: peer_id@,
                display_name: crate::protocol::opt_text(display_name),
                bars,
                quantum: quantum_bits,
                tracker: TrackerState { bars, quantum: quantum_bits, last: None },
                clock: ClockState { windows: Map::empty(), next_ping_id: 0 },
                last_bpm: bpm_bits,
                beat_synced: false,
                sent: 0,
                received: 0,
            }),
    {
        Session {
            peer_id,
            display_name,
            bars,
            quantum_bits,
            interval: IntervalTracker::new(bars, quantum_bits),
            clock: ClockSync::new(),
            last_broadcast_bpm: bpm_bits,
            beat_synced: false,
            audio_sent: 0,
            audio_received: 0,
        }
    }

    /// A peer connected: greet it.
    pub fn on_peer_joined(&self) -> (r: Vec<SessionAction>)
        ensures
            actions(r@) == self@.greeting(),
    {
        let mut out: Vec<SessionAction> = Vec::new();
        out.push(
            SessionAction::Broadcast {
                message: SyncMessage::Hello {
                    peer_id: self.peer_id.clone(),
                    display_name: copy_opt(&self.display_name),
                    identity: None,
                },
            },
        );
        out.push(
            SessionAction::Broadcast {
                message: SyncMessage::IntervalConfig {
                    bars: self.bars,
                    quantum_bits: self.quantum_bits,
                },
            },
        );
        let mut sample_rates: Vec<u32> = Vec::new();
        sample_rates.push(48000);
        let mut channel_counts: Vec<u16> = Vec::new();
        channel_counts.push(1);
        channel_counts.push(2);
        assert(sample_rates@ =~= seq![48000u32]);
        assert(channel_counts@ =~= seq![1u16, 2u16]);
        out.push(
            SessionAction::Broadcast {
                message: SyncMessage::AudioCapabilities {
                    sample_rates,
                    channel_counts,
                    can_send: true,
                    can_receive: true,
                    max_streams: None,
                },
            },
        );
        assert(actions(out@) =~= self@.greeting());
        out
    }

    /// A frame came from the send plugin: the audio to broadcast, if it is audio.
    pub fn on_plugin_frame(&mut self, frame: &[u8]) -> (r: Option<Vec<u8>>)
        requires
            old(self).wf(),
            old(self)@.sent < u64::MAX,
        ensures
            final(self).wf(),
            match r {
                Some(wire) => {
                    &&& crate::ipc::has_tag(frame@, 0x01) && crate::ipc::has_field(frame@, 1)
                    &&& wire@ == frame@.skip(crate::ipc::field_end(frame@, 1))
                    &&& final(self)@ == (SessionState {
                        sent: old(self)@.sent + 1,
                        ..old(self)@
                    })
                },
                None => {
                    &&& !(crate::ipc::has_tag(frame@, 0x01) && crate::ipc::has_field(frame@, 1))
                    &&& final(self)@ == old(self)@
                },
            },
    {
        match IpcMessage::decode_audio(frame) {
            Some((_, wire)) => {
                self.audio_sent = self.audio_sent + 1;
                Some(wire)
            },
            None => None,
        }
    }

    /// Audio came from a peer: the bytes to write to the recv plugin, if one is
    /// connected.
    pub fn on_peer_audio(&mut self, from: &str, data: &[u8], plugin_connected: bool) -> (r: Option<
        Vec<u8>,
    >)
        requires
            old(self).wf(),
            old(self)@.received < u64::MAX,
        ensures
            final(self).wf(),
            final(self)@ == (SessionState { received: old(self)@.received + 1, ..old(self)@ }),
            match r {
                Some(bytes) => plugin_connected && bytes@ == crate::ipc::framed(
                    crate::ipc::audio_msg(from@, data@),
                ),
                None => !plugin_connected,
            },
    {
        self.audio_received = self.audio_received + 1;
        if plugin_connected {
            let msg = IpcMessage::encode_audio(from, data);
            Some(IpcFramer::encode_frame(msg.as_slice()))
        } else {
            None
        }
    }

    /// A message came from a peer at `now`. `differs` says whether two tempos are
    /// further apart than the threshold.
    pub fn on_message<D: Fn(u64, u64) -> bool>(
        &mut self,
        from: &str,
        message: &SyncMessage,
        now: i64,
        differs: &D,
    ) -> (r: Vec<SessionAction>)
        requires
            old(self).wf(),
            forall|a: u64, b: u64| call_requires(differs, (a, b)),
        ensures
            final(self).wf(),
            exists|d: bool|
                {
                    &&& message@ matches SyncState::StateSnapshot { bpm, .. }
                        ==> crate::link::says_differ(differs, bpm, old(self)@.last_bpm, d)
                    &&& final(self)@ == #[trigger] old(self)@.after_message(from@, message@, now, d)
                    &&& actions(r@) == old(self)@.reaction(from@, message@, now, d)
                },
    {
        let ghost s = self@;
        let mut out: Vec<SessionAction> = Vec::new();
        let ghost mut d: bool = false;
        match message {
            SyncMessage::Ping { id, sent_at_us } => {
                out.push(
                    SessionAction::SendTo {
                        peer_id: from.to_string(),
                        message: SyncMessage::Pong {
                            id: *id,
                            ping_sent_at_us: *sent_at_us,
                            pong_sent_at_us: now,
                        },
                    },
                );
            },
            SyncMessage::Pong { ping_sent_at_us, .. } => {
                self.clock.handle_pong_at(from, *ping_sent_at_us, now);
            },
            SyncMessage::TempoChange { bpm_bits, .. } => {
                if is_valid_tempo(*bpm_bits) {
                    self.last_broadcast_bpm = *bpm_bits;
                    out.push(SessionAction::Link { command: LinkCommand::SetTempo(*bpm_bits) });
                }
            },
            SyncMessage::StateSnapshot { bpm_bits, beat_bits, .. } => {
                // One-shot join-time beat sync: snap the beat clock to the remote one
                // on the first snapshot, before the interval counter has any history.
                if !self.beat_synced {
                    self.beat_synced = true;
                    out.push(
                        SessionAction::Link {
                            command: LinkCommand::ForceBeat { beat_bits: *beat_bits, rtt_us: None },
                        },
                    );
                    self.interval.set_config(self.bars, self.quantum_bits);
                }
                let off: bool = differs(*bpm_bits, self.last_broadcast_bpm);
                proof {
                    d = off;
                }
                if is_valid_tempo(*bpm_bits) && off {
                    self.last_broadcast_bpm = *bpm_bits;
                    out.push(SessionAction::Link { command: LinkCommand::SetTempo(*bpm_bits) });
                }
            },
            SyncMessage::IntervalConfig { bars, quantum_bits } => {
                self.interval.set_config(*bars, *quantum_bits);
            },
            SyncMessage::IntervalBoundary { index } => {
                let behind = match self.interval.current_index() {
                    Some(l) => *index > l,
                    None => true,
                };
                if behind {
                    self.interval.sync_to(*index);
                }
            },
            _ => {},
        }
        assert(actions(out@) =~= s.reaction(from@, message@, now, d));
        assert(self@ =~= s.after_message(from@, message@, now, d));
        out
    }

    /// The local tempo changed; `interval_index` is the interval at the current beat.
    pub fn on_tempo_changed<D: Fn(u64, u64) -> bool>(
        &mut self,
        bpm_bits: u64,
        timestamp_us: i64,
        interval_index: i64,
        differs: &D,
    ) -> (r: Vec<SessionAction>)
        requires
            old(self).wf(),
            forall|a: u64, b: u64| call_requires(differs, (a, b)),
        ensures
            final(self).wf(),
            exists|d: bool|
                {
                    &&& #[trigger] crate::link::says_differ(
                        differs,
                        bpm_bits,
                        old(self)@.last_bpm,
                        d,
                    )
                    &&& actions(r@) == old(self)@.tempo_news(
                        bpm_bits,
                        timestamp_us,
                        interval_index,
                        d,
                    )
                    &&& final(self)@ == (SessionState {
                        last_bpm: if d {
                            bpm_bits
                        } else {
                            old(self)@.last_bpm
                        },
                        tracker: old(self)@.tracker.updated(interval_index),
                        ..old(self)@
                    })
                },
    {
        let ghost s = self@;
        let mut out: Vec<SessionAction> = Vec::new();
        // Only broadcast a genuinely new tempo (not an echo)
        let off: bool = differs(bpm_bits, self.last_broadcast_bpm);
        assert(crate::link::says_differ(differs, bpm_bits, s.last_bpm, off));
        if off {
            self.last_broadcast_bpm = bpm_bits;
            out.push(
                SessionAction::Broadcast {
                    message: SyncMessage::TempoChange {
                        bpm_bits,
                        quantum_bits: self.quantum_bits,
                        timestamp_us,
                    },
                },
            );
        }
        if let Some(index) = self.interval.update(interval_index) {
            out.push(
                SessionAction::Broadcast { message: SyncMessage::IntervalBoundary { index } },
            );
        }
        assert(actions(out@) =~= s.tempo_news(bpm_bits, timestamp_us, interval_index, off));
        out
    }

    /// A snapshot of the local session: announce it, and a boundary if one was
    /// crossed.
    pub fn on_state_update(
        &mut self,
        bpm_bits: u64,
        beat_bits: u64,
        phase_bits: u64,
        quantum_bits: u64,
        timestamp_us: i64,
        interval_index: i64,
    ) -> (r: Vec<SessionAction>)
        requires
            old(self).wf(),
        ensures
            final(self).wf(),
            final(self)@ == (SessionState {
                tracker: old(self)@.tracker.updated(interval_index),
                ..old(self)@
            }),
            actions(r@) == seq![
                ActionState::Broadcast(
                    SyncState::StateSnapshot {
                        bpm: bpm_bits,
                        beat: beat_bits,
                        phase: phase_bits,
                        quantum: quantum_bits,
                        timestamp_us,
                    },
                ),
            ] + old(self)@.boundary(interval_index),
    {
        let ghost s = self@;
        let mut out: Vec<SessionAction> = Vec::new();
        out.push(
            SessionAction::Broadcast {
                message: SyncMessage::StateSnapshot {
                    bpm_bits,
                    beat_bits,
                    phase_bits,
                    quantum_bits,
                    timestamp_us,
                },
            },
        );
        let ghost snapshot = out@[0]@;
        if let Some(index) = self.interval.update(interval_index) {
            out.push(
                SessionAction::Broadcast { message: SyncMessage::IntervalBoundary { index } },
            );
        }
        assert(actions(out@) =~= seq![snapshot] + s.boundary(interval_index));
        out
    }

    /// Time for a clock sync ping: the message to broadcast.
    pub fn on_ping_tick(&mut self, now: i64) -> (r: SyncMessage)
        requires
            old(self).wf(),
            old(self)@.clock.next_ping_id < u64::MAX,
        ensures
            final(self).wf(),
            r == (SyncMessage::Ping { id: old(self)@.clock.next_ping_id, sent_at_us: now }),
            final(self)@ == (SessionState {
                clock: ClockState {
                    next_ping_id: (old(self)@.clock.next_ping_id + 1) as u64,
                    ..old(self)@.clock
                },
                ..old(self)@
            }),
    {
        self.clock.make_ping_at(now)
    }

    /// The time of the session's clock. What it is depends on the machine's clock
    /// alone.
    pub fn now_us(&self) -> i64 {
        self.clock.now_us()
    }

    /// The estimated round-trip time to a peer in microseconds.
    pub fn rtt_us(&self, peer_id: &str) -> (r: Option<i64>)
        requires
            self.wf(),
        ensures
            match r {
                Some(m) => self@.clock.windows.dom().contains(peer_id@) && crate::clock::is_median(
                    self@.clock.windows[peer_id@],
                    m,
                ),
                None => !self@.clock.windows.dom().contains(peer_id@),
            },
    {
        self.clock.rtt_us(peer_id)
    }

    /// The interval configuration in use: bars and the bit pattern of the quantum.
    pub fn interval_config(&self) -> (r: (u32, u64))
        ensures
            r == (self@.tracker.bars, self@.tracker.quantum),
    {
        (self.interval.bars(), self.interval.quantum())
    }

    /// How many pieces of audio were sent and received.
    pub fn audio_counts(&self) -> (r: (u64, u64))
        ensures
            r.0 == self@.sent,
            r.1 == self@.received,
    {
        (self.audio_sent, self.audio_received)
    }

    /// The id of this peer.
    pub fn peer_id(&self) -> (r: &str)
        ensures
            r@ == self@.peer_id,
    {
        self.peer_id.as_str()
    }
}

/// The beat clock is snapped to a remote one at most once: after a first snapshot,
/// whatever messages follow, no message asks for it again.
pub proof fn law_beat_is_forced_once(
    s: SessionState,
    first: Arrival,
    between: Seq<Arrival>,
    next: Arrival,
    i: int,
)
    requires
        first.message is StateSnapshot,
        0 <= i < s.after_messages(seq![first] + between).reaction(
            next.from,
            next.message,
            next.now,
            next.differs,
        ).len(),
    ensures
        !(s.after_messages(seq![first] + between).reaction(
            next.from,
            next.message,
            next.now,
            next.differs,
        )[i] matches ActionState::Link(LinkCommand::ForceBeat { .. })),
{
    lemma_stays_synced(s, first, between);
}

/// Once the beat clock was snapped, the session remembers it.
proof fn lemma_stays_synced(s: SessionState, first: Arrival, between: Seq<Arrival>)
    requires
        first.message is StateSnapshot,
    ensures
        s.after_messages(seq![first] + between).beat_synced,
    decreases between.len(),
{
    let all = seq![first] + between;
    if between.len() == 0 {
        assert(all.last() == first);
    } else {
        lemma_stays_synced(s, first, between.drop_last());
        assert(all.drop_last() =~= seq![first] + between.drop_last());
    }
}

/// Adopting a remote tempo makes it the one that local changes are measured
/// against, so that it is not broadcast back as a change.
pub proof fn law_adopted_tempo_is_not_news(
    s: SessionState,
    from: Seq<char>,
    bpm: u64,
    quantum: u64,
    timestamp_us: i64,
    now: i64,
    index: i64,
)
    requires
        crate::link::is_tempo(bpm),
    ensures
        ({
            let m = SyncState::TempoChange { bpm, quantum, timestamp_us };
            let t = s.after_message(from, m, now, false);
            &&& t.last_bpm == bpm
            &&& t.tempo_news(bpm, timestamp_us, index, false) == t.boundary(index)
        }),
{
    let m = SyncState::TempoChange { bpm, quantum, timestamp_us };
    let t = s.after_message(from, m, now, false);
    assert(t.tempo_news(bpm, timestamp_us, index, false) =~= t.boundary(index));
}

/// No message makes the session apply, or measure changes against, a tempo that is not a
/// number above zero.
pub proof fn law_bad_tempo_is_never_applied(
    s: SessionState,
    from: Seq<char>,
    m: SyncState,
    now: i64,
    differs: bool,
)
    requires
        crate::link::is_tempo(s.last_bpm),
    ensures
        crate::link::is_tempo(s.after_message(from, m, now, differs).last_bpm),
        forall|i: int|
            0 <= i < s.reaction(from, m, now, differs).len() ==> ((#[trigger] s.reaction(
                from,
                m,
                now,
                differs,
            )[i]) matches ActionState::Link(LinkCommand::SetTempo(bpm)) ==> crate::link::is_tempo(
                bpm,
            )),
{
}

/// Interval announcements of peers only ever move this peer forward.
pub proof fn law_interval_index_never_goes_back(
    s: SessionState,
    from: Seq<char>,
    index: i64,
    now: i64,
    differs: bool,
)
    ensures
        ({
            let t = s.after_message(from, SyncState::IntervalBoundary { index }, now, differs);
            &&& t.tracker.last is Some
            &&& s.tracker.last is Some ==> t.tracker.last->0 >= s.tracker.last->0
            &&& t.tracker.last->0 >= index
        }),
{
}

} // verus!
