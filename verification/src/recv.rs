//! The receiver: plays what remote peers send, one auxiliary output per stream.

use vstd::prelude::*;

use crate::bridge::{AudioBridge, BridgeState};
use crate::editor::{EditorData, VisualState};
use crate::names::NameTable;
use crate::ring_state::{RingState, SILENCE};
use crate::slot::MAX_SLOTS;
use crate::text::{push_decimal, same_text};

verus! {

/// Bars per interval.
pub const DEFAULT_BARS: u32 = 4;

/// The bit pattern of 4 beats per bar.
pub const DEFAULT_QUANTUM_BITS: u64 = 0x4010_0000_0000_0000;

/// Bitrate of a codec that is used for decoding only.
pub const DECODE_ONLY_KBPS: u32 = 128;

/// Peer lifecycle events.
#[derive(Debug)]
pub enum PeerEvent {
    Joined { peer_id: String, identity: String },
    Left { peer_id: String },
    NameChanged { peer_id: String, display_name: String },
    /// The connection to the app was established.
    Connected,
    /// The connection to the app dropped: all audio state is cleared to stop stale
    /// playback.
    Disconnected,
}

/// What a receiver knows.
#[verifier::ext_equal]
pub struct RecvState {
    pub bridge: BridgeState,
    /// The latest interval that audio came in for. It drives the ring's boundaries
    /// instead of the host's transport.
    pub remote: Option<i64>,
    /// Display names by peer, also of peers without an active slot.
    pub names: Map<Seq<char>, Seq<char>>,
    /// The name that was last given to each output.
    pub applied: Seq<Option<Seq<char>>>,
    pub was_playing: Option<bool>,
    /// The interval that was last shown.
    pub last_interval: i64,
    pub connected: bool,
    /// Samples per channel since the transport started, modulo 2^64.
    pub samples: u64,
}

/// The text of the name of each output.
pub open spec fn applied_texts(s: Seq<Option<String>>) -> Seq<Option<Seq<char>>> {
    s.map_values(|n: Option<String>| crate::protocol::opt_text(n))
}

/// Outputs without names.
pub open spec fn no_names(n: nat) -> Seq<Option<Seq<char>>> {
    Seq::new(n, |i: int| None)
}

/// The later of the latest interval so far and another one.
pub open spec fn latest(so_far: Option<i64>, index: i64) -> i64 {
    match so_far {
        Some(prev) => if index > prev {
            index
        } else {
            prev
        },
        None => index,
    }
}

/// Whether a slot is in a list of active slots, playing the peer.
pub open spec fn slot_plays_peer(
    active: Seq<(usize, Seq<char>, u16)>,
    slot: int,
    peer: Seq<char>,
) -> bool {
    exists|i: int| 0 <= i < active.len() && (#[trigger] active[i]).0 == slot && active[i].1 == peer
}

/// Whether a slot is in a list of active slots.
pub open spec fn is_active(active: Seq<(usize, Seq<char>, u16)>, slot: int) -> bool {
    exists|i: int| 0 <= i < active.len() && (#[trigger] active[i]).0 == slot
}

/// How many active slots play a peer.
pub open spec fn streams_of(active: Seq<(usize, Seq<char>, u16)>, peer: Seq<char>) -> nat
    decreases active.len(),
{
    if active.len() == 0 {
        0
    } else {
        streams_of(active.drop_last(), peer) + (if active.last().1 == peer {
            1nat
        } else {
            0nat
        })
    }
}

/// The name of the output of an active slot: the peer's display name, with the number
/// of the stream if the peer plays more than one. Streams are counted from 1; the
/// number after 65535 is 0.
pub open spec fn slot_label(
    active: Seq<(usize, Seq<char>, u16)>,
    names: Map<Seq<char>, Seq<char>>,
    i: int,
) -> Option<Seq<char>> {
    let peer = active[i].1;
    if !names.dom().contains(peer) {
        None
    } else if streams_of(active, peer) > 1 {
        Some(names[peer] + " "@ + crate::text::decimal(((active[i].2 + 1) % 65536) as nat))
    } else {
        Some(names[peer])
    }
}

/// The names of the outputs after the first `n` active slots were looked at, and the
/// outputs that got another name.
pub open spec fn named(
    active: Seq<(usize, Seq<char>, u16)>,
    names: Map<Seq<char>, Seq<char>>,
    applied: Seq<Option<Seq<char>>>,
    n: nat,
) -> (Seq<Option<Seq<char>>>, Seq<(usize, Seq<char>)>)
    decreases n,
{
    if n == 0 {
        (applied, Seq::empty())
    } else {
        let i = n - 1;
        let (a, r) = named(active, names, applied, i as nat);
        let slot = active[i].0;
        match slot_label(active, names, i) {
            Some(label) => if slot < a.len() && a[slot as int] == Some(label) {
                (a, r)
            } else {
                (
                    if slot < a.len() {
                        a.update(slot as int, Some(label))
                    } else {
                        a
                    },
                    r.push((slot, label)),
                )
            },
            None => (a, r),
        }
    }
}

/// What outputs show once it was noted which slots are active.
pub open spec fn marked(
    visuals: Seq<VisualState>,
    active: Seq<(usize, Seq<char>, u16)>,
) -> Seq<VisualState> {
    Seq::new(
        visuals.len(),
        |s: int| VisualState { active: is_active(active, s), ..visuals[s] },
    )
}

/// What outputs show once the first `n` active slots got the names of their peers.
pub open spec fn labelled(
    visuals: Seq<VisualState>,
    active: Seq<(usize, Seq<char>, u16)>,
    names: Map<Seq<char>, Seq<char>>,
    n: nat,
) -> Seq<VisualState>
    decreases n,
{
    if n == 0 {
        visuals
    } else {
        let v = labelled(visuals, active, names, (n - 1) as nat);
        let (slot, peer, _) = active[n - 1];
        if slot < v.len() && names.dom().contains(peer) {
            v.update(
                slot as int,
                VisualState { name: crate::editor::kept_name(names[peer]), ..v[slot as int] },
            )
        } else {
            v
        }
    }
}

impl RecvState {
    /// The active slots.
    pub open spec fn active(self) -> Seq<(usize, Seq<char>, u16)> {
        crate::ring_state::active_list(self.bridge.ring.slots)
    }

    /// The receiver without audio and names.
    pub open spec fn silenced(self) -> RecvState {
        RecvState {
            bridge: BridgeState { ring: self.bridge.ring.cleared(), ..self.bridge },
            remote: None,
            names: Map::empty(),
            applied: no_names(self.applied.len()),
            ..self
        }
    }

    /// The receiver after the host reset it.
    pub open spec fn reset(self) -> RecvState {
        RecvState { was_playing: None, last_interval: 0, samples: 0, ..self.silenced() }
    }

    /// Whether the transport starts again.
    pub open spec fn restarts(self, playing: bool) -> bool {
        self.was_playing == Some(false) && playing
    }

    /// The receiver when a buffer of the host begins.
    pub open spec fn begun(self, playing: bool, num_samples: u64, bpm: u64) -> RecvState {
        let ring = if self.restarts(playing) {
            self.bridge.ring.restarted()
        } else {
            self.bridge.ring
        };
        let samples = if self.restarts(playing) {
            0
        } else {
            self.samples
        };
        RecvState {
            was_playing: Some(playing),
            samples: ((samples + num_samples) % 0x1_0000_0000_0000_0000) as u64,
            bridge: BridgeState {
                ring: RingState {
                    bars: DEFAULT_BARS,
                    quantum: DEFAULT_QUANTUM_BITS,
                    ..ring
                },
                bars: DEFAULT_BARS,
                quantum: DEFAULT_QUANTUM_BITS,
                bpm,
                ..self.bridge
            },
            ..self
        }
    }

    /// The receiver after a peer event.
    pub open spec fn after(self, event: PeerEvent) -> RecvState {
        match event {
            PeerEvent::Joined { peer_id, identity } => RecvState {
                bridge: BridgeState {
                    ring: self.bridge.ring.peer_joined(peer_id@, identity@),
                    ..self.bridge
                },
                ..self
            },
            PeerEvent::Left { peer_id } => RecvState {
                applied: Seq::new(
                    self.applied.len(),
                    |s: int|
                        if slot_plays_peer(self.active(), s, peer_id@) {
                            None
                        } else {
                            self.applied[s]
                        },
                ),
                bridge: BridgeState {
                    ring: self.bridge.ring.peer_removed(peer_id@),
                    ..self.bridge
                },
                ..self
            },
            PeerEvent::NameChanged { peer_id, display_name } => RecvState {
                names: self.names.insert(peer_id@, display_name@),
                ..self
            },
            PeerEvent::Connected => RecvState { connected: true, ..self },
            PeerEvent::Disconnected => RecvState { connected: false, ..self.silenced() },
        }
    }

    /// The interval that is shown.
    pub open spec fn shown_interval(self) -> i64 {
        match self.remote {
            Some(i) => i,
            None => 0,
        }
    }
}

/// A buffer takes a receiver from `s` to `t` and gives out `out`: it is a buffer of the
/// bridge at the latest interval, with nothing to record, or silence before there is one.
pub open spec fn played<M: Fn(u32, u32) -> u32, F: Fn(u32, u32, usize, usize) -> u32>(
    mix: M,
    fade: F,
    s: RecvState,
    out: Seq<u32>,
    t: RecvState,
) -> bool {
    match s.remote {
        Some(index) => {
            &&& exists|completed: Seq<crate::ring_state::CompletedState>|
                #[trigger] crate::bridge::processed(
                    mix,
                    fade,
                    s.bridge,
                    Seq::empty(),
                    index,
                    out,
                    completed,
                    t.bridge,
                )
            &&& t == RecvState { bridge: t.bridge, ..s }
        },
        None => t == s && out == crate::ring_state::silence(out.len()),
    }
}

/// The receiver: plays what remote peers send, with one auxiliary output per stream.
/// It records nothing.
pub struct WailRecvPlugin {
    bridge: AudioBridge,
    remote_interval: Option<i64>,
    /// Kept here because a name may arrive before the peer's slots are active.
    pending_names: NameTable,
    /// Used to avoid renaming outputs again and again.
    applied_slot_names: Vec<Option<String>>,
    was_playing: Option<bool>,
    last_interval: i64,
    ipc_connected: bool,
    cumulative_samples: u64,
}

impl View for WailRecvPlugin {
    type V = RecvState;

    closed spec fn view(&self) -> RecvState {
        RecvState {
            bridge: self.bridge@,
            remote: self.remote_interval,
            names: self.pending_names@,
            applied: applied_texts(self.applied_slot_names@),
            was_playing: self.was_playing,
            last_interval: self.last_interval,
            connected: self.ipc_connected,
            samples: self.cumulative_samples,
        }
    }
}

/// A list without names.
fn unnamed(n: usize) -> (r: Vec<Option<String>>)
    ensures
        applied_texts(r@) == no_names(n as nat),
{
    let mut out: Vec<Option<String>> = Vec::new();
    while out.len() < n
        invariant
            out@.len() <= n,
            forall|i: int| 0 <= i < out@.len() ==> #[trigger] out@[i] is None,
        decreases n - out@.len(),
    {
        out.push(None);
    }
    assert(applied_texts(out@) =~= no_names(n as nat));
    out
}

/// How many active slots play a peer.
fn count_streams(active: &Vec<(usize, String, u16)>, peer_id: &str) -> (r: usize)
    ensures
        r == streams_of(crate::ring::active_views(active@), peer_id@),
{
    let ghost all = crate::ring::active_views(active@);
    let mut n: usize = 0;
    let mut i: usize = 0;
    assert(all.take(0) =~= Seq::empty());
    while i < active.len()
        invariant
            all == crate::ring::active_views(active@),
            i <= active@.len(),
            n <= i,
            n == streams_of(all.take(i as int), peer_id@),
        decreases active@.len() - i,
    {
        assert(all.take(i + 1).drop_last() =~= all.take(i as int));
        assert(all.take(i + 1).last() == all[i as int]);
        if same_text(active[i].1.as_str(), peer_id) {
            n += 1;
        }
        i += 1;
    }
    assert(all.take(i as int) =~= all);
    n
}

/// Whether a slot is in a list of active slots.
fn has_slot(active: &Vec<(usize, String, u16)>, slot: usize) -> (r: bool)
    ensures
        r == is_active(crate::ring::active_views(active@), slot as int),
{
    let ghost all = crate::ring::active_views(active@);
    let mut i: usize = 0;
    while i < active.len()
        invariant
            all == crate::ring::active_views(active@),
            i <= active@.len(),
            forall|j: int| 0 <= j < i ==> (#[trigger] all[j]).0 != slot,
        decreases active@.len() - i,
    {
        assert(all[i as int].0 == active@[i as int].0);
        if active[i].0 == slot {
            return true;
        }
        i += 1;
    }
    false
}

/// Whether an output already has a name.
fn has_name(applied: &Vec<Option<String>>, slot: usize, name: &str) -> (r: bool)
    ensures
        r == (slot < applied@.len() && applied_texts(applied@)[slot as int] == Some(name@)),
{
    if slot >= applied.len() {
        return false;
    }
    match &applied[slot] {
        Some(n) => same_text(n.as_str(), name),
        None => false,
    }
}

impl WailRecvPlugin {
    pub closed spec fn wf(&self) -> bool {
        self.bridge.wf()
    }

    /// A consistent receiver has a valid ring.
    pub proof fn lemma_wf_is_valid(&self)
        requires
            self.wf(),
        ensures
            self@.bridge.ring.valid(),
    {
        self.bridge.lemma_wf_is_valid();
    }

    /// A receiver for a host's sample rate and channel count.
    pub fn new(sample_rate: u32, channels: u16, slot_capacity: usize) -> (r: Self)
        requires
            4 * slot_capacity <= isize::MAX,
        ensures
            r.wf(),
            r@ == (RecvState {
                bridge: BridgeState {
                    ring: RingState::fresh(
                        sample_rate,
                        channels,
                        slot_capacity as nat,
                        DEFAULT_BARS,
                        DEFAULT_QUANTUM_BITS,
                    ),
                    sample_rate,
                    channels,
                    bitrate_kbps: DECODE_ONLY_KBPS,
                    bpm: crate::bridge::DEFAULT_BPM_BITS,
                    bars: DEFAULT_BARS,
                    quantum: DEFAULT_QUANTUM_BITS,
                },
                remote: None,
                names: Map::empty(),
                applied: no_names(MAX_SLOTS as nat),
                was_playing: None,
                last_interval: 0,
                connected: false,
                samples: 0,
            }),
    {
        WailRecvPlugin {
            bridge: AudioBridge::new(
                sample_rate,
                channels,
                DEFAULT_BARS,
                DEFAULT_QUANTUM_BITS,
                DECODE_ONLY_KBPS,
                slot_capacity,
            ),
            remote_interval: None,
            pending_names: NameTable::new(),
            applied_slot_names: unnamed(MAX_SLOTS),
            was_playing: None,
            last_interval: 0,
            ipc_connected: false,
            cumulative_samples: 0,
        }
    }

    /// Start over with another sample rate and channel count. What is known of the
    /// peers' names stays.
    pub fn initialize(&mut self, sample_rate: u32, channels: u16, slot_capacity: usize)
        requires
            old(self).wf(),
            4 * slot_capacity <= isize::MAX,
        ensures
            final(self).wf(),
            final(self)@ == (RecvState {
                bridge: BridgeState {
                    ring: RingState::fresh(
                        sample_rate,
                        channels,
                        slot_capacity as nat,
                        DEFAULT_BARS,
                        DEFAULT_QUANTUM_BITS,
                    ),
                    sample_rate,
                    channels,
                    bitrate_kbps: DECODE_ONLY_KBPS,
                    bpm: crate::bridge::DEFAULT_BPM_BITS,
                    bars: DEFAULT_BARS,
                    quantum: DEFAULT_QUANTUM_BITS,
                },
                samples: 0,
                ..old(self)@
            }),
    {
        self.cumulative_samples = 0;
        self.bridge = AudioBridge::new(
            sample_rate,
            channels,
            DEFAULT_BARS,
            DEFAULT_QUANTUM_BITS,
            DECODE_ONLY_KBPS,
            slot_capacity,
        );
    }

    fn silence(&mut self)
        requires
            old(self).wf(),
        ensures
            final(self).wf(),
            final(self)@ == old(self)@.silenced(),
    {
        self.remote_interval = None;
        self.bridge.reset();
        self.pending_names.clear();
        self.applied_slot_names = unnamed(self.applied_slot_names.len());
    }

    /// Reset everything but the connection.
    pub fn reset(&mut self)
        requires
            old(self).wf(),
        ensures
            final(self).wf(),
            final(self)@ == old(self)@.reset(),
    {
        self.silence();
        self.cumulative_samples = 0;
        self.was_playing = None;
        self.last_interval = 0;
    }

    /// Begin a buffer of `num_samples` samples per channel. Returns the sample count
    /// at its start, which stands in for a beat position that the host does not give.
    /// When the transport starts again, the count and the ring's position start over.
    pub fn begin(&mut self, playing: bool, num_samples: u64, bpm_bits: u64) -> (r: u64)
        requires
            old(self).wf(),
        ensures
            final(self).wf(),
            r == if old(self)@.restarts(playing) {
                0
            } else {
                old(self)@.samples
            },
            final(self)@ == old(self)@.begun(playing, num_samples, bpm_bits),
    {
        let restarted = match self.was_playing {
            Some(was) => !was && playing,
            None => false,
        };
        self.was_playing = Some(playing);
        if restarted {
            self.cumulative_samples = 0;
            self.bridge.reset_transport();
        }
        let start: u64 = self.cumulative_samples;
        self.cumulative_samples = start.wrapping_add(num_samples);
        self.bridge.update_config(DEFAULT_BARS, DEFAULT_QUANTUM_BITS, bpm_bits);
        start
    }

    /// Handle a peer event. Returns whether audio that waits to be fed is stale and
    /// must be dropped.
    pub fn on_peer_event(&mut self, event: PeerEvent) -> (r: bool)
        requires
            old(self).wf(),
        ensures
            final(self).wf(),
            final(self)@ == old(self)@.after(event),
            r == (event is Disconnected),
    {
        match event {
            PeerEvent::Joined { peer_id, identity } => {
                self.bridge.notify_peer_joined(peer_id.as_str(), identity.as_str());
                false
            },
            PeerEvent::Left { peer_id } => {
                self.forget_outputs(peer_id.as_str());
                self.bridge.remove_peer(peer_id.as_str());
                assert(self@ =~= old(self)@.after(event));
                false
            },
            PeerEvent::NameChanged { peer_id, display_name } => {
                self.pending_names.insert(peer_id, display_name);
                false
            },
            PeerEvent::Connected => {
                self.ipc_connected = true;
                false
            },
            PeerEvent::Disconnected => {
                self.ipc_connected = false;
                self.silence();
                true
            },
        }
    }

    /// Forget the names of a peer's outputs, so that they are named again when the
    /// peer reconnects.
    fn forget_outputs(&mut self, peer_id: &str)
        requires
            old(self).wf(),
        ensures
            final(self).wf(),
            final(self)@ == (RecvState {
                applied: Seq::new(
                    old(self)@.applied.len(),
                    |s: int|
                        if slot_plays_peer(old(self)@.active(), s, peer_id@) {
                            None
                        } else {
                            old(self)@.applied[s]
                        },
                ),
                ..old(self)@
            }),
    {
        let ghost s0 = self@;
        let active = self.bridge.peer_info();
        let ghost all = crate::ring::active_views(active@);
        let mut i: usize = 0;
        while i < active.len()
            invariant
                self.wf(),
                all == crate::ring::active_views(active@),
                all == s0.active(),
                i <= active@.len(),
                self@ == (RecvState { applied: self@.applied, ..s0 }),
                self@.applied.len() == s0.applied.len(),
                forall|s: int|
                    0 <= s < s0.applied.len() ==> #[trigger] self@.applied[s]
                        == if slot_plays_peer(all.take(i as int), s, peer_id@) {
                        None
                    } else {
                        s0.applied[s]
                    },
            decreases active@.len() - i,
        {
            let ghost before = self@;
            let ghost mine = all[i as int].1 == peer_id@;
            let slot: usize = active[i].0;
            assert(all[i as int].0 == slot && all[i as int].1 == active@[i as int].1@);
            if same_text(active[i].1.as_str(), peer_id) && slot < self.applied_slot_names.len() {
                self.applied_slot_names.set(slot, None);
                assert(self@.applied =~= before.applied.update(slot as int, None));
            }
            proof {
                assert forall|s: int| 0 <= s < s0.applied.len() implies #[trigger] self@.applied[s]
                    == if slot_plays_peer(all.take(i + 1), s, peer_id@) {
                    None
                } else {
                    s0.applied[s]
                } by {
                    let a = all.take(i as int);
                    let b = all.take(i + 1);
                    assert(b[i as int] == all[i as int]);
                    if slot_plays_peer(a, s, peer_id@) {
                        let j = choose|j: int|
                            0 <= j < a.len() && (#[trigger] a[j]).0 == s && a[j].1 == peer_id@;
                        assert(b[j] == a[j]);
                    }
                    if slot_plays_peer(b, s, peer_id@) && !(slot == s && mine) {
                        let j = choose|j: int|
                            0 <= j < b.len() && (#[trigger] b[j]).0 == s && b[j].1 == peer_id@;
                        assert(a[j] == b[j]);
                    }
                    assert(self@.applied[s] == if slot == s && mine {
                        None
                    } else {
                        before.applied[s]
                    });
                }
            }
            i += 1;
        }
        assert(all.take(i as int) =~= all);
        assert(self@.applied =~= Seq::new(
            s0.applied.len(),
            |s: int|
                if slot_plays_peer(s0.active(), s, peer_id@) {
                    None
                } else {
                    s0.applied[s]
                },
        ));
    }

    /// Feed decoded audio of a peer. The latest interval that audio came in for is
    /// noted.
    pub fn on_audio<M: Fn(u32, u32) -> u32>(
        &mut self,
        peer_id: String,
        stream_id: u16,
        interval_index: i64,
        samples: Vec<u32>,
        mix: &M,
    )
        requires
            old(self).wf(),
            forall|a: u32, b: u32| call_requires(mix, (a, b)),
        ensures
            final(self).wf(),
            crate::ring_state::fed(
                mix,
                old(self)@.bridge.ring,
                peer_id@,
                stream_id,
                interval_index,
                samples@,
                final(self)@.bridge.ring,
            ),
            final(self)@ == (RecvState {
                bridge: BridgeState { ring: final(self)@.bridge.ring, ..old(self)@.bridge },
                remote: Some(latest(old(self)@.remote, interval_index)),
                ..old(self)@
            }),
    {
        let newer = match self.remote_interval {
            Some(prev) => interval_index > prev,
            None => true,
        };
        if newer {
            self.remote_interval = Some(interval_index);
        }
        self.bridge.feed_decoded(peer_id, stream_id, interval_index, samples, mix);
    }

    /// Play a buffer. The ring follows the latest interval that audio came in for;
    /// before any came in there is silence. Nothing is recorded.
    pub fn play<M: Fn(u32, u32) -> u32, F: Fn(u32, u32, usize, usize) -> u32>(
        &mut self,
        output: &mut [u32],
        mix: &M,
        fade: &F,
    )
        requires
            old(self).wf(),
            forall|a: u32, b: u32| call_requires(mix, (a, b)),
            forall|a: u32, b: u32, i: usize, n: usize| call_requires(fade, (a, b, i, n)),
        ensures
            final(self).wf(),
            match old(self)@.remote {
                Some(index) => exists|m: RingState|
                    {
                        &&& #[trigger] crate::ring_state::reached(
                            mix,
                            fade,
                            old(self)@.bridge.ring,
                            index,
                            m,
                        )
                        &&& final(output)@ == m.heard(old(output)@.len())
                        &&& final(self)@ == RecvState {
                            bridge: BridgeState {
                                ring: RingState {
                                    completed: Seq::empty(),
                                    ..m.recorded(Seq::empty()).advanced(old(output)@.len())
                                },
                                ..old(self)@.bridge
                            },
                            ..old(self)@
                        }
                    },
                None => final(output)@ == crate::ring_state::silence(old(output)@.len())
                    && final(self)@ == old(self)@,
            },
            final(output)@.len() == old(output)@.len(),
            played(mix, fade, old(self)@, final(output)@, final(self)@),
    {
        match self.remote_interval {
            Some(index) => {
                let nothing: Vec<u32> = Vec::new();
                assert(nothing@ == Seq::<u32>::empty());
                let _recorded = self.bridge.process_rt(
                    nothing.as_slice(),
                    output,
                    index,
                    mix,
                    fade,
                );
            },
            None => {
                let ghost n = output@.len();
                let mut i: usize = 0;
                while i < output.len()
                    invariant
                        output@.len() == n,
                        i <= n,
                        forall|j: int| 0 <= j < i ==> #[trigger] output@[j] == SILENCE,
                    decreases n - i,
                {
                    output[i] = SILENCE;
                    i += 1;
                }
                assert(output@ =~= crate::ring_state::silence(n));
            },
        }
    }

    /// Read a slot's own audio.
    pub fn read_peer_playback(&mut self, slot: usize, output: &mut [u32]) -> (r: usize)
        requires
            old(self).wf(),
        ensures
            final(self).wf(),
            r == old(self)@.bridge.ring.slot_playable(slot, old(output)@.len()),
            final(output)@ == old(self)@.bridge.ring.slot_heard(slot, old(output)@.len()),
            final(self)@ == (RecvState {
                bridge: BridgeState {
                    ring: old(self)@.bridge.ring.slot_advanced(slot, old(output)@.len()),
                    ..old(self)@.bridge
                },
                ..old(self)@
            }),
            final(output)@.len() == old(output)@.len(),
            crate::ring_state::slot_read(
                old(self)@.bridge.ring,
                slot,
                final(output)@,
                r as nat,
                final(self)@.bridge.ring,
            ),
    {
        self.bridge.read_peer_playback(slot, output)
    }

    /// Give outputs the names of the peers that they play. Returns those that got
    /// another name.
    pub fn rename_outputs(&mut self) -> (r: Vec<(usize, String)>)
        requires
            old(self).wf(),
        ensures
            final(self).wf(),
            final(self)@ == (RecvState { applied: final(self)@.applied, ..old(self)@ }),
            (final(self)@.applied, renames(r@)) == named(
                old(self)@.active(),
                old(self)@.names,
                old(self)@.applied,
                old(self)@.active().len(),
            ),
    {
        let ghost s0 = self@;
        let active = self.bridge.peer_info();
        let ghost all = crate::ring::active_views(active@);
        let mut out: Vec<(usize, String)> = Vec::new();
        let mut i: usize = 0;
        assert(renames(out@) =~= Seq::empty());
        while i < active.len()
            invariant
                self.wf(),
                all == crate::ring::active_views(active@),
                all == s0.active(),
                i <= active@.len(),
                self@ == (RecvState { applied: self@.applied, ..s0 }),
                (self@.applied, renames(out@)) == named(all, s0.names, s0.applied, i as nat),
            decreases active@.len() - i,
        {
            let ghost before = self@.applied;
            let ghost out0 = out@;
            let slot: usize = active[i].0;
            let stream: u16 = active[i].2;
            assert(all[i as int] == (slot, active@[i as int].1@, stream));
            let streams: usize = count_streams(&active, active[i].1.as_str());
            if let Some(display) = self.pending_names.get(active[i].1.as_str()) {
                let mut name = display.to_string();
                if streams > 1 {
                    name.append(" ");
                    push_decimal(&mut name, stream.wrapping_add(1) as u64);
                }
                let ghost label = name@;
                assert(slot_label(all, s0.names, i as int) == Some(label));
                if !has_name(&self.applied_slot_names, slot, name.as_str()) {
                    if slot < self.applied_slot_names.len() {
                        self.applied_slot_names.set(slot, Some(name.clone()));
                        assert(self@.applied =~= before.update(slot as int, Some(label)));
                    }
                    out.push((slot, name));
                    assert(renames(out@) =~= renames(out0).push((slot, label)));
                }
            } else {
                assert(slot_label(all, s0.names, i as int) is None);
            }
            i += 1;
        }
        out
    }

    /// The interval to show, and whether it is another one than last time.
    pub fn show_interval(&mut self) -> (r: (i64, bool))
        requires
            old(self).wf(),
        ensures
            final(self).wf(),
            r.0 == old(self)@.shown_interval(),
            r.1 == (old(self)@.shown_interval() != old(self)@.last_interval),
            final(self)@ == (RecvState {
                last_interval: old(self)@.shown_interval(),
                ..old(self)@
            }),
    {
        let index: i64 = match self.remote_interval {
            Some(i) => i,
            None => 0,
        };
        let changed = index != self.last_interval;
        self.last_interval = index;
        (index, changed)
    }

    /// Note in the editor which slots are active, whom they play, and the state of
    /// the connection.
    pub fn show_slots(&self, editor: &mut EditorData)
        requires
            self.wf(),
            old(editor).wf(),
        ensures
            final(editor).wf(),
            crate::editor::visuals(final(editor).slots@) == labelled(
                marked(crate::editor::visuals(old(editor).slots@), self@.active()),
                self@.active(),
                self@.names,
                self@.active().len(),
            ),
            final(editor).ipc_connected == self@.connected,
            final(editor).bpm_bits == old(editor).bpm_bits,
            final(editor).interval_progress == old(editor).interval_progress,
            final(editor).current_interval == old(editor).current_interval,
    {
        editor.ipc_connected = self.ipc_connected;
        let ghost v0 = crate::editor::visuals(editor.slots@);
        let active = self.bridge.peer_info();
        let ghost all = crate::ring::active_views(active@);
        let ghost m = marked(v0, all);
        let mut s: usize = 0;
        while s < editor.slots.len()
            invariant
                editor.wf(),
                all == crate::ring::active_views(active@),
                v0.len() == editor.slots@.len(),
                m == marked(v0, all),
                s <= editor.slots@.len(),
                forall|j: int| 0 <= j < s ==> (#[trigger] editor.slots@[j])@ == m[j],
                forall|j: int| s <= j < v0.len() ==> (#[trigger] editor.slots@[j])@ == v0[j],
                editor.ipc_connected == self@.connected,
                editor.bpm_bits == old(editor).bpm_bits,
                editor.interval_progress == old(editor).interval_progress,
                editor.current_interval == old(editor).current_interval,
            decreases editor.slots@.len() - s,
        {
            let on = has_slot(&active, s);
            editor.slots[s].set_active(on);
            s += 1;
        }
        assert(crate::editor::visuals(editor.slots@) =~= m);
        let mut i: usize = 0;
        while i < active.len()
            invariant
                self.wf(),
                editor.wf(),
                all == crate::ring::active_views(active@),
                i <= active@.len(),
                crate::editor::visuals(editor.slots@) == labelled(m, all, self@.names, i as nat),
                editor.ipc_connected == self@.connected,
                editor.bpm_bits == old(editor).bpm_bits,
                editor.interval_progress == old(editor).interval_progress,
                editor.current_interval == old(editor).current_interval,
            decreases active@.len() - i,
        {
            let ghost v = crate::editor::visuals(editor.slots@);
            let slot: usize = active[i].0;
            assert(all[i as int] == (slot, active@[i as int].1@, active@[i as int].2));
            if let Some(name) = self.pending_names.get(active[i].1.as_str()) {
                if slot < editor.slots.len() {
                    assert(v[slot as int] == editor.slots@[slot as int]@);
                    editor.slots[slot].set_name(name);
                    assert(crate::editor::visuals(editor.slots@) =~= v.update(
                        slot as int,
                        VisualState {
                            name: crate::editor::kept_name(name@),
                            ..v[slot as int]
                        },
                    ));
                }
            }
            i += 1;
        }
    }

    /// Whether the app is connected.
    pub fn ipc_connected(&self) -> (r: bool)
        ensures
            r == self@.connected,
    {
        self.ipc_connected
    }

    /// The latest interval that audio came in for.
    pub fn remote_interval(&self) -> (r: Option<i64>)
        ensures
            r == self@.remote,
    {
        self.remote_interval
    }
}

/// What renamed outputs say.
pub open spec fn renames(s: Seq<(usize, String)>) -> Seq<(usize, Seq<char>)> {
    s.map_values(|e: (usize, String)| (e.0, e.1@))
}

/// The interval that drives the ring never goes back while audio comes in.
pub proof fn law_remote_interval_never_goes_back(so_far: Option<i64>, index: i64)
    ensures
        latest(so_far, index) >= index,
        so_far is Some ==> latest(so_far, index) >= so_far->0,
{
}

/// Once outputs were named, naming them again changes nothing, as long as each output
/// plays one stream.
pub proof fn law_outputs_are_named_once(
    active: Seq<(usize, Seq<char>, u16)>,
    names: Map<Seq<char>, Seq<char>>,
    applied: Seq<Option<Seq<char>>>,
)
    requires
        forall|i: int, j: int|
            0 <= i < j < active.len() ==> (#[trigger] active[i]).0 != (#[trigger] active[j]).0,
        forall|i: int| 0 <= i < active.len() ==> (#[trigger] active[i]).0 < applied.len(),
    ensures
        ({
            let once = named(active, names, applied, active.len()).0;
            named(active, names, once, active.len()) == (once, Seq::<(usize, Seq<char>)>::empty())
        }),
{
    let once = named(active, names, applied, active.len()).0;
    lemma_named(active, names, applied, active.len());
    lemma_settled(active, names, once, active.len());
}

/// After `n` active slots were looked at, each of them has its name.
proof fn lemma_named(
    active: Seq<(usize, Seq<char>, u16)>,
    names: Map<Seq<char>, Seq<char>>,
    applied: Seq<Option<Seq<char>>>,
    n: nat,
)
    requires
        n <= active.len(),
        forall|i: int, j: int|
            0 <= i < j < active.len() ==> (#[trigger] active[i]).0 != (#[trigger] active[j]).0,
        forall|i: int| 0 <= i < active.len() ==> (#[trigger] active[i]).0 < applied.len(),
    ensures
        named(active, names, applied, n).0.len() == applied.len(),
        forall|i: int|
            0 <= i < n && slot_label(active, names, i) is Some ==> named(
                active,
                names,
                applied,
                n,
            ).0[(#[trigger] active[i]).0 as int] == slot_label(active, names, i),
    decreases n,
{
    if n > 0 {
        lemma_named(active, names, applied, (n - 1) as nat);
        let a = named(active, names, applied, (n - 1) as nat).0;
        let b = named(active, names, applied, n).0;
        assert forall|i: int|
            0 <= i < n && slot_label(active, names, i) is Some implies b[(
        #[trigger] active[i]).0 as int] == slot_label(active, names, i) by {
            if i < n - 1 {
                assert(active[i].0 != active[n - 1].0);
            }
        }
    }
}

/// Outputs that have their names keep them.
proof fn lemma_settled(
    active: Seq<(usize, Seq<char>, u16)>,
    names: Map<Seq<char>, Seq<char>>,
    applied: Seq<Option<Seq<char>>>,
    n: nat,
)
    requires
        n <= active.len(),
        forall|i: int|
            0 <= i < active.len() && slot_label(active, names, i) is Some ==> (
            #[trigger] active[i]).0 < applied.len() && applied[active[i].0 as int] == slot_label(
                active,
                names,
                i,
            ),
    ensures
        named(active, names, applied, n) == (applied, Seq::<(usize, Seq<char>)>::empty()),
    decreases n,
{
    if n > 0 {
        lemma_settled(active, names, applied, (n - 1) as nat);
        assert(active[n - 1].0 == active[n - 1].0);
    }
}

} // verus!
