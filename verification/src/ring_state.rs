//! The mathematical model of the interval ring.
//!
//! Samples are held by their 32-bit patterns. Adding two samples and blending
//! two samples are supplied by the caller as functions; the model says on which
//! samples they are applied and where each result goes.

use crossbeam_channel::Receiver;
use vstd::prelude::*;

use crate::slot::{ChannelKey, TableState, MAX_SLOTS};

verus! {

/// Crossfade overlap window in interleaved samples (both channels).
///
/// 128 per channel, two channels: about 2.7 ms at 48 kHz stereo, just above the
/// codec's algorithmic delay of 2.5 ms.
pub const XFADE_SAMPLES: usize = 256;

/// The bit pattern of a silent sample.
pub const SILENCE: u32 = 0;

/// What a per-peer playback slot holds.
#[verifier::ext_equal]
pub struct SlotState {
    pub peer: Seq<char>,
    pub stream: u16,
    pub samples: Seq<u32>,
    pub active: bool,
    pub read_pos: nat,
    pub tail: Seq<u32>,
}

/// A recorded local interval.
#[verifier::ext_equal]
pub struct CompletedState {
    pub index: i64,
    pub samples: Seq<u32>,
}

/// Received audio that waits for a boundary.
#[verifier::ext_equal]
pub struct PendingState {
    pub index: i64,
    pub peer: Seq<char>,
    pub stream: u16,
    pub samples: Seq<u32>,
}

/// What an interval ring holds.
#[verifier::ext_equal]
pub struct RingState {
    /// Local audio recorded in the current interval.
    pub record: Seq<u32>,
    /// Mixed remote audio of the interval being played.
    pub playback: Seq<u32>,
    /// How much of `playback` was read.
    pub playback_pos: nat,
    /// The most samples that `record` and `playback` take.
    pub capacity: nat,
    /// The interval of the last processed buffer.
    pub current: Option<i64>,
    /// Recordings ready for transmission.
    pub completed: Seq<CompletedState>,
    /// Received audio that waits for a boundary.
    pub pending: Seq<PendingState>,
    /// The interval whose audio is being played.
    pub playing: Option<i64>,
    /// Samples per second.
    pub sample_rate: u32,
    /// Interleaved channels.
    pub channels: u16,
    /// Bars per interval.
    pub bars: u32,
    /// Beats per bar, as the bit pattern of a double.
    pub quantum: u64,
    /// Isolated playback, one per slot.
    pub slots: Seq<SlotState>,
    /// Which channel holds which slot.
    pub table: TableState,
    /// Persistent identity of each known peer.
    pub identities: Seq<(Seq<char>, Seq<char>)>,
    /// Whether a buffer stands by to be recorded into after the next boundary.
    pub spare: bool,
    /// The channel on which recorded buffers come back.
    pub buffer_return: Option<Receiver<Vec<u32>>>,
}

/// `n` silent samples.
pub open spec fn silence(n: nat) -> Seq<u32> {
    Seq::new(n, |i: int| SILENCE)
}

/// The sample at `j`, or silence past the end.
pub open spec fn sample_or_silence(s: Seq<u32>, j: int) -> u32 {
    if 0 <= j < s.len() {
        s[j]
    } else {
        SILENCE
    }
}

pub open spec fn min_len(a: nat, b: nat) -> nat {
    if a <= b {
        a
    } else {
        b
    }
}

pub open spec fn max_len(a: nat, b: nat) -> nat {
    if a >= b {
        a
    } else {
        b
    }
}

/// `out` is `base` with `add` mixed in from position `at` on; it reaches from the
/// start to the end of the longer of the two. Positions that neither reaches
/// before count as silent.
pub open spec fn mixed_at<M: Fn(u32, u32) -> u32>(
    mix: M,
    base: Seq<u32>,
    at: nat,
    add: Seq<u32>,
    out: Seq<u32>,
) -> bool {
    &&& out.len() == max_len(base.len(), at + add.len())
    &&& forall|j: int|
        0 <= j < out.len() ==> if at <= j < at + add.len() {
            call_ensures(mix, (sample_or_silence(base, j), add[j - at]), #[trigger] out[j])
        } else {
            out[j] == sample_or_silence(base, j)
        }
}

/// `out` is `base` with `add` mixed in from the start, no longer than `limit`.
pub open spec fn mixed<M: Fn(u32, u32) -> u32>(
    mix: M,
    base: Seq<u32>,
    add: Seq<u32>,
    limit: nat,
    out: Seq<u32>,
) -> bool {
    mixed_at(mix, base, 0, add.take(min_len(add.len(), limit) as int), out)
}

/// `out` is `new` with its head blended with `tail`, over the crossfade window or
/// over all of `new` when it is shorter.
pub open spec fn crossfaded<F: Fn(u32, u32, usize, usize) -> u32>(
    fade: F,
    new: Seq<u32>,
    tail: Seq<u32>,
    out: Seq<u32>,
) -> bool {
    let n = min_len(XFADE_SAMPLES as nat, new.len());
    &&& out.len() == new.len()
    &&& forall|i: int|
        0 <= i < out.len() ==> if i < n {
            call_ensures(fade, (new[i], tail[i], i as usize, n as usize), #[trigger] out[i])
        } else {
            out[i] == new[i]
        }
}

/// The last samples of an interval, left-aligned in the crossfade window.
pub open spec fn tail_of(samples: Seq<u32>) -> Seq<u32> {
    let n = min_len(XFADE_SAMPLES as nat, samples.len());
    Seq::new(
        XFADE_SAMPLES as nat,
        |j: int|
            if j < n {
                samples[samples.len() - n + j]
            } else {
                SILENCE
            },
    )
}

/// The identity under which a peer holds slots: the one it announced, or its peer
/// id while none is known.
pub open spec fn identity_of(ids: Seq<(Seq<char>, Seq<char>)>, peer: Seq<char>) -> Seq<char>
    decreases ids.len(),
{
    if ids.len() == 0 {
        peer
    } else if ids[0].0 == peer {
        ids[0].1
    } else {
        identity_of(ids.skip(1), peer)
    }
}

/// The identities without that of `peer`.
pub open spec fn other_peer(peer: Seq<char>) -> spec_fn((Seq<char>, Seq<char>)) -> bool {
    |p: (Seq<char>, Seq<char>)| p.0 != peer
}

/// Whether `i` is the first active slot of the peer's stream.
pub open spec fn is_peer_slot(
    slots: Seq<SlotState>,
    peer: Seq<char>,
    stream: u16,
    i: int,
) -> bool {
    &&& 0 <= i < slots.len()
    &&& plays(slots[i], peer, stream)
    &&& forall|j: int| 0 <= j < i ==> !plays(#[trigger] slots[j], peer, stream)
}

/// Whether a slot plays the peer's stream.
pub open spec fn plays(s: SlotState, peer: Seq<char>, stream: u16) -> bool {
    s.active && s.peer == peer && s.stream == stream
}

/// The first active slot of the peer's stream.
pub open spec fn peer_slot(slots: Seq<SlotState>, peer: Seq<char>, stream: u16) -> Option<int> {
    if exists|i: int| is_peer_slot(slots, peer, stream, i) {
        Some(choose|i: int| is_peer_slot(slots, peer, stream, i))
    } else {
        None
    }
}

/// Whether waiting audio is for this stream and interval.
pub open spec fn is_for(p: PendingState, peer: Seq<char>, stream: u16, index: i64) -> bool {
    p.peer == peer && p.stream == stream && p.index == index
}

/// Whether `i` is the first waiting entry for this stream and interval.
pub open spec fn is_pending_at(
    pending: Seq<PendingState>,
    peer: Seq<char>,
    stream: u16,
    index: i64,
    i: int,
) -> bool {
    &&& 0 <= i < pending.len()
    &&& is_for(pending[i], peer, stream, index)
    &&& forall|j: int| 0 <= j < i ==> !is_for(#[trigger] pending[j], peer, stream, index)
}

/// Waiting audio with more audio queued: appended to the entry for the same stream
/// and interval, or to the list as a new entry.
pub open spec fn queued(
    pending: Seq<PendingState>,
    peer: Seq<char>,
    stream: u16,
    index: i64,
    samples: Seq<u32>,
) -> Seq<PendingState> {
    if exists|i: int| is_pending_at(pending, peer, stream, index, i) {
        let i = choose|i: int| is_pending_at(pending, peer, stream, index, i);
        pending.update(i, PendingState { samples: pending[i].samples + samples, ..pending[i] })
    } else {
        pending.push(PendingState { index, peer, stream, samples })
    }
}

/// Says of waiting audio that it is played after the boundary that completes
/// `completed`: it is for that interval or for the one that was playing.
pub open spec fn is_due(completed: i64, playing: Option<i64>) -> spec_fn(PendingState) -> bool {
    |p: PendingState| p.index == completed || Some(p.index) == playing
}

/// Says of waiting audio that it goes on waiting.
pub open spec fn is_kept(completed: i64, playing: Option<i64>) -> spec_fn(PendingState) -> bool {
    |p: PendingState| p.index != completed && Some(p.index) != playing
}

/// A slot emptied for the next interval; what it just played is kept for the
/// crossfade. One that played nothing fades in from silence.
pub open spec fn emptied(s: SlotState) -> SlotState {
    SlotState {
        tail: if s.active && s.samples.len() > 0 {
            tail_of(s.samples)
        } else {
            silence(XFADE_SAMPLES as nat)
        },
        samples: Seq::empty(),
        read_pos: 0,
        ..s
    }
}

/// A slot that is made to play a peer's stream. One that played something else
/// fades in from silence.
pub open spec fn tuned(s: SlotState, peer: Seq<char>, stream: u16) -> SlotState {
    if plays(s, peer, stream) {
        s
    } else {
        SlotState { peer, stream, active: true, tail: silence(XFADE_SAMPLES as nat), ..s }
    }
}

/// A slot that stopped playing; its audio is dropped.
pub open spec fn muted(s: SlotState) -> SlotState {
    SlotState { active: false, samples: Seq::empty(), read_pos: 0, ..s }
}

/// The slots once none but slot `i` plays the peer's stream.
pub open spec fn muted_but(
    slots: Seq<SlotState>,
    peer: Seq<char>,
    stream: u16,
    i: int,
) -> Seq<SlotState> {
    Seq::new(
        slots.len(),
        |j: int|
            if j != i && plays(slots[j], peer, stream) {
                muted(slots[j])
            } else {
                slots[j]
            },
    )
}

/// No stream plays in two slots.
pub open spec fn one_slot_each(slots: Seq<SlotState>) -> bool {
    forall|i: int, j: int|
        0 <= i < j < slots.len() && (#[trigger] slots[i]).active && (#[trigger] slots[j]).active
            ==> !(slots[i].peer == slots[j].peer && slots[i].stream == slots[j].stream)
}

/// The active slots in order, each with the peer and stream that it plays.
pub open spec fn active_list(slots: Seq<SlotState>) -> Seq<(usize, Seq<char>, u16)>
    decreases slots.len(),
{
    if slots.len() == 0 {
        Seq::empty()
    } else {
        let before = active_list(slots.drop_last());
        let s = slots.last();
        if s.active {
            before.push(((slots.len() - 1) as usize, s.peer, s.stream))
        } else {
            before
        }
    }
}

impl SlotState {
    /// A slot that never played.
    pub open spec fn fresh() -> SlotState {
        SlotState {
            peer: Seq::empty(),
            stream: 0,
            samples: Seq::empty(),
            active: false,
            read_pos: 0,
            tail: silence(XFADE_SAMPLES as nat),
        }
    }

    pub open spec fn valid(self) -> bool {
        &&& self.read_pos <= self.samples.len()
        &&& self.tail.len() == XFADE_SAMPLES
    }
}

impl RingState {
    pub open spec fn valid(self) -> bool {
        &&& self.record.len() <= self.capacity
        &&& self.playback.len() <= self.capacity
        &&& self.playback_pos <= self.playback.len()
        &&& self.slots.len() == MAX_SLOTS
        &&& self.table.valid()
        &&& one_slot_each(self.slots)
        &&& forall|i: int| 0 <= i < self.slots.len() ==> (#[trigger] self.slots[i]).valid()
    }

    /// A ring that was just made.
    pub open spec fn fresh(
        sample_rate: u32,
        channels: u16,
        capacity: nat,
        bars: u32,
        quantum: u64,
    ) -> RingState {
        RingState {
            record: Seq::empty(),
            playback: Seq::empty(),
            playback_pos: 0,
            capacity,
            current: None,
            completed: Seq::empty(),
            pending: Seq::empty(),
            playing: None,
            sample_rate,
            channels,
            bars,
            quantum,
            slots: Seq::new(MAX_SLOTS as nat, |i: int| SlotState::fresh()),
            table: TableState { active: Seq::empty(), reserved: Seq::empty() },
            identities: Seq::empty(),
            spare: true,
            buffer_return: None,
        }
    }

    /// The channel under which a peer's stream holds a slot.
    pub open spec fn channel_of(self, peer: Seq<char>, stream: u16) -> ChannelKey {
        ChannelKey { client: identity_of(self.identities, peer), channel: stream }
    }

    /// The ring with a buffer standing by.
    pub open spec fn stocked(self) -> RingState {
        RingState { spare: true, ..self }
    }

    /// The ring at a boundary before any waiting audio is mixed: the recording is
    /// handed over, in exchange for the buffer that stood by, playback starts empty,
    /// and only audio for other intervals goes on waiting.
    pub open spec fn turned(self, completed: i64) -> RingState {
        RingState {
            completed: if self.record.len() > 0 {
                self.completed.push(CompletedState { index: completed, samples: self.record })
            } else {
                self.completed
            },
            record: Seq::empty(),
            spare: self.spare && self.record.len() == 0,
            playback: Seq::empty(),
            playback_pos: 0,
            playing: Some(completed),
            pending: self.pending.filter(is_kept(completed, self.playing)),
            slots: self.slots.map_values(|s: SlotState| emptied(s)),
            ..self
        }
    }

    /// The waiting audio that is played after the boundary.
    pub open spec fn due(self, completed: i64) -> Seq<PendingState> {
        self.pending.filter(is_due(completed, self.playing))
    }

    /// The ring with `input` recorded as far as it fits.
    pub open spec fn recorded(self, input: Seq<u32>) -> RingState {
        RingState {
            record: self.record + input.take(
                min_len(input.len(), (self.capacity - self.record.len()) as nat) as int,
            ),
            ..self
        }
    }

    /// How many of `wanted` samples playback can give.
    pub open spec fn playable(self, wanted: nat) -> nat {
        min_len((self.playback.len() - self.playback_pos) as nat, wanted)
    }

    /// The next `wanted` samples of playback, silent past its end.
    pub open spec fn heard(self, wanted: nat) -> Seq<u32> {
        let n = self.playable(wanted);
        self.playback.subrange(self.playback_pos as int, (self.playback_pos + n) as int) + silence(
            (wanted - n) as nat,
        )
    }

    /// The ring after `wanted` samples of playback were read.
    pub open spec fn advanced(self, wanted: nat) -> RingState {
        RingState { playback_pos: self.playback_pos + self.playable(wanted), ..self }
    }

    /// Whether a slot exists and plays a stream.
    pub open spec fn slot_plays(self, slot: usize) -> bool {
        slot < self.slots.len() && self.slots[slot as int].active
    }

    /// How many of `wanted` samples a slot can give; none if it plays nothing.
    pub open spec fn slot_playable(self, slot: usize, wanted: nat) -> nat {
        if self.slot_plays(slot) {
            let p = self.slots[slot as int];
            min_len((p.samples.len() - p.read_pos) as nat, wanted)
        } else {
            0
        }
    }

    /// The next `wanted` samples of a slot, silent past its end.
    pub open spec fn slot_heard(self, slot: usize, wanted: nat) -> Seq<u32> {
        if self.slot_plays(slot) {
            let p = self.slots[slot as int];
            let n = self.slot_playable(slot, wanted);
            p.samples.subrange(p.read_pos as int, (p.read_pos + n) as int) + silence(
                (wanted - n) as nat,
            )
        } else {
            silence(wanted)
        }
    }

    /// The ring after `wanted` samples of a slot were read.
    pub open spec fn slot_advanced(self, slot: usize, wanted: nat) -> RingState {
        if self.slot_plays(slot) {
            let p = self.slots[slot as int];
            RingState {
                slots: self.slots.update(
                    slot as int,
                    SlotState { read_pos: p.read_pos + self.slot_playable(slot, wanted), ..p },
                ),
                ..self
            }
        } else {
            self
        }
    }

    /// The ring after a full reset: only its configuration and its return channel
    /// stay, and the names that the now inactive slots carried last.
    pub open spec fn cleared(self) -> RingState {
        RingState {
            slots: self.slots.map_values(
                |s: SlotState|
                    SlotState { peer: s.peer, stream: s.stream, ..SlotState::fresh() },
            ),
            buffer_return: self.buffer_return,
            ..RingState::fresh(
                self.sample_rate,
                self.channels,
                self.capacity,
                self.bars,
                self.quantum,
            )
        }
    }

    /// The ring after the transport restarted: positions and interval tracking
    /// start over, peers and waiting audio stay.
    pub open spec fn restarted(self) -> RingState {
        RingState {
            record: Seq::empty(),
            playback: Seq::empty(),
            playback_pos: 0,
            current: None,
            playing: None,
            completed: Seq::empty(),
            slots: self.slots.map_values(|s: SlotState| SlotState { read_pos: 0, ..s }),
            ..self
        }
    }

    /// The ring after a peer left: its slots are reserved for its identity.
    pub open spec fn peer_removed(self, peer: Seq<char>) -> RingState {
        RingState {
            table: self.table.client_released(identity_of(self.identities, peer)),
            slots: self.slots.map_values(
                |s: SlotState|
                    if s.peer == peer {
                        muted(s)
                    } else {
                        s
                    },
            ),
            identities: self.identities.filter(other_peer(peer)),
            ..self
        }
    }

    /// The ring after a peer announced its identity: slots that it holds under its
    /// peer id pass to the identity, and free slots reserved for channels of the
    /// identity that hold none are taken back.
    pub open spec fn peer_joined(self, peer: Seq<char>, identity: Seq<char>) -> RingState {
        let table = self.table.rekeyed(peer, identity);
        RingState {
            identities: self.identities.filter(other_peer(peer)).push((peer, identity)),
            table: table.reclaimed(identity),
            slots: retuned(self.slots, peer, table.reclaimable(identity)),
            ..self
        }
    }
}

/// The slots of `es` made to play their channels of `peer` from silence, in order, each
/// in place of any other slot that played the same.
pub open spec fn retuned(
    slots: Seq<SlotState>,
    peer: Seq<char>,
    es: Seq<crate::slot::Entry>,
) -> Seq<SlotState>
    decreases es.len(),
{
    if es.len() == 0 {
        slots
    } else {
        let e = es.last();
        let before = muted_but(
            retuned(slots, peer, es.drop_last()),
            peer,
            e.0.channel,
            e.1 as int,
        );
        before.update(
            e.1 as int,
            SlotState {
                peer,
                stream: e.0.channel,
                active: true,
                tail: silence(XFADE_SAMPLES as nat),
                ..before[e.1 as int]
            },
        )
    }
}

/// One piece of due audio `p` takes the ring from `s` to `t`.
///
/// Its stream is assigned a slot. With a slot, its head is blended with what the
/// slot played last, the result becomes the slot's audio and is mixed into the
/// shared playback; no other slot plays the stream then. Without one, it is mixed into the shared playback as it is,
/// and into the slot of the peer's stream 0 if there is one.
pub open spec fn mix_step<M: Fn(u32, u32) -> u32, F: Fn(u32, u32, usize, usize) -> u32>(
    mix: M,
    fade: F,
    s: RingState,
    p: PendingState,
    t: RingState,
) -> bool {
    let k = s.channel_of(p.peer, p.stream);
    let table = s.table.assigned(k);
    match s.table.assigned_slot(k) {
        Some(i) => {
            let slot = tuned(s.slots[i as int], p.peer, p.stream);
            let samples = t.slots[i as int].samples;
            &&& crossfaded(fade, p.samples, slot.tail, samples)
            &&& mixed(mix, s.playback, samples, s.capacity, t.playback)
            &&& t == RingState {
                table,
                slots: muted_but(s.slots, p.peer, p.stream, i as int).update(
                    i as int,
                    SlotState { samples, read_pos: 0, ..slot },
                ),
                playback: t.playback,
                ..s
            }
        },
        None => {
            &&& mixed(mix, s.playback, p.samples, s.capacity, t.playback)
            &&& match table.slot_of(s.channel_of(p.peer, 0)) {
                Some(i) => {
                    let samples = t.slots[i as int].samples;
                    &&& mixed_at(mix, s.slots[i as int].samples, 0, p.samples, samples)
                    &&& t == RingState {
                        table,
                        slots: s.slots.update(
                            i as int,
                            SlotState { samples, read_pos: 0, ..s.slots[i as int] },
                        ),
                        playback: t.playback,
                        ..s
                    }
                },
                None => t == RingState { table, playback: t.playback, ..s },
            }
        },
    }
}

/// `trace` lists the states that the ring passes through while `due` is mixed.
pub open spec fn is_trace<M: Fn(u32, u32) -> u32, F: Fn(u32, u32, usize, usize) -> u32>(
    mix: M,
    fade: F,
    due: Seq<PendingState>,
    trace: Seq<RingState>,
) -> bool {
    &&& trace.len() == due.len() + 1
    &&& forall|i: int|
        0 <= i < due.len() ==> mix_step(mix, fade, trace[i], #[trigger] due[i], trace[i + 1])
}

/// The boundary that completes `completed` takes the ring from `s` to `t`.
pub open spec fn swapped<M: Fn(u32, u32) -> u32, F: Fn(u32, u32, usize, usize) -> u32>(
    mix: M,
    fade: F,
    s: RingState,
    completed: i64,
    t: RingState,
) -> bool {
    exists|trace: Seq<RingState>|
        {
            &&& #[trigger] is_trace(mix, fade, s.due(completed), trace)
            &&& trace[0] == s.turned(completed)
            &&& trace.last() == t
        }
}

/// The interval that is completed when `index` is reached.
pub open spec fn completed_by(current: Option<i64>, index: i64) -> Option<i64> {
    match current {
        Some(prev) => if prev != index {
            Some(prev)
        } else {
            None
        },
        None => None,
    }
}

/// Reaching interval `index` takes the ring from `s` to `t`, before the buffer is
/// recorded and played. Beforehand a buffer is made to stand by.
pub open spec fn reached<M: Fn(u32, u32) -> u32, F: Fn(u32, u32, usize, usize) -> u32>(
    mix: M,
    fade: F,
    s: RingState,
    index: i64,
    t: RingState,
) -> bool {
    match s.current {
        Some(prev) => if prev != index {
            exists|m: RingState|
                #[trigger] swapped(mix, fade, s.stocked(), prev, m) && t == RingState {
                    current: Some(index),
                    ..m
                }
        } else {
            t == s.stocked()
        },
        None => t == RingState { current: Some(index), playing: Some(index), ..s.stocked() },
    }
}

/// Received audio takes the ring from `s` to `t`: audio of the interval being
/// played goes to the stream's slot and into the shared playback at once, other
/// audio waits.
pub open spec fn fed<M: Fn(u32, u32) -> u32>(
    mix: M,
    s: RingState,
    peer: Seq<char>,
    stream: u16,
    index: i64,
    samples: Seq<u32>,
    t: RingState,
) -> bool {
    if s.playing == Some(index) && peer_slot(s.slots, peer, stream) is Some {
        let i = peer_slot(s.slots, peer, stream)->0;
        let at = s.slots[i].samples.len();
        let room = if at <= s.capacity {
            (s.capacity - at) as nat
        } else {
            0
        };
        let n = min_len(samples.len(), room);
        if n == 0 {
            t == s
        } else {
            let taken = samples.take(n as int);
            &&& mixed_at(mix, s.playback, at, taken, t.playback)
            &&& t == RingState {
                playback: t.playback,
                slots: s.slots.update(
                    i,
                    SlotState { samples: s.slots[i].samples + taken, ..s.slots[i] },
                ),
                ..s
            }
        }
    } else {
        t == RingState { pending: queued(s.pending, peer, stream, index, samples), ..s }
    }
}

/// A buffer with `input` at interval `index` takes the ring from `s` to `t` and gives
/// `out`.
pub open spec fn took<M: Fn(u32, u32) -> u32, F: Fn(u32, u32, usize, usize) -> u32>(
    mix: M,
    fade: F,
    s: RingState,
    input: Seq<u32>,
    index: i64,
    out: Seq<u32>,
    t: RingState,
) -> bool {
    exists|m: RingState|
        {
            &&& #[trigger] reached(mix, fade, s, index, m)
            &&& t == m.recorded(input).advanced(out.len())
            &&& out == m.heard(out.len())
        }
}

/// Reading slot `slot` takes the ring from `s` to `t` and gives `out`, of which the first
/// `given` samples are audio.
pub open spec fn slot_read(
    s: RingState,
    slot: usize,
    out: Seq<u32>,
    given: nat,
    t: RingState,
) -> bool {
    &&& given == s.slot_playable(slot, out.len())
    &&& out == s.slot_heard(slot, out.len())
    &&& t == s.slot_advanced(slot, out.len())
}

} // verus!
