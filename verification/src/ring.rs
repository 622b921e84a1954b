//! Interval ring buffer: records the local interval while the remote intervals
//! received before are played.

use crossbeam_channel::Receiver;
use vstd::prelude::*;

use crate::ring_state::{
    CompletedState, PendingState, RingState, SlotState, SILENCE, XFADE_SAMPLES,
};
use crate::slot::{ChannelKey, ClientChannelMapping, SlotTable, TableState, MAX_SLOTS};
use crate::text::same_text;

verus! {

/// Maximum number of remote peer-stream slots with independent audio channels.
pub const MAX_REMOTE_PEERS: usize = MAX_SLOTS;

/// The bit pattern of the smallest quantum, the double 2^-52.
pub const MIN_QUANTUM_BITS: u64 = 0x3CB0_0000_0000_0000;

/// The bit pattern of the double infinity.
pub const INFINITY_BITS: u64 = 0x7FF0_0000_0000_0000;

/// The receiving half of a `crossbeam_channel` channel.
#[verifier::external_type_specification]
#[verifier::external_body]
#[verifier::reject_recursive_types(T)]
pub struct ExReceiver<T>(Receiver<T>);

/// `crossbeam_channel::Receiver::try_recv`: a message that is waiting in the
/// channel, or `None` when there is none or the channel is closed. What is waiting
/// depends on the sending thread, so nothing is claimed of the result.
#[verifier::external_body]
fn try_take_buffer(rx: &Receiver<Vec<u32>>) -> (r: Option<Vec<u32>>) {
    rx.try_recv().ok()
}

/// Per-peer-stream isolated playback slot.
pub struct PeerSlot {
    pub peer_id: String,
    pub stream_id: u16,
    /// Bit patterns of the samples.
    pub samples: Vec<u32>,
    pub active: bool,
    read_pos: usize,
    /// Tail of the previous interval's audio for crossfade blending. Silent on a
    /// new or reconnected peer, which produces a fade-in from silence.
    crossfade_tail: [u32; XFADE_SAMPLES],
}

impl View for PeerSlot {
    type V = SlotState;

    closed spec fn view(&self) -> SlotState {
        SlotState {
            peer: self.peer_id@,
            stream: self.stream_id,
            samples: self.samples@,
            active: self.active,
            read_pos: self.read_pos as nat,
            tail: self.crossfade_tail@,
        }
    }
}

impl PeerSlot {
    fn new() -> (r: Self)
        ensures
            r@ == SlotState::fresh(),
    {
        let r = PeerSlot {
            peer_id: String::new(),
            stream_id: 0,
            samples: Vec::new(),
            active: false,
            read_pos: 0,
            crossfade_tail: [SILENCE; XFADE_SAMPLES],
        };
        assert(r@ =~= SlotState::fresh());
        r
    }

    /// Back to a slot that plays nothing and fades in from silence.
    fn clear(&mut self)
        ensures
            final(self)@ == (SlotState {
                peer: old(self)@.peer,
                stream: old(self)@.stream,
                ..SlotState::fresh()
            }),
    {
        self.silence();
        self.crossfade_tail = [SILENCE; XFADE_SAMPLES];
        assert(self@.tail =~= crate::ring_state::silence(XFADE_SAMPLES as nat));
    }

    /// Stop playing, and drop the audio.
    fn silence(&mut self)
        ensures
            final(self)@ == crate::ring_state::muted(old(self)@),
    {
        self.samples.clear();
        self.active = false;
        self.read_pos = 0;
        assert(self@.samples =~= Seq::empty());
    }

    /// Make the slot play a peer's stream, from silence if it played another.
    fn tune(&mut self, peer_id: &str, stream_id: u16)
        ensures
            final(self)@ == crate::ring_state::tuned(old(self)@, peer_id@, stream_id),
    {
        if !self.active || !same_text(self.peer_id.as_str(), peer_id) || self.stream_id
            != stream_id {
            self.retune(peer_id, stream_id);
        }
    }

    /// Make the slot play a peer's stream from silence.
    fn retune(&mut self, peer_id: &str, stream_id: u16)
        ensures
            final(self)@ == (SlotState {
                peer: peer_id@,
                stream: stream_id,
                active: true,
                tail: crate::ring_state::silence(XFADE_SAMPLES as nat),
                ..old(self)@
            }),
    {
        self.peer_id = peer_id.to_string();
        self.stream_id = stream_id;
        self.active = true;
        self.crossfade_tail = [SILENCE; XFADE_SAMPLES];
        assert(self@.tail =~= crate::ring_state::silence(XFADE_SAMPLES as nat));
    }

    /// Empty the slot for the next interval, keeping the tail of what it played.
    fn empty_for_next(&mut self)
        ensures
            final(self)@ == crate::ring_state::emptied(old(self)@),
    {
        let ghost pre = self@;
        if self.active && self.samples.len() > 0 {
            let len: usize = self.samples.len();
            let n: usize = if len < XFADE_SAMPLES {
                len
            } else {
                XFADE_SAMPLES
            };
            let mut j: usize = 0;
            while j < XFADE_SAMPLES
                invariant
                    j <= XFADE_SAMPLES,
                    n == crate::ring_state::min_len(XFADE_SAMPLES as nat, pre.samples.len()),
                    len == self.samples@.len(),
                    self@.samples == pre.samples,
                    self@.peer == pre.peer,
                    self@.stream == pre.stream,
                    self@.active == pre.active,
                    self.crossfade_tail@.len() == XFADE_SAMPLES,
                    forall|i: int|
                        0 <= i < j ==> self.crossfade_tail@[i] == crate::ring_state::tail_of(
                            pre.samples,
                        )[i],
                decreases XFADE_SAMPLES - j,
            {
                if j < n {
                    self.crossfade_tail[j] = self.samples[len - n + j];
                } else {
                    self.crossfade_tail[j] = SILENCE;
                }
                j += 1;
            }
            assert(self@.tail =~= crate::ring_state::tail_of(pre.samples));
        } else {
            // Played nothing: fade in from silence
            self.crossfade_tail = [SILENCE; XFADE_SAMPLES];
            assert(self@.tail =~= crate::ring_state::silence(XFADE_SAMPLES as nat));
        }
        self.samples.clear();
        self.read_pos = 0;
        assert(self@ =~= crate::ring_state::emptied(pre));
    }

    /// Read the next samples into `output`, silent past the end. Returns how many
    /// samples were there.
    fn read(&mut self, output: &mut [u32]) -> (r: usize)
        requires
            old(self)@.valid(),
        ensures
            r == crate::ring_state::min_len(
                (old(self)@.samples.len() - old(self)@.read_pos) as nat,
                old(output)@.len(),
            ),
            final(self)@ == (SlotState {
                read_pos: (old(self)@.read_pos + r) as nat,
                ..old(self)@
            }),
            final(output)@ == old(self)@.samples.subrange(
                old(self)@.read_pos as int,
                old(self)@.read_pos + r,
            ) + crate::ring_state::silence((old(output)@.len() - r) as nat),
    {
        let available: usize = self.samples.len() - self.read_pos;
        let n: usize = copy_then_silence(&self.samples, self.read_pos, available, output);
        self.read_pos = self.read_pos + n;
        n
    }
}

/// Copy up to `available` samples of `from`, starting at `start`, to `output` and
/// fill the rest with silence. Returns how many samples were copied.
fn copy_then_silence(from: &Vec<u32>, start: usize, available: usize, output: &mut [u32]) -> (r:
    usize)
    requires
        start + available <= from@.len(),
    ensures
        r == crate::ring_state::min_len(available as nat, old(output)@.len()),
        final(output)@ == from@.subrange(start as int, start + r) + crate::ring_state::silence(
            (old(output)@.len() - r) as nat,
        ),
{
    let wanted: usize = output.len();
    let held: usize = from.len();
    let n: usize = if available < wanted {
        available
    } else {
        wanted
    };
    let ghost goal = from@.subrange(start as int, start + n) + crate::ring_state::silence(
        (wanted - n) as nat,
    );
    let mut i: usize = 0;
    while i < wanted
        invariant
            i <= wanted,
            n <= wanted,
            held == from@.len(),
            start + n <= held,
            output@.len() == wanted,
            goal == from@.subrange(start as int, start + n) + crate::ring_state::silence(
                (wanted - n) as nat,
            ),
            forall|j: int| 0 <= j < i ==> output@[j] == goal[j],
        decreases wanted - i,
    {
        if i < n {
            output[i] = from[start + i];
        } else {
            output[i] = SILENCE;
        }
        i += 1;
    }
    assert(output@ =~= goal);
    n
}

/// Mix the first `n` samples of `add` into `base` from position `at` on, growing
/// it with silence where needed.
fn mix_at<M: Fn(u32, u32) -> u32>(base: &mut Vec<u32>, at: usize, add: &Vec<u32>, n: usize, mix: &M)
    requires
        n <= add@.len(),
        at + n <= usize::MAX,
        forall|a: u32, b: u32| call_requires(mix, (a, b)),
    ensures
        crate::ring_state::mixed_at(
            mix,
            old(base)@,
            at as nat,
            add@.take(n as int),
            final(base)@,
        ),
{
    let ghost pre = base@;
    let end: usize = at + n;
    while base.len() < end
        invariant
            base@.len() >= pre.len(),
            base@.len() <= crate::ring_state::max_len(pre.len(), end as nat),
            forall|j: int|
                0 <= j < base@.len() ==> base@[j] == crate::ring_state::sample_or_silence(pre, j),
        decreases end - base@.len(),
    {
        base.push(SILENCE);
    }
    let mut i: usize = 0;
    while i < n
        invariant
            i <= n,
            n <= add@.len(),
            end == at + n,
            end <= base@.len(),
            base@.len() == crate::ring_state::max_len(pre.len(), end as nat),
            forall|a: u32, b: u32| call_requires(mix, (a, b)),
            forall|j: int|
                0 <= j < base@.len() ==> if at <= j < at + i {
                    call_ensures(
                        mix,
                        (crate::ring_state::sample_or_silence(pre, j), add@[j - at]),
                        #[trigger] base@[j],
                    )
                } else {
                    base@[j] == crate::ring_state::sample_or_silence(pre, j)
                },
        decreases n - i,
    {
        let x: u32 = mix(base[at + i], add[i]);
        base[at + i] = x;
        i += 1;
    }
    let ghost taken = add@.take(n as int);
    assert forall|j: int| 0 <= j < base@.len() implies if at <= j < at + taken.len() {
        call_ensures(
            mix,
            (crate::ring_state::sample_or_silence(pre, j), taken[j - at]),
            #[trigger] base@[j],
        )
    } else {
        base@[j] == crate::ring_state::sample_or_silence(pre, j)
    } by {
        if at <= j < at + n {
            assert(taken[j - at] == add@[j - at]);
        }
    }
}

/// Blend the head of `samples` with the tail of what was played before.
fn crossfade<F: Fn(u32, u32, usize, usize) -> u32>(
    samples: &mut Vec<u32>,
    tail: &[u32; XFADE_SAMPLES],
    fade: &F,
)
    requires
        forall|a: u32, b: u32, i: usize, n: usize| call_requires(fade, (a, b, i, n)),
    ensures
        crate::ring_state::crossfaded(fade, old(samples)@, tail@, final(samples)@),
{
    let ghost pre = samples@;
    let len: usize = samples.len();
    let n: usize = if len < XFADE_SAMPLES {
        len
    } else {
        XFADE_SAMPLES
    };
    let mut i: usize = 0;
    while i < n
        invariant
            i <= n,
            n <= XFADE_SAMPLES,
            n <= samples@.len(),
            samples@.len() == pre.len(),
            tail@.len() == XFADE_SAMPLES,
            forall|a: u32, b: u32, i: usize, n: usize| call_requires(fade, (a, b, i, n)),
            forall|j: int|
                0 <= j < samples@.len() ==> if j < i {
                    call_ensures(fade, (pre[j], tail@[j], j as usize, n), #[trigger] samples@[j])
                } else {
                    samples@[j] == pre[j]
                },
        decreases n - i,
    {
        let x: u32 = fade(samples[i], tail[i], i, n);
        samples[i] = x;
        i += 1;
    }
}

/// A completed local recording ready for encoding.
pub struct CompletedInterval {
    pub index: i64,
    /// Bit patterns of the samples.
    pub samples: Vec<u32>,
}

impl View for CompletedInterval {
    type V = CompletedState;

    open spec fn view(&self) -> CompletedState {
        CompletedState { index: self.index, samples: self.samples@ }
    }
}

/// A received remote interval to mix into playback.
struct RemoteInterval {
    index: i64,
    peer_id: String,
    stream_id: u16,
    samples: Vec<u32>,
}

impl View for RemoteInterval {
    type V = PendingState;

    closed spec fn view(&self) -> PendingState {
        PendingState {
            index: self.index,
            peer: self.peer_id@,
            stream: self.stream_id,
            samples: self.samples@,
        }
    }
}


/// The states that a list of slots stands for.
pub open spec fn slot_states(s: Seq<PeerSlot>) -> Seq<SlotState> {
    s.map_values(|p: PeerSlot| p@)
}

/// The states that a list of recordings stands for.
pub open spec fn completed_states(s: Seq<CompletedInterval>) -> Seq<CompletedState> {
    s.map_values(|c: CompletedInterval| c@)
}

spec fn pending_states(s: Seq<RemoteInterval>) -> Seq<PendingState> {
    s.map_values(|r: RemoteInterval| r@)
}

spec fn identity_states(s: Seq<(String, String)>) -> Seq<(Seq<char>, Seq<char>)> {
    s.map_values(|p: (String, String)| (p.0@, p.1@))
}

/// Whether a bit pattern is that of a double above the smallest quantum.
pub open spec fn is_usable_quantum(bits: u64) -> bool {
    MIN_QUANTUM_BITS < bits <= INFINITY_BITS
}

/// The quantum in use: never below the smallest one, and never not-a-number.
pub open spec fn clamped_quantum(bits: u64) -> u64 {
    if is_usable_quantum(bits) {
        bits
    } else {
        MIN_QUANTUM_BITS
    }
}

/// The bars in use: at least one.
pub open spec fn clamped_bars(bars: u32) -> u32 {
    if bars == 0 {
        1
    } else {
        bars
    }
}

fn clamp_quantum(bits: u64) -> (r: u64)
    ensures
        r == clamped_quantum(bits),
{
    if MIN_QUANTUM_BITS < bits && bits <= INFINITY_BITS {
        bits
    } else {
        MIN_QUANTUM_BITS
    }
}

fn clamp_bars(bars: u32) -> (r: u32)
    ensures
        r == clamped_bars(bars),
{
    if bars == 0 {
        1
    } else {
        bars
    }
}

/// Drop the identity of a peer, keeping the order of the others.
fn drop_identity(list: &mut Vec<(String, String)>, peer_id: &str)
    ensures
        identity_states(final(list)@) == identity_states(old(list)@).filter(
            crate::ring_state::other_peer(peer_id@),
        ),
{
    let ghost orig = identity_states(list@);
    let ghost pred = crate::ring_state::other_peer(peer_id@);
    let ghost mut done: int = 0;
    let mut i: usize = 0;
    proof {
        reveal(Seq::filter);
        assert(orig.take(0) =~= Seq::empty());
        assert(identity_states(list@) =~= orig.take(0).filter(pred) + orig.skip(0));
    }
    while i < list.len()
        invariant
            0 <= done <= orig.len(),
            pred == crate::ring_state::other_peer(peer_id@),
            i == orig.take(done).filter(pred).len(),
            i <= list@.len(),
            identity_states(list@) == orig.take(done).filter(pred) + orig.skip(done),
        decreases orig.len() - done,
    {
        let ghost kept = orig.take(done).filter(pred);
        let ghost before = list@;
        proof {
            let l = identity_states(list@);
            assert(l.len() == kept.len() + orig.skip(done).len());
            assert(l[i as int] == orig[done]);
            assert(orig.take(done + 1) =~= orig.take(done).push(orig[done]));
            orig.take(done).lemma_filter_push(orig[done], pred);
            assert(orig.skip(done).skip(1) =~= orig.skip(done + 1));
        }
        if same_text(list[i].0.as_str(), peer_id) {
            list.remove(i);
            proof {
                assert(identity_states(list@) =~= identity_states(before).remove(i as int));
                assert(identity_states(list@) =~= kept + orig.skip(done + 1));
                done = done + 1;
            }
        } else {
            i += 1;
            proof {
                assert(identity_states(list@) =~= kept.push(orig[done]) + orig.skip(done + 1));
                done = done + 1;
            }
        }
    }
    proof {
        assert(identity_states(list@).len() == i);
        assert(orig.take(done) =~= orig);
        assert(identity_states(list@) =~= orig.filter(pred));
    }
}

/// Interval ring buffer for simultaneous record and playback.
///
/// - One buffer is being recorded into, another is being played back.
/// - At each interval boundary the just-recorded interval becomes available for
///   transmission, and received remote audio starts playing back.
/// - Multiple remote peers' audio is mixed together in the playback buffer.
///
/// In addition to the mix, per-peer-stream isolated audio is kept in up to
/// [`MAX_REMOTE_PEERS`] slots for independent routing. Each unique
/// `(peer_id, stream_id)` pair gets its own slot.
///
/// Samples are passed as the bit patterns of 32-bit floats. The sum of two
/// samples and the blend of two samples at a point of the crossfade window are
/// passed as functions.
pub struct IntervalRing {
    /// Local audio captured in the current interval.
    record_slot: Vec<u32>,
    /// Mixed remote audio being played back.
    playback_slot: Vec<u32>,
    /// Read position in the playback slot (in interleaved samples)
    playback_pos: usize,
    /// Most samples taken by the record and playback slots
    slot_capacity: usize,
    /// Spare record buffer, swapped in at interval boundaries so that the filled
    /// one moves out without copying.
    spare_record: Vec<u32>,
    /// Whether `spare_record` holds a buffer to swap in.
    spare_ready: bool,
    /// Optional channel on which the encoding thread gives buffers back.
    buffer_return_rx: Option<Receiver<Vec<u32>>>,
    /// Current interval index
    current_interval: Option<i64>,
    /// Completed intervals ready for encoding and transmission
    completed: Vec<CompletedInterval>,
    /// Remote peer intervals waiting to be mixed into next playback slot
    pending_remote: Vec<RemoteInterval>,
    /// The interval index whose audio is currently in the playback slot
    playback_interval: Option<i64>,
    /// Audio parameters
    sample_rate: u32,
    channels: u16,
    /// Interval parameters
    bars: u32,
    quantum_bits: u64,
    /// Per-peer-stream isolated playback slots
    peer_slots: Vec<PeerSlot>,
    /// Stable slot assignment table (active and affinity reservations)
    slot_table: SlotTable,
    /// Maps peer_id to persistent identity, for slot affinity across reconnects
    peer_identity_map: Vec<(String, String)>,
}

impl View for IntervalRing {
    type V = RingState;

    closed spec fn view(&self) -> RingState {
        RingState {
            record: self.record_slot@,
            playback: self.playback_slot@,
            playback_pos: self.playback_pos as nat,
            capacity: self.slot_capacity as nat,
            current: self.current_interval,
            completed: completed_states(self.completed@),
            pending: pending_states(self.pending_remote@),
            playing: self.playback_interval,
            sample_rate: self.sample_rate,
            channels: self.channels,
            bars: self.bars,
            quantum: self.quantum_bits,
            slots: slot_states(self.peer_slots@),
            table: self.slot_table@,
            identities: identity_states(self.peer_identity_map@),
            spare: self.spare_ready,
            buffer_return: self.buffer_return_rx,
        }
    }
}

impl IntervalRing {
    pub closed spec fn wf(&self) -> bool {
        &&& self@.valid()
        &&& self.slot_table.wf()
        &&& 4 * self.slot_capacity <= isize::MAX
    }

    /// A consistent ring has valid contents.
    pub proof fn lemma_wf_is_valid(&self)
        requires
            self.wf(),
        ensures
            self@.valid(),
    {
    }

    /// Create a new interval ring buffer for at most `slot_capacity` samples per
    /// interval. Zero bars count as one, and a quantum that is not a number above
    /// the smallest one counts as the smallest.
    pub fn new(
        sample_rate: u32,
        channels: u16,
        bars: u32,
        quantum_bits: u64,
        slot_capacity: usize,
    ) -> (r: Self)
        requires
            4 * slot_capacity <= isize::MAX,
        ensures
            r.wf(),
            r@ == RingState::fresh(
                sample_rate,
                channels,
                slot_capacity as nat,
                clamped_bars(bars),
                clamped_quantum(quantum_bits),
            ),
    {
        let mut peer_slots: Vec<PeerSlot> = Vec::with_capacity(MAX_REMOTE_PEERS);
        while peer_slots.len() < MAX_REMOTE_PEERS
            invariant
                peer_slots@.len() <= MAX_REMOTE_PEERS,
                forall|i: int| 0 <= i < peer_slots@.len() ==> (#[trigger] peer_slots@[i])@
                    == SlotState::fresh(),
            decreases MAX_REMOTE_PEERS - peer_slots@.len(),
        {
            peer_slots.push(PeerSlot::new());
        }
        let r = IntervalRing {
            record_slot: Vec::with_capacity(slot_capacity),
            playback_slot: Vec::with_capacity(slot_capacity),
            playback_pos: 0,
            slot_capacity,
            spare_record: Vec::with_capacity(slot_capacity),
            spare_ready: true,
            buffer_return_rx: None,
            current_interval: None,
            completed: Vec::with_capacity(2),
            pending_remote: Vec::with_capacity(MAX_REMOTE_PEERS),
            playback_interval: None,
            sample_rate,
            channels,
            bars: clamp_bars(bars),
            quantum_bits: clamp_quantum(quantum_bits),
            peer_slots,
            slot_table: SlotTable::new(),
            peer_identity_map: Vec::with_capacity(MAX_REMOTE_PEERS),
        };
        let ghost goal = RingState::fresh(
            sample_rate,
            channels,
            slot_capacity as nat,
            clamped_bars(bars),
            clamped_quantum(quantum_bits),
        );
        assert(r@.slots =~= goal.slots);
        assert(r@ =~= goal);
        r
    }

    /// The persistent identity under which a peer holds slots.
    fn identity(&self, peer_id: &str) -> (r: String)
        ensures
            r@ == crate::ring_state::identity_of(self@.identities, peer_id@),
    {
        let ghost ids = self@.identities;
        let mut i: usize = 0;
        assert(ids.skip(0) =~= ids);
        while i < self.peer_identity_map.len()
            invariant
                ids == identity_states(self.peer_identity_map@),
                i <= ids.len(),
                crate::ring_state::identity_of(ids, peer_id@) == crate::ring_state::identity_of(
                    ids.skip(i as int),
                    peer_id@,
                ),
            decreases ids.len() - i,
        {
            assert(ids.skip(i as int)[0] == ids[i as int]);
            if same_text(self.peer_identity_map[i].0.as_str(), peer_id) {
                return self.peer_identity_map[i].1.clone();
            }
            assert(ids.skip(i as int).skip(1) =~= ids.skip(i + 1));
            i += 1;
        }
        peer_id.to_string()
    }

    /// Find an existing active peer slot. Does not assign.
    fn find_peer_slot(&self, peer_id: &str, stream_id: u16) -> (r: Option<usize>)
        ensures
            match r {
                Some(i) => {
                    &&& i < self@.slots.len()
                    &&& crate::ring_state::is_peer_slot(
                        self@.slots,
                        peer_id@,
                        stream_id,
                        i as int,
                    )
                    &&& crate::ring_state::peer_slot(self@.slots, peer_id@, stream_id) == Some(
                        i as int,
                    )
                },
                None => crate::ring_state::peer_slot(self@.slots, peer_id@, stream_id) is None,
            },
    {
        let ghost slots = self@.slots;
        let mut i: usize = 0;
        while i < self.peer_slots.len()
            invariant
                slots == slot_states(self.peer_slots@),
                i <= slots.len(),
                forall|j: int|
                    0 <= j < i ==> !crate::ring_state::plays(
                        #[trigger] slots[j],
                        peer_id@,
                        stream_id,
                    ),
            decreases slots.len() - i,
        {
            let s = &self.peer_slots[i];
            assert(slots[i as int] == s@);
            if s.active && s.stream_id == stream_id && same_text(s.peer_id.as_str(), peer_id) {
                proof {
                    assert(crate::ring_state::is_peer_slot(slots, peer_id@, stream_id, i as int));
                    let c = choose|c: int|
                        crate::ring_state::is_peer_slot(slots, peer_id@, stream_id, c);
                    assert(crate::ring_state::is_peer_slot(slots, peer_id@, stream_id, c));
                    assert(c == i) by {
                        if c < i {
                            assert(!crate::ring_state::plays(slots[c], peer_id@, stream_id));
                        } else if i < c {
                            assert(!crate::ring_state::plays(
                                slots[i as int],
                                peer_id@,
                                stream_id,
                            ));
                        }
                    }
                }
                return Some(i);
            }
            i += 1;
        }
        None
    }

    /// Stop every slot but `keep` that plays the peer's stream.
    fn mute_others(&mut self, peer_id: &str, stream_id: u16, keep: usize)
        ensures
            final(self)@ == (RingState {
                slots: crate::ring_state::muted_but(
                    old(self)@.slots,
                    peer_id@,
                    stream_id,
                    keep as int,
                ),
                ..old(self)@
            }),
            final(self).slot_table == old(self).slot_table,
    {
        let ghost s = self@;
        let ghost slots0 = self.peer_slots@;
        let mut i: usize = 0;
        while i < self.peer_slots.len()
            invariant
                i <= self.peer_slots@.len(),
                self.peer_slots@.len() == slots0.len(),
                forall|j: int|
                    0 <= j < i ==> (#[trigger] self.peer_slots@[j])@ == (if j != keep
                        && crate::ring_state::plays(slots0[j]@, peer_id@, stream_id) {
                        crate::ring_state::muted(slots0[j]@)
                    } else {
                        slots0[j]@
                    }),
                forall|j: int|
                    i <= j < self.peer_slots@.len() ==> #[trigger] self.peer_slots@[j]
                        == slots0[j],
                self.slot_table == old(self).slot_table,
                self@ == (RingState { slots: self@.slots, ..s }),
            decreases self.peer_slots@.len() - i,
        {
            if i != keep && self.peer_slots[i].active && self.peer_slots[i].stream_id == stream_id
                && same_text(self.peer_slots[i].peer_id.as_str(), peer_id) {
                self.peer_slots[i].silence();
            }
            i += 1;
        }
        assert(self@.slots =~= crate::ring_state::muted_but(
            s.slots,
            peer_id@,
            stream_id,
            keep as int,
        ));
    }

    /// Look up or assign a slot index for a (peer_id, stream_id) pair.
    /// Returns None if all slots are full.
    fn assign_peer_slot(&mut self, peer_id: &str, stream_id: u16) -> (r: Option<usize>)
        requires
            old(self).wf(),
        ensures
            final(self).wf(),
            r is Some ==> r->0 < MAX_SLOTS,
            ({
                let s = old(self)@;
                let k = s.channel_of(peer_id@, stream_id);
                &&& r == s.table.assigned_slot(k)
                &&& final(self)@ == RingState {
                    table: s.table.assigned(k),
                    slots: match r {
                        Some(i) => crate::ring_state::muted_but(
                            s.slots,
                            peer_id@,
                            stream_id,
                            i as int,
                        ).update(
                            i as int,
                            crate::ring_state::tuned(s.slots[i as int], peer_id@, stream_id),
                        ),
                        None => s.slots,
                    },
                    ..s
                }
            }),
    {
        let ghost s = self@;
        let identity = self.identity(peer_id);
        let mapping = ClientChannelMapping::new(identity.as_str(), stream_id);
        let slot = self.slot_table.assign(&mapping);
        proof {
            self.slot_table.lemma_wf_is_valid();
        }
        if let Some(i) = slot {
            self.mute_others(peer_id, stream_id, i);
            let ghost rest = self@.slots;
            assert(self.peer_slots@.len() == rest.len());
            assert(rest[i as int] == s.slots[i as int]);
            self.peer_slots[i].tune(peer_id, stream_id);
            assert(self@.slots =~= rest.update(
                i as int,
                crate::ring_state::tuned(s.slots[i as int], peer_id@, stream_id),
            ));
        }
        slot
    }

    /// Mix one remote interval into the playback.
    fn mix_remote<M: Fn(u32, u32) -> u32, F: Fn(u32, u32, usize, usize) -> u32>(
        &mut self,
        remote: RemoteInterval,
        mix: &M,
        fade: &F,
    )
        requires
            old(self).wf(),
            forall|a: u32, b: u32| call_requires(mix, (a, b)),
            forall|a: u32, b: u32, i: usize, n: usize| call_requires(fade, (a, b, i, n)),
        ensures
            final(self).wf(),
            crate::ring_state::mix_step(mix, fade, old(self)@, remote@, final(self)@),
    {
        let ghost s = self@;
        let ghost p = remote@;
        let slot = self.assign_peer_slot(remote.peer_id.as_str(), remote.stream_id);
        match slot {
            Some(i) => {
                let ghost named = self@;
                let ghost before = self.peer_slots@;
                let mut samples: Vec<u32> = remote.samples;
                crossfade(&mut samples, &self.peer_slots[i].crossfade_tail, fade);
                let n: usize = if samples.len() < self.slot_capacity {
                    samples.len()
                } else {
                    self.slot_capacity
                };
                mix_at(&mut self.playback_slot, 0, &samples, n, mix);
                self.peer_slots[i].samples = samples;
                self.peer_slots[i].read_pos = 0;
                proof {
                    let slot = crate::ring_state::tuned(s.slots[i as int], p.peer, p.stream);
                    let samples = self@.slots[i as int].samples;
                    assert(named.slots[i as int] == slot);
                    assert(named.slots[i as int] == before[i as int]@);
                    assert(self@.slots[i as int] == SlotState { samples, read_pos: 0, ..slot });
                    let rest = crate::ring_state::muted_but(
                        s.slots,
                        p.peer,
                        p.stream,
                        i as int,
                    );
                    assert forall|j: int| 0 <= j < s.slots.len() && j != i implies
                        #[trigger] self@.slots[j] == rest[j] by {
                        assert(self.peer_slots@[j] == before[j]);
                        assert(named.slots[j] == before[j]@);
                        assert(named.slots[j] == rest[j]);
                    }
                    assert(self@.slots =~= rest.update(
                        i as int,
                        SlotState { samples, read_pos: 0, ..slot },
                    ));
                }
            },
            None => {
                let n: usize = if remote.samples.len() < self.slot_capacity {
                    remote.samples.len()
                } else {
                    self.slot_capacity
                };
                mix_at(&mut self.playback_slot, 0, &remote.samples, n, mix);
                // All slots full — merge into this peer's stream 0 slot
                let identity = self.identity(remote.peer_id.as_str());
                let fallback = ClientChannelMapping::new(identity.as_str(), 0);
                if let Some(i) = self.slot_table.slot_for(&fallback) {
                    mix_at(
                        &mut self.peer_slots[i].samples,
                        0,
                        &remote.samples,
                        remote.samples.len(),
                        mix,
                    );
                    self.peer_slots[i].read_pos = 0;
                    proof {
                        let samples = self@.slots[i as int].samples;
                        assert(p.samples.take(p.samples.len() as int) =~= p.samples);
                        assert(self@.slots =~= s.slots.update(
                            i as int,
                            SlotState { samples, read_pos: 0, ..s.slots[i as int] },
                        ));
                    }
                } else {
                    assert(self@.slots =~= s.slots);
                }
            },
        }
    }

    /// Unless a buffer stands by, let the channel's waiting one, or a fresh one, be
    /// the next spare.
    fn refill_spare(&mut self)
        ensures
            final(self)@ == old(self)@.stocked(),
            final(self).wf() == old(self).wf(),
    {
        if !self.spare_ready {
            let received: Option<Vec<u32>> = match &self.buffer_return_rx {
                Some(rx) => try_take_buffer(rx),
                None => None,
            };
            match received {
                Some(buffer) => self.give_spare(buffer),
                None => self.give_spare(Vec::with_capacity(self.slot_capacity)),
            }
        }
    }

    /// Hand over a buffer for later recording. Its contents are discarded.
    pub fn give_spare(&mut self, buffer: Vec<u32>)
        ensures
            final(self)@ == old(self)@.stocked(),
            final(self).wf() == old(self).wf(),
    {
        self.spare_record = buffer;
        self.spare_record.clear();
        self.spare_ready = true;
    }

    /// Separate the waiting audio: what is due stays out, the rest waits on.
    fn take_due(&mut self, completed_index: i64) -> (r: Vec<RemoteInterval>)
        ensures
            pending_states(r@) == old(self)@.due(completed_index),
            final(self)@ == (RingState {
                pending: old(self)@.pending.filter(
                    crate::ring_state::is_kept(completed_index, old(self)@.playing),
                ),
                ..old(self)@
            }),
            final(self).slot_table == old(self).slot_table,
    {
        let ghost s = self@;
        let ghost all = s.pending;
        let ghost kp = crate::ring_state::is_kept(completed_index, s.playing);
        let ghost dp = crate::ring_state::is_due(completed_index, s.playing);
        let playing = self.playback_interval;
        let mut waiting: Vec<RemoteInterval> = Vec::new();
        std::mem::swap(&mut waiting, &mut self.pending_remote);
        let mut due: Vec<RemoteInterval> = Vec::new();
        let mut keep: Vec<RemoteInterval> = Vec::new();
        let ghost mut done: int = 0;
        proof {
            reveal(Seq::filter);
            assert(all.take(0) =~= Seq::empty());
            assert(pending_states(due@) =~= all.take(0).filter(dp));
            assert(pending_states(keep@) =~= all.take(0).filter(kp));
            assert(all.skip(0) =~= all);
        }
        while waiting.len() > 0
            invariant
                0 <= done <= all.len(),
                playing == s.playing,
                kp == crate::ring_state::is_kept(completed_index, s.playing),
                dp == crate::ring_state::is_due(completed_index, s.playing),
                pending_states(waiting@) == all.skip(done),
                pending_states(due@) == all.take(done).filter(dp),
                pending_states(keep@) == all.take(done).filter(kp),
            decreases waiting@.len(),
        {
            let ghost before = waiting@;
            let ghost due0 = due@;
            let ghost keep0 = keep@;
            let remote = waiting.remove(0);
            let ghost p = all[done];
            proof {
                assert(pending_states(before).len() == all.skip(done).len());
                assert(pending_states(before)[0] == all.skip(done)[0]);
                assert(remote@ == p);
                assert(all.take(done + 1) =~= all.take(done).push(p));
                all.take(done).lemma_filter_push(p, dp);
                all.take(done).lemma_filter_push(p, kp);
                assert(pending_states(waiting@) =~= pending_states(before).skip(1));
                assert(all.skip(done).skip(1) =~= all.skip(done + 1));
            }
            let for_playing = match playing {
                Some(i) => i == remote.index,
                None => false,
            };
            if remote.index != completed_index && !for_playing {
                keep.push(remote);
                assert(pending_states(keep@) =~= pending_states(keep0).push(p));
            } else {
                due.push(remote);
                assert(pending_states(due@) =~= pending_states(due0).push(p));
            }
            proof {
                done = done + 1;
            }
        }
        proof {
            assert(pending_states(waiting@).len() == 0);
            assert(all.take(done) =~= all);
        }
        self.pending_remote = keep;
        due
    }

    /// Turn to the next interval: hand the recording over, empty the playback and
    /// take the waiting audio that is due.
    fn turn(&mut self, completed_index: i64) -> (r: Vec<RemoteInterval>)
        requires
            old(self).wf(),
        ensures
            final(self).wf(),
            final(self)@ == old(self)@.turned(completed_index),
            pending_states(r@) == old(self)@.due(completed_index),
    {
        let ghost s = self@;
        if self.record_slot.len() > 0 {
            // Move the record buffer out and swap the spare in
            let mut samples: Vec<u32> = Vec::new();
            std::mem::swap(&mut samples, &mut self.record_slot);
            self.completed.push(CompletedInterval { index: completed_index, samples });
            std::mem::swap(&mut self.record_slot, &mut self.spare_record);
            self.record_slot.clear();
            self.spare_ready = false;
            assert(self@.completed =~= s.completed.push(
                CompletedState { index: completed_index, samples: s.record },
            ));
        }
        assert(self@.record =~= Seq::empty());
        let ghost slots0 = self.peer_slots@;
        let ghost with_slots = self@;
        let mut i: usize = 0;
        while i < self.peer_slots.len()
            invariant
                i <= self.peer_slots@.len(),
                self.peer_slots@.len() == slots0.len(),
                forall|j: int|
                    0 <= j < i ==> (#[trigger] self.peer_slots@[j])@ == crate::ring_state::emptied(
                        slots0[j]@,
                    ),
                forall|j: int|
                    i <= j < self.peer_slots@.len() ==> #[trigger] self.peer_slots@[j]
                        == slots0[j],
                self.slot_table.wf(),
                4 * self.slot_capacity <= isize::MAX,
                self@ == (RingState { slots: self@.slots, ..with_slots }),
            decreases self.peer_slots@.len() - i,
        {
            self.peer_slots[i].empty_for_next();
            i += 1;
        }
        let due = self.take_due(completed_index);
        self.playback_slot.clear();
        self.playback_pos = 0;
        self.playback_interval = Some(completed_index);
        proof {
            assert(self@.playback =~= Seq::empty());
            assert(self@.slots =~= s.turned(completed_index).slots);
            assert(self@ =~= s.turned(completed_index));
        }
        due
    }

    /// Swap intervals: hand the recording over, mix the due remote audio into the
    /// playback.
    pub fn swap_intervals<M: Fn(u32, u32) -> u32, F: Fn(u32, u32, usize, usize) -> u32>(
        &mut self,
        completed_index: i64,
        mix: &M,
        fade: &F,
    )
        requires
            old(self).wf(),
            forall|a: u32, b: u32| call_requires(mix, (a, b)),
            forall|a: u32, b: u32, i: usize, n: usize| call_requires(fade, (a, b, i, n)),
        ensures
            final(self).wf(),
            crate::ring_state::swapped(mix, fade, old(self)@, completed_index, final(self)@),
    {
        let ghost s = self@;
        let ghost all = s.due(completed_index);
        let mut due = self.turn(completed_index);
        let ghost mut trace: Seq<RingState> = seq![self@];
        let ghost mut done: int = 0;
        assert(all.skip(0) =~= all);
        while due.len() > 0
            invariant
                self.wf(),
                forall|a: u32, b: u32| call_requires(mix, (a, b)),
                forall|a: u32, b: u32, i: usize, n: usize| call_requires(fade, (a, b, i, n)),
                0 <= done <= all.len(),
                pending_states(due@) == all.skip(done),
                trace.len() == done + 1,
                trace[0] == s.turned(completed_index),
                trace.last() == self@,
                forall|i: int|
                    0 <= i < done ==> crate::ring_state::mix_step(
                        mix,
                        fade,
                        trace[i],
                        #[trigger] all[i],
                        trace[i + 1],
                    ),
            decreases due@.len(),
        {
            let ghost before = due@;
            let remote = due.remove(0);
            proof {
                assert(pending_states(before).len() == all.skip(done).len());
                assert(pending_states(before)[0] == all.skip(done)[0]);
                assert(remote@ == all[done]);
                assert(pending_states(due@) =~= pending_states(before).skip(1));
                assert(all.skip(done).skip(1) =~= all.skip(done + 1));
            }
            self.mix_remote(remote, mix, fade);
            proof {
                let old_trace = trace;
                trace = old_trace.push(self@);
                assert forall|i: int| 0 <= i < done + 1 implies crate::ring_state::mix_step(
                    mix,
                    fade,
                    trace[i],
                    #[trigger] all[i],
                    trace[i + 1],
                ) by {
                    if i < done {
                        assert(trace[i] == old_trace[i] && trace[i + 1] == old_trace[i + 1]);
                    } else {
                        assert(trace[i] == old_trace.last());
                    }
                }
                done = done + 1;
            }
        }
        proof {
            assert(pending_states(due@).len() == 0);
            assert(done == all.len());
            assert(crate::ring_state::is_trace(mix, fade, all, trace));
        }
    }

    /// Reach interval `interval_index`: cross the boundary if it is another one
    /// than before. Returns the interval that was completed.
    fn reach<M: Fn(u32, u32) -> u32, F: Fn(u32, u32, usize, usize) -> u32>(
        &mut self,
        interval_index: i64,
        mix: &M,
        fade: &F,
    ) -> (r: Option<i64>)
        requires
            old(self).wf(),
            old(self)@.spare,
            forall|a: u32, b: u32| call_requires(mix, (a, b)),
            forall|a: u32, b: u32, i: usize, n: usize| call_requires(fade, (a, b, i, n)),
        ensures
            final(self).wf(),
            crate::ring_state::reached(mix, fade, old(self)@, interval_index, final(self)@),
            r == crate::ring_state::completed_by(old(self)@.current, interval_index),
    {
        let mut boundary_crossed: Option<i64> = None;
        assert(self@.stocked() =~= self@);
        match self.current_interval {
            Some(prev) => {
                if prev != interval_index {
                    boundary_crossed = Some(prev);
                    self.swap_intervals(prev, mix, fade);
                }
            },
            None => {
                // First buffer: frames of this interval can be played at once.
                self.playback_interval = Some(interval_index);
            },
        }
        let ghost swapped = self@;
        self.current_interval = Some(interval_index);
        assert(self@ == RingState { current: Some(interval_index), ..swapped });
        boundary_crossed
    }

    /// Process one audio buffer: record input and produce output.
    ///
    /// - `input`: interleaved samples captured locally
    /// - `output`: interleaved buffer to fill with playback audio
    /// - `interval_index`: the interval at the current beat position
    ///
    /// Returns `Some(index)` of the completed interval if a boundary was crossed.
    pub fn process<M: Fn(u32, u32) -> u32, F: Fn(u32, u32, usize, usize) -> u32>(
        &mut self,
        input: &[u32],
        output: &mut [u32],
        interval_index: i64,
        mix: &M,
        fade: &F,
    ) -> (r: Option<i64>)
        requires
            old(self).wf(),
            forall|a: u32, b: u32| call_requires(mix, (a, b)),
            forall|a: u32, b: u32, i: usize, n: usize| call_requires(fade, (a, b, i, n)),
        ensures
            final(self).wf(),
            r == crate::ring_state::completed_by(old(self)@.current, interval_index),
            exists|m: RingState|
                {
                    &&& #[trigger] crate::ring_state::reached(
                        mix,
                        fade,
                        old(self)@,
                        interval_index,
                        m,
                    )
                    &&& final(self)@ == m.recorded(input@).advanced(old(output)@.len())
                    &&& final(output)@ == m.heard(old(output)@.len())
                },
            final(output)@.len() == old(output)@.len(),
            crate::ring_state::took(
                mix,
                fade,
                old(self)@,
                input@,
                interval_index,
                final(output)@,
                final(self)@,
            ),
    {
        self.refill_spare();
        let r = self.reach(interval_index, mix, fade);
        let ghost m = self@;
        proof {
            let s = old(self)@;
            assert(s.stocked().stocked() =~= s.stocked());
            assert(crate::ring_state::reached(mix, fade, s, interval_index, m));
        }
        // Record as much of the input as fits
        let room: usize = self.slot_capacity - self.record_slot.len();
        let n: usize = if input.len() < room {
            input.len()
        } else {
            room
        };
        self.record_slot.extend_from_slice(&input[0..n]);
        assert(self@.record =~= m.recorded(input@).record);
        assert(self@ =~= m.recorded(input@));
        // Playback, silent past its end
        let available: usize = self.playback_slot.len() - self.playback_pos;
        let read: usize = copy_then_silence(
            &self.playback_slot,
            self.playback_pos,
            available,
            output,
        );
        self.playback_pos = self.playback_pos + read;
        assert(self@ =~= m.recorded(input@).advanced(old(output)@.len()));
        r
    }

    /// Feed a remote peer's decoded audio for playback.
    ///
    /// Audio of the currently playing interval is appended directly to the active
    /// playback so that streaming frames arriving after the boundary cause no
    /// gaps. Otherwise it waits for the boundary of its interval.
    pub fn feed_remote<M: Fn(u32, u32) -> u32>(
        &mut self,
        peer_id: String,
        stream_id: u16,
        interval_index: i64,
        samples: Vec<u32>,
        mix: &M,
    )
        requires
            old(self).wf(),
            forall|a: u32, b: u32| call_requires(mix, (a, b)),
        ensures
            final(self).wf(),
            crate::ring_state::fed(
                mix,
                old(self)@,
                peer_id@,
                stream_id,
                interval_index,
                samples@,
                final(self)@,
            ),
    {
        let is_playing = match self.playback_interval {
            Some(i) => i == interval_index,
            None => false,
        };
        if is_playing {
            if let Some(i) = self.find_peer_slot(peer_id.as_str(), stream_id) {
                self.append_live(i, &samples, mix);
                return;
            }
        }
        self.queue_remote(peer_id, stream_id, interval_index, samples);
    }

    /// Append audio to a slot and mix it into the playback at the same position.
    fn append_live<M: Fn(u32, u32) -> u32>(&mut self, slot: usize, samples: &Vec<u32>, mix: &M)
        requires
            old(self).wf(),
            slot < old(self)@.slots.len(),
            forall|a: u32, b: u32| call_requires(mix, (a, b)),
        ensures
            final(self).wf(),
            ({
                let s = old(self)@;
                let at = s.slots[slot as int].samples.len();
                let room = if at <= s.capacity {
                    (s.capacity - at) as nat
                } else {
                    0
                };
                let n = crate::ring_state::min_len(samples@.len(), room);
                let taken = samples@.take(n as int);
                if n == 0 {
                    final(self)@ == s
                } else {
                    &&& crate::ring_state::mixed_at(mix, s.playback, at, taken, final(self)@.playback)
                    &&& final(self)@ == RingState {
                        playback: final(self)@.playback,
                        slots: s.slots.update(
                            slot as int,
                            SlotState {
                                samples: s.slots[slot as int].samples + taken,
                                ..s.slots[slot as int]
                            },
                        ),
                        ..s
                    }
                }
            }),
    {
        let ghost s = self@;
        let at: usize = self.peer_slots[slot].samples.len();
        assert(at == s.slots[slot as int].samples.len());
        let room: usize = if at <= self.slot_capacity {
            self.slot_capacity - at
        } else {
            0
        };
        let n: usize = if samples.len() < room {
            samples.len()
        } else {
            room
        };
        if n > 0 {
            mix_at(&mut self.playback_slot, at, samples, n, mix);
            let taken = vstd::slice::slice_subrange(samples.as_slice(), 0, n);
            let ghost before = self.peer_slots@;
            self.peer_slots[slot].samples.extend_from_slice(taken);
            proof {
                let t = samples@.take(n as int);
                assert(taken@ =~= t);
                assert(self.peer_slots@[slot as int].samples@ =~= before[slot as int].samples@ + t);
                assert(self@.slots =~= s.slots.update(
                    slot as int,
                    SlotState {
                        samples: s.slots[slot as int].samples + t,
                        ..s.slots[slot as int]
                    },
                ));
            }
        }
    }

    /// Let audio wait, together with earlier audio of its stream and interval.
    fn queue_remote(
        &mut self,
        peer_id: String,
        stream_id: u16,
        interval_index: i64,
        samples: Vec<u32>,
    )
        requires
            old(self).wf(),
        ensures
            final(self).wf(),
            final(self)@ == (RingState {
                pending: crate::ring_state::queued(
                    old(self)@.pending,
                    peer_id@,
                    stream_id,
                    interval_index,
                    samples@,
                ),
                ..old(self)@
            }),
    {
        let ghost s = self@;
        let ghost pending = s.pending;
        let ghost peer = peer_id@;
        let mut i: usize = 0;
        while i < self.pending_remote.len()
            invariant
                self.wf(),
                self@ == s,
                s == old(self)@,
                pending == s.pending,
                peer == peer_id@,
                i <= pending.len(),
                forall|j: int|
                    0 <= j < i ==> !crate::ring_state::is_for(
                        #[trigger] pending[j],
                        peer,
                        stream_id,
                        interval_index,
                    ),
            decreases pending.len() - i,
        {
            let r = &self.pending_remote[i];
            assert(pending[i as int] == r@);
            if r.stream_id == stream_id && r.index == interval_index && same_text(
                r.peer_id.as_str(),
                peer_id.as_str(),
            ) {
                let ghost before = self.pending_remote@;
                self.pending_remote[i].samples.extend_from_slice(samples.as_slice());
                proof {
                    assert(crate::ring_state::is_pending_at(
                        pending,
                        peer,
                        stream_id,
                        interval_index,
                        i as int,
                    ));
                    let c = choose|c: int|
                        crate::ring_state::is_pending_at(
                            pending,
                            peer,
                            stream_id,
                            interval_index,
                            c,
                        );
                    assert(c == i) by {
                        assert(crate::ring_state::is_for(
                            pending[c],
                            peer,
                            stream_id,
                            interval_index,
                        ));
                    }
                    assert(self.pending_remote@[i as int].samples@ =~= before[i as int].samples@
                        + samples@);
                    assert(self@.pending =~= pending.update(
                        c,
                        PendingState { samples: pending[c].samples + samples@, ..pending[c] },
                    ));
                }
                return;
            }
            i += 1;
        }
        self.pending_remote.push(
            RemoteInterval { index: interval_index, peer_id, stream_id, samples },
        );
        proof {
            assert(self@.pending =~= pending.push(
                PendingState { index: interval_index, peer, stream: stream_id, samples: samples@ },
            ));
        }
    }

    /// Take completed intervals that are ready for encoding and transmission.
    pub fn take_completed(&mut self) -> (r: Vec<CompletedInterval>)
        requires
            old(self).wf(),
        ensures
            final(self).wf(),
            completed_states(r@) == old(self)@.completed,
            final(self)@ == (RingState { completed: Seq::empty(), ..old(self)@ }),
    {
        let mut taken: Vec<CompletedInterval> = Vec::new();
        std::mem::swap(&mut taken, &mut self.completed);
        assert(self@.completed =~= Seq::empty());
        taken
    }

    /// Update interval configuration (bars, quantum).
    pub fn set_config(&mut self, bars: u32, quantum_bits: u64)
        requires
            old(self).wf(),
        ensures
            final(self).wf(),
            final(self)@ == (RingState {
                bars: clamped_bars(bars),
                quantum: clamped_quantum(quantum_bits),
                ..old(self)@
            }),
    {
        self.bars = clamp_bars(bars);
        self.quantum_bits = clamp_quantum(quantum_bits);
    }

    /// Set the channel on which the encoding thread gives sample buffers back.
    pub fn set_buffer_return_rx(&mut self, rx: Receiver<Vec<u32>>)
        requires
            old(self).wf(),
        ensures
            final(self).wf(),
            final(self)@ == (RingState { buffer_return: Some(rx), ..old(self)@ }),
    {
        self.buffer_return_rx = Some(rx);
    }

    /// Reset all state.
    pub fn reset(&mut self)
        requires
            old(self).wf(),
        ensures
            final(self).wf(),
            final(self)@ == old(self)@.cleared(),
    {
        let ghost s = self@;
        let ghost slots0 = self.peer_slots@;
        let mut i: usize = 0;
        while i < self.peer_slots.len()
            invariant
                i <= self.peer_slots@.len(),
                self.peer_slots@.len() == slots0.len(),
                forall|j: int|
                    0 <= j < i ==> (#[trigger] self.peer_slots@[j])@ == (SlotState {
                        peer: slots0[j]@.peer,
                        stream: slots0[j]@.stream,
                        ..SlotState::fresh()
                    }),
                forall|j: int|
                    i <= j < self.peer_slots@.len() ==> #[trigger] self.peer_slots@[j]
                        == slots0[j],
                4 * self.slot_capacity <= isize::MAX,
                self@ == (RingState { slots: self@.slots, ..s }),
            decreases self.peer_slots@.len() - i,
        {
            self.peer_slots[i].clear();
            i += 1;
        }
        self.record_slot.clear();
        if !self.spare_ready {
            self.give_spare(Vec::with_capacity(self.slot_capacity));
        }
        self.playback_slot.clear();
        self.playback_pos = 0;
        self.current_interval = None;
        self.playback_interval = None;
        self.completed.clear();
        self.pending_remote.clear();
        self.slot_table.clear();
        self.peer_identity_map.clear();
        proof {
            self.slot_table.lemma_wf_is_valid();
            let goal = s.cleared();
            assert(self@.slots =~= goal.slots);
            assert(self@ =~= goal);
        }
    }

    /// Reset interval tracking and buffer positions without clearing peer state.
    ///
    /// Use this on transport restart: beat position is about to jump, so interval
    /// tracking and read/write positions must start fresh. Peer slot assignments,
    /// identity mappings, and pending remote audio are preserved.
    pub fn reset_transport(&mut self)
        requires
            old(self).wf(),
        ensures
            final(self).wf(),
            final(self)@ == old(self)@.restarted(),
    {
        let ghost s = self@;
        let ghost slots0 = self.peer_slots@;
        let mut i: usize = 0;
        while i < self.peer_slots.len()
            invariant
                i <= self.peer_slots@.len(),
                self.peer_slots@.len() == slots0.len(),
                forall|j: int|
                    0 <= j < i ==> (#[trigger] self.peer_slots@[j])@ == (SlotState {
                        read_pos: 0,
                        ..slots0[j]@
                    }),
                forall|j: int|
                    i <= j < self.peer_slots@.len() ==> #[trigger] self.peer_slots@[j]
                        == slots0[j],
                4 * self.slot_capacity <= isize::MAX,
                self.slot_table.wf(),
                self@ == (RingState { slots: self@.slots, ..s }),
            decreases self.peer_slots@.len() - i,
        {
            self.peer_slots[i].read_pos = 0;
            i += 1;
        }
        self.record_slot.clear();
        self.playback_slot.clear();
        self.playback_pos = 0;
        self.current_interval = None;
        self.playback_interval = None;
        self.completed.clear();
        proof {
            assert(self@.slots =~= s.restarted().slots);
            assert(self@ =~= s.restarted());
        }
    }

    /// Read audio from a specific peer slot into the output buffer.
    /// Advances that slot's read position. Returns the number of samples written;
    /// an inactive or unknown slot gives silence.
    pub fn read_peer_playback(&mut self, slot: usize, output: &mut [u32]) -> (r: usize)
        requires
            old(self).wf(),
        ensures
            final(self).wf(),
            r == old(self)@.slot_playable(slot, old(output)@.len()),
            final(output)@ == old(self)@.slot_heard(slot, old(output)@.len()),
            final(self)@ == old(self)@.slot_advanced(slot, old(output)@.len()),
            final(output)@.len() == old(output)@.len(),
            crate::ring_state::slot_read(
                old(self)@,
                slot,
                final(output)@,
                r as nat,
                final(self)@,
            ),
    {
        let ghost s = self@;
        if slot >= self.peer_slots.len() || !self.peer_slots[slot].active {
            let nothing: Vec<u32> = Vec::new();
            let n: usize = copy_then_silence(&nothing, 0, 0, output);
            assert(output@ =~= crate::ring_state::silence(old(output)@.len()));
            return n;
        }
        assert(s.slots[slot as int].valid());
        let ghost before = self.peer_slots@;
        let r: usize = self.peer_slots[slot].read(output);
        proof {
            let p = s.slots[slot as int];
            assert(p == before[slot as int]@);
            assert(self@.slots =~= s.slots.update(
                slot as int,
                SlotState { read_pos: (p.read_pos + r) as nat, ..p },
            ));
        }
        r
    }

    /// Return (slot_index, peer_id, stream_id) for all active peer slots.
    pub fn active_peer_slots(&self) -> (r: Vec<(usize, String, u16)>)
        requires
            self.wf(),
        ensures
            active_views(r@) == crate::ring_state::active_list(self@.slots),
    {
        let ghost slots = self@.slots;
        let mut out: Vec<(usize, String, u16)> = Vec::new();
        let mut i: usize = 0;
        proof {
            assert(slots.take(0) =~= Seq::empty());
            assert(active_views(out@) =~= Seq::empty());
        }
        while i < self.peer_slots.len()
            invariant
                slots == slot_states(self.peer_slots@),
                i <= slots.len(),
                active_views(out@) == crate::ring_state::active_list(slots.take(i as int)),
            decreases slots.len() - i,
        {
            let ghost before = out@;
            assert(slots.take(i + 1).drop_last() =~= slots.take(i as int));
            assert(slots[i as int] == self.peer_slots@[i as int]@);
            if self.peer_slots[i].active {
                out.push((i, self.peer_slots[i].peer_id.clone(), self.peer_slots[i].stream_id));
                assert(active_views(out@) =~= active_views(before).push(
                    (i, slots[i as int].peer, slots[i as int].stream),
                ));
            }
            i += 1;
        }
        assert(slots.take(i as int) =~= slots);
        out
    }

    /// Register a peer's persistent identity for slot affinity.
    ///
    /// If this identity has reserved slots from a previous connection, they are
    /// reclaimed immediately so audio arriving for this peer lands in the same
    /// slots.
    pub fn notify_peer_joined(&mut self, peer_id: &str, identity: &str)
        requires
            old(self).wf(),
        ensures
            final(self).wf(),
            final(self)@ == old(self)@.peer_joined(peer_id@, identity@),
    {
        let ghost s = self@;
        drop_identity(&mut self.peer_identity_map, peer_id);
        self.peer_identity_map.push((peer_id.to_string(), identity.to_string()));
        assert(self@.identities =~= s.peer_joined(peer_id@, identity@).identities);
        // Slots assigned under the peer id while the identity was unknown
        self.slot_table.rekey_client(peer_id, identity);
        let ghost table = self.slot_table@;
        let reclaimed = self.slot_table.reclaim_reserved_for_client(identity);
        let ghost es = table.reclaimable(identity@);
        proof {
            self.slot_table.lemma_wf_is_valid();
            assert(es.take(0) =~= Seq::empty());
        }
        let mut i: usize = 0;
        while i < reclaimed.len()
            invariant
                i <= reclaimed@.len(),
                reclaimed@ == es.map_values(|e: crate::slot::Entry| (e.0.channel, e.1)),
                forall|j: int| 0 <= j < reclaimed@.len() ==> (#[trigger] reclaimed@[j]).1
                    < MAX_SLOTS,
                self@.slots == crate::ring_state::retuned(s.slots, peer_id@, es.take(i as int)),
                self@ == (RingState {
                    slots: self@.slots,
                    identities: s.peer_joined(peer_id@, identity@).identities,
                    table: table.reclaimed(identity@),
                    ..s
                }),
                self.slot_table.wf(),
                self@.valid(),
                4 * self.slot_capacity <= isize::MAX,
            decreases reclaimed@.len() - i,
        {
            let stream_id: u16 = reclaimed[i].0;
            let slot_idx: usize = reclaimed[i].1;
            proof {
                assert(es.take(i + 1).drop_last() =~= es.take(i as int));
                assert(es.take(i + 1).last() == es[i as int]);
                assert(reclaimed@[i as int] == (es[i as int].0.channel, es[i as int].1));
                assert(self@.slots[slot_idx as int].valid());
            }
            self.mute_others(peer_id, stream_id, slot_idx);
            let ghost before = self@.slots;
            let ghost raw = self.peer_slots@;
            assert(raw.len() == before.len());
            self.peer_slots[slot_idx].retune(peer_id, stream_id);
            proof {
                assert(before[slot_idx as int] == raw[slot_idx as int]@);
                assert(self@.slots =~= before.update(
                    slot_idx as int,
                    SlotState {
                        peer: peer_id@,
                        stream: stream_id,
                        active: true,
                        tail: crate::ring_state::silence(XFADE_SAMPLES as nat),
                        ..before[slot_idx as int]
                    },
                ));
            }
            i += 1;
        }
        assert(es.take(i as int) =~= es);
    }

    /// Remove a peer and free ALL their stream slots, creating affinity
    /// reservations so the same identity can reclaim slots on reconnect.
    pub fn remove_peer(&mut self, peer_id: &str)
        requires
            old(self).wf(),
        ensures
            final(self).wf(),
            final(self)@ == old(self)@.peer_removed(peer_id@),
    {
        let ghost s = self@;
        let client_id = self.identity(peer_id);
        self.slot_table.release_all_for_client(client_id.as_str());
        let ghost slots0 = self.peer_slots@;
        let ghost t = self@;
        let mut i: usize = 0;
        while i < self.peer_slots.len()
            invariant
                i <= self.peer_slots@.len(),
                self.peer_slots@.len() == slots0.len(),
                forall|j: int|
                    0 <= j < i ==> (#[trigger] self.peer_slots@[j])@ == (if slots0[j]@.peer
                        == peer_id@ {
                        crate::ring_state::muted(slots0[j]@)
                    } else {
                        slots0[j]@
                    }),
                forall|j: int|
                    i <= j < self.peer_slots@.len() ==> #[trigger] self.peer_slots@[j]
                        == slots0[j],
                4 * self.slot_capacity <= isize::MAX,
                self.slot_table.wf(),
                self@ == (RingState { slots: self@.slots, ..t }),
            decreases self.peer_slots@.len() - i,
        {
            if same_text(self.peer_slots[i].peer_id.as_str(), peer_id) {
                self.peer_slots[i].silence();
            }
            i += 1;
        }
        drop_identity(&mut self.peer_identity_map, peer_id);
        proof {
            self.slot_table.lemma_wf_is_valid();
            assert(self@.slots =~= s.peer_removed(peer_id@).slots);
            assert(self@ =~= s.peer_removed(peer_id@));
        }
    }

    /// Current interval index, if any.
    pub fn current_interval(&self) -> (r: Option<i64>)
        ensures
            r == self@.current,
    {
        self.current_interval
    }

    /// Number of samples currently recorded in the record slot.
    pub fn record_position(&self) -> (r: usize)
        ensures
            r == self@.record.len(),
    {
        self.record_slot.len()
    }

    /// Number of samples remaining in the playback slot.
    pub fn playback_remaining(&self) -> (r: usize)
        requires
            self.wf(),
        ensures
            r == self@.playback.len() - self@.playback_pos,
    {
        self.playback_slot.len() - self.playback_pos
    }

    /// Number of remote intervals pending for next playback.
    pub fn pending_remote_count(&self) -> (r: usize)
        ensures
            r == self@.pending.len(),
    {
        self.pending_remote.len()
    }

    /// The per-peer-stream playback slots (up to MAX_REMOTE_PEERS).
    pub fn peer_playback_slots(&self) -> (r: &[PeerSlot])
        ensures
            slot_states(r@) == self@.slots,
    {
        self.peer_slots.as_slice()
    }

    /// Access the underlying slot table (for diagnostics / UI).
    pub fn slot_table(&self) -> (r: &SlotTable)
        requires
            self.wf(),
        ensures
            r@ == self@.table,
            r.wf(),
    {
        &self.slot_table
    }

    /// Bars per interval.
    pub fn bars(&self) -> (r: u32)
        ensures
            r == self@.bars,
    {
        self.bars
    }

    /// Beats per bar, as the bit pattern of a double.
    pub fn quantum_bits(&self) -> (r: u64)
        ensures
            r == self@.quantum,
    {
        self.quantum_bits
    }

    /// Samples per second.
    pub fn sample_rate(&self) -> (r: u32)
        ensures
            r == self@.sample_rate,
    {
        self.sample_rate
    }

    /// Interleaved channels.
    pub fn channels(&self) -> (r: u16)
        ensures
            r == self@.channels,
    {
        self.channels
    }
}

/// What a list of active slots says.
pub open spec fn active_views(s: Seq<(usize, String, u16)>) -> Seq<(usize, Seq<char>, u16)> {
    s.map_values(|e: (usize, String, u16)| (e.0, e.1@, e.2))
}

} // verus!
