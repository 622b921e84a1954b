//! Laws of the interval ring: what a boundary does, what is heard, and how slots
//! follow peers.

use vstd::prelude::*;

use crate::ring_state::{PendingState, RingState, SlotState, SILENCE, XFADE_SAMPLES};
use crate::slot::{ChannelKey, Entry, MAX_SLOTS};

verus! {

/// What mixing waiting audio never touches.
pub open spec fn same_frame(s: RingState, t: RingState) -> bool {
    t == RingState { playback: t.playback, slots: t.slots, table: t.table, ..s }
}

pub proof fn lemma_step_keeps_frame<M: Fn(u32, u32) -> u32, F: Fn(u32, u32, usize, usize) -> u32>(
    mix: M,
    fade: F,
    s: RingState,
    p: PendingState,
    t: RingState,
)
    requires
        crate::ring_state::mix_step(mix, fade, s, p, t),
        s.playback.len() <= s.capacity,
        s.table.valid(),
        s.slots.len() == MAX_SLOTS,
    ensures
        same_frame(s, t),
        t.table.valid(),
        t.playback.len() == crate::ring_state::min_len(
            crate::ring_state::max_len(s.playback.len(), p.samples.len()),
            s.capacity,
        ),
        t.slots.len() == s.slots.len(),
{
    let k = s.channel_of(p.peer, p.stream);
    crate::slot_laws::law_assign_keeps_table_valid(s.table, k);
    crate::slot_laws::law_assign_keeps_table_valid(s.table.assigned(k), s.channel_of(p.peer, 0));
    match s.table.assigned_slot(k) {
        Some(i) => {},
        None => match s.table.assigned(k).slot_of(s.channel_of(p.peer, 0)) {
            Some(i) => {},
            None => {},
        },
    }
}

/// The length of the longest piece of audio.
pub open spec fn longest(due: Seq<PendingState>) -> nat
    decreases due.len(),
{
    if due.len() == 0 {
        0
    } else {
        crate::ring_state::max_len(longest(due.drop_last()), due.last().samples.len())
    }
}

pub proof fn lemma_trace_keeps_frame<M: Fn(u32, u32) -> u32, F: Fn(u32, u32, usize, usize) -> u32>(
    mix: M,
    fade: F,
    due: Seq<PendingState>,
    trace: Seq<RingState>,
    n: int,
)
    requires
        crate::ring_state::is_trace(mix, fade, due, trace),
        trace[0].playback.len() == 0,
        trace[0].table.valid(),
        trace[0].slots.len() == MAX_SLOTS,
        0 <= n <= due.len(),
    ensures
        same_frame(trace[0], trace[n]),
        trace[n].table.valid(),
        trace[n].playback.len() == crate::ring_state::min_len(
            longest(due.take(n)),
            trace[0].capacity,
        ),
        trace[n].slots.len() == trace[0].slots.len(),
    decreases n,
{
    if n > 0 {
        lemma_trace_keeps_frame(mix, fade, due, trace, n - 1);
        assert(crate::ring_state::mix_step(mix, fade, trace[n - 1], due[n - 1], trace[n - 1 + 1]));
        lemma_step_keeps_frame(mix, fade, trace[n - 1], due[n - 1], trace[n]);
        assert(due.take(n).drop_last() =~= due.take(n - 1));
        assert(due.take(n).last() == due[n - 1]);
    }
}

/// At a boundary the recording is handed over whole, recording and playback start
/// over, audio for other intervals goes on waiting, and the playback is as long as
/// the longest due audio, within the capacity.
pub proof fn law_boundary<M: Fn(u32, u32) -> u32, F: Fn(u32, u32, usize, usize) -> u32>(
    mix: M,
    fade: F,
    s: RingState,
    completed: i64,
    t: RingState,
)
    requires
        s.valid(),
        crate::ring_state::swapped(mix, fade, s, completed, t),
    ensures
        same_frame(s.turned(completed), t),
        t.playback.len() == crate::ring_state::min_len(longest(s.due(completed)), s.capacity),
        t.slots.len() == s.slots.len(),
{
    let trace = choose|trace: Seq<RingState>|
        {
            &&& #[trigger] crate::ring_state::is_trace(mix, fade, s.due(completed), trace)
            &&& trace[0] == s.turned(completed)
            &&& trace.last() == t
        };
    let due = s.due(completed);
    lemma_trace_keeps_frame(mix, fade, due, trace, due.len() as int);
    assert(due.take(due.len() as int) =~= due);
}

/// When nothing is due at a boundary, every buffer of the next interval is silent
/// until audio arrives.
pub proof fn law_nothing_due_is_silent<
    M: Fn(u32, u32) -> u32,
    F: Fn(u32, u32, usize, usize) -> u32,
>(mix: M, fade: F, s: RingState, completed: i64, t: RingState, wanted: nat)
    requires
        s.valid(),
        crate::ring_state::swapped(mix, fade, s, completed, t),
        s.due(completed).len() == 0,
    ensures
        t == s.turned(completed),
        t.heard(wanted) == crate::ring_state::silence(wanted),
{
    law_boundary(mix, fade, s, completed, t);
    let trace = choose|trace: Seq<RingState>|
        {
            &&& #[trigger] crate::ring_state::is_trace(mix, fade, s.due(completed), trace)
            &&& trace[0] == s.turned(completed)
            &&& trace.last() == t
        };
    assert(trace.len() == 1);
    assert(t.heard(wanted) =~= crate::ring_state::silence(wanted));
}

/// What a peer sent during one interval is heard during the next: when its audio
/// is all that is due and its stream gets a slot, both the slot and the mix hold
/// that audio, sample by sample, past the crossfade window.
pub proof fn law_previous_interval_is_heard<
    M: Fn(u32, u32) -> u32,
    F: Fn(u32, u32, usize, usize) -> u32,
>(mix: M, fade: F, s: RingState, completed: i64, t: RingState, p: PendingState, slot: usize)
    requires
        s.valid(),
        crate::ring_state::swapped(mix, fade, s, completed, t),
        s.due(completed) == seq![p],
        s.table.assigned_slot(s.channel_of(p.peer, p.stream)) == Some(slot),
        slot < MAX_SLOTS,
    ensures
        crate::ring_state::plays(t.slots[slot as int], p.peer, p.stream),
        t.slots[slot as int].samples.len() == p.samples.len(),
        forall|j: int|
            XFADE_SAMPLES <= j < p.samples.len() ==> #[trigger] t.slots[slot as int].samples[j]
                == p.samples[j],
        forall|j: int|
            0 <= j < t.playback.len() ==> call_ensures(
                mix,
                (SILENCE, t.slots[slot as int].samples[j]),
                #[trigger] t.playback[j],
            ),
{
    law_boundary(mix, fade, s, completed, t);
    let due = s.due(completed);
    let trace = choose|trace: Seq<RingState>|
        {
            &&& #[trigger] crate::ring_state::is_trace(mix, fade, s.due(completed), trace)
            &&& trace[0] == s.turned(completed)
            &&& trace.last() == t
        };
    assert(due[0] == p);
    assert(crate::ring_state::mix_step(mix, fade, trace[0], due[0], trace[0int + 1]));
    assert(t == trace[1]);
    let s0 = trace[0];
    let samples = t.slots[slot as int].samples;
    assert(crate::ring_state::mixed(mix, s0.playback, samples, s0.capacity, t.playback));
    let cut = samples.take(
        crate::ring_state::min_len(samples.len(), s0.capacity) as int,
    );
    assert forall|j: int| 0 <= j < t.playback.len() implies call_ensures(
        mix,
        (SILENCE, samples[j]),
        #[trigger] t.playback[j],
    ) by {
        assert(t.playback.len() == cut.len());
        assert(cut[j] == samples[j]);
        assert(crate::ring_state::sample_or_silence(s0.playback, j) == SILENCE);
    }
}

/// Whether `p`, which found no slot at the boundary from `s` to `t`, is mixed into
/// the slot of channel `k` instead.
pub open spec fn overflows_into(
    s: RingState,
    t: RingState,
    p: PendingState,
    k: ChannelKey,
) -> bool {
    &&& t.table.slot_of(s.channel_of(p.peer, p.stream)) is None
    &&& s.channel_of(p.peer, 0) == k
}

/// Whether the due piece at `n` is alone in its slot: no other due piece is of the
/// same channel or is mixed into its slot for want of another.
pub open spec fn is_alone(s: RingState, t: RingState, due: Seq<PendingState>, n: int) -> bool {
    let k = s.channel_of(due[n].peer, due[n].stream);
    forall|m: int|
        0 <= m < due.len() && m != n ==> s.channel_of(
            (#[trigger] due[m]).peer,
            due[m].stream,
        ) != k && !overflows_into(s, t, due[m], k)
}

/// A channel that holds a slot, and a full table, stay as they are while due audio
/// is mixed.
proof fn lemma_trace_keeps_held<M: Fn(u32, u32) -> u32, F: Fn(u32, u32, usize, usize) -> u32>(
    mix: M,
    fade: F,
    due: Seq<PendingState>,
    trace: Seq<RingState>,
    a: int,
    b: int,
    k: ChannelKey,
)
    requires
        crate::ring_state::is_trace(mix, fade, due, trace),
        trace[0].playback.len() == 0,
        trace[0].table.valid(),
        trace[0].slots.len() == MAX_SLOTS,
        0 <= a <= b <= due.len(),
    ensures
        trace[a].table.slot_of(k) is Some ==> trace[b].table.slot_of(k)
            == trace[a].table.slot_of(k),
        crate::slot::is_full(trace[a].table.active) ==> trace[b].table.active
            == trace[a].table.active,
    decreases b - a,
{
    if a < b {
        lemma_trace_keeps_held(mix, fade, due, trace, a, b - 1, k);
        lemma_trace_keeps_frame(mix, fade, due, trace, b - 1);
        let s = trace[b - 1];
        let p = due[b - 1];
        assert(crate::ring_state::mix_step(mix, fade, s, p, trace[b - 1 + 1]));
        let q = s.channel_of(p.peer, p.stream);
        assert(trace[b].table == s.table.assigned(q));
        if q != k {
            crate::slot_laws::law_assign_keeps_other_slots(s.table, q, k);
        }
        if crate::slot::is_full(s.table.active) {
            crate::slot_laws::lemma_full_stays(s.table, q);
        }
    }
}

/// Slot `b` is slot `a` if that plays the stream, and does not play it otherwise.
spec fn unmoved(a: SlotState, b: SlotState, peer: Seq<char>, stream: u16) -> bool {
    if crate::ring_state::plays(a, peer, stream) {
        b == a
    } else {
        !crate::ring_state::plays(b, peer, stream)
    }
}

/// A step for another channel leaves the slot of a stream alone.
proof fn lemma_step_spares_slot<M: Fn(u32, u32) -> u32, F: Fn(u32, u32, usize, usize) -> u32>(
    mix: M,
    fade: F,
    due: Seq<PendingState>,
    trace: Seq<RingState>,
    m: int,
    peer: Seq<char>,
    stream: u16,
    slot: usize,
)
    requires
        crate::ring_state::is_trace(mix, fade, due, trace),
        trace[0].playback.len() == 0,
        trace[0].table.valid(),
        trace[0].slots.len() == MAX_SLOTS,
        0 <= m < due.len(),
        trace[0].channel_of(due[m].peer, due[m].stream) != trace[0].channel_of(peer, stream),
        !overflows_into(trace[0], trace.last(), due[m], trace[0].channel_of(peer, stream)),
        trace.last().table.slot_of(trace[0].channel_of(peer, stream)) == Some(slot),
    ensures
        unmoved(trace[m].slots[slot as int], trace[m + 1].slots[slot as int], peer, stream),
{
    let k = trace[0].channel_of(peer, stream);
    let len = due.len() as int;
    let s = trace[m];
    let t = trace[m + 1];
    let p = due[m];
    assert(crate::ring_state::mix_step(mix, fade, s, p, t));
    lemma_trace_keeps_frame(mix, fade, due, trace, m);
    lemma_trace_keeps_frame(mix, fade, due, trace, m + 1);
    lemma_trace_keeps_frame(mix, fade, due, trace, len);
    let q = s.channel_of(p.peer, p.stream);
    crate::slot_laws::lemma_assigned_is_held(s.table, q);
    crate::slot_laws::law_assign_keeps_table_valid(s.table, q);
    crate::slot_laws::law_assign_keeps_table_valid(trace[len].table, k);
    match s.table.assigned_slot(q) {
        Some(i) => {
            lemma_trace_keeps_held(mix, fade, due, trace, m + 1, len, q);
            crate::slot_laws::law_channels_hold_different_slots(trace[len].table, q, k);
            assert(!(p.peer == peer && p.stream == stream));
            assert(t.slots[slot as int] == crate::ring_state::muted_but(
                s.slots,
                p.peer,
                p.stream,
                i as int,
            )[slot as int]);
        },
        None => {
            lemma_trace_keeps_held(mix, fade, due, trace, m + 1, len, q);
            let q0 = s.channel_of(p.peer, 0);
            assert(trace[len].table.slot_of(q) is None);
            if t.table.slot_of(q0) is Some {
                crate::slot_laws::law_assign_keeps_table_valid(t.table, q0);
                lemma_trace_keeps_held(mix, fade, due, trace, m + 1, len, q0);
                crate::slot_laws::law_channels_hold_different_slots(trace[len].table, q0, k);
            }
        },
    }
}

/// Steps for other channels leave the slot of a stream alone.
proof fn lemma_steps_spare_slot<M: Fn(u32, u32) -> u32, F: Fn(u32, u32, usize, usize) -> u32>(
    mix: M,
    fade: F,
    due: Seq<PendingState>,
    trace: Seq<RingState>,
    a: int,
    b: int,
    peer: Seq<char>,
    stream: u16,
    slot: usize,
)
    requires
        crate::ring_state::is_trace(mix, fade, due, trace),
        trace[0].playback.len() == 0,
        trace[0].table.valid(),
        trace[0].slots.len() == MAX_SLOTS,
        0 <= a <= b <= due.len(),
        forall|m: int|
            a <= m < b ==> trace[0].channel_of((#[trigger] due[m]).peer, due[m].stream)
                != trace[0].channel_of(peer, stream) && !overflows_into(
                trace[0],
                trace.last(),
                due[m],
                trace[0].channel_of(peer, stream),
            ),
        trace.last().table.slot_of(trace[0].channel_of(peer, stream)) == Some(slot),
    ensures
        unmoved(trace[a].slots[slot as int], trace[b].slots[slot as int], peer, stream),
    decreases b - a,
{
    if a < b {
        lemma_steps_spare_slot(mix, fade, due, trace, a, b - 1, peer, stream, slot);
        lemma_step_spares_slot(mix, fade, due, trace, b - 1, peer, stream, slot);
    }
}

/// What the slot of the due piece at `n` holds in the end.
proof fn lemma_slot_holds_piece<M: Fn(u32, u32) -> u32, F: Fn(u32, u32, usize, usize) -> u32>(
    mix: M,
    fade: F,
    due: Seq<PendingState>,
    trace: Seq<RingState>,
    n: int,
    slot: usize,
)
    requires
        crate::ring_state::is_trace(mix, fade, due, trace),
        trace[0].playback.len() == 0,
        trace[0].table.valid(),
        trace[0].slots.len() == MAX_SLOTS,
        0 <= n < due.len(),
        is_alone(trace[0], trace.last(), due, n),
        trace.last().table.slot_of(trace[0].channel_of(due[n].peer, due[n].stream)) == Some(slot),
    ensures
        slot < MAX_SLOTS,
        trace[n].table.assigned_slot(trace[0].channel_of(due[n].peer, due[n].stream)) == Some(slot),
        trace[n].channel_of(due[n].peer, due[n].stream) == trace[0].channel_of(
            due[n].peer,
            due[n].stream,
        ),
        crate::ring_state::tuned(trace[n].slots[slot as int], due[n].peer, due[n].stream).tail
            == crate::ring_state::tuned(
            trace[0].slots[slot as int],
            due[n].peer,
            due[n].stream,
        ).tail,
        trace.last().slots[slot as int] == trace[n + 1].slots[slot as int],
{
    let len = due.len() as int;
    let p = due[n];
    let k = trace[0].channel_of(p.peer, p.stream);
    lemma_trace_keeps_frame(mix, fade, due, trace, n);
    lemma_trace_keeps_frame(mix, fade, due, trace, len);
    crate::slot_laws::law_assign_keeps_table_valid(trace[len].table, k);
    lemma_steps_spare_slot(mix, fade, due, trace, 0, n, p.peer, p.stream, slot);
    lemma_steps_spare_slot(mix, fade, due, trace, n + 1, len, p.peer, p.stream, slot);
    assert(crate::ring_state::mix_step(mix, fade, trace[n], due[n], trace[n + 1]));
    crate::slot_laws::lemma_assigned_is_held(trace[n].table, k);
    lemma_trace_keeps_held(mix, fade, due, trace, n + 1, len, k);
    assert(crate::ring_state::plays(trace[n + 1].slots[slot as int], p.peer, p.stream));
}

/// What each peer sent during one interval is heard during the next, however many
/// peers there are: the slot that a stream holds after the boundary plays that
/// stream's audio and nothing else, its head blended with what the slot played last.
///
/// This is so for every due piece that is alone in its slot.
pub proof fn law_every_stream_is_heard<
    M: Fn(u32, u32) -> u32,
    F: Fn(u32, u32, usize, usize) -> u32,
>(mix: M, fade: F, s: RingState, completed: i64, t: RingState, n: int, slot: usize)
    requires
        s.valid(),
        crate::ring_state::swapped(mix, fade, s, completed, t),
        0 <= n < s.due(completed).len(),
        is_alone(s, t, s.due(completed), n),
        t.table.slot_of(s.channel_of(s.due(completed)[n].peer, s.due(completed)[n].stream)) == Some(
            slot,
        ),
    ensures
        ({
            let p = s.due(completed)[n];
            let before = crate::ring_state::tuned(
                crate::ring_state::emptied(s.slots[slot as int]),
                p.peer,
                p.stream,
            );
            let after = t.slots[slot as int];
            &&& crate::ring_state::plays(after, p.peer, p.stream)
            &&& after.read_pos == 0
            &&& crate::ring_state::crossfaded(fade, p.samples, before.tail, after.samples)
            &&& forall|j: int|
                XFADE_SAMPLES <= j < p.samples.len() ==> #[trigger] after.samples[j]
                    == p.samples[j]
        }),
{
    let due = s.due(completed);
    let trace = choose|trace: Seq<RingState>|
        {
            &&& #[trigger] crate::ring_state::is_trace(mix, fade, s.due(completed), trace)
            &&& trace[0] == s.turned(completed)
            &&& trace.last() == t
        };
    assert(is_alone(trace[0], t, due, n));
    lemma_slot_holds_piece(mix, fade, due, trace, n, slot);
    lemma_trace_keeps_frame(mix, fade, due, trace, n);
    assert(crate::ring_state::mix_step(mix, fade, trace[n], due[n], trace[n + 1]));
    assert(trace[0].slots[slot as int] == crate::ring_state::emptied(s.slots[slot as int]));
}

/// `sums` adds up position `j` of the parts, one after the other, from silence.
pub open spec fn adds_up<M: Fn(u32, u32) -> u32>(
    mix: M,
    parts: Seq<Seq<u32>>,
    j: int,
    sums: Seq<u32>,
) -> bool {
    &&& sums.len() == parts.len() + 1
    &&& sums[0] == SILENCE
    &&& forall|i: int|
        0 <= i < parts.len() ==> if j < (#[trigger] parts[i]).len() {
            call_ensures(mix, (sums[i], parts[i][j]), sums[i + 1])
        } else {
            sums[i + 1] == sums[i]
        }
}

/// `v` is what position `j` of the parts adds up to.
pub open spec fn sums_to<M: Fn(u32, u32) -> u32>(
    mix: M,
    parts: Seq<Seq<u32>>,
    j: int,
    v: u32,
) -> bool {
    exists|sums: Seq<u32>| #[trigger] adds_up(mix, parts, j, sums) && sums.last() == v
}

/// What the slots of the due pieces play after the boundary from `s` to `t`.
pub open spec fn played_parts(s: RingState, t: RingState, due: Seq<PendingState>) -> Seq<Seq<u32>> {
    Seq::new(
        due.len(),
        |i: int|
            t.slots[t.table.slot_of(s.channel_of(due[i].peer, due[i].stream))->0 as int].samples,
    )
}

/// The shared playback is the sum of all streams: each of its samples adds up what
/// the slots of the due pieces play there, in the order in which they came.
///
/// This is so where every due piece has a slot, alone.
pub proof fn law_playback_sums_all_streams<
    M: Fn(u32, u32) -> u32,
    F: Fn(u32, u32, usize, usize) -> u32,
>(mix: M, fade: F, s: RingState, completed: i64, t: RingState, j: int)
    requires
        s.valid(),
        crate::ring_state::swapped(mix, fade, s, completed, t),
        forall|n: int|
            0 <= n < s.due(completed).len() ==> #[trigger] is_alone(s, t, s.due(completed), n),
        forall|n: int|
            0 <= n < s.due(completed).len() ==> t.table.slot_of(
                s.channel_of((#[trigger] s.due(completed)[n]).peer, s.due(completed)[n].stream),
            ) is Some,
        0 <= j < t.playback.len(),
    ensures
        sums_to(mix, played_parts(s, t, s.due(completed)), j, t.playback[j]),
{
    let due = s.due(completed);
    let trace = choose|trace: Seq<RingState>|
        {
            &&& #[trigger] crate::ring_state::is_trace(mix, fade, s.due(completed), trace)
            &&& trace[0] == s.turned(completed)
            &&& trace.last() == t
        };
    let parts = played_parts(s, t, due);
    let sums = Seq::new(
        trace.len(),
        |i: int| crate::ring_state::sample_or_silence(trace[i].playback, j),
    );
    law_boundary(mix, fade, s, completed, t);
    assert forall|i: int| 0 <= i < parts.len() implies if j < (#[trigger] parts[i]).len() {
        call_ensures(mix, (sums[i], parts[i][j]), sums[i + 1])
    } else {
        sums[i + 1] == sums[i]
    } by {
        let k = s.channel_of(due[i].peer, due[i].stream);
        assert(t.table.slot_of(s.channel_of(due[i].peer, due[i].stream)) is Some);
        let slot = t.table.slot_of(k)->0;
        assert(is_alone(s, t, due, i));
        assert(is_alone(trace[0], t, due, i));
        lemma_slot_holds_piece(mix, fade, due, trace, i, slot);
        lemma_trace_keeps_frame(mix, fade, due, trace, i);
        assert(crate::ring_state::mix_step(mix, fade, trace[i], due[i], trace[i + 1]));
        let samples = trace[i + 1].slots[slot as int].samples;
        assert(parts[i] == samples);
        let cap = trace[i].capacity;
        let cut = samples.take(crate::ring_state::min_len(samples.len(), cap) as int);
        let out = trace[i + 1].playback;
        assert(crate::ring_state::mixed_at(mix, trace[i].playback, 0, cut, out));
        assert(j < cap);
        if j < samples.len() {
            assert(j < cut.len());
            assert(cut[j] == samples[j]);
            assert(j < out.len());
            assert(call_ensures(
                mix,
                (crate::ring_state::sample_or_silence(trace[i].playback, j), cut[j - 0]),
                out[j],
            ));
        } else if j < out.len() {
            assert(out[j] == crate::ring_state::sample_or_silence(trace[i].playback, j));
        }
    }
    assert(adds_up(mix, parts, j, sums));
    assert(sums.last() == t.playback[j]);
}

/// Whether slot `i` is the slot of one of the due pieces.
pub open spec fn has_due(s: RingState, t: RingState, due: Seq<PendingState>, i: int) -> bool {
    exists|n: int|
        0 <= n < due.len() && t.table.slot_of(
            s.channel_of((#[trigger] due[n]).peer, due[n].stream),
        ) == Some(i as usize)
}

/// A slot without due audio is silent however many pieces were mixed.
proof fn lemma_slot_stays_empty<M: Fn(u32, u32) -> u32, F: Fn(u32, u32, usize, usize) -> u32>(
    mix: M,
    fade: F,
    due: Seq<PendingState>,
    trace: Seq<RingState>,
    n: int,
    i: int,
)
    requires
        crate::ring_state::is_trace(mix, fade, due, trace),
        trace[0].playback.len() == 0,
        trace[0].table.valid(),
        trace[0].slots.len() == MAX_SLOTS,
        0 <= n <= due.len(),
        0 <= i < MAX_SLOTS,
        trace[0].slots[i].samples.len() == 0,
        forall|m: int|
            0 <= m < due.len() ==> trace.last().table.slot_of(
                trace[0].channel_of((#[trigger] due[m]).peer, due[m].stream),
            ) is Some,
        !has_due(trace[0], trace.last(), due, i),
    ensures
        trace[n].slots[i].samples.len() == 0,
    decreases n,
{
    if n > 0 {
        let m = n - 1;
        let len = due.len() as int;
        lemma_slot_stays_empty(mix, fade, due, trace, m, i);
        let s = trace[m];
        let p = due[m];
        assert(crate::ring_state::mix_step(mix, fade, s, p, trace[m + 1]));
        lemma_trace_keeps_frame(mix, fade, due, trace, m);
        lemma_trace_keeps_frame(mix, fade, due, trace, m + 1);
        let q = s.channel_of(p.peer, p.stream);
        assert(trace.last().table.slot_of(trace[0].channel_of(p.peer, p.stream)) is Some);
        crate::slot_laws::lemma_assigned_is_held(s.table, q);
        crate::slot_laws::law_assign_keeps_table_valid(s.table, q);
        lemma_trace_keeps_held(mix, fade, due, trace, m + 1, len, q);
        match s.table.assigned_slot(q) {
            Some(x) => {
                assert(x != i);
                assert(trace[n].slots[i] == crate::ring_state::muted_but(
                    s.slots,
                    p.peer,
                    p.stream,
                    x as int,
                )[i]);
            },
            None => {},
        }
    }
}

/// A boundary plays exactly what is due: the shared playback is as long as the longest
/// due piece, within the capacity; each of its samples adds up what the slots of the
/// due pieces play there; and a slot without due audio plays nothing.
///
/// This is so where every due piece has a slot, alone.
pub proof fn law_boundary_plays_what_is_due<
    M: Fn(u32, u32) -> u32,
    F: Fn(u32, u32, usize, usize) -> u32,
>(mix: M, fade: F, s: RingState, completed: i64, t: RingState)
    requires
        s.valid(),
        crate::ring_state::swapped(mix, fade, s, completed, t),
        forall|n: int|
            0 <= n < s.due(completed).len() ==> #[trigger] is_alone(s, t, s.due(completed), n),
        forall|n: int|
            0 <= n < s.due(completed).len() ==> t.table.slot_of(
                s.channel_of((#[trigger] s.due(completed)[n]).peer, s.due(completed)[n].stream),
            ) is Some,
    ensures
        t.playback_pos == 0,
        t.playback.len() == crate::ring_state::min_len(longest(s.due(completed)), s.capacity),
        forall|j: int|
            0 <= j < t.playback.len() ==> sums_to(
                mix,
                played_parts(s, t, s.due(completed)),
                j,
                #[trigger] t.playback[j],
            ),
        forall|i: int|
            0 <= i < t.slots.len() && !has_due(s, t, s.due(completed), i) ==> (
            #[trigger] t.slots[i]).samples.len() == 0,
{
    let due = s.due(completed);
    law_boundary(mix, fade, s, completed, t);
    assert forall|j: int| 0 <= j < t.playback.len() implies sums_to(
        mix,
        played_parts(s, t, due),
        j,
        #[trigger] t.playback[j],
    ) by {
        law_playback_sums_all_streams(mix, fade, s, completed, t, j);
    }
    let trace = choose|trace: Seq<RingState>|
        {
            &&& #[trigger] crate::ring_state::is_trace(mix, fade, s.due(completed), trace)
            &&& trace[0] == s.turned(completed)
            &&& trace.last() == t
        };
    assert forall|i: int| 0 <= i < t.slots.len() && !has_due(s, t, due, i) implies (
    #[trigger] t.slots[i]).samples.len() == 0 by {
        assert(trace[0].slots[i] == crate::ring_state::emptied(s.slots[i]));
        assert forall|m: int| 0 <= m < due.len() implies t.table.slot_of(
            trace[0].channel_of((#[trigger] due[m]).peer, due[m].stream),
        ) is Some by {
            assert(t.table.slot_of(s.channel_of(due[m].peer, due[m].stream)) is Some);
        }
        assert(!has_due(trace[0], t, due, i)) by {
            if has_due(trace[0], t, due, i) {
                let n = choose|n: int|
                    0 <= n < due.len() && t.table.slot_of(
                        trace[0].channel_of((#[trigger] due[n]).peer, due[n].stream),
                    ) == Some(i as usize);
                assert(t.table.slot_of(s.channel_of(due[n].peer, due[n].stream)) == Some(
                    i as usize,
                ));
            }
        }
        lemma_slot_stays_empty(mix, fade, due, trace, due.len() as int, i);
    }
}

/// The first buffer of an interval finds the ring at a boundary: it plays exactly what is
/// due, as a boundary does.
pub proof fn law_next_interval_plays_what_is_due<
    M: Fn(u32, u32) -> u32,
    F: Fn(u32, u32, usize, usize) -> u32,
>(mix: M, fade: F, s: RingState, completed: i64, index: i64, t: RingState)
    requires
        s.valid(),
        s.current == Some(completed),
        completed != index,
        crate::ring_state::reached(mix, fade, s, index, t),
        forall|n: int|
            0 <= n < s.due(completed).len() ==> #[trigger] is_alone(s, t, s.due(completed), n),
        forall|n: int|
            0 <= n < s.due(completed).len() ==> t.table.slot_of(
                s.channel_of((#[trigger] s.due(completed)[n]).peer, s.due(completed)[n].stream),
            ) is Some,
    ensures
        t.current == Some(index),
        t.playing == Some(completed),
        t.playback_pos == 0,
        t.playback.len() == crate::ring_state::min_len(longest(s.due(completed)), s.capacity),
        forall|j: int|
            0 <= j < t.playback.len() ==> sums_to(
                mix,
                played_parts(s, t, s.due(completed)),
                j,
                #[trigger] t.playback[j],
            ),
        forall|i: int|
            0 <= i < t.slots.len() && !has_due(s, t, s.due(completed), i) ==> (
            #[trigger] t.slots[i]).samples.len() == 0,
{
    let r = s.stocked();
    let due = s.due(completed);
    let m = choose|m: RingState|
        #[trigger] crate::ring_state::swapped(mix, fade, r, completed, m) && t == RingState {
            current: Some(index),
            ..m
        };
    assert(r.due(completed) == due);
    assert forall|n: int| 0 <= n < due.len() implies #[trigger] is_alone(r, m, due, n) by {
        assert(is_alone(s, t, due, n));
        let k = s.channel_of(due[n].peer, due[n].stream);
        assert forall|i: int| 0 <= i < due.len() && i != n implies r.channel_of(
            (#[trigger] due[i]).peer,
            due[i].stream,
        ) != k && !overflows_into(r, m, due[i], k) by {
            assert(s.channel_of(due[i].peer, due[i].stream) != k && !overflows_into(
                s,
                t,
                due[i],
                k,
            ));
        }
    }
    law_boundary_plays_what_is_due(mix, fade, r, completed, m);
    let trace = choose|trace: Seq<RingState>|
        {
            &&& #[trigger] crate::ring_state::is_trace(mix, fade, due, trace)
            &&& trace[0] == r.turned(completed)
            &&& trace.last() == m
        };
    lemma_trace_keeps_frame(mix, fade, due, trace, due.len() as int);
    assert(played_parts(r, m, due) =~= played_parts(s, t, due));
    assert forall|i: int| 0 <= i < t.slots.len() && !has_due(s, t, due, i) implies (
    #[trigger] t.slots[i]).samples.len() == 0 by {
        assert(!has_due(r, m, due, i));
    }
}

/// Two lists of slots agree everywhere but at `i`, and where a stream played.
pub open spec fn same_but_for(
    a: Seq<SlotState>,
    b: Seq<SlotState>,
    i: int,
    peer: Seq<char>,
    stream: u16,
) -> bool {
    &&& a.len() == b.len()
    &&& forall|j: int|
        0 <= j < a.len() && j != i && !crate::ring_state::plays(a[j], peer, stream)
            ==> #[trigger] b[j] == a[j]
}

/// Mixing one piece of audio touches one slot at most besides those that played its
/// stream.
pub proof fn law_streams_are_isolated<
    M: Fn(u32, u32) -> u32,
    F: Fn(u32, u32, usize, usize) -> u32,
>(mix: M, fade: F, s: RingState, p: PendingState, t: RingState)
    requires
        s.valid(),
        crate::ring_state::mix_step(mix, fade, s, p, t),
    ensures
        exists|i: int| same_but_for(s.slots, t.slots, i, p.peer, p.stream),
{
    let k = s.channel_of(p.peer, p.stream);
    lemma_step_keeps_frame(mix, fade, s, p, t);
    crate::slot_laws::law_assign_keeps_table_valid(s.table, k);
    crate::slot_laws::law_assign_keeps_table_valid(s.table.assigned(k), s.channel_of(p.peer, 0));
    let i = match s.table.assigned_slot(k) {
        Some(i) => i as int,
        None => match s.table.assigned(k).slot_of(s.channel_of(p.peer, 0)) {
            Some(i) => i as int,
            None => 0,
        },
    };
    assert(same_but_for(s.slots, t.slots, i, p.peer, p.stream));
}

/// A boundary is reported once: the interval that was reached is current, so
/// reaching it again completes nothing.
pub proof fn law_boundary_fires_once<
    M: Fn(u32, u32) -> u32,
    F: Fn(u32, u32, usize, usize) -> u32,
>(mix: M, fade: F, s: RingState, index: i64, t: RingState)
    requires
        crate::ring_state::reached(mix, fade, s, index, t),
    ensures
        t.current == Some(index),
        crate::ring_state::completed_by(t.current, index) is None,
{
}

/// The audio that waits for a stream and an interval.
pub open spec fn waiting(
    pending: Seq<PendingState>,
    peer: Seq<char>,
    stream: u16,
    index: i64,
) -> Seq<u32> {
    if exists|i: int| crate::ring_state::is_pending_at(pending, peer, stream, index, i) {
        let i = choose|i: int| crate::ring_state::is_pending_at(pending, peer, stream, index, i);
        pending[i].samples
    } else {
        Seq::empty()
    }
}

/// Audio fed for an interval that is not playing yet is due when that interval
/// completes, behind what was fed for it before.
pub proof fn law_fed_audio_becomes_due<M: Fn(u32, u32) -> u32>(
    mix: M,
    s: RingState,
    peer: Seq<char>,
    stream: u16,
    index: i64,
    samples: Seq<u32>,
    t: RingState,
)
    requires
        s.playing != Some(index) || crate::ring_state::peer_slot(s.slots, peer, stream) is None,
        crate::ring_state::fed(mix, s, peer, stream, index, samples, t),
    ensures
        t.due(index).contains(
            PendingState {
                index,
                peer,
                stream,
                samples: waiting(s.pending, peer, stream, index) + samples,
            },
        ),
{
    let q = s.pending;
    let e = PendingState {
        index,
        peer,
        stream,
        samples: waiting(q, peer, stream, index) + samples,
    };
    let i = if exists|i: int| crate::ring_state::is_pending_at(q, peer, stream, index, i) {
        let i = choose|i: int| crate::ring_state::is_pending_at(q, peer, stream, index, i);
        assert(crate::ring_state::is_pending_at(q, peer, stream, index, i));
        i
    } else {
        assert(Seq::<u32>::empty() + samples =~= samples);
        q.len() as int
    };
    assert(t.pending[i] == e);
    t.pending.lemma_filter_contains(crate::ring_state::is_due(index, t.playing), i);
}

/// Feeding audio of one stream leaves the slots of all others as they were.
pub proof fn law_feeding_is_isolated<M: Fn(u32, u32) -> u32>(
    mix: M,
    s: RingState,
    peer: Seq<char>,
    stream: u16,
    index: i64,
    samples: Seq<u32>,
    t: RingState,
    j: int,
)
    requires
        crate::ring_state::fed(mix, s, peer, stream, index, samples, t),
        0 <= j < s.slots.len(),
        !crate::ring_state::plays(s.slots[j], peer, stream),
    ensures
        t.slots[j] == s.slots[j],
{
    if crate::ring_state::peer_slot(s.slots, peer, stream) is Some {
        let i = crate::ring_state::peer_slot(s.slots, peer, stream)->0;
        assert(crate::ring_state::is_peer_slot(s.slots, peer, stream, i));
    }
}

/// Audio that waits may be fed in pieces: the pieces are joined in order.
pub proof fn law_waiting_pieces_are_joined<M: Fn(u32, u32) -> u32>(
    mix: M,
    s: RingState,
    peer: Seq<char>,
    stream: u16,
    index: i64,
    a: Seq<u32>,
    b: Seq<u32>,
    t: RingState,
    u: RingState,
)
    requires
        s.playing != Some(index) || crate::ring_state::peer_slot(s.slots, peer, stream) is None,
        crate::ring_state::fed(mix, s, peer, stream, index, a, t),
        crate::ring_state::fed(mix, t, peer, stream, index, b, u),
    ensures
        crate::ring_state::fed(mix, s, peer, stream, index, a + b, u),
        t.pending.len() == u.pending.len(),
{
    let q = s.pending;
    let q1 = t.pending;
    if exists|i: int| crate::ring_state::is_pending_at(q, peer, stream, index, i) {
        let i = choose|i: int| crate::ring_state::is_pending_at(q, peer, stream, index, i);
        assert(crate::ring_state::is_pending_at(q, peer, stream, index, i));
        assert forall|j: int| 0 <= j < i implies !crate::ring_state::is_for(
            #[trigger] q1[j],
            peer,
            stream,
            index,
        ) by {
            assert(q1[j] == q[j]);
        }
        assert(crate::ring_state::is_pending_at(q1, peer, stream, index, i));
        lemma_pending_unique(q1, peer, stream, index, i);
        assert(q[i].samples + (a + b) =~= q[i].samples + a + b);
        assert(u.pending =~= crate::ring_state::queued(q, peer, stream, index, a + b));
    } else {
        let i = q.len() as int;
        assert forall|j: int| 0 <= j < i implies !crate::ring_state::is_for(
            #[trigger] q1[j],
            peer,
            stream,
            index,
        ) by {
            assert(q1[j] == q[j]);
            if crate::ring_state::is_for(q[j], peer, stream, index) {
                lemma_pending_exists(q, peer, stream, index, j);
            }
        }
        assert(crate::ring_state::is_pending_at(q1, peer, stream, index, i));
        lemma_pending_unique(q1, peer, stream, index, i);
        assert(u.pending =~= crate::ring_state::queued(q, peer, stream, index, a + b));
    }
}

/// Audio of the interval being played may be fed in pieces: they are joined in order,
/// in the slot and in the shared playback.
pub proof fn law_live_pieces_are_joined<M: Fn(u32, u32) -> u32>(
    mix: M,
    s: RingState,
    peer: Seq<char>,
    stream: u16,
    index: i64,
    a: Seq<u32>,
    b: Seq<u32>,
    t: RingState,
    u: RingState,
)
    requires
        s.playing == Some(index),
        crate::ring_state::peer_slot(s.slots, peer, stream) is Some,
        crate::ring_state::fed(mix, s, peer, stream, index, a, t),
        crate::ring_state::fed(mix, t, peer, stream, index, b, u),
    ensures
        crate::ring_state::fed(mix, s, peer, stream, index, a + b, u),
{
    let i = crate::ring_state::peer_slot(s.slots, peer, stream)->0;
    assert(crate::ring_state::is_peer_slot(s.slots, peer, stream, i));
    assert(crate::ring_state::is_peer_slot(t.slots, peer, stream, i)) by {
        assert forall|j: int| 0 <= j < i implies !crate::ring_state::plays(
            #[trigger] t.slots[j],
            peer,
            stream,
        ) by {
            assert(!crate::ring_state::plays(s.slots[j], peer, stream));
        }
    }
    lemma_peer_slot_unique(t.slots, peer, stream, i);
    let at = s.slots[i].samples.len();
    let room = if at <= s.capacity {
        (s.capacity - at) as nat
    } else {
        0
    };
    let n = crate::ring_state::min_len(a.len(), room);
    let m = crate::ring_state::min_len((a + b).len(), room);
    let taken = (a + b).take(m as int);
    if n == 0 {
        if room == 0 {
            assert(u == s);
        } else {
            assert(a + b =~= b);
        }
    } else if u == t && (b.len() == 0 || n == room) {
        assert(taken =~= a.take(n as int));
    } else {
        let c = b.take(m - n);
        assert(n == a.len());
        assert(c =~= b.take(crate::ring_state::min_len(b.len(), (room - n) as nat) as int));
        assert(taken =~= a.take(n as int) + c);
        assert(s.slots[i].samples + a.take(n as int) + c =~= s.slots[i].samples + taken);
        assert(u.slots =~= s.slots.update(
            i,
            SlotState { samples: s.slots[i].samples + taken, ..s.slots[i] },
        ));
        assert(crate::ring_state::mixed_at(mix, s.playback, at, a.take(n as int), t.playback));
        assert(crate::ring_state::mixed_at(mix, t.playback, at + n, c, u.playback));
        assert forall|j: int| 0 <= j < u.playback.len() implies if at <= j < at + taken.len() {
            call_ensures(
                mix,
                (crate::ring_state::sample_or_silence(s.playback, j), taken[j - at]),
                #[trigger] u.playback[j],
            )
        } else {
            u.playback[j] == crate::ring_state::sample_or_silence(s.playback, j)
        } by {
            if j < t.playback.len() {
                let x = t.playback[j];
            }
            if at <= j < at + n {
                assert(taken[j - at] == a.take(n as int)[j - at]);
            } else if at + n <= j < at + taken.len() {
                assert(taken[j - at] == c[j - (at + n)]);
            }
        }
        assert(crate::ring_state::mixed_at(mix, s.playback, at, taken, u.playback));
    }
}

/// Whether adding two samples always gives the same sum.
pub open spec fn adds_surely<M: Fn(u32, u32) -> u32>(mix: M) -> bool {
    forall|a: u32, b: u32, x: u32, y: u32| #[trigger]
        call_ensures(mix, (a, b), x) && #[trigger] call_ensures(mix, (a, b), y) ==> x == y
}

/// Feeding the same audio to the same ring gives the same ring.
pub proof fn law_feeding_is_determined<M: Fn(u32, u32) -> u32>(
    mix: M,
    s: RingState,
    peer: Seq<char>,
    stream: u16,
    index: i64,
    samples: Seq<u32>,
    t: RingState,
    u: RingState,
)
    requires
        adds_surely(mix),
        crate::ring_state::fed(mix, s, peer, stream, index, samples, t),
        crate::ring_state::fed(mix, s, peer, stream, index, samples, u),
    ensures
        t == u,
{
    if s.playing == Some(index) && crate::ring_state::peer_slot(s.slots, peer, stream) is Some {
        assert forall|j: int| 0 <= j < t.playback.len() && 0 <= j < u.playback.len() implies (
        #[trigger] t.playback[j]) == u.playback[j] by {}
        assert(t.playback =~= u.playback);
    }
}

/// Feeding audio in pieces and feeding it whole give the same ring, whether it waits or
/// is being played, and leave at most one more interval waiting.
pub proof fn law_pieces_are_as_good_as_the_whole<M: Fn(u32, u32) -> u32>(
    mix: M,
    s: RingState,
    peer: Seq<char>,
    stream: u16,
    index: i64,
    a: Seq<u32>,
    b: Seq<u32>,
    t: RingState,
    u: RingState,
    whole: RingState,
)
    requires
        adds_surely(mix),
        crate::ring_state::fed(mix, s, peer, stream, index, a, t),
        crate::ring_state::fed(mix, t, peer, stream, index, b, u),
        crate::ring_state::fed(mix, s, peer, stream, index, a + b, whole),
    ensures
        u == whole,
        s.pending.len() <= u.pending.len() <= s.pending.len() + 1,
{
    if s.playing == Some(index) && crate::ring_state::peer_slot(s.slots, peer, stream) is Some {
        law_live_pieces_are_joined(mix, s, peer, stream, index, a, b, t, u);
    } else {
        law_waiting_pieces_are_joined(mix, s, peer, stream, index, a, b, t, u);
    }
    law_feeding_is_determined(mix, s, peer, stream, index, a + b, u, whole);
}

pub proof fn lemma_peer_slot_unique(slots: Seq<SlotState>, peer: Seq<char>, stream: u16, i: int)
    requires
        crate::ring_state::is_peer_slot(slots, peer, stream, i),
    ensures
        crate::ring_state::peer_slot(slots, peer, stream) == Some(i),
{
    let c = choose|c: int| crate::ring_state::is_peer_slot(slots, peer, stream, c);
    assert(crate::ring_state::is_peer_slot(slots, peer, stream, c));
    if c < i {
        assert(!crate::ring_state::plays(slots[c], peer, stream));
    } else if i < c {
        assert(!crate::ring_state::plays(slots[i], peer, stream));
    }
}

proof fn lemma_pending_unique(
    q: Seq<PendingState>,
    peer: Seq<char>,
    stream: u16,
    index: i64,
    i: int,
)
    requires
        crate::ring_state::is_pending_at(q, peer, stream, index, i),
    ensures
        (choose|c: int| crate::ring_state::is_pending_at(q, peer, stream, index, c)) == i,
{
    let c = choose|c: int| crate::ring_state::is_pending_at(q, peer, stream, index, c);
    assert(crate::ring_state::is_pending_at(q, peer, stream, index, c));
    if c < i {
        assert(!crate::ring_state::is_for(q[c], peer, stream, index));
    } else if i < c {
        assert(!crate::ring_state::is_for(q[i], peer, stream, index));
    }
}

proof fn lemma_pending_exists(
    q: Seq<PendingState>,
    peer: Seq<char>,
    stream: u16,
    index: i64,
    i: int,
)
    requires
        0 <= i < q.len(),
        crate::ring_state::is_for(q[i], peer, stream, index),
    ensures
        exists|c: int| crate::ring_state::is_pending_at(q, peer, stream, index, c),
    decreases i,
{
    if exists|j: int| 0 <= j < i && crate::ring_state::is_for(#[trigger] q[j], peer, stream, index) {
        let j = choose|j: int|
            0 <= j < i && crate::ring_state::is_for(#[trigger] q[j], peer, stream, index);
        lemma_pending_exists(q, peer, stream, index, j);
    } else {
        assert(crate::ring_state::is_pending_at(q, peer, stream, index, i));
    }
}

/// A peer that was removed plays in no slot, and its identity holds none.
pub proof fn law_removed_peer_holds_nothing(s: RingState, peer: Seq<char>, stream: u16)
    ensures
        crate::ring_state::peer_slot(s.peer_removed(peer).slots, peer, stream) is None,
        s.peer_removed(peer).table.slot_of(s.channel_of(peer, stream)) is None,
{
    let t = s.peer_removed(peer);
    assert forall|i: int| !crate::ring_state::is_peer_slot(t.slots, peer, stream, i) by {
        if 0 <= i < t.slots.len() {
            let before = s.slots[i];
        }
    }
    let c = crate::ring_state::identity_of(s.identities, peer);
    let k = s.channel_of(peer, stream);
    if crate::slot::holds(t.table.active, k) {
        let i = choose|i: int| 0 <= i < t.table.active.len() && (#[trigger] t.table.active[i]).0 == k;
        s.table.active.lemma_filter_pred(crate::slot::other_client(c), i);
    }
}

/// A slot that is retuned plays its channel from silence.
pub proof fn lemma_retuned(slots: Seq<SlotState>, peer: Seq<char>, es: Seq<Entry>, i: int)
    requires
        0 <= i < es.len(),
        forall|a: int, b: int|
            0 <= a < b < es.len() ==> (#[trigger] es[a]).1 != (#[trigger] es[b]).1
                && es[a].0.channel != es[b].0.channel,
        forall|a: int| 0 <= a < es.len() ==> (#[trigger] es[a]).1 < slots.len(),
    ensures
        crate::ring_state::retuned(slots, peer, es).len() == slots.len(),
        crate::ring_state::plays(
            crate::ring_state::retuned(slots, peer, es)[es[i].1 as int],
            peer,
            es[i].0.channel,
        ),
        crate::ring_state::retuned(slots, peer, es)[es[i].1 as int].tail
            == crate::ring_state::silence(XFADE_SAMPLES as nat),
    decreases es.len(),
{
    let front = es.drop_last();
    assert forall|a: int| 0 <= a < front.len() implies (#[trigger] front[a]).1 < slots.len() by {
        assert(front[a] == es[a]);
    }
    lemma_retuned_len(slots, peer, front);
    lemma_retuned_len(slots, peer, es);
    assert(es[es.len() - 1].1 < slots.len());
    if i < front.len() {
        assert(front[i] == es[i]);
        assert forall|a: int, b: int| 0 <= a < b < front.len() implies (#[trigger] front[a]).1 != (
        #[trigger] front[b]).1 && front[a].0.channel != front[b].0.channel by {
            assert(front[a] == es[a] && front[b] == es[b]);
        }
        lemma_retuned(slots, peer, front, i);
        assert(es[i].1 != es[es.len() - 1].1);
    }
}

pub proof fn lemma_retuned_len(slots: Seq<SlotState>, peer: Seq<char>, es: Seq<Entry>)
    requires
        forall|a: int| 0 <= a < es.len() ==> (#[trigger] es[a]).1 < slots.len(),
    ensures
        crate::ring_state::retuned(slots, peer, es).len() == slots.len(),
    decreases es.len(),
{
    if es.len() > 0 {
        let front = es.drop_last();
        assert forall|a: int| 0 <= a < front.len() implies (#[trigger] front[a]).1
            < slots.len() by {
            assert(front[a] == es[a]);
        }
        assert(es[es.len() - 1].1 < slots.len());
        lemma_retuned_len(slots, peer, es.drop_last());
    }
}

/// A peer that leaves and comes back under another peer id, with the same
/// identity, plays in the slot it had, fading in from silence.
///
/// The new peer id holds and has reserved nothing, and no older reservation of the
/// identity asks for one of the slots that the identity holds.
pub proof fn law_reconnect_reclaims_slot(
    s: RingState,
    peer: Seq<char>,
    new_peer: Seq<char>,
    stream: u16,
)
    requires
        s.valid(),
        s.table.slot_of(s.channel_of(peer, stream)) is Some,
        forall|i: int| 0 <= i < s.table.active.len() ==> (#[trigger] s.table.active[i]).0.client
            != new_peer,
        forall|i: int|
            0 <= i < s.table.reserved.len() ==> (#[trigger] s.table.reserved[i]).0.client
                != new_peer,
        forall|i: int, j: int|
            0 <= i < s.table.reserved.len() && 0 <= j < s.table.active.len() && (
            #[trigger] s.table.reserved[i]).0.client == s.channel_of(peer, stream).client && (
            #[trigger] s.table.active[j]).0.client == s.channel_of(peer, stream).client
                && s.table.reserved[i].0 != s.table.active[j].0 ==> s.table.reserved[i].1
                != s.table.active[j].1,
    ensures
        ({
            let k = s.channel_of(peer, stream);
            let slot = s.table.slot_of(k)->0;
            let t = s.peer_removed(peer).peer_joined(new_peer, k.client);
            &&& t.table.active.contains((k, slot))
            &&& crate::ring_state::plays(t.slots[slot as int], new_peer, stream)
            &&& t.slots[slot as int].tail == crate::ring_state::silence(XFADE_SAMPLES as nat)
        }),
{
    let k = s.channel_of(peer, stream);
    let c = k.client;
    let slot = s.table.slot_of(k)->0;
    let r = s.peer_removed(peer);
    crate::slot_laws::law_client_reclaims_its_slots(s.table, c, k);
    // Renaming the new peer id changes nothing
    let u = r.table;
    lemma_released_clients(s.table.reserved, crate::slot::of_client(s.table.active, c), new_peer);
    assert forall|i: int| 0 <= i < u.active.len() implies (#[trigger] u.active[i]).0.client
        != new_peer by {
        assert(u.active.contains(u.active[i]));
        s.table.active.lemma_filter_contains_rev(crate::slot::other_client(c), u.active[i]);
    }
    crate::slot_history::law_calls_keep_table_valid(
        s.table,
        crate::slot_history::TableCall::ReleaseAllForClient(c),
    );
    assert(crate::slot::all_renamed(u.active, new_peer, c) =~= u.active);
    crate::slot::lemma_firsts_of_distinct(u.active);
    assert(u.rekeyed(new_peer, c).active =~= u.active);
    assert(u.rekeyed(new_peer, c).reserved =~= u.reserved);
    let es = u.reclaimable(c);
    let t = r.peer_joined(new_peer, c);
    assert(t.table == u.reclaimed(c));
    // The entry is among the reclaimed ones
    assert(t.table.active.contains((k, slot)));
    let m = choose|m: int| 0 <= m < t.table.active.len() && t.table.active[m] == (k, slot);
    if m < u.active.len() {
        assert(u.active[m].0 == k);
        assert(crate::slot::holds(u.active, k));
        assert(false);
    }
    let i = m - u.active.len();
    assert(es[i] == (k, slot));
    let mine = crate::slot::of_client(s.table.active, c);
    assert forall|a: int| 0 <= a < mine.len() implies (#[trigger] mine[a]).1 < MAX_SLOTS by {
        assert(mine.contains(mine[a]));
        s.table.active.lemma_filter_contains_rev(crate::slot::same_client(c), mine[a]);
        let q = choose|q: int| 0 <= q < s.table.active.len() && s.table.active[q] == mine[a];
        assert(s.table.active[q].1 < MAX_SLOTS);
    }
    crate::slot_history::lemma_reserve_all_in_range(s.table.reserved, mine);
    crate::slot::lemma_filtered_slots(u.reserved, crate::slot::same_client(c));
    crate::slot_history::lemma_accepted_keeps_valid(
        u.active,
        crate::slot::of_client(u.reserved, c),
    );
    assert forall|a: int, b: int| 0 <= a < b < es.len() implies (#[trigger] es[a]).1 != (
    #[trigger] es[b]).1 && es[a].0.channel != es[b].0.channel by {
        let all = u.active + es;
        assert(all[u.active.len() + a] == es[a] && all[u.active.len() + b] == es[b]);
        lemma_accepted_from(u.active, crate::slot::of_client(u.reserved, c), a);
        lemma_accepted_from(u.active, crate::slot::of_client(u.reserved, c), b);
        lemma_client_of(u.reserved, c, es[a]);
        lemma_client_of(u.reserved, c, es[b]);
        if es[a].0.channel == es[b].0.channel {
            assert(es[a].0 =~= es[b].0);
        }
    }
    assert forall|a: int| 0 <= a < es.len() implies (#[trigger] es[a]).1 < r.slots.len() by {
        lemma_accepted_from(u.active, crate::slot::of_client(u.reserved, c), a);
        let list = crate::slot::of_client(u.reserved, c);
        u.reserved.lemma_filter_contains_rev(crate::slot::same_client(c), es[a]);
        let q = choose|q: int| 0 <= q < u.reserved.len() && u.reserved[q] == es[a];
        assert(u.reserved[q].1 < MAX_SLOTS);
    }
    lemma_retuned(r.slots, new_peer, es, i);
}

pub proof fn lemma_accepted_from(active: Seq<Entry>, es: Seq<Entry>, i: int)
    requires
        0 <= i < crate::slot::accepted(active, es).len(),
    ensures
        es.contains(crate::slot::accepted(active, es)[i]),
    decreases es.len(),
{
    let front = es.drop_last();
    let before = crate::slot::accepted(active, front);
    if i < before.len() {
        lemma_accepted_from(active, front, i);
        let m = choose|m: int| 0 <= m < front.len() && front[m] == before[i];
        assert(es[m] == before[i]);
    } else {
        assert(es[es.len() - 1] == crate::slot::accepted(active, es)[i]);
    }
}

pub proof fn lemma_released_clients(reserved: Seq<Entry>, es: Seq<Entry>, c: Seq<char>)
    requires
        forall|i: int| 0 <= i < reserved.len() ==> (#[trigger] reserved[i]).0.client != c,
        forall|i: int| 0 <= i < es.len() ==> (#[trigger] es[i]).0.client != c,
    ensures
        forall|i: int|
            0 <= i < crate::slot::reserve_all(reserved, es).len() ==> (
            #[trigger] crate::slot::reserve_all(reserved, es)[i]).0.client != c,
    decreases es.len(),
{
    if es.len() > 0 {
        let front = es.drop_last();
        assert forall|i: int| 0 <= i < front.len() implies (#[trigger] front[i]).0.client
            != c by {
            assert(front[i] == es[i]);
        }
        lemma_released_clients(reserved, front, c);
        let r0 = crate::slot::reserve_all(reserved, front);
        let kept = crate::slot::without(r0, es.last().0);
        let r = crate::slot::reserve_all(reserved, es);
        assert forall|i: int| 0 <= i < r.len() implies (#[trigger] r[i]).0.client != c by {
            if i < kept.len() {
                assert(kept.contains(kept[i]));
                r0.lemma_filter_contains_rev(crate::slot::other_channel(es.last().0), kept[i]);
                let m = choose|m: int| 0 <= m < r0.len() && r0[m] == kept[i];
                assert(r0[m].0.client != c);
            } else {
                assert(es[es.len() - 1].0.client != c);
            }
        }
    }
}

/// An entry among those of a client is the client's.
pub proof fn lemma_client_of(s: Seq<Entry>, c: Seq<char>, e: Entry)
    requires
        crate::slot::of_client(s, c).contains(e),
    ensures
        e.0.client == c,
{
    let f = crate::slot::of_client(s, c);
    let i = choose|i: int| 0 <= i < f.len() && f[i] == e;
    s.lemma_filter_pred(crate::slot::same_client(c), i);
}

/// A transport restart keeps who plays where, and what waits.
pub proof fn law_restart_keeps_peers(s: RingState)
    ensures
        crate::ring_state::active_list(s.restarted().slots) == crate::ring_state::active_list(
            s.slots,
        ),
        s.restarted().table == s.table,
        s.restarted().identities == s.identities,
        s.restarted().pending == s.pending,
{
    lemma_restart_list(s.slots);
}

proof fn lemma_restart_list(slots: Seq<SlotState>)
    ensures
        crate::ring_state::active_list(
            slots.map_values(|s: SlotState| SlotState { read_pos: 0, ..s }),
        ) == crate::ring_state::active_list(slots),
    decreases slots.len(),
{
    let r = slots.map_values(|s: SlotState| SlotState { read_pos: 0, ..s });
    if slots.len() > 0 {
        lemma_restart_list(slots.drop_last());
        assert(r.drop_last() =~= slots.drop_last().map_values(
            |s: SlotState| SlotState { read_pos: 0, ..s },
        ));
    }
}

} // verus!
