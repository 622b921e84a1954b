//! Laws of the interval ring over whole intervals: what is recorded is handed over, and
//! what a slot holds is read off, buffer by buffer.

use vstd::prelude::*;

use crate::bridge::BridgeState;
use crate::ring_state::{CompletedState, PendingState, RingState, SlotState};
use crate::slot::MAX_SLOTS;

verus! {

/// Pieces of audio, one after the other.
pub open spec fn joined(parts: Seq<Seq<u32>>) -> Seq<u32>
    decreases parts.len(),
{
    if parts.len() == 0 {
        Seq::empty()
    } else {
        joined(parts.drop_last()) + parts.last()
    }
}

/// Consecutive reads of slot `slot` give `outs` and the counts `given`, and take the ring
/// through `states`.
pub open spec fn is_reading(
    states: Seq<RingState>,
    slot: usize,
    outs: Seq<Seq<u32>>,
    given: Seq<nat>,
) -> bool {
    &&& states.len() == outs.len() + 1
    &&& given.len() == outs.len()
    &&& forall|i: int|
        0 <= i < outs.len() ==> crate::ring_state::slot_read(
            states[i],
            slot,
            #[trigger] outs[i],
            given[i],
            states[i + 1],
        )
}

/// The sum of counts.
pub open spec fn total(counts: Seq<nat>) -> nat
    decreases counts.len(),
{
    if counts.len() == 0 {
        0
    } else {
        total(counts.drop_last()) + counts.last()
    }
}

/// Consecutive reads of a slot, put one after the other, are the slot's samples from
/// where it stood, in order and without a gap, and then silence. The counts say how much
/// of it was audio. Nothing else changes, in particular no other slot.
pub proof fn law_reads_follow_each_other(
    states: Seq<RingState>,
    slot: usize,
    outs: Seq<Seq<u32>>,
    given: Seq<nat>,
)
    requires
        states.len() > 0,
        states[0].valid(),
        is_reading(states, slot, outs, given),
    ensures
        ({
            let s = states[0];
            let t = states.last();
            let p = s.slots[slot as int];
            let plays = slot < s.slots.len() && p.active;
            &&& forall|j: int|
                0 <= j < joined(outs).len() ==> (#[trigger] joined(outs)[j]) == if plays
                    && p.read_pos + j < p.samples.len() {
                    p.samples[p.read_pos + j]
                } else {
                    0u32
                }
            &&& plays ==> total(given) == if joined(outs).len() <= p.samples.len() - p.read_pos {
                joined(outs).len() as int
            } else {
                p.samples.len() - p.read_pos
            }
            &&& !plays ==> total(given) == 0 && t == s
            &&& plays ==> t == RingState {
                slots: s.slots.update(
                    slot as int,
                    SlotState { read_pos: t.slots[slot as int].read_pos, ..p },
                ),
                ..s
            }
            &&& t.valid()
        }),
    decreases outs.len(),
{
    let s = states[0];
    let p = s.slots[slot as int];
    let plays = slot < s.slots.len() && p.active;
    lemma_reading(states, slot, outs, given);
    if outs.len() == 0 {
        assert(states.last() == s);
        if plays {
            assert(s.slots =~= s.slots.update(
                slot as int,
                SlotState { read_pos: p.read_pos, ..p },
            ));
        }
    }
}

proof fn lemma_reading(
    states: Seq<RingState>,
    slot: usize,
    outs: Seq<Seq<u32>>,
    given: Seq<nat>,
)
    requires
        states.len() > 0,
        states[0].valid(),
        is_reading(states, slot, outs, given),
    ensures
        ({
            let s = states[0];
            let t = states.last();
            let p = s.slots[slot as int];
            let plays = slot < s.slots.len() && p.active;
            let all = joined(outs);
            &&& t.valid()
            &&& forall|j: int|
                0 <= j < all.len() ==> (#[trigger] all[j]) == if plays && p.read_pos + j
                    < p.samples.len() {
                    p.samples[p.read_pos + j]
                } else {
                    0u32
                }
            &&& plays ==> {
                let n = if all.len() <= p.samples.len() - p.read_pos {
                    all.len() as int
                } else {
                    p.samples.len() - p.read_pos
                };
                &&& total(given) == n
                &&& t == RingState {
                    slots: s.slots.update(
                        slot as int,
                        SlotState { read_pos: (p.read_pos + n) as nat, ..p },
                    ),
                    ..s
                }
            }
            &&& !plays ==> total(given) == 0 && t == s
        }),
    decreases outs.len(),
{
    let s = states[0];
    let p = s.slots[slot as int];
    let plays = slot < s.slots.len() && p.active;
    if outs.len() == 0 {
        assert(states.last() == s);
        if plays {
            assert(s.slots =~= s.slots.update(
                slot as int,
                SlotState { read_pos: p.read_pos, ..p },
            ));
        }
    } else {
        let n = outs.len() - 1;
        let fs = states.drop_last();
        let fo = outs.drop_last();
        let fg = given.drop_last();
        assert forall|i: int| 0 <= i < fo.len() implies crate::ring_state::slot_read(
            fs[i],
            slot,
            #[trigger] fo[i],
            fg[i],
            fs[i + 1],
        ) by {
            assert(fo[i] == outs[i] && fs[i] == states[i] && fs[i + 1] == states[i + 1]);
        }
        lemma_reading(fs, slot, fo, fg);
        let u = fs.last();
        let out = outs[n];
        assert(u == states[n]);
        assert(out == u.slot_heard(slot, out.len()));
        assert(states[n + 1] == u.slot_advanced(slot, out.len()));
        let before = joined(fo);
        let all = joined(outs);
        assert(all == before + out);
        assert forall|j: int| 0 <= j < all.len() implies (#[trigger] all[j]) == if plays
            && p.read_pos + j < p.samples.len() {
            p.samples[p.read_pos + j]
        } else {
            0u32
        } by {
            if j < before.len() {
                assert(all[j] == before[j]);
            } else {
                assert(all[j] == out[j - before.len()]);
            }
        }
        let t = states.last();
        if plays {
            let q = u.slots[slot as int];
            let k = if all.len() <= p.samples.len() - p.read_pos {
                all.len() as int
            } else {
                p.samples.len() - p.read_pos
            };
            assert(t.slots =~= s.slots.update(
                slot as int,
                SlotState { read_pos: (p.read_pos + k) as nat, ..p },
            ));
            assert forall|i: int| 0 <= i < t.slots.len() implies (#[trigger] t.slots[i]).valid() by {
                assert(s.slots[i].valid());
            }
            assert forall|i: int, j: int|
                0 <= i < j < t.slots.len() && (#[trigger] t.slots[i]).active && (
                #[trigger] t.slots[j]).active implies !(t.slots[i].peer == t.slots[j].peer
                && t.slots[i].stream == t.slots[j].stream) by {
                assert(s.slots[i].active && s.slots[j].active);
            }
        }
    }
}

/// After a boundary every slot is read from its start.
pub proof fn law_boundary_rewinds_slots<
    M: Fn(u32, u32) -> u32,
    F: Fn(u32, u32, usize, usize) -> u32,
>(mix: M, fade: F, s: RingState, completed: i64, t: RingState)
    requires
        s.valid(),
        crate::ring_state::swapped(mix, fade, s, completed, t),
    ensures
        t.slots.len() == s.slots.len(),
        forall|i: int| 0 <= i < t.slots.len() ==> (#[trigger] t.slots[i]).read_pos == 0,
{
    let due = s.due(completed);
    let trace = choose|trace: Seq<RingState>|
        {
            &&& #[trigger] crate::ring_state::is_trace(mix, fade, due, trace)
            &&& trace[0] == s.turned(completed)
            &&& trace.last() == t
        };
    assert forall|i: int| 0 <= i < trace[0].slots.len() implies (
    #[trigger] trace[0].slots[i]).read_pos == 0 by {}
    lemma_trace_rewinds(mix, fade, due, trace, due.len() as int);
}

proof fn lemma_trace_rewinds<M: Fn(u32, u32) -> u32, F: Fn(u32, u32, usize, usize) -> u32>(
    mix: M,
    fade: F,
    due: Seq<PendingState>,
    trace: Seq<RingState>,
    n: int,
)
    requires
        crate::ring_state::is_trace(mix, fade, due, trace),
        trace[0].slots.len() == MAX_SLOTS,
        trace[0].playback.len() == 0,
        trace[0].table.valid(),
        forall|i: int|
            0 <= i < trace[0].slots.len() ==> (#[trigger] trace[0].slots[i]).read_pos == 0,
        0 <= n <= due.len(),
    ensures
        trace[n].slots.len() == MAX_SLOTS,
        forall|i: int|
            0 <= i < trace[n].slots.len() ==> (#[trigger] trace[n].slots[i]).read_pos == 0,
    decreases n,
{
    if n > 0 {
        lemma_trace_rewinds(mix, fade, due, trace, n - 1);
        crate::ring_laws::lemma_trace_keeps_frame(mix, fade, due, trace, n - 1);
        let s = trace[n - 1];
        let p = due[n - 1];
        let t = trace[n];
        assert(crate::ring_state::mix_step(mix, fade, trace[n - 1], due[n - 1], trace[n - 1 + 1]));
        crate::ring_laws::lemma_step_keeps_frame(mix, fade, s, p, t);
        let k = s.channel_of(p.peer, p.stream);
        let z = s.channel_of(p.peer, 0);
        crate::slot_laws::law_assign_keeps_table_valid(s.table, k);
        crate::slot_laws::law_assign_keeps_table_valid(s.table.assigned(k), z);
        assert forall|i: int| 0 <= i < t.slots.len() implies (#[trigger] t.slots[i]).read_pos
            == 0 by {
            assert(s.slots[i].read_pos == 0);
            match s.table.assigned_slot(k) {
                Some(x) => {
                    let muted = crate::ring_state::muted_but(s.slots, p.peer, p.stream, x as int);
                    assert(muted[i].read_pos == 0);
                    if i == x {
                        assert(t.slots[i].read_pos == 0);
                    } else {
                        assert(t.slots[i] == muted[i]);
                    }
                },
                None => match s.table.assigned(k).slot_of(z) {
                    Some(x) => {
                        if i != x {
                            assert(t.slots[i] == s.slots[i]);
                        }
                    },
                    None => {},
                },
            }
        }
    }
}

/// Reads of a slot that follow the first buffer of an interval, put one after the other,
/// are the slot's samples from the first on, in order, and then silence.
pub proof fn law_slot_is_read_from_its_start<
    M: Fn(u32, u32) -> u32,
    F: Fn(u32, u32, usize, usize) -> u32,
>(
    mix: M,
    fade: F,
    s: RingState,
    input: Seq<u32>,
    index: i64,
    out: Seq<u32>,
    states: Seq<RingState>,
    slot: usize,
    outs: Seq<Seq<u32>>,
    given: Seq<nat>,
)
    requires
        s.valid(),
        s.current is Some,
        s.current != Some(index),
        states.len() > 0,
        crate::ring_state::took(mix, fade, s, input, index, out, states[0]),
        states[0].valid(),
        is_reading(states, slot, outs, given),
    ensures
        forall|j: int|
            0 <= j < joined(outs).len() ==> (#[trigger] joined(outs)[j]) == if slot
                < states[0].slots.len() && states[0].slots[slot as int].active && j
                < states[0].slots[slot as int].samples.len() {
                states[0].slots[slot as int].samples[j]
            } else {
                0u32
            },
{
    let m = choose|m: RingState|
        {
            &&& #[trigger] crate::ring_state::reached(mix, fade, s, index, m)
            &&& states[0] == m.recorded(input).advanced(out.len())
            &&& out == m.heard(out.len())
        };
    let prev = s.current->0;
    let v = choose|v: RingState|
        #[trigger] crate::ring_state::swapped(mix, fade, s.stocked(), prev, v) && m == RingState {
            current: Some(index),
            ..v
        };
    law_boundary_rewinds_slots(mix, fade, s.stocked(), prev, v);
    law_reads_follow_each_other(states, slot, outs, given);
}

/// Consecutive buffers at interval `index` with `inputs` take the ring through `states`.
/// Completed recordings may be handed out between them.
pub open spec fn is_recording<M: Fn(u32, u32) -> u32, F: Fn(u32, u32, usize, usize) -> u32>(
    mix: M,
    fade: F,
    states: Seq<RingState>,
    inputs: Seq<Seq<u32>>,
    index: i64,
    outs: Seq<Seq<u32>>,
) -> bool {
    &&& states.len() == inputs.len() + 1
    &&& outs.len() == inputs.len()
    &&& forall|i: int|
        0 <= i < inputs.len() ==> exists|t: RingState|
            #[trigger] crate::ring_state::took(
                mix,
                fade,
                states[i],
                #[trigger] inputs[i],
                index,
                outs[i],
                t,
            ) && states[i + 1] == (RingState { completed: states[i + 1].completed, ..t })
}

/// Whether `part` is the beginning of `all`, cut at `limit`.
pub open spec fn is_cut_at(part: Seq<u32>, all: Seq<u32>, limit: nat) -> bool {
    &&& part.len() == if all.len() <= limit {
        all.len()
    } else {
        limit
    }
    &&& forall|j: int| 0 <= j < part.len() ==> #[trigger] part[j] == all[j]
}

/// What an interval records so far: its inputs, one after the other, cut at the capacity.
proof fn lemma_recording<M: Fn(u32, u32) -> u32, F: Fn(u32, u32, usize, usize) -> u32>(
    mix: M,
    fade: F,
    states: Seq<RingState>,
    inputs: Seq<Seq<u32>>,
    index: i64,
    outs: Seq<Seq<u32>>,
    n: int,
)
    requires
        is_recording(mix, fade, states, inputs, index, outs),
        states[0].valid(),
        states[0].current is None ==> states[0].record.len() == 0,
        states[0].current == Some(index) ==> states[0].record.len() == 0,
        0 < n <= inputs.len(),
    ensures
        states[n].current == Some(index),
        states[n].capacity == states[0].capacity,
        is_cut_at(states[n].record, joined(inputs.take(n)), states[0].capacity),
    decreases n,
{
    let s = states[n - 1];
    let x = inputs[n - 1];
    assert(inputs.take(n).drop_last() =~= inputs.take(n - 1));
    assert(inputs.take(n).last() == x);
    let before = joined(inputs.take(n - 1));
    let out = outs[n - 1];
    let t = choose|t: RingState|
        #[trigger] crate::ring_state::took(mix, fade, states[n - 1], inputs[n - 1], index, out, t)
            && states[n - 1 + 1] == (RingState { completed: states[n - 1 + 1].completed, ..t });
    let m = choose|m: RingState|
        {
            &&& #[trigger] crate::ring_state::reached(mix, fade, s, index, m)
            &&& t == m.recorded(x).advanced(out.len())
            &&& out == m.heard(out.len())
        };
    if n > 1 {
        lemma_recording(mix, fade, states, inputs, index, outs, n - 1);
        assert(m == s.stocked());
    } else {
        assert(inputs.take(0) =~= Seq::empty());
        assert(before =~= Seq::empty());
        if s.current is Some && s.current != Some(index) {
            let prev = s.current->0;
            let v = choose|v: RingState|
                #[trigger] crate::ring_state::swapped(mix, fade, s.stocked(), prev, v) && m
                    == RingState { current: Some(index), ..v };
            crate::ring_laws::law_boundary(mix, fade, s.stocked(), prev, v);
        }
    }
    assert(is_cut_at(m.record, before, m.capacity));
    let all = before + x;
    assert forall|j: int| 0 <= j < t.record.len() implies #[trigger] t.record[j] == all[j] by {
        if j < m.record.len() {
            assert(t.record[j] == m.record[j]);
        }
    }
}

/// The recording of an interval that is handed over at the boundary is what came in with
/// its buffers, from the first to the last, one after the other in the order in which
/// they came, cut at the capacity. The next recording starts with the buffer that crossed
/// the boundary.
///
/// The interval begins with a boundary, or with nothing recorded.
#[verifier::spinoff_prover]
#[verifier::rlimit(40)]
pub proof fn law_recording_is_handed_over_whole<
    M: Fn(u32, u32) -> u32,
    F: Fn(u32, u32, usize, usize) -> u32,
>(
    mix: M,
    fade: F,
    states: Seq<RingState>,
    inputs: Seq<Seq<u32>>,
    index: i64,
    outs: Seq<Seq<u32>>,
    next: i64,
    input: Seq<u32>,
    out: Seq<u32>,
    t: RingState,
)
    requires
        is_recording(mix, fade, states, inputs, index, outs),
        inputs.len() > 0,
        states[0].valid(),
        states.last().valid(),
        states[0].current is None ==> states[0].record.len() == 0,
        states[0].current == Some(index) ==> states[0].record.len() == 0,
        next != index,
        crate::ring_state::took(mix, fade, states.last(), input, next, out, t),
    ensures
        ({
            let before = states.last().completed;
            let all = joined(inputs);
            let capacity = states[0].capacity;
            &&& all.len() == 0 || capacity == 0 ==> t.completed == before
            &&& all.len() > 0 && capacity > 0 ==> {
                &&& t.completed.len() == before.len() + 1
                &&& t.completed.drop_last() == before
                &&& t.completed.last().index == index
                &&& is_cut_at(t.completed.last().samples, all, capacity)
            }
            &&& is_cut_at(t.record, input, capacity)
        }),
{
    let n = inputs.len() as int;
    lemma_recording(mix, fade, states, inputs, index, outs, n);
    assert(inputs.take(n) =~= inputs);
    let s = states.last();
    assert(s == states[n]);
    let m = choose|m: RingState|
        {
            &&& #[trigger] crate::ring_state::reached(mix, fade, s, next, m)
            &&& t == m.recorded(input).advanced(out.len())
            &&& out == m.heard(out.len())
        };
    let v = choose|v: RingState|
        #[trigger] crate::ring_state::swapped(mix, fade, s.stocked(), index, v) && m == RingState {
            current: Some(next),
            ..v
        };
    crate::ring_laws::law_boundary(mix, fade, s.stocked(), index, v);
    if s.record.len() > 0 {
        assert(t.completed == s.completed.push(CompletedState { index, samples: s.record }));
        assert(t.completed.drop_last() =~= s.completed);
    }
    assert(t.record =~= input.take(t.record.len() as int));
}

/// What the buffers of an interval give out so far: its playback in order, from `start` on.
proof fn lemma_playing<M: Fn(u32, u32) -> u32, F: Fn(u32, u32, usize, usize) -> u32>(
    mix: M,
    fade: F,
    states: Seq<RingState>,
    inputs: Seq<Seq<u32>>,
    index: i64,
    outs: Seq<Seq<u32>>,
    n: int,
)
    requires
        is_recording(mix, fade, states, inputs, index, outs),
        states[0].valid(),
        states[0].current is Some,
        0 < n <= inputs.len(),
    ensures
        ({
            let start = if states[0].current == Some(index) {
                states[0].playback_pos as int
            } else {
                0
            };
            let p = states[1].playback;
            let all = joined(outs.take(n));
            &&& states[n].current == Some(index)
            &&& states[n].playback == p
            &&& states[0].current == Some(index) ==> p == states[0].playback
            &&& start <= p.len()
            &&& states[n].playback_pos == if start + all.len() <= p.len() {
                start + all.len()
            } else {
                p.len() as int
            }
            &&& forall|j: int|
                0 <= j < all.len() ==> (#[trigger] all[j]) == if start + j < p.len() {
                    p[start + j]
                } else {
                    0u32
                }
        }),
    decreases n,
{
    let s = states[n - 1];
    let x = inputs[n - 1];
    let out = outs[n - 1];
    let start = if states[0].current == Some(index) {
        states[0].playback_pos as int
    } else {
        0
    };
    assert(outs.take(n).drop_last() =~= outs.take(n - 1));
    assert(outs.take(n).last() == out);
    let before = joined(outs.take(n - 1));
    let all = joined(outs.take(n));
    let t = choose|t: RingState|
        #[trigger] crate::ring_state::took(mix, fade, states[n - 1], inputs[n - 1], index, out, t)
            && states[n - 1 + 1] == (RingState { completed: states[n - 1 + 1].completed, ..t });
    let m = choose|m: RingState|
        {
            &&& #[trigger] crate::ring_state::reached(mix, fade, s, index, m)
            &&& t == m.recorded(x).advanced(out.len())
            &&& out == m.heard(out.len())
        };
    if n > 1 {
        lemma_playing(mix, fade, states, inputs, index, outs, n - 1);
        assert(m == s.stocked());
    } else {
        assert(outs.take(0) =~= Seq::empty());
        assert(before =~= Seq::empty());
        if s.current != Some(index) {
            let prev = s.current->0;
            let v = choose|v: RingState|
                #[trigger] crate::ring_state::swapped(mix, fade, s.stocked(), prev, v) && m
                    == RingState { current: Some(index), ..v };
            crate::ring_laws::law_boundary(mix, fade, s.stocked(), prev, v);
        }
    }
    assert(all == before + out);
    let p = states[1].playback;
    assert forall|j: int| 0 <= j < all.len() implies (#[trigger] all[j]) == if start + j
        < p.len() {
        p[start + j]
    } else {
        0u32
    } by {
        if j < before.len() {
            assert(all[j] == before[j]);
        } else {
            assert(all[j] == out[j - before.len()]);
        }
    }
}

/// Consecutive buffers of an interval, put one after the other, give out the shared
/// playback from where it stood, in order and without a gap, and then silence.
pub proof fn law_playback_follows_on<
    M: Fn(u32, u32) -> u32,
    F: Fn(u32, u32, usize, usize) -> u32,
>(
    mix: M,
    fade: F,
    states: Seq<RingState>,
    inputs: Seq<Seq<u32>>,
    index: i64,
    outs: Seq<Seq<u32>>,
    j: int,
)
    requires
        is_recording(mix, fade, states, inputs, index, outs),
        states[0].valid(),
        states[0].current == Some(index),
        0 <= j < joined(outs).len(),
    ensures
        ({
            let s = states[0];
            joined(outs)[j] == if s.playback_pos + j < s.playback.len() {
                s.playback[s.playback_pos + j]
            } else {
                0u32
            }
        }),
{
    let n = inputs.len() as int;
    assert(outs.take(n) =~= outs);
    if n > 0 {
        lemma_playing(mix, fade, states, inputs, index, outs, n);
    }
}

/// The buffers of an interval that begins with a boundary, put one after the other, give
/// out the interval's playback from its first sample on, and then silence.
pub proof fn law_interval_is_played_from_its_start<
    M: Fn(u32, u32) -> u32,
    F: Fn(u32, u32, usize, usize) -> u32,
>(
    mix: M,
    fade: F,
    states: Seq<RingState>,
    inputs: Seq<Seq<u32>>,
    index: i64,
    outs: Seq<Seq<u32>>,
    j: int,
)
    requires
        is_recording(mix, fade, states, inputs, index, outs),
        states[0].valid(),
        states[0].current is Some,
        states[0].current != Some(index),
        0 <= j < joined(outs).len(),
    ensures
        ({
            let p = states.last().playback;
            joined(outs)[j] == if j < p.len() {
                p[j]
            } else {
                0u32
            }
        }),
{
    let n = inputs.len() as int;
    assert(outs.take(n) =~= outs);
    if n > 0 {
        lemma_playing(mix, fade, states, inputs, index, outs, n);
    }
}

/// At a boundary each waiting piece is either played or goes on waiting: what is for the
/// interval that was completed, or for the one that was playing, is played, and the rest
/// waits, unchanged. The completed interval is the one that plays from then on.
pub proof fn law_boundary_sorts_waiting_audio<
    M: Fn(u32, u32) -> u32,
    F: Fn(u32, u32, usize, usize) -> u32,
>(mix: M, fade: F, s: RingState, completed: i64, t: RingState)
    requires
        s.valid(),
        crate::ring_state::swapped(mix, fade, s, completed, t),
    ensures
        t.playing == Some(completed),
        s.due(completed).len() + t.pending.len() == s.pending.len(),
        forall|i: int|
            0 <= i < s.pending.len() ==> if (#[trigger] s.pending[i]).index == completed
                || s.playing == Some(s.pending[i].index) {
                s.due(completed).contains(s.pending[i])
            } else {
                t.pending.contains(s.pending[i])
            },
        forall|i: int|
            0 <= i < t.pending.len() ==> s.pending.contains(#[trigger] t.pending[i])
                && t.pending[i].index != completed && s.playing != Some(t.pending[i].index),
        forall|i: int|
            0 <= i < s.due(completed).len() ==> s.pending.contains(
                #[trigger] s.due(completed)[i],
            ) && (s.due(completed)[i].index == completed || s.playing == Some(
                s.due(completed)[i].index,
            )),
{
    crate::ring_laws::law_boundary(mix, fade, s, completed, t);
    let d = crate::ring_state::is_due(completed, s.playing);
    let k = crate::ring_state::is_kept(completed, s.playing);
    lemma_parted(s.pending, d, k);
    assert forall|i: int| 0 <= i < s.pending.len() implies if (#[trigger] s.pending[i]).index
        == completed || s.playing == Some(s.pending[i].index) {
        s.due(completed).contains(s.pending[i])
    } else {
        t.pending.contains(s.pending[i])
    } by {
        if d(s.pending[i]) {
            s.pending.lemma_filter_contains(d, i);
        } else {
            assert(k(s.pending[i]));
            s.pending.lemma_filter_contains(k, i);
        }
    }
    assert forall|i: int| 0 <= i < t.pending.len() implies s.pending.contains(
        #[trigger] t.pending[i],
    ) && t.pending[i].index != completed && s.playing != Some(t.pending[i].index) by {
        s.pending.lemma_filter_pred(k, i);
        assert(t.pending.contains(t.pending[i]));
        s.pending.lemma_filter_contains_rev(k, t.pending[i]);
    }
    let due = s.due(completed);
    assert forall|i: int| 0 <= i < due.len() implies s.pending.contains(#[trigger] due[i]) && (
    due[i].index == completed || s.playing == Some(due[i].index)) by {
        s.pending.lemma_filter_pred(d, i);
        assert(due.contains(due[i]));
        s.pending.lemma_filter_contains_rev(d, due[i]);
    }
}

proof fn lemma_parted(
    s: Seq<PendingState>,
    d: spec_fn(PendingState) -> bool,
    k: spec_fn(PendingState) -> bool,
)
    requires
        forall|p: PendingState| #[trigger] d(p) == !k(p),
    ensures
        s.filter(d).len() + s.filter(k).len() == s.len(),
    decreases s.len(),
{
    reveal(Seq::filter);
    if s.len() > 0 {
        lemma_parted(s.drop_last(), d, k);
        assert(d(s.last()) == !k(s.last()));
    }
}

/// A stream that plays on in its slot is crossfaded: within the crossfade window each of
/// its samples is blended with the sample of the last interval that stands as far before
/// that interval's end, counted from the start of the window; what the slot did not play
/// counts as silence. Past the window the samples are the ones that came in.
///
/// This is so for every due piece that is alone in its slot.
pub proof fn law_intervals_are_crossfaded<
    M: Fn(u32, u32) -> u32,
    F: Fn(u32, u32, usize, usize) -> u32,
>(mix: M, fade: F, s: RingState, completed: i64, t: RingState, n: int, slot: usize)
    requires
        s.valid(),
        crate::ring_state::swapped(mix, fade, s, completed, t),
        0 <= n < s.due(completed).len(),
        crate::ring_laws::is_alone(s, t, s.due(completed), n),
        t.table.slot_of(s.channel_of(s.due(completed)[n].peer, s.due(completed)[n].stream)) == Some(
            slot,
        ),
    ensures
        ({
            let new = s.due(completed)[n];
            let old = s.slots[slot as int];
            let now = t.slots[slot as int];
            let same = old.active && old.peer == new.peer && old.stream == new.stream;
            // How much of the last interval is blended in
            let kept = if !same {
                0
            } else if old.samples.len() < 256 {
                old.samples.len()
            } else {
                256
            };
            let window: nat = if new.samples.len() < 256 {
                new.samples.len()
            } else {
                256
            };
            &&& now.active && now.peer == new.peer && now.stream == new.stream
            &&& now.samples.len() == new.samples.len()
            &&& forall|i: int|
                0 <= i < new.samples.len() ==> if i < window {
                    call_ensures(
                        fade,
                        (
                            new.samples[i],
                            if i < kept {
                                old.samples[old.samples.len() - kept + i]
                            } else {
                                0u32
                            },
                            i as usize,
                            window as usize,
                        ),
                        #[trigger] now.samples[i],
                    )
                } else {
                    now.samples[i] == new.samples[i]
                }
        }),
{
    crate::ring_laws::law_every_stream_is_heard(mix, fade, s, completed, t, n, slot);
}

/// Audio that is fed while its stream plays is heard at once: it stands in the stream's
/// slot behind what stood there, as far as it fits, and is added to the shared playback at
/// the same places. Nothing else changes.
pub proof fn law_live_audio_is_appended<M: Fn(u32, u32) -> u32>(
    mix: M,
    s: RingState,
    peer: Seq<char>,
    stream: u16,
    index: i64,
    samples: Seq<u32>,
    t: RingState,
    i: int,
)
    requires
        s.valid(),
        crate::ring_state::fed(mix, s, peer, stream, index, samples, t),
        s.playing == Some(index),
        0 <= i < s.slots.len(),
        s.slots[i].active,
        s.slots[i].peer == peer,
        s.slots[i].stream == stream,
    ensures
        ({
            let at = s.slots[i].samples.len();
            let all = s.slots[i].samples + samples;
            let now = t.slots[i].samples;
            // All of it fits, or the slot is filled up to the capacity
            &&& at <= s.capacity && all.len() <= s.capacity ==> now == all
            &&& at <= s.capacity < all.len() ==> now.len() == s.capacity
            &&& at > s.capacity ==> now == s.slots[i].samples
            &&& now.len() <= all.len()
            &&& forall|j: int| 0 <= j < now.len() ==> #[trigger] now[j] == all[j]
            &&& forall|j: int|
                at <= j < now.len() ==> j < t.playback.len() && call_ensures(
                    mix,
                    (
                        if j < s.playback.len() {
                            s.playback[j]
                        } else {
                            0u32
                        },
                        all[j],
                    ),
                    #[trigger] t.playback[j],
                )
            &&& forall|j: int|
                0 <= j < s.playback.len() && !(at <= j < now.len()) ==> j < t.playback.len() && (
                #[trigger] t.playback[j]) == s.playback[j]
            &&& t == RingState {
                playback: t.playback,
                slots: s.slots.update(i, SlotState { samples: now, ..s.slots[i] }),
                ..s
            }
        }),
{
    let k = crate::ring_state::peer_slot(s.slots, peer, stream);
    assert(crate::ring_state::plays(s.slots[i], peer, stream));
    assert(crate::ring_state::is_peer_slot(s.slots, peer, stream, i)) by {
        assert forall|j: int| 0 <= j < i implies !crate::ring_state::plays(
            #[trigger] s.slots[j],
            peer,
            stream,
        ) by {
            assert(s.slots[i].active);
        }
    }
    crate::ring_laws::lemma_peer_slot_unique(s.slots, peer, stream, i);
    let at = s.slots[i].samples.len();
    let all = s.slots[i].samples + samples;
    if t == s {
        assert(s.slots =~= s.slots.update(
            i,
            SlotState { samples: s.slots[i].samples, ..s.slots[i] },
        ));
        if samples.len() == 0 {
            assert(all =~= s.slots[i].samples);
        }
    } else {
        let room = (s.capacity - at) as nat;
        let taken = samples.take(crate::ring_state::min_len(samples.len(), room) as int);
        assert(t.slots[i].samples == s.slots[i].samples + taken);
        if all.len() <= s.capacity {
            assert(taken =~= samples);
        }
        assert forall|j: int| at <= j < t.slots[i].samples.len() implies j < t.playback.len()
            && call_ensures(
            mix,
            (
                if j < s.playback.len() {
                    s.playback[j]
                } else {
                    0u32
                },
                all[j],
            ),
            #[trigger] t.playback[j],
        ) by {
            assert(taken[j - at] == all[j]);
        }
    }
}

/// Audio that finds no slot of its own is not lost: it is added to the shared playback,
/// and to what the slot of its peer's first stream plays, where there is one.
pub proof fn law_audio_without_slot_is_heard<
    M: Fn(u32, u32) -> u32,
    F: Fn(u32, u32, usize, usize) -> u32,
>(mix: M, fade: F, s: RingState, p: PendingState, t: RingState)
    requires
        s.valid(),
        crate::ring_state::mix_step(mix, fade, s, p, t),
        s.table.assigned_slot(s.channel_of(p.peer, p.stream)) is None,
    ensures
        forall|j: int|
            0 <= j < p.samples.len() && j < s.capacity ==> j < t.playback.len() && call_ensures(
                mix,
                (
                    if j < s.playback.len() {
                        s.playback[j]
                    } else {
                        0u32
                    },
                    p.samples[j],
                ),
                #[trigger] t.playback[j],
            ),
        forall|j: int|
            p.samples.len() <= j < s.playback.len() ==> j < t.playback.len() && (
            #[trigger] t.playback[j]) == s.playback[j],
        match s.table.slot_of(s.channel_of(p.peer, 0)) {
            Some(i) => {
                &&& forall|j: int|
                    0 <= j < p.samples.len() ==> j < t.slots[i as int].samples.len()
                        && call_ensures(
                        mix,
                        (
                            if j < s.slots[i as int].samples.len() {
                                s.slots[i as int].samples[j]
                            } else {
                                0u32
                            },
                            p.samples[j],
                        ),
                        #[trigger] t.slots[i as int].samples[j],
                    )
                &&& forall|j: int|
                    p.samples.len() <= j < s.slots[i as int].samples.len() ==> j
                        < t.slots[i as int].samples.len() && (
                    #[trigger] t.slots[i as int].samples[j]) == s.slots[i as int].samples[j]
                &&& forall|j: int|
                    0 <= j < s.slots.len() && j != i ==> #[trigger] t.slots[j] == s.slots[j]
            },
            None => t.slots == s.slots,
        },
{
    let k = s.channel_of(p.peer, p.stream);
    let z = s.channel_of(p.peer, 0);
    crate::slot_laws::law_assign_keeps_table_valid(s.table, k);
    crate::slot_laws::law_assign_keeps_table_valid(s.table, z);
    crate::slot_laws::law_assign_keeps_table_valid(s.table.assigned(k), z);
    assert(s.table.assigned(k).active == s.table.active);
    assert(s.table.assigned(k).slot_of(z) == s.table.slot_of(z));
    let cut = p.samples.take(crate::ring_state::min_len(p.samples.len(), s.capacity) as int);
    assert forall|j: int| 0 <= j < p.samples.len() && j < s.capacity implies j < t.playback.len()
        && call_ensures(
        mix,
        (
            if j < s.playback.len() {
                s.playback[j]
            } else {
                0u32
            },
            p.samples[j],
        ),
        #[trigger] t.playback[j],
    ) by {
        assert(cut[j] == p.samples[j]);
    }
}

/// The list of active slots holds each slot that plays, with the peer and the stream it
/// plays, and no other, from the lowest slot to the highest.
pub proof fn law_active_list_is_exact(slots: Seq<SlotState>)
    requires
        slots.len() <= MAX_SLOTS,
    ensures
        ({
            let l = crate::ring_state::active_list(slots);
            &&& forall|a: int, b: int|
                0 <= a < b < l.len() ==> (#[trigger] l[a]).0 < (#[trigger] l[b]).0
            &&& forall|a: int|
                0 <= a < l.len() ==> {
                    let e = #[trigger] l[a];
                    &&& e.0 < slots.len()
                    &&& slots[e.0 as int].active
                    &&& e.1 == slots[e.0 as int].peer
                    &&& e.2 == slots[e.0 as int].stream
                }
            &&& forall|i: int|
                0 <= i < slots.len() && (#[trigger] slots[i]).active ==> l.contains(
                    (i as usize, slots[i].peer, slots[i].stream),
                )
        }),
    decreases slots.len(),
{
    let l = crate::ring_state::active_list(slots);
    if slots.len() > 0 {
        let front = slots.drop_last();
        let f = crate::ring_state::active_list(front);
        law_active_list_is_exact(front);
        let n = slots.len() - 1;
        assert forall|i: int| 0 <= i < slots.len() && (#[trigger] slots[i]).active implies l.contains(
            (i as usize, slots[i].peer, slots[i].stream),
        ) by {
            let e = (i as usize, slots[i].peer, slots[i].stream);
            if i < n {
                assert(front[i].active);
                assert(f.contains(e));
                let a = choose|a: int| 0 <= a < f.len() && f[a] == e;
                assert(l[a] == e);
            } else {
                assert(l[f.len() as int] == e);
            }
        }
        assert forall|a: int| 0 <= a < l.len() implies {
            let e = #[trigger] l[a];
            &&& e.0 < slots.len()
            &&& slots[e.0 as int].active
            &&& e.1 == slots[e.0 as int].peer
            &&& e.2 == slots[e.0 as int].stream
        } by {
            if a < f.len() {
                assert(l[a] == f[a]);
            }
        }
        assert forall|a: int, b: int| 0 <= a < b < l.len() implies (#[trigger] l[a]).0 < (
        #[trigger] l[b]).0 by {
            assert(l[a] == f[a]);
            if b < f.len() {
                assert(l[b] == f[b]);
            }
        }
    }
}

/// A peer that leaves plays nowhere and is known by no identity any more; what other
/// peers play, who they are and which slots other identities hold stays as it was.
pub proof fn law_leaving_touches_nobody_else(s: RingState, peer: Seq<char>)
    requires
        s.valid(),
    ensures
        ({
            let t = s.peer_removed(peer);
            let c = crate::ring_state::identity_of(s.identities, peer);
            &&& t.slots.len() == s.slots.len()
            &&& forall|i: int|
                0 <= i < s.slots.len() ==> if s.slots[i].peer == peer {
                    !(#[trigger] t.slots[i]).active && t.slots[i].samples.len() == 0
                } else {
                    t.slots[i] == s.slots[i]
                }
            &&& crate::ring_state::identity_of(t.identities, peer) == peer
            &&& forall|q: Seq<char>|
                q != peer ==> #[trigger] crate::ring_state::identity_of(t.identities, q)
                    == crate::ring_state::identity_of(s.identities, q)
            &&& forall|k: crate::slot::ChannelKey|
                #[trigger] t.table.slot_of(k) == if k.client == c {
                    None
                } else {
                    s.table.slot_of(k)
                }
            &&& t == RingState {
                slots: t.slots,
                table: t.table,
                identities: t.identities,
                ..s
            }
        }),
{
    let t = s.peer_removed(peer);
    let c = crate::ring_state::identity_of(s.identities, peer);
    let p = crate::ring_state::other_peer(peer);
    let ids = t.identities;
    assert forall|i: int| 0 <= i < ids.len() implies (#[trigger] ids[i]).0 != peer by {
        s.identities.lemma_filter_pred(p, i);
    }
    crate::ring_history::lemma_identity_absent(ids, peer, Seq::empty());
    assert(ids + Seq::empty() =~= ids);
    assert forall|q: Seq<char>| q != peer implies #[trigger] crate::ring_state::identity_of(
        t.identities,
        q,
    ) == crate::ring_state::identity_of(s.identities, q) by {
        crate::ring_history::lemma_identity_filtered(s.identities, peer, q);
    }
    let po = crate::slot::other_client(c);
    crate::slot_laws::lemma_filter_keeps_valid(s.table.active, po);
    assert forall|k: crate::slot::ChannelKey| #[trigger] t.table.slot_of(k) == if k.client == c {
        None
    } else {
        s.table.slot_of(k)
    } by {
        if k.client == c {
            if crate::slot::holds(t.table.active, k) {
                let i = choose|i: int|
                    0 <= i < t.table.active.len() && (#[trigger] t.table.active[i]).0 == k;
                s.table.active.lemma_filter_pred(po, i);
            }
        } else {
            if let Some(x) = s.table.slot_of(k) {
                crate::slot_laws::lemma_slot_is_listed(s.table, k, x);
                let m = choose|m: int|
                    0 <= m < s.table.active.len() && s.table.active[m] == (k, x);
                s.table.active.lemma_filter_contains(po, m);
                crate::slot_laws::lemma_slot_is_listed(t.table, k, x);
            } else if let Some(x) = t.table.slot_of(k) {
                crate::slot_laws::lemma_slot_is_listed(t.table, k, x);
                s.table.active.lemma_filter_contains_rev(po, (k, x));
                crate::slot_laws::lemma_slot_is_listed(s.table, k, x);
            }
        }
    }
}

/// A peer has the identity it announced last, others keep theirs, and announcing one
/// changes nothing of what is recorded, played or waits, but for the slots it gets back.
pub proof fn law_announced_identity_counts(s: RingState, peer: Seq<char>, identity: Seq<char>)
    ensures
        ({
            let t = s.peer_joined(peer, identity);
            &&& crate::ring_state::identity_of(t.identities, peer) == identity
            &&& forall|q: Seq<char>|
                q != peer ==> #[trigger] crate::ring_state::identity_of(t.identities, q)
                    == crate::ring_state::identity_of(s.identities, q)
            &&& t == RingState {
                slots: t.slots,
                table: t.table,
                identities: t.identities,
                ..s
            }
        }),
{
    crate::ring_history::lemma_identity_joined(s.identities, peer, identity);
}

/// When the transport starts again, nothing is recorded or playing, no interval is
/// current, and no recording is handed out; what the slots hold is read from its start.
pub proof fn law_restart_starts_over(s: RingState)
    ensures
        ({
            let t = s.restarted();
            &&& t.record.len() == 0
            &&& t.playback.len() == 0
            &&& t.playback_pos == 0
            &&& t.current is None
            &&& t.playing is None
            &&& t.completed.len() == 0
            &&& t.slots.len() == s.slots.len()
            &&& forall|i: int|
                0 <= i < s.slots.len() ==> (#[trigger] t.slots[i]).read_pos == 0
                    && t.slots[i].samples == s.slots[i].samples && t.slots[i].active
                    == s.slots[i].active && t.slots[i].peer == s.slots[i].peer && t.slots[i].stream
                    == s.slots[i].stream && t.slots[i].tail == s.slots[i].tail
            &&& t.capacity == s.capacity && t.sample_rate == s.sample_rate && t.channels
                == s.channels && t.bars == s.bars && t.quantum == s.quantum
        }),
{
}

/// A ring that was reset knows no peer, holds no audio and no slot, and keeps its
/// configuration; every buffer and every slot is silent.
pub proof fn law_reset_forgets_everything(s: RingState, slot: usize, wanted: nat, peer: Seq<char>)
    requires
        s.valid(),
    ensures
        ({
            let t = s.cleared();
            &&& t.record.len() == 0
            &&& t.current is None
            &&& t.playing is None
            &&& t.completed.len() == 0
            &&& t.pending.len() == 0
            &&& t.table.active.len() == 0
            &&& t.table.reserved.len() == 0
            &&& crate::ring_state::identity_of(t.identities, peer) == peer
            &&& forall|i: int| 0 <= i < t.slots.len() ==> !(#[trigger] t.slots[i]).active
            &&& t.heard(wanted).len() == wanted
            &&& forall|j: int| 0 <= j < wanted ==> #[trigger] t.heard(wanted)[j] == 0u32
            &&& t.slot_heard(slot, wanted).len() == wanted
            &&& forall|j: int| 0 <= j < wanted ==> #[trigger] t.slot_heard(slot, wanted)[j] == 0u32
            &&& t.capacity == s.capacity && t.sample_rate == s.sample_rate && t.channels
                == s.channels && t.bars == s.bars && t.quantum == s.quantum
            &&& t.valid()
        }),
{
    let t = s.cleared();
    assert forall|i: int| 0 <= i < t.slots.len() implies (#[trigger] t.slots[i]).valid() by {}
}

/// A buffer reports a completed interval exactly when one was current and the buffer
/// belongs to another; it is the one that was current.
pub proof fn law_boundary_is_reported(current: Option<i64>, index: i64)
    ensures
        match current {
            Some(c) => crate::ring_state::completed_by(current, index) == if c == index {
                None
            } else {
                Some(c)
            },
            None => crate::ring_state::completed_by(current, index) is None,
        },
{
}

/// The first buffer starts its interval: the interval is current, its audio is heard as it
/// comes in, and the buffer is recorded; no boundary is passed and nothing that plays or
/// waits changes.
pub proof fn law_first_buffer_starts_its_interval<
    M: Fn(u32, u32) -> u32,
    F: Fn(u32, u32, usize, usize) -> u32,
>(mix: M, fade: F, s: RingState, input: Seq<u32>, index: i64, out: Seq<u32>, t: RingState)
    requires
        s.valid(),
        s.current is None,
        crate::ring_state::took(mix, fade, s, input, index, out, t),
    ensures
        t.current == Some(index),
        t.playing == Some(index),
        is_cut_at(t.record, s.record + input, s.capacity),
        t.completed == s.completed,
        t.pending == s.pending,
        t.playback == s.playback,
        t.slots == s.slots,
        t.table == s.table,
        t.identities == s.identities,
{
    let m = choose|m: RingState|
        {
            &&& #[trigger] crate::ring_state::reached(mix, fade, s, index, m)
            &&& t == m.recorded(input).advanced(out.len())
            &&& out == m.heard(out.len())
        };
    let all = s.record + input;
    assert forall|j: int| 0 <= j < t.record.len() implies #[trigger] t.record[j] == all[j] by {
        if j < s.record.len() {
            assert(t.record[j] == s.record[j]);
        }
    }
}

/// A new ring has 31 silent slots and holds nothing; it keeps the configuration it was
/// made with. Nobody has a slot or an identity of their own.
pub proof fn law_new_ring_is_empty(
    sample_rate: u32,
    channels: u16,
    capacity: nat,
    bars: u32,
    quantum: u64,
    peer: Seq<char>,
    i: int,
)
    requires
        0 <= i < 31,
    ensures
        ({
            let s = RingState::fresh(sample_rate, channels, capacity, bars, quantum);
            &&& s.valid()
            &&& s.record.len() == 0 && s.playback.len() == 0 && s.playback_pos == 0
            &&& s.capacity == capacity && s.sample_rate == sample_rate && s.channels == channels
            &&& s.bars == bars && s.quantum == quantum
            &&& s.current is None && s.playing is None
            &&& s.completed.len() == 0 && s.pending.len() == 0
            &&& s.table.active.len() == 0 && s.table.reserved.len() == 0
            &&& crate::ring_state::identity_of(s.identities, peer) == peer
            &&& s.slots.len() == 31
            &&& !s.slots[i].active && s.slots[i].samples.len() == 0 && s.slots[i].read_pos == 0
            &&& s.slots[i].tail.len() == 256
            &&& forall|j: int| 0 <= j < 256 ==> (#[trigger] s.slots[i].tail[j]) == 0
        }),
{
    let s = RingState::fresh(sample_rate, channels, capacity, bars, quantum);
    assert forall|k: int| 0 <= k < s.slots.len() implies (#[trigger] s.slots[k]).valid() by {}
}

/// A configuration that cannot be used is brought into range: there is at least one bar,
/// and the quantum is a positive number, no smaller than the smallest one that is used.
/// One in range is taken as it is. Positive doubles are ordered as their bit patterns.
pub proof fn law_configuration_is_brought_into_range(bars: u32, quantum: u64)
    ensures
        crate::ring::clamped_bars(bars) >= 1,
        bars >= 1 ==> crate::ring::clamped_bars(bars) == bars,
        bars == 0 ==> crate::ring::clamped_bars(bars) == 1,
        0x3cb0_0000_0000_0000 <= crate::ring::clamped_quantum(quantum) <= 0x7ff0_0000_0000_0000,
        0x3cb0_0000_0000_0000 <= quantum <= 0x7ff0_0000_0000_0000 ==> crate::ring::clamped_quantum(
            quantum,
        ) == quantum,
        quantum < 0x3cb0_0000_0000_0000 || quantum > 0x7ff0_0000_0000_0000
            ==> crate::ring::clamped_quantum(quantum) == 0x3cb0_0000_0000_0000,
{
}

/// Audio waits under its peer, stream and interval: what came in before for the same ones
/// is continued, anything else that waits stays as it is, and nothing is lost.
pub proof fn law_waiting_audio_is_kept_apart(
    pending: Seq<PendingState>,
    peer: Seq<char>,
    stream: u16,
    index: i64,
    samples: Seq<u32>,
    i: int,
)
    requires
        0 <= i < pending.len(),
    ensures
        ({
            let q = crate::ring_state::queued(pending, peer, stream, index, samples);
            let other = pending[i].peer != peer || pending[i].stream != stream || pending[i].index
                != index;
            &&& pending.len() <= q.len() <= pending.len() + 1
            &&& other ==> q[i] == pending[i]
            &&& q[i].peer == pending[i].peer && q[i].stream == pending[i].stream && q[i].index
                == pending[i].index
            &&& q[i].samples == pending[i].samples || q[i].samples == pending[i].samples + samples
            &&& exists|j: int|
                0 <= j < q.len() && (#[trigger] q[j]).peer == peer && q[j].stream == stream
                    && q[j].index == index && q[j].samples.len() >= samples.len()
                    && q[j].samples.skip(q[j].samples.len() - samples.len()) == samples
            &&& q.len() == pending.len() + 1 <==> forall|j: int|
                0 <= j < pending.len() ==> (#[trigger] pending[j]).peer != peer
                    || pending[j].stream != stream || pending[j].index != index
        }),
{
    let q = crate::ring_state::queued(pending, peer, stream, index, samples);
    if exists|k: int| crate::ring_state::is_pending_at(pending, peer, stream, index, k) {
        let k = choose|k: int| crate::ring_state::is_pending_at(pending, peer, stream, index, k);
        assert(q[k].samples.skip(q[k].samples.len() - samples.len()) =~= samples);
        assert(pending[k].peer == peer);
    } else {
        let k = pending.len() as int;
        assert(q[k].samples.skip(q[k].samples.len() - samples.len()) =~= samples);
        assert forall|j: int| 0 <= j < pending.len() implies (#[trigger] pending[j]).peer != peer
            || pending[j].stream != stream || pending[j].index != index by {
            if crate::ring_state::is_for(pending[j], peer, stream, index) {
                lemma_first_waiting(pending, peer, stream, index, j);
            }
        }
    }
}

proof fn lemma_first_waiting(
    pending: Seq<PendingState>,
    peer: Seq<char>,
    stream: u16,
    index: i64,
    j: int,
)
    requires
        0 <= j < pending.len(),
        crate::ring_state::is_for(pending[j], peer, stream, index),
    ensures
        exists|k: int| crate::ring_state::is_pending_at(pending, peer, stream, index, k),
    decreases j,
{
    if exists|c: int|
        0 <= c < j && crate::ring_state::is_for(#[trigger] pending[c], peer, stream, index) {
        let c = choose|c: int|
            0 <= c < j && crate::ring_state::is_for(#[trigger] pending[c], peer, stream, index);
        lemma_first_waiting(pending, peer, stream, index, c);
    } else {
        assert(crate::ring_state::is_pending_at(pending, peer, stream, index, j));
    }
}

/// A bridge hands out the recordings of its ring, each once: what a buffer hands out is
/// what was ready, and the interval that it completes, if any of it was recorded; nothing
/// is ready afterwards. What the bridge was made with stays.
pub proof fn law_recordings_are_handed_out_once<
    M: Fn(u32, u32) -> u32,
    F: Fn(u32, u32, usize, usize) -> u32,
>(
    mix: M,
    fade: F,
    s: BridgeState,
    input: Seq<u32>,
    index: i64,
    out: Seq<u32>,
    completed: Seq<CompletedState>,
    t: BridgeState,
)
    requires
        s.ring.valid(),
        crate::bridge::processed(mix, fade, s, input, index, out, completed, t),
    ensures
        ({
            let done = s.ring.current is Some && s.ring.current != Some(index)
                && s.ring.record.len() > 0;
            &&& done ==> {
                &&& completed.len() == s.ring.completed.len() + 1
                &&& completed.drop_last() == s.ring.completed
                &&& completed.last().index == s.ring.current->0
                &&& completed.last().samples == s.ring.record
            }
            &&& !done ==> completed == s.ring.completed
            &&& t.ring.completed.len() == 0
            &&& t.ring.current == Some(index)
            &&& t.ring.capacity == s.ring.capacity
            &&& s.ring.current is Some && s.ring.current != Some(index) ==> is_cut_at(
                t.ring.record,
                input,
                s.ring.capacity,
            )
            &&& s.ring.current is None || s.ring.current == Some(index) ==> is_cut_at(
                t.ring.record,
                s.ring.record + input,
                s.ring.capacity,
            )
            &&& t.sample_rate == s.sample_rate && t.channels == s.channels
            &&& t.bitrate_kbps == s.bitrate_kbps && t.bpm == s.bpm
            &&& t.bars == s.bars && t.quantum == s.quantum
        }),
{
    let r = choose|r: RingState|
        {
            &&& #[trigger] crate::ring_state::took(mix, fade, s.ring, input, index, out, r)
            &&& completed == r.completed
            &&& t == BridgeState { ring: RingState { completed: Seq::empty(), ..r }, ..s }
        };
    lemma_taken(mix, fade, s.ring, input, index, out, r);
}

#[verifier::spinoff_prover]
#[verifier::rlimit(40)]
proof fn lemma_taken<M: Fn(u32, u32) -> u32, F: Fn(u32, u32, usize, usize) -> u32>(
    mix: M,
    fade: F,
    s: RingState,
    input: Seq<u32>,
    index: i64,
    out: Seq<u32>,
    t: RingState,
)
    requires
        s.valid(),
        crate::ring_state::took(mix, fade, s, input, index, out, t),
    ensures
        ({
            let ends = s.current is Some && s.current != Some(index);
            &&& ends && s.record.len() > 0 ==> t.completed == s.completed.push(
                CompletedState { index: s.current->0, samples: s.record },
            ) && t.completed.drop_last() == s.completed
            &&& !(ends && s.record.len() > 0) ==> t.completed == s.completed
            &&& t.current == Some(index)
            &&& t.capacity == s.capacity
            &&& ends ==> is_cut_at(t.record, input, s.capacity)
            &&& !ends ==> is_cut_at(t.record, s.record + input, s.capacity)
        }),
{
    let m = choose|m: RingState|
        {
            &&& #[trigger] crate::ring_state::reached(mix, fade, s, index, m)
            &&& t == m.recorded(input).advanced(out.len())
            &&& out == m.heard(out.len())
        };
    if s.current is Some && s.current != Some(index) {
        let prev = s.current->0;
        let v = choose|v: RingState|
            #[trigger] crate::ring_state::swapped(mix, fade, s.stocked(), prev, v) && m
                == RingState { current: Some(index), ..v };
        crate::ring_laws::law_boundary(mix, fade, s.stocked(), prev, v);
        assert(t.record =~= input.take(t.record.len() as int));
        if s.record.len() > 0 {
            assert(t.completed.drop_last() =~= s.completed);
        }
    } else {
        let all = s.record + input;
        assert forall|j: int| 0 <= j < t.record.len() implies #[trigger] t.record[j] == all[j] by {
            if j < s.record.len() {
                assert(t.record[j] == s.record[j]);
            }
        }
    }
}

/// Whether two active slots play the same stream of the same peer.
pub open spec fn plays_twice(slots: Seq<SlotState>) -> bool {
    exists|a: int, b: int|
        0 <= a < b < slots.len() && (#[trigger] slots[a]).active && (#[trigger] slots[b]).active
            && slots[a].peer == slots[b].peer && slots[a].stream == slots[b].stream
}

proof fn lemma_step_plays_once<
    M: Fn(u32, u32) -> u32,
    F: Fn(u32, u32, usize, usize) -> u32,
>(mix: M, fade: F, s: RingState, p: PendingState, t: RingState)
    requires
        s.table.valid(),
        s.slots.len() == MAX_SLOTS,
        !plays_twice(s.slots),
        crate::ring_state::mix_step(mix, fade, s, p, t),
    ensures
        !plays_twice(t.slots),
{
    let k = s.channel_of(p.peer, p.stream);
    crate::slot_laws::law_assign_keeps_table_valid(s.table, k);
    crate::slot_laws::law_assign_keeps_table_valid(
        s.table.assigned(k),
        s.channel_of(p.peer, 0),
    );
    if plays_twice(t.slots) {
        let (a, b) = choose|a: int, b: int|
            0 <= a < b < t.slots.len() && (#[trigger] t.slots[a]).active && (
            #[trigger] t.slots[b]).active && t.slots[a].peer == t.slots[b].peer
                && t.slots[a].stream == t.slots[b].stream;
        if let Some(i) = s.table.assigned_slot(k) {
            let j = if a == i {
                b
            } else {
                a
            };
            assert(s.slots[j].active);
            if a != i && b != i {
                assert(s.slots[a].active && s.slots[b].active);
            } else {
                assert(crate::ring_state::plays(s.slots[j], p.peer, p.stream));
            }
        } else {
            assert(s.slots[a].active && s.slots[b].active);
        }
    }
}

/// A boundary never leaves a stream playing in two slots: where none did before, none does
/// after it.
pub proof fn law_boundary_plays_each_stream_once<
    M: Fn(u32, u32) -> u32,
    F: Fn(u32, u32, usize, usize) -> u32,
>(mix: M, fade: F, s: RingState, completed: i64, t: RingState)
    requires
        s.valid(),
        crate::ring_state::swapped(mix, fade, s, completed, t),
    ensures
        !plays_twice(t.slots),
{
    let trace = choose|trace: Seq<RingState>|
        {
            &&& #[trigger] crate::ring_state::is_trace(mix, fade, s.due(completed), trace)
            &&& trace[0] == s.turned(completed)
            &&& trace.last() == t
        };
    let due = s.due(completed);
    if plays_twice(trace[0].slots) {
        let (a, b) = choose|a: int, b: int|
            0 <= a < b < trace[0].slots.len() && (#[trigger] trace[0].slots[a]).active && (
            #[trigger] trace[0].slots[b]).active && trace[0].slots[a].peer
                == trace[0].slots[b].peer && trace[0].slots[a].stream == trace[0].slots[b].stream;
        assert(s.slots[a].active && s.slots[b].active);
    }
    lemma_trace_plays_once(mix, fade, due, trace, due.len() as int);
}

proof fn lemma_trace_plays_once<
    M: Fn(u32, u32) -> u32,
    F: Fn(u32, u32, usize, usize) -> u32,
>(mix: M, fade: F, due: Seq<PendingState>, trace: Seq<RingState>, n: int)
    requires
        crate::ring_state::is_trace(mix, fade, due, trace),
        trace[0].playback.len() == 0,
        trace[0].table.valid(),
        trace[0].slots.len() == MAX_SLOTS,
        !plays_twice(trace[0].slots),
        0 <= n <= due.len(),
    ensures
        !plays_twice(trace[n].slots),
    decreases n,
{
    if n > 0 {
        lemma_trace_plays_once(mix, fade, due, trace, n - 1);
        crate::ring_laws::lemma_trace_keeps_frame(mix, fade, due, trace, n - 1);
        assert(crate::ring_state::mix_step(mix, fade, trace[n - 1], due[n - 1], trace[n - 1 + 1]));
        lemma_step_plays_once(mix, fade, trace[n - 1], due[n - 1], trace[n]);
    }
}

/// A peer that joins never plays a stream in two slots either.
pub proof fn law_joining_plays_each_stream_once(
    s: RingState,
    peer: Seq<char>,
    identity: Seq<char>,
)
    requires
        s.valid(),
    ensures
        !plays_twice(s.peer_joined(peer, identity).slots),
{
    if plays_twice(s.slots) {
        let (a, b) = choose|a: int, b: int|
            0 <= a < b < s.slots.len() && (#[trigger] s.slots[a]).active && (
            #[trigger] s.slots[b]).active && s.slots[a].peer == s.slots[b].peer
                && s.slots[a].stream == s.slots[b].stream;
    }
    let u = s.table.rekeyed(peer, identity);
    crate::slot_laws::lemma_rekeyed(s.table, peer, identity);
    crate::ring_history::lemma_reclaimable(u, identity);
    lemma_retuned_plays_once(s.slots, peer, u.reclaimable(identity));
}

proof fn lemma_retuned_plays_once(
    slots: Seq<SlotState>,
    peer: Seq<char>,
    es: Seq<crate::slot::Entry>,
)
    requires
        !plays_twice(slots),
        forall|i: int| 0 <= i < es.len() ==> (#[trigger] es[i]).1 < slots.len(),
    ensures
        !plays_twice(crate::ring_state::retuned(slots, peer, es)),
        crate::ring_state::retuned(slots, peer, es).len() == slots.len(),
    decreases es.len(),
{
    if es.len() > 0 {
        assert(es[es.len() - 1].1 < slots.len());
        lemma_retuned_plays_once(slots, peer, es.drop_last());
        let u = crate::ring_state::retuned(slots, peer, es.drop_last());
        let t = crate::ring_state::retuned(slots, peer, es);
        let i = es.last().1 as int;
        let stream = es.last().0.channel;
        if plays_twice(t) {
            let (a, b) = choose|a: int, b: int|
                0 <= a < b < t.len() && (#[trigger] t[a]).active && (#[trigger] t[b]).active
                    && t[a].peer == t[b].peer && t[a].stream == t[b].stream;
            let j = if a == i {
                b
            } else {
                a
            };
            assert(u[j].active);
            if a != i && b != i {
                assert(u[a].active && u[b].active);
            } else {
                assert(crate::ring_state::plays(u[j], peer, stream));
            }
        }
    }
}

} // verus!
