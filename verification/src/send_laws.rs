//! Laws of streaming over all buffers of an interval.

use vstd::arithmetic::div_mod::*;
use vstd::arithmetic::mul::*;
use vstd::prelude::*;

use crate::send::{RawState, SendState};

verus! {

/// Whether streaming goes on in `b` where it stopped in `a`. Between two buffers the
/// host may change the tempo, and the ring records.
pub open spec fn goes_on(a: SendState, b: SendState) -> bool {
    &&& b.buffer == a.buffer
    &&& b.index == a.index
    &&& b.number == a.number
    &&& b.frame_size == a.frame_size
    &&& b.bridge.channels == a.bridge.channels
}

/// Whether the buffers `inputs`, which come in at `states`, are consecutive buffers of
/// interval `index`.
pub open spec fn is_stretch(states: Seq<SendState>, inputs: Seq<Seq<u32>>, index: i64) -> bool {
    &&& states.len() == inputs.len()
    &&& forall|i: int|
        0 <= i < states.len() - 1 ==> goes_on(
            (#[trigger] states[i]).streamed(inputs[i], index),
            states[i + 1],
        )
}

/// All that came in.
pub open spec fn captured(inputs: Seq<Seq<u32>>) -> Seq<u32>
    decreases inputs.len(),
{
    if inputs.len() == 0 {
        Seq::empty()
    } else {
        captured(inputs.drop_last()) + inputs.last()
    }
}

/// All frames that go out for the buffers.
pub open spec fn sent(
    states: Seq<SendState>,
    inputs: Seq<Seq<u32>>,
    index: i64,
    stream: u16,
) -> Seq<RawState>
    decreases inputs.len(),
{
    if inputs.len() == 0 {
        Seq::empty()
    } else {
        sent(states.drop_last(), inputs.drop_last(), index, stream) + states.last().dispatched(
            inputs.last(),
            index,
            stream,
        )
    }
}

/// Says of a frame that it belongs to an interval.
pub open spec fn of_interval(index: i64) -> spec_fn(RawState) -> bool {
    |f: RawState| f.interval_index == index
}

/// Whether `f` is whole frame `j` of `audio`, cut into frames of `n` samples.
pub open spec fn is_cut(f: RawState, audio: Seq<u32>, n: nat, index: i64, stream: u16, j: int) -> bool {
    &&& f.samples == audio.subrange(j * n, j * n + n)
    &&& f.interval_index == index
    &&& f.stream_id == stream
    &&& f.frame_number == crate::send::counted(0, j)
    &&& !f.is_final
    &&& f.total_frames == 0
}

/// Whether `f` closes an interval of which `audio` was captured: it holds what is
/// left of it, and tells the number of frames.
pub open spec fn is_last(f: RawState, audio: Seq<u32>, n: nat, index: i64, stream: u16) -> bool {
    let k = (audio.len() / n) as int;
    &&& f.samples == audio.skip(k * n)
    &&& f.samples.len() == audio.len() % n
    &&& f.interval_index == index
    &&& f.stream_id == stream
    &&& f.frame_number == crate::send::counted(0, k)
    &&& f.is_final
    &&& f.total_frames == crate::send::counted(
        0,
        if audio.len() % n == 0 {
            k
        } else {
            k + 1
        },
    )
}

/// Cutting goes on where it stopped: with `q` frames cut of `len` samples, `w` more are
/// cut once `more` samples came in.
proof fn lemma_cut_counts(len: nat, more: nat, n: nat)
    requires
        n > 0,
    ensures
        ({
            let q = (len / n) as int;
            let w = ((len - q * n + more) / (n as int)) as int;
            &&& 0 <= q * n <= len
            &&& 0 <= w
            &&& w * n <= len - q * n + more
            &&& (len + more) / n == q + w
            &&& (q + w) * n == q * n + w * n
        }),
{
    let q = (len / n) as int;
    lemma_fundamental_div_mod(len as int, n as int);
    lemma_mod_bound(len as int, n as int);
    lemma_mul_is_commutative(n as int, q);
    let rest = len - q * n + more;
    let w = rest / (n as int);
    lemma_fundamental_div_mod(rest, n as int);
    lemma_mod_bound(rest, n as int);
    lemma_mul_is_commutative(n as int, w);
    lemma_div_pos_is_pos(len as int, n as int);
    lemma_div_pos_is_pos(rest, n as int);
    lemma_mul_nonnegative(q, n as int);
    lemma_mul_is_distributive_add_other_way(n as int, q, w);
    lemma_fundamental_div_mod_converse(
        (len + more) as int,
        n as int,
        q + w,
        rest % (n as int),
    );
}

/// Frame `i` of the next cuts is frame `q + i` of all.
proof fn lemma_cut_place(q: int, i: int, w: int, n: nat)
    requires
        0 <= q,
        0 <= i < w,
    ensures
        (q + i) * n == q * n + i * n,
        0 <= i * n,
        i * n + n <= w * n,
{
    lemma_mul_is_distributive_add_other_way(n as int, q, i);
    lemma_mul_nonnegative(i, n as int);
    lemma_mul_inequality(i + 1, w, n as int);
    lemma_mul_is_distributive_add_other_way(n as int, i, 1);
    lemma_mul_basics(n as int);
}

/// What one more buffer leads to, once the interval is current.
#[verifier::spinoff_prover]
#[verifier::rlimit(40)]
proof fn lemma_next_buffer(t: SendState, audio: Seq<u32>, x: Seq<u32>, index: i64, stream: u16)
    requires
        t.frame_samples() > 0,
        t.index == Some(index),
        t.buffer == audio.skip((audio.len() / t.frame_samples()) as int * t.frame_samples()),
        t.number == crate::send::counted(0, (audio.len() / t.frame_samples()) as int),
    ensures
        ({
            let n = t.frame_samples();
            let q = (audio.len() / n) as int;
            let w = t.whole_frames(x) as int;
            let k = ((audio + x).len() / n) as int;
            let r = t.streamed(x, index);
            &&& k == q + w
            &&& 0 <= q
            &&& 0 <= w
            &&& r.buffer == (audio + x).skip(k * n)
            &&& r.number == crate::send::counted(0, k)
            &&& forall|i: int|
                0 <= i < w ==> is_cut(
                    #[trigger] t.whole_frame(x, index, stream, i),
                    audio + x,
                    n,
                    index,
                    stream,
                    q + i,
                )
        }),
{
    let n = t.frame_samples();
    let q = (audio.len() / n) as int;
    let all = t.buffer + x;
    let whole = audio + x;
    let w = t.whole_frames(x) as int;
    lemma_cut_counts(audio.len(), x.len(), n);
    assert(all.len() == audio.len() - q * n + x.len());
    assert(all =~= whole.skip(q * n));
    assert(all.skip(w * n) =~= whole.skip((q + w) * n));
    assert forall|i: int| 0 <= i < w implies is_cut(
        #[trigger] t.whole_frame(x, index, stream, i),
        whole,
        n,
        index,
        stream,
        q + i,
    ) by {
        lemma_cut_place(q, i, w, n);
        assert(all.subrange(i * n, i * n + n) =~= whole.subrange(
            (q + i) * n,
            (q + i) * n + n,
        ));
    }
}

/// The frames of the interval that go out for one of its buffers.
proof fn lemma_frames_of_buffer(s: SendState, x: Seq<u32>, index: i64, stream: u16)
    ensures
        ({
            let t = s.turned(index);
            s.dispatched(x, index, stream).filter(of_interval(index)) == Seq::new(
                t.whole_frames(x),
                |j: int| t.whole_frame(x, index, stream, j),
            )
        }),
{
    let t = s.turned(index);
    let pred = of_interval(index);
    let head = if s.turns(index) {
        seq![s.final_frame(stream)]
    } else {
        Seq::empty()
    };
    let cuts = Seq::new(t.whole_frames(x), |j: int| t.whole_frame(x, index, stream, j));
    assert(s.dispatched(x, index, stream) =~= head + cuts);
    assert(head.filter(pred) =~= Seq::empty()) by {
        reveal(Seq::filter);
        if s.turns(index) {
            assert(head.drop_last() =~= Seq::empty());
            assert(head.drop_last().filter(pred) =~= Seq::empty());
            assert(!pred(head.last()));
        }
    }
    lemma_filter_all(cuts, pred);
    Seq::filter_distributes_over_add(head, cuts, pred);
    assert(Seq::<RawState>::empty() + cuts =~= cuts);
}

/// A cut of the head is a cut of the whole.
proof fn lemma_cut_of_head(
    f: RawState,
    audio: Seq<u32>,
    x: Seq<u32>,
    n: nat,
    index: i64,
    stream: u16,
    j: int,
)
    requires
        n > 0,
        0 <= j < audio.len() / n,
        is_cut(f, audio, n, index, stream, j),
    ensures
        is_cut(f, audio + x, n, index, stream, j),
{
    lemma_cut_counts(audio.len(), 0, n);
    lemma_cut_place(0, j, (audio.len() / n) as int, n);
    assert((audio + x).subrange(j * n, j * n + n) =~= audio.subrange(j * n, j * n + n));
}

/// What the buffers of an interval have led to so far.
spec fn is_cut_so_far(
    states: Seq<SendState>,
    inputs: Seq<Seq<u32>>,
    index: i64,
    stream: u16,
) -> bool {
    let n = states[0].frame_samples();
    let audio = captured(inputs);
    let k = (audio.len() / n) as int;
    let t = states.last().streamed(inputs.last(), index);
    let out = sent(states, inputs, index, stream).filter(of_interval(index));
    &&& t.frame_samples() == n
    &&& t.index == Some(index)
    &&& t.buffer == audio.skip(k * n)
    &&& t.number == crate::send::counted(0, k)
    &&& out.len() == k
    &&& forall|j: int| 0 <= j < k ==> is_cut(#[trigger] out[j], audio, n, index, stream, j)
}

#[verifier::spinoff_prover]
#[verifier::rlimit(40)]
proof fn lemma_stretch(states: Seq<SendState>, inputs: Seq<Seq<u32>>, index: i64, stream: u16)
    requires
        is_stretch(states, inputs, index),
        states.len() > 0,
        states[0].valid(),
        states[0].index != Some(index),
    ensures
        is_cut_so_far(states, inputs, index, stream),
    decreases states.len(),
{
    let n = states[0].frame_samples();
    let s = states.last();
    let x = inputs.last();
    let fs = states.drop_last();
    let fi = inputs.drop_last();
    let t = s.turned(index);
    let audio = captured(fi);
    let q = (audio.len() / n) as int;
    let before = sent(fs, fi, index, stream);
    let out0 = before.filter(of_interval(index));
    if states.len() == 1 {
        assert(s == states[0]);
        assert(audio =~= Seq::empty());
        lemma_div_basics(n as int);
        assert(0int / (n as int) == 0);
        assert(q == 0);
        lemma_mul_basics(n as int);
        assert(t.buffer =~= audio.skip(0));
        assert(before =~= Seq::empty());
        reveal(Seq::filter);
        assert(out0 =~= Seq::empty());
    } else {
        assert(fs[0] == states[0]);
        assert forall|i: int| 0 <= i < fs.len() - 1 implies goes_on(
            (#[trigger] fs[i]).streamed(fi[i], index),
            fs[i + 1],
        ) by {
            assert(fs[i] == states[i] && fi[i] == inputs[i] && fs[i + 1] == states[i + 1]);
        }
        lemma_stretch(fs, fi, index, stream);
        let p = states.len() - 2;
        assert(fs.last() == states[p] && fi.last() == inputs[p]);
        assert(goes_on(states[p].streamed(inputs[p], index), states[p + 1]));
    }
    lemma_next_buffer(t, audio, x, index, stream);
    assert(s.streamed(x, index) == t.streamed(x, index));
    lemma_frames_of_buffer(s, x, index, stream);
    let cuts = s.dispatched(x, index, stream).filter(of_interval(index));
    Seq::filter_distributes_over_add(before, s.dispatched(x, index, stream), of_interval(index));
    let out = sent(states, inputs, index, stream).filter(of_interval(index));
    assert(out == out0 + cuts);
    let all = captured(inputs);
    let k = (all.len() / n) as int;
    assert forall|j: int| 0 <= j < k implies is_cut(
        #[trigger] out[j],
        all,
        n,
        index,
        stream,
        j,
    ) by {
        if j < q {
            assert(out[j] == out0[j]);
            lemma_cut_of_head(out0[j], audio, x, n, index, stream, j);
        } else {
            assert(out[j] == t.whole_frame(x, index, stream, j - q));
        }
    }
}

/// Filtering by what holds of all frames changes nothing.
proof fn lemma_filter_all(s: Seq<RawState>, p: spec_fn(RawState) -> bool)
    requires
        forall|i: int| 0 <= i < s.len() ==> p(#[trigger] s[i]),
    ensures
        s.filter(p) == s,
    decreases s.len(),
{
    reveal(Seq::filter);
    if s.len() > 0 {
        let front = s.drop_last();
        assert forall|i: int| 0 <= i < front.len() implies p(#[trigger] front[i]) by {
            assert(front[i] == s[i]);
        }
        lemma_filter_all(front, p);
        assert(p(s[s.len() - 1]));
        assert(front.push(s.last()) =~= s);
    }
}

/// An interval that is entered, streamed and left goes out whole: its frames are
/// numbered from 0, all but the last are whole cuts of what was captured, in order,
/// and the last, the only final one, holds the rest and tells how many frames there
/// are. Frame numbers count modulo 2^32.
pub proof fn law_interval_is_streamed_whole(
    states: Seq<SendState>,
    inputs: Seq<Seq<u32>>,
    index: i64,
    stream: u16,
    end: SendState,
    next_input: Seq<u32>,
    next: i64,
)
    requires
        is_stretch(states, inputs, index),
        states.len() > 0,
        states[0].valid(),
        states[0].index != Some(index),
        goes_on(states.last().streamed(inputs.last(), index), end),
        next != index,
    ensures
        ({
            let n = states[0].frame_samples();
            let audio = captured(inputs);
            let k = (audio.len() / n) as int;
            let out = (sent(states, inputs, index, stream) + end.dispatched(
                next_input,
                next,
                stream,
            )).filter(of_interval(index));
            &&& out.len() == k + 1
            &&& forall|j: int|
                0 <= j < k ==> is_cut(#[trigger] out[j], audio, n, index, stream, j)
            &&& is_last(out[k], audio, n, index, stream)
            &&& crate::send::frames_audio(out) == audio
        }),
{
    lemma_stretch(states, inputs, index, stream);
    let n = states[0].frame_samples();
    let audio = captured(inputs);
    let k = (audio.len() / n) as int;
    assert(k >= 0) by {
        lemma_cut_counts(audio.len(), 0, n);
    }
    let pred = of_interval(index);
    let before = sent(states, inputs, index, stream);
    let whole = before.filter(pred);
    let closing = end.dispatched(next_input, next, stream);
    lemma_closing_frames(end, next_input, index, next, stream);
    Seq::filter_distributes_over_add(before, closing, pred);
    let out = (before + closing).filter(pred);
    assert(out =~= whole.push(end.final_frame(stream)));
    lemma_final_is_last(end, audio, n, index, stream);
    assert(out[k] == end.final_frame(stream));
    assert forall|j: int| 0 <= j < k implies is_cut(
        #[trigger] out[j],
        audio,
        n,
        index,
        stream,
        j,
    ) by {
        assert(out[j] == whole[j]);
    }
    lemma_all_joined(whole, end.final_frame(stream), audio, n, index, stream);
}

/// The frame that closes an interval holds the rest of it and counts its frames.
proof fn lemma_final_is_last(end: SendState, audio: Seq<u32>, n: nat, index: i64, stream: u16)
    requires
        n > 0,
        end.index == Some(index),
        end.buffer == audio.skip((audio.len() / n) as int * n),
        end.number == crate::send::counted(0, (audio.len() / n) as int),
    ensures
        is_last(end.final_frame(stream), audio, n, index, stream),
{
    let k = (audio.len() / n) as int;
    lemma_fundamental_div_mod(audio.len() as int, n as int);
    lemma_mul_is_commutative(n as int, k);
    lemma_cut_counts(audio.len(), 0, n);
}

/// The whole cuts and the closing frame joined are the audio.
proof fn lemma_all_joined(
    whole: Seq<RawState>,
    last: RawState,
    audio: Seq<u32>,
    n: nat,
    index: i64,
    stream: u16,
)
    requires
        n > 0,
        whole.len() == audio.len() / n,
        forall|j: int|
            0 <= j < whole.len() ==> is_cut(#[trigger] whole[j], audio, n, index, stream, j),
        is_last(last, audio, n, index, stream),
    ensures
        crate::send::frames_audio(whole.push(last)) == audio,
{
    let k = (audio.len() / n) as int;
    lemma_cut_counts(audio.len(), 0, n);
    lemma_cuts_joined(whole, audio, n, index, stream);
    assert(whole.push(last).drop_last() =~= whole);
    assert(audio.take(k * n) + audio.skip(k * n) =~= audio);
}

/// Of the frames that go out when an interval ends, one is of that interval.
proof fn lemma_closing_frames(end: SendState, x: Seq<u32>, index: i64, next: i64, stream: u16)
    requires
        end.index == Some(index),
        next != index,
    ensures
        end.dispatched(x, next, stream).filter(of_interval(index)) == seq![
            end.final_frame(stream),
        ],
{
    let pred = of_interval(index);
    let t = end.turned(next);
    let head = seq![end.final_frame(stream)];
    let cuts = Seq::new(t.whole_frames(x), |j: int| t.whole_frame(x, next, stream, j));
    assert(end.dispatched(x, next, stream) =~= head + cuts);
    let f = cuts.filter(pred);
    if f.len() > 0 {
        cuts.lemma_filter_pred(pred, 0);
        assert(f.contains(f[0]));
        cuts.lemma_filter_contains_rev(pred, f[0]);
    }
    lemma_filter_all(head, pred);
    Seq::filter_distributes_over_add(head, cuts, pred);
    assert(head + f =~= head);
}

/// Cuts joined in order are the head of the audio.
proof fn lemma_cuts_joined(frames: Seq<RawState>, audio: Seq<u32>, n: nat, index: i64, stream: u16)
    requires
        frames.len() * n <= audio.len(),
        forall|j: int|
            0 <= j < frames.len() ==> is_cut(#[trigger] frames[j], audio, n, index, stream, j),
    ensures
        crate::send::frames_audio(frames) == audio.take((frames.len() * n) as int),
    decreases frames.len(),
{
    if frames.len() == 0 {
        lemma_mul_basics(n as int);
        assert(audio.take(0) =~= Seq::empty());
    } else {
        let front = frames.drop_last();
        let j = frames.len() - 1;
        assert((j + 1) * n == j * n + n) by {
            lemma_mul_is_distributive_add_other_way(n as int, j, 1);
            lemma_mul_basics(n as int);
        }
        lemma_mul_nonnegative(j, n as int);
        assert forall|i: int| 0 <= i < front.len() implies is_cut(
            #[trigger] front[i],
            audio,
            n,
            index,
            stream,
            i,
        ) by {
            assert(front[i] == frames[i]);
        }
        lemma_cuts_joined(front, audio, n, index, stream);
        assert(is_cut(frames[j], audio, n, index, stream, j));
        assert(audio.take(j * n) + audio.subrange(j * n, j * n + n) =~= audio.take(j * n + n));
    }
}

/// Every frame that a sender gives out, whole or final, states the sender's own
/// parameters: its channel count, sample rate, tempo, beats per bar and bars are those in
/// force, and its stream is the one it was captured for. A whole frame holds as many
/// samples for each stated channel as a frame has, and belongs to the current interval.
pub proof fn law_frames_state_their_sender(
    s: SendState,
    input: Seq<u32>,
    index: i64,
    stream: u16,
    i: int,
)
    requires
        s.valid(),
        0 <= i < s.dispatched(input, index, stream).len(),
    ensures
        ({
            let f = s.dispatched(input, index, stream)[i];
            &&& f.channels == s.bridge.channels
            &&& f.sample_rate == s.bridge.sample_rate
            &&& f.bpm == s.bridge.bpm
            &&& f.quantum == s.bridge.quantum
            &&& f.bars == s.bridge.bars
            &&& f.stream_id == stream
            &&& !f.is_final ==> f.samples.len() == s.frame_size * f.channels
                && f.interval_index == index && f.total_frames == 0
            &&& f.is_final ==> s.index == Some(f.interval_index) && f.interval_index != index
                && f.samples == s.buffer
        }),
{
    let t = s.turned(index);
    let n = t.frame_samples();
    let all = t.buffer + input;
    let w = t.whole_frames(input);
    let first: int = if s.turns(index) {
        1
    } else {
        0
    };
    if i >= first {
        let j = i - first;
        lemma_fundamental_div_mod(all.len() as int, n as int);
        lemma_mul_is_commutative(n as int, w as int);
        lemma_mod_bound(all.len() as int, n as int);
        lemma_cut_place(0, j, w as int, n);
        assert(all.subrange(j * n, j * n + n).len() == n);
    }
}

/// What a sender was made with stays: no buffer, reset or restart changes its channel
/// count, sample rate or frame size, and the tempo is the one of the last buffer.
pub proof fn law_sender_keeps_its_parameters(
    s: SendState,
    playing: bool,
    num_samples: u64,
    bpm: u64,
    input: Seq<u32>,
    index: i64,
)
    ensures
        ({
            let t = s.begun(playing, num_samples, bpm);
            &&& t.bridge.channels == s.bridge.channels
            &&& t.bridge.sample_rate == s.bridge.sample_rate
            &&& t.frame_size == s.frame_size
            &&& t.bridge.bpm == bpm
            &&& t.bridge.bars == 4
            &&& t.bridge.ring.bars == 4
            &&& t.bridge.quantum == 0x4010_0000_0000_0000
            &&& t.bridge.ring.quantum == 0x4010_0000_0000_0000
        }),
        ({
            let t = s.streamed(input, index);
            t.bridge == s.bridge && t.frame_size == s.frame_size && t.samples == s.samples
                && t.was_playing == s.was_playing && t.index == Some(index)
        }),
        ({
            let t = s.reset();
            t.bridge.channels == s.bridge.channels && t.bridge.sample_rate == s.bridge.sample_rate
                && t.frame_size == s.frame_size && t.bridge.bpm == s.bridge.bpm
        }),
{
}

/// Buffers are counted from where the transport started; one that starts it again counts
/// from zero and starts streaming over: nothing waits, no interval is being streamed, and
/// frames are numbered from zero. Otherwise streaming goes on.
pub proof fn law_sender_counts_from_the_start(
    s: SendState,
    playing: bool,
    num_samples: u64,
    bpm: u64,
)
    requires
        s.samples + num_samples <= u64::MAX,
    ensures
        ({
            let t = s.begun(playing, num_samples, bpm);
            let again = playing && s.was_playing == Some(false);
            &&& again ==> s.sample_count(playing) == 0 && t.samples == num_samples
            &&& !again ==> s.sample_count(playing) == s.samples && t.samples == s.samples
                + num_samples
            &&& t.was_playing == Some(playing)
            &&& again ==> t.buffer.len() == 0 && t.index is None && t.number == 0
                && t.bridge.ring.record.len() == 0 && t.bridge.ring.current is None
            &&& !again ==> t.buffer == s.buffer && t.index == s.index && t.number == s.number
                && t.bridge.ring.record == s.bridge.ring.record && t.bridge.ring.current
                == s.bridge.ring.current
            &&& t.bridge.ring.capacity == s.bridge.ring.capacity
        }),
{
}

/// A sender that was reset has nothing to send and counts from zero.
pub proof fn law_reset_sender_is_fresh(s: SendState)
    ensures
        ({
            let t = s.reset();
            &&& t.buffer.len() == 0
            &&& t.index is None
            &&& t.number == 0
            &&& t.samples == 0
            &&& t.was_playing is None
            &&& t.bridge.ring.record.len() == 0
            &&& t.bridge.ring.completed.len() == 0
            &&& t.bridge.ring.current is None
        }),
{
}

/// Frames are numbered one after the other, from zero in each interval: a whole frame has
/// the next number after those before it, and the number of the next frame goes on where
/// they stopped.
pub proof fn law_frames_are_numbered(s: SendState, input: Seq<u32>, index: i64, stream: u16, i: int)
    requires
        s.frame_samples() > 0,
        s.turned(index).number + s.turned(index).whole_frames(input) < 0x1_0000_0000,
        0 <= i < s.dispatched(input, index, stream).len(),
    ensures
        ({
            let out = s.dispatched(input, index, stream);
            let ends = s.index is Some && s.index != Some(index);
            let t = s.streamed(input, index);
            &&& ends ==> out[0].is_final && out[0].frame_number == s.number
            &&& ends && i > 0 ==> out[i].frame_number == i - 1
            &&& !ends ==> out[i].frame_number == s.number + i
            &&& ends ==> t.number == out.len() - 1
            &&& !ends ==> t.number == s.number + out.len()
        }),
{
    let t = s.turned(index);
    lemma_div_pos_is_pos((t.buffer + input).len() as int, t.frame_samples() as int);
}

/// Audio passes through unchanged where it is to, and is silenced otherwise, in every
/// channel; channels keep their lengths.
pub proof fn law_output_passes_or_is_silent(channels: Seq<Seq<u32>>, passthrough: bool, c: int, j: int)
    requires
        0 <= c < channels.len(),
        0 <= j < channels[c].len(),
    ensures
        ({
            let out = crate::send::passed(channels, passthrough);
            &&& out.len() == channels.len()
            &&& out[c].len() == channels[c].len()
            &&& out[c][j] == if passthrough {
                channels[c][j]
            } else {
                0u32
            }
        }),
{
}

/// What a receiver decodes of a frame that was sent is what the sender captured and
/// stated: interval, stream, number, whether it is the last, mono or stereo, the packet,
/// and for the last frame the interval's parameters.
pub proof fn law_sent_frame_says_what_was_captured(f: RawState, packet: Seq<u8>)
    requires
        packet.len() < 65536,
        f.channels == 1 || f.channels == 2,
    ensures
        crate::wire::decoded(
            crate::wire::frame_bytes(crate::send::encoded(f, packet)),
        ) matches Ok(g) && {
            &&& g.interval_index == f.interval_index
            &&& g.stream_id == f.stream_id
            &&& g.frame_number == f.frame_number
            &&& g.is_final == f.is_final
            &&& g.channels == f.channels
            &&& g.opus == packet
            &&& f.is_final ==> g.sample_rate == f.sample_rate && g.total_frames == f.total_frames
                && g.bpm == f.bpm && g.quantum == f.quantum && g.bars == f.bars
        },
{
    let e = crate::send::encoded(f, packet);
    crate::wire::law_frame_round_trip(e, Seq::empty());
    assert(crate::wire::frame_bytes(e) + Seq::<u8>::empty() =~= crate::wire::frame_bytes(e));
}

/// A buffer that is captured is recorded behind what the interval recorded so far; the
/// first one of an interval hands over what the interval before it recorded, once.
pub proof fn law_captured_audio_is_recorded<
    M: Fn(u32, u32) -> u32,
    F: Fn(u32, u32, usize, usize) -> u32,
>(
    mix: M,
    fade: F,
    s: SendState,
    input: Seq<u32>,
    index: i64,
    stream: u16,
    completed: Seq<crate::ring_state::CompletedState>,
    frames: Seq<RawState>,
    t: SendState,
)
    requires
        s.bridge.ring.valid(),
        crate::send::is_captured(mix, fade, s, input, index, stream, completed, frames, t),
    ensures
        ({
            let ring = s.bridge.ring;
            let ends = ring.current is Some && ring.current != Some(index);
            &&& ends && ring.record.len() > 0 ==> {
                &&& completed.len() == ring.completed.len() + 1
                &&& completed.drop_last() == ring.completed
                &&& completed.last().index == ring.current->0
                &&& completed.last().samples == ring.record
            }
            &&& !(ends && ring.record.len() > 0) ==> completed == ring.completed
            &&& t.bridge.ring.completed.len() == 0
            &&& t.bridge.ring.current == Some(index)
            &&& ends ==> crate::play_laws::is_cut_at(t.bridge.ring.record, input, ring.capacity)
            &&& !ends ==> crate::play_laws::is_cut_at(
                t.bridge.ring.record,
                ring.record + input,
                ring.capacity,
            )
            &&& t.bridge.channels == s.bridge.channels
            &&& t.bridge.sample_rate == s.bridge.sample_rate
            &&& t.bridge.bpm == s.bridge.bpm
            &&& t.index == Some(index)
            &&& t.samples == s.samples
            &&& t.was_playing == s.was_playing
        }),
{
    let m = choose|m: crate::ring_state::RingState|
        {
            &&& #[trigger] crate::ring_state::reached(mix, fade, s.bridge.ring, index, m)
            &&& completed == m.completed
            &&& t == SendState {
                bridge: crate::bridge::BridgeState {
                    ring: crate::ring_state::RingState {
                        completed: Seq::empty(),
                        ..m.recorded(input).advanced(input.len())
                    },
                    ..s.bridge
                },
                ..s.streamed(input, index)
            }
        };
    let r = m.recorded(input).advanced(input.len());
    let out = m.heard(input.len());
    lemma_heard_len(mix, fade, s.bridge.ring, index, m, input.len());
    assert(crate::ring_state::took(mix, fade, s.bridge.ring, input, index, out, r));
    let b = crate::bridge::BridgeState {
        ring: crate::ring_state::RingState { completed: Seq::empty(), ..r },
        ..s.bridge
    };
    assert(crate::bridge::processed(mix, fade, s.bridge, input, index, out, completed, b));
    crate::play_laws::law_recordings_are_handed_out_once(
        mix,
        fade,
        s.bridge,
        input,
        index,
        out,
        completed,
        b,
    );
}

proof fn lemma_heard_len<M: Fn(u32, u32) -> u32, F: Fn(u32, u32, usize, usize) -> u32>(
    mix: M,
    fade: F,
    s: crate::ring_state::RingState,
    index: i64,
    m: crate::ring_state::RingState,
    n: nat,
)
    requires
        s.valid(),
        crate::ring_state::reached(mix, fade, s, index, m),
    ensures
        m.heard(n).len() == n,
{
    if s.current is Some && s.current != Some(index) {
        let prev = s.current->0;
        let v = choose|v: crate::ring_state::RingState|
            #[trigger] crate::ring_state::swapped(mix, fade, s.stocked(), prev, v) && m
                == (crate::ring_state::RingState { current: Some(index), ..v });
        crate::ring_laws::law_boundary(mix, fade, s.stocked(), prev, v);
    }
}

} // verus!
