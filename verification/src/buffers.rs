//! Moving samples between interleaved and per-channel buffers.

use vstd::arithmetic::div_mod::*;
use vstd::arithmetic::mul::*;
use vstd::prelude::*;

use crate::ring_state::SILENCE;

verus! {

/// Silent samples.
pub(crate) fn silent_samples(n: usize) -> (r: Vec<u32>)
    ensures
        r@ == crate::ring_state::silence(n as nat),
{
    let mut out: Vec<u32> = Vec::new();
    while out.len() < n
        invariant
            out@.len() <= n,
            forall|i: int| 0 <= i < out@.len() ==> #[trigger] out@[i] == SILENCE,
        decreases n - out@.len(),
    {
        out.push(SILENCE);
    }
    assert(out@ =~= crate::ring_state::silence(n as nat));
    out
}

/// Ensure a buffer is at least `needed` samples long, growing it with silence.
pub fn ensure_buf(buf: &mut Vec<u32>, needed: usize)
    ensures
        final(buf)@ == if old(buf)@.len() < needed {
            old(buf)@ + crate::ring_state::silence((needed - old(buf)@.len()) as nat)
        } else {
            old(buf)@
        },
{
    let ghost before = buf@;
    while buf.len() < needed
        invariant
            before.len() <= buf@.len(),
            buf@.len() <= needed || buf@.len() == before.len(),
            buf@ == before + crate::ring_state::silence((buf@.len() - before.len()) as nat),
        decreases needed - buf@.len(),
    {
        buf.push(SILENCE);
        assert(buf@ =~= before + crate::ring_state::silence((buf@.len() - before.len()) as nat));
    }
}

/// What channels of samples say.
pub open spec fn channel_samples(s: Seq<Vec<u32>>) -> Seq<Seq<u32>> {
    s.map_values(|c: Vec<u32>| c@)
}

/// The first `n` samples of each channel, interleaved; silence unless `playing`.
pub open spec fn interleaved(channels: Seq<Seq<u32>>, n: nat, playing: bool) -> Seq<u32> {
    Seq::new(
        n * channels.len(),
        |i: int|
            if playing {
                channels[i % (channels.len() as int)][i / (channels.len() as int)]
            } else {
                SILENCE
            },
    )
}

/// Interleave per-channel buffers into a flat buffer.
///
/// `output` takes at least `num_samples` samples of each channel; it is filled with
/// silence instead unless `playing`.
pub fn interleave_channels(
    channels: &Vec<Vec<u32>>,
    output: &mut [u32],
    num_samples: usize,
    playing: bool,
)
    requires
        num_samples * channels@.len() <= old(output)@.len(),
        playing ==> forall|c: int|
            0 <= c < channels@.len() ==> num_samples <= (#[trigger] channels@[c])@.len(),
    ensures
        final(output)@.len() == old(output)@.len(),
        forall|i: int|
            0 <= i < num_samples * channels@.len() ==> #[trigger] final(output)@[i] == if playing {
                channels@[i % (channels@.len() as int)]@[i / (channels@.len() as int)]
            } else {
                SILENCE
            },
        forall|i: int|
            num_samples * channels@.len() <= i < old(output)@.len() ==> (#[trigger] final(output)@[i])
                == old(output)@[i],
{
    let n: usize = channels.len();
    let ghost before = output@;
    if n == 0 {
        assert(num_samples * channels@.len() == 0) by {
            lemma_mul_basics(num_samples as int);
        }
        return ;
    }
    let len: usize = output.len();
    assert(0 <= num_samples * n <= len) by {
        lemma_mul_nonnegative(num_samples as int, n as int);
    }
    let total: usize = num_samples * n;
    let mut i: usize = 0;
    let mut s: usize = 0;
    let mut c: usize = 0;
    proof {
        lemma_mul_basics(n as int);
    }
    while i < total
        invariant
            n == channels@.len(),
            n > 0,
            total == num_samples * n,
            total <= before.len(),
            output@.len() == before.len(),
            i <= total,
            c < n,
            i == s * n + c,
            playing ==> forall|c: int|
                0 <= c < channels@.len() ==> num_samples <= (#[trigger] channels@[c])@.len(),
            forall|j: int|
                0 <= j < i ==> #[trigger] output@[j] == if playing {
                    channels@[j % (n as int)]@[j / (n as int)]
                } else {
                    SILENCE
                },
            forall|j: int| i <= j < before.len() ==> #[trigger] output@[j] == before[j],
        decreases total - i,
    {
        proof {
            lemma_fundamental_div_mod_converse(i as int, n as int, s as int, c as int);
            assert(s < num_samples) by (nonlinear_arith)
                requires
                    s * n + c < num_samples * n,
                    n > 0,
                    c >= 0,
            ;
        }
        if playing {
            output[i] = channels[c][s];
        } else {
            output[i] = SILENCE;
        }
        i += 1;
        if c + 1 == n {
            proof {
                lemma_mul_is_distributive_add_other_way(n as int, s as int, 1);
                lemma_mul_basics(n as int);
            }
            c = 0;
            s += 1;
        } else {
            c += 1;
        }
    }
}

/// Copy every `stride`-th sample of a buffer, starting at `start`.
fn fill_channel(out: &mut Vec<u32>, buf: &[u32], n: usize, stride: usize, start: usize)
    requires
        n <= old(out)@.len(),
        n > 0 ==> (n - 1) * stride + start < buf@.len(),
    ensures
        final(out)@.len() == old(out)@.len(),
        forall|s: int| 0 <= s < n ==> #[trigger] final(out)@[s] == buf@[s * stride + start],
        forall|s: int| n <= s < old(out)@.len() ==> #[trigger] final(out)@[s] == old(out)@[s],
{
    let ghost before = out@;
    let len: usize = buf.len();
    let mut s: usize = 0;
    while s < n
        invariant
            s <= n,
            n <= before.len(),
            out@.len() == before.len(),
            len == buf@.len(),
            n > 0 ==> (n - 1) * stride + start < buf@.len(),
            forall|j: int| 0 <= j < s ==> #[trigger] out@[j] == buf@[j * stride + start],
            forall|j: int| s <= j < before.len() ==> #[trigger] out@[j] == before[j],
        decreases n - s,
    {
        proof {
            lemma_mul_inequality(s as int, n - 1, stride as int);
            lemma_mul_nonnegative(s as int, stride as int);
            assert(s * stride + start < len);
        }
        out[s] = buf[s * stride + start];
        s += 1;
    }
}

/// The fewer of two channel counts.
pub open spec fn fewer(a: nat, b: nat) -> nat {
    if a < b {
        a
    } else {
        b
    }
}

/// What the channels of an output hold after `n` samples of an interleaved buffer
/// were copied to as many of them as the buffer has channels.
pub open spec fn spread(
    buf: Seq<u32>,
    before: Seq<Seq<u32>>,
    n: nat,
    src_channels: nat,
) -> Seq<Seq<u32>> {
    Seq::new(
        before.len(),
        |c: int|
            if c < src_channels {
                Seq::new(
                    before[c].len(),
                    |s: int|
                        if s < n {
                            buf[s * src_channels + c]
                        } else {
                            before[c][s]
                        },
                )
            } else {
                before[c]
            },
    )
}

/// Copy a peer's interleaved samples into the per-channel buffers of an output.
/// Output channels that the source lacks stay as they are.
pub fn write_peer_to_aux(
    peer_buf: &[u32],
    aux_channels: &mut Vec<Vec<u32>>,
    num_samples: usize,
    src_channels: usize,
)
    requires
        num_samples > 0 && fewer(old(aux_channels)@.len(), src_channels as nat) > 0 ==> (num_samples
            - 1) * src_channels + fewer(old(aux_channels)@.len(), src_channels as nat)
            <= peer_buf@.len(),
        forall|c: int|
            0 <= c < fewer(old(aux_channels)@.len(), src_channels as nat) ==> num_samples <= (
            #[trigger] old(aux_channels)@[c])@.len(),
    ensures
        channel_samples(final(aux_channels)@) == spread(
            peer_buf@,
            channel_samples(old(aux_channels)@),
            num_samples as nat,
            src_channels as nat,
        ),
{
    let ghost before = aux_channels@;
    let ghost goal = spread(
        peer_buf@,
        channel_samples(before),
        num_samples as nat,
        src_channels as nat,
    );
    let m: usize = if aux_channels.len() < src_channels {
        aux_channels.len()
    } else {
        src_channels
    };
    let mut c: usize = 0;
    while c < m
        invariant
            m == fewer(before.len(), src_channels as nat),
            num_samples > 0 && m > 0 ==> (num_samples - 1) * src_channels + m <= peer_buf@.len(),
            forall|c: int|
                0 <= c < m ==> num_samples <= (#[trigger] before[c])@.len(),
            aux_channels@.len() == before.len(),
            goal == spread(
                peer_buf@,
                channel_samples(before),
                num_samples as nat,
                src_channels as nat,
            ),
            c <= m,
            forall|j: int| 0 <= j < c ==> (#[trigger] aux_channels@[j])@ == goal[j],
            forall|j: int| c <= j < before.len() ==> #[trigger] aux_channels@[j] == before[j],
        decreases m - c,
    {
        assert(aux_channels@[c as int] == before[c as int]);
        fill_channel(&mut aux_channels[c], peer_buf, num_samples, src_channels, c);
        assert(aux_channels@[c as int]@ =~= goal[c as int]);
        c += 1;
    }
    assert(channel_samples(aux_channels@) =~= goal);
}

/// De-interleave a flat buffer into per-channel buffers.
pub fn deinterleave_to_channels(
    interleaved: &[u32],
    channels: &mut Vec<Vec<u32>>,
    num_samples: usize,
)
    requires
        num_samples * old(channels)@.len() <= interleaved@.len(),
        forall|c: int|
            0 <= c < old(channels)@.len() ==> num_samples <= (#[trigger] old(channels)@[c])@.len(),
    ensures
        channel_samples(final(channels)@) == spread(
            interleaved@,
            channel_samples(old(channels)@),
            num_samples as nat,
            old(channels)@.len(),
        ),
{
    let n: usize = channels.len();
    proof {
        lemma_mul_is_distributive_sub_other_way(n as int, num_samples as int, 1);
        lemma_mul_basics(n as int);
    }
    write_peer_to_aux(interleaved, channels, num_samples, n);
}

/// Splitting an interleaved buffer gives the channels back that were interleaved.
pub proof fn law_deinterleave_undoes_interleave(
    channels: Seq<Seq<u32>>,
    interleaved: Seq<u32>,
    before: Seq<Seq<u32>>,
    n: nat,
)
    requires
        channels.len() > 0,
        before.len() == channels.len(),
        forall|c: int| 0 <= c < channels.len() ==> (#[trigger] channels[c]).len() == n,
        forall|c: int| 0 <= c < channels.len() ==> (#[trigger] before[c]).len() == n,
        interleaved.len() == n * channels.len(),
        forall|i: int|
            0 <= i < n * channels.len() ==> #[trigger] interleaved[i] == channels[i % (
            channels.len() as int)][i / (channels.len() as int)],
    ensures
        spread(interleaved, before, n, channels.len()) == channels,
{
    let k = channels.len() as int;
    let out = spread(interleaved, before, n, channels.len());
    assert forall|c: int| 0 <= c < channels.len() implies #[trigger] out[c] == channels[c] by {
        assert forall|s: int| 0 <= s < n implies #[trigger] out[c][s] == channels[c][s] by {
            let i = s * k + c;
            lemma_fundamental_div_mod_converse(i, k, s, c);
            assert(0 <= i < n * k) by (nonlinear_arith)
                requires
                    i == s * k + c,
                    0 <= s < n,
                    0 <= c < k,
            ;
            assert(interleaved[i] == channels[c][s]);
        }
        assert(before[c].len() == n);
        assert(out[c] =~= channels[c]);
    }
    assert(out =~= channels);
}

} // verus!
