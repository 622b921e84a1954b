//! Codec parameters and the framing of encoded intervals.
//!
//! The codec itself turns one block of samples into one packet and back. This
//! module decides which parameters the codec takes, cuts an interval into blocks,
//! and packs the packets of an interval into one byte string and back.

use vstd::prelude::*;

use crate::le::{get_u16, get_u32, push_u16, push_u32};
use crate::ring_state::SILENCE;
use crate::text::push_decimal;

verus! {

/// Whether the codec supports a sample rate.
pub open spec fn is_opus_rate(rate: u32) -> bool {
    rate == 8000 || rate == 12000 || rate == 16000 || rate == 24000 || rate == 48000
}

/// The distance between two rates.
pub open spec fn rate_distance(a: u32, b: u32) -> int {
    if a >= b {
        a - b
    } else {
        b - a
    }
}

/// Whether `r` is the codec sample rate nearest to `rate`; of two that are equally
/// near, the lower one.
pub open spec fn is_nearest_rate(r: u32, rate: u32) -> bool {
    is_opus_rate(r) && forall|v: u32| #[trigger]
        is_opus_rate(v) ==> rate_distance(r, rate) < rate_distance(v, rate) || (rate_distance(
            r,
            rate,
        ) == rate_distance(v, rate) && r <= v)
}

/// Map any sample rate to the nearest valid codec sample rate; of two that are
/// equally near, the lower one. Common rates like 44100, 88200, 96000 map to 48000.
pub fn nearest_opus_rate(rate: u32) -> (r: u32)
    ensures
        is_nearest_rate(r, rate),
{
    if rate <= 10000 {
        8000
    } else if rate <= 14000 {
        12000
    } else if rate <= 20000 {
        16000
    } else if rate <= 36000 {
        24000
    } else {
        48000
    }
}

/// Why a codec cannot be made, or an encoded interval cannot be read.
#[derive(Debug, Clone, Copy, PartialEq, Eq)]
pub enum CodecError {
    EncoderRate(u32),
    EncoderChannels(u16),
    DecoderRate(u32),
    DecoderChannels(u16),
    MissingFrameCount,
    MissingFrameLength,
    MissingFramePayload,
}

/// The text of an error.
pub open spec fn error_text(e: CodecError) -> Seq<char> {
    match e {
        CodecError::EncoderRate(n) => "Unsupported sample rate: "@ + crate::text::decimal(n as nat)
            + ". Must be 8000/12000/16000/24000/48000"@,
        CodecError::EncoderChannels(n) => "Unsupported channel count: "@ + crate::text::decimal(
            n as nat,
        ) + ". Must be 1 or 2"@,
        CodecError::DecoderRate(n) => "Unsupported sample rate: "@ + crate::text::decimal(n as nat),
        CodecError::DecoderChannels(n) => "Unsupported channel count: "@ + crate::text::decimal(
            n as nat,
        ),
        CodecError::MissingFrameCount => "Audio data too short for frame count header"@,
        CodecError::MissingFrameLength => "Truncated audio data: missing frame length"@,
        CodecError::MissingFramePayload => "Truncated audio data: missing frame payload"@,
    }
}

impl CodecError {
    /// The error as text.
    pub fn message(&self) -> (r: String)
        ensures
            r@ == error_text(*self),
    {
        match self {
            CodecError::EncoderRate(n) => {
                let mut out = "Unsupported sample rate: ".to_string();
                push_decimal(&mut out, *n as u64);
                out.append(". Must be 8000/12000/16000/24000/48000");
                out
            },
            CodecError::EncoderChannels(n) => {
                let mut out = "Unsupported channel count: ".to_string();
                push_decimal(&mut out, *n as u64);
                out.append(". Must be 1 or 2");
                out
            },
            CodecError::DecoderRate(n) => {
                let mut out = "Unsupported sample rate: ".to_string();
                push_decimal(&mut out, *n as u64);
                out
            },
            CodecError::DecoderChannels(n) => {
                let mut out = "Unsupported channel count: ".to_string();
                push_decimal(&mut out, *n as u64);
                out
            },
            CodecError::MissingFrameCount => {
                "Audio data too short for frame count header".to_string()
            },
            CodecError::MissingFrameLength => {
                "Truncated audio data: missing frame length".to_string()
            },
            CodecError::MissingFramePayload => {
                "Truncated audio data: missing frame payload".to_string()
            },
        }
    }
}

/// Samples per channel in a 20 ms block.
pub open spec fn block_size(rate: u32) -> nat {
    (rate as nat) * 20 / 1000
}

fn is_valid_rate(rate: u32) -> (r: bool)
    ensures
        r == is_opus_rate(rate),
{
    rate == 8000 || rate == 12000 || rate == 16000 || rate == 24000 || rate == 48000
}

fn samples_per_block(rate: u32) -> (r: usize)
    requires
        is_opus_rate(rate),
    ensures
        r == block_size(rate),
        160 <= r <= 960,
{
    rate as usize * 20 / 1000
}

/// An interval cut into blocks of `n` samples, the last one filled up with silence.
pub open spec fn blocks(samples: Seq<u32>, n: nat) -> Seq<Seq<u32>>
    decreases samples.len(),
{
    if samples.len() == 0 || n == 0 {
        Seq::empty()
    } else if samples.len() <= n {
        seq![samples + crate::ring_state::silence((n - samples.len()) as nat)]
    } else {
        seq![samples.take(n as int)] + blocks(samples.skip(n as int), n)
    }
}

/// The contents of a list of byte strings.
pub open spec fn contents<T>(s: Seq<Vec<T>>) -> Seq<Seq<T>> {
    s.map_values(|v: Vec<T>| v@)
}

/// Packets one after the other, each behind its length modulo 65536.
pub open spec fn packed_body(packets: Seq<Seq<u8>>) -> Seq<u8>
    decreases packets.len(),
{
    if packets.len() == 0 {
        Seq::empty()
    } else {
        packed_body(packets.drop_last()) + crate::le::u16_bytes(
            (packets.last().len() % 65536) as u16,
        ) + packets.last()
    }
}

/// An encoded interval: the number of packets modulo 2^32, then the packets.
pub open spec fn packed(packets: Seq<Seq<u8>>) -> Seq<u8> {
    crate::le::u32_bytes((packets.len() % 0x1_0000_0000) as u32) + packed_body(packets)
}

/// Up to `n` packets read from position `at` on, and why reading stopped early.
pub open spec fn unpacked_from(d: Seq<u8>, n: nat, at: int) -> (Seq<Seq<u8>>, Option<CodecError>)
    decreases n,
{
    if n == 0 {
        (Seq::empty(), None)
    } else if at + 2 > d.len() {
        (Seq::empty(), Some(CodecError::MissingFrameLength))
    } else if at + 2 + crate::le::u16_at(d, at) > d.len() {
        (Seq::empty(), Some(CodecError::MissingFramePayload))
    } else {
        let end = at + 2 + crate::le::u16_at(d, at);
        let rest = unpacked_from(d, (n - 1) as nat, end);
        (seq![d.subrange(at + 2, end)] + rest.0, rest.1)
    }
}

/// The packets of an encoded interval, and why reading stopped early.
pub open spec fn unpacked(d: Seq<u8>) -> (Seq<Seq<u8>>, Option<CodecError>) {
    if d.len() < 4 {
        (Seq::empty(), Some(CodecError::MissingFrameCount))
    } else {
        unpacked_from(d, crate::le::u32_at(d, 0) as nat, 4)
    }
}

/// Parameters of an encoder for interval audio, and the framing of its packets.
pub struct AudioEncoder {
    sample_rate: u32,
    channels: u16,
    frame_size: usize,
    bits_per_second: i32,
}

/// Whether a bitrate in kbps can be stated in bits per second.
pub open spec fn bitrate_fits(kbps: u32) -> bool {
    i32::MIN <= (kbps as i32) * 1000 <= i32::MAX
}

impl AudioEncoder {
    pub closed spec fn wf(&self) -> bool {
        &&& is_opus_rate(self.sample_rate)
        &&& self.channels == 1 || self.channels == 2
        &&& self.frame_size == block_size(self.sample_rate)
    }

    pub closed spec fn rate(&self) -> u32 {
        self.sample_rate
    }

    pub closed spec fn channel_count(&self) -> u16 {
        self.channels
    }

    pub closed spec fn bitrate(&self) -> i32 {
        self.bits_per_second
    }

    /// Interleaved samples per packet.
    pub open spec fn block_samples(&self) -> nat {
        block_size(self.rate()) * self.channel_count() as nat
    }

    /// Choose the parameters of an encoder.
    ///
    /// - `sample_rate`: Must be one of 8000, 12000, 16000, 24000, 48000
    /// - `channels`: 1 (mono) or 2 (stereo)
    /// - `bitrate_kbps`: Target bitrate in kbps (e.g., 128 for high quality stereo)
    pub fn new(sample_rate: u32, channels: u16, bitrate_kbps: u32) -> (r: Result<Self, CodecError>)
        requires
            is_opus_rate(sample_rate) && (channels == 1 || channels == 2) ==> bitrate_fits(
                bitrate_kbps,
            ),
        ensures
            match r {
                Ok(e) => {
                    &&& is_opus_rate(sample_rate) && (channels == 1 || channels == 2)
                    &&& e.wf()
                    &&& e.rate() == sample_rate
                    &&& e.channel_count() == channels
                    &&& e.bitrate() == (bitrate_kbps as i32) * 1000
                },
                Err(e) => {
                    ||| !is_opus_rate(sample_rate) && e == CodecError::EncoderRate(sample_rate)
                    ||| is_opus_rate(sample_rate) && channels != 1 && channels != 2 && e
                        == CodecError::EncoderChannels(channels)
                },
            },
    {
        if !is_valid_rate(sample_rate) {
            return Err(CodecError::EncoderRate(sample_rate));
        }
        if channels != 1 && channels != 2 {
            return Err(CodecError::EncoderChannels(channels));
        }
        Ok(
            AudioEncoder {
                sample_rate,
                channels,
                frame_size: samples_per_block(sample_rate),
                bits_per_second: bitrate_kbps as i32 * 1000,
            },
        )
    }

    /// Cut an interval of interleaved samples into blocks of one packet each. The
    /// last block is filled up with silence.
    pub fn split_interval(&self, samples: &[u32]) -> (r: Vec<Vec<u32>>)
        requires
            self.wf(),
        ensures
            contents(r@) == blocks(samples@, self.block_samples()),
    {
        let ch: usize = self.channels as usize;
        let n: usize = if ch == 1 {
            self.frame_size
        } else {
            self.frame_size + self.frame_size
        };
        assert(n == self.block_samples()) by (nonlinear_arith)
            requires
                n == (if ch == 1 {
                    self.frame_size as int
                } else {
                    self.frame_size + self.frame_size
                }),
                ch == 1 || ch == 2,
                self.block_samples() == self.frame_size * ch,
        ;
        let len: usize = samples.len();
        let mut out: Vec<Vec<u32>> = Vec::new();
        let mut pos: usize = 0;
        assert(samples@.skip(0) =~= samples@);
        assert(contents(out@) + blocks(samples@, n as nat) =~= blocks(samples@, n as nat));
        while pos < len
            invariant
                0 < n <= 1920,
                len == samples@.len(),
                pos <= len,
                contents(out@) + blocks(samples@.skip(pos as int), n as nat) == blocks(
                    samples@,
                    n as nat,
                ),
            decreases len - pos,
        {
            let ghost rest = samples@.skip(pos as int);
            let ghost before = out@;
            let take: usize = if len - pos < n {
                len - pos
            } else {
                n
            };
            let mut block: Vec<u32> = Vec::new();
            block.extend_from_slice(vstd::slice::slice_subrange(samples, pos, pos + take));
            assert(block@ =~= rest.take(take as int));
            while block.len() < n
                invariant
                    take <= block@.len() <= n,
                    block@ == rest.take(take as int) + crate::ring_state::silence(
                        (block@.len() - take) as nat,
                    ),
                    take <= rest.len(),
                decreases n - block@.len(),
            {
                let ghost b = block@;
                block.push(SILENCE);
                assert(block@ =~= rest.take(take as int) + crate::ring_state::silence(
                    (block@.len() - take) as nat,
                ));
            }
            out.push(block);
            pos = pos + take;
            proof {
                let b = out@.last()@;
                assert(contents(out@) =~= contents(before).push(b));
                if rest.len() <= n {
                    assert(rest.take(take as int) =~= rest);
                    assert(samples@.skip(pos as int).len() == 0);
                    assert(contents(out@) + blocks(samples@.skip(pos as int), n as nat)
                        =~= contents(before) + seq![b]);
                } else {
                    assert(b =~= rest.take(n as int));
                    assert(samples@.skip(pos as int) =~= rest.skip(n as int));
                    assert(contents(out@) + blocks(samples@.skip(pos as int), n as nat)
                        =~= contents(before) + (seq![b] + blocks(rest.skip(n as int), n as nat)));
                }
            }
        }
        assert(contents(out@) =~= blocks(samples@, n as nat));
        out
    }

    pub fn sample_rate(&self) -> (r: u32)
        ensures
            r == self.rate(),
    {
        self.sample_rate
    }

    pub fn channels(&self) -> (r: u16)
        ensures
            r == self.channel_count(),
    {
        self.channels
    }

    /// Samples per channel in one packet.
    pub fn frame_size(&self) -> (r: usize)
        requires
            self.wf(),
        ensures
            r == block_size(self.rate()),
    {
        self.frame_size
    }

    pub fn bits_per_second(&self) -> (r: i32)
        ensures
            r == self.bitrate(),
    {
        self.bits_per_second
    }
}

/// Pack the packets of an interval: the packet count, then each packet behind its
/// length.
pub fn pack_packets(packets: &Vec<Vec<u8>>) -> (r: Vec<u8>)
    ensures
        r@ == packed(contents(packets@)),
{
    let mut out: Vec<u8> = Vec::new();
    push_u32(&mut out, (packets.len() as u64 % 0x1_0000_0000) as u32);
    let ghost head = out@;
    let ghost all = contents(packets@);
    let mut i: usize = 0;
    assert(all.take(0) =~= Seq::empty());
    assert(out@ =~= head + packed_body(all.take(0)));
    while i < packets.len()
        invariant
            i <= packets@.len(),
            all == contents(packets@),
            out@ == head + packed_body(all.take(i as int)),
        decreases packets@.len() - i,
    {
        let p = &packets[i];
        push_u16(&mut out, (p.len() % 65536) as u16);
        out.extend_from_slice(p.as_slice());
        proof {
            let t = all.take(i + 1);
            assert(t.drop_last() =~= all.take(i as int));
            assert(t.last() == p@);
            assert(out@ =~= head + packed_body(t));
        }
        i += 1;
    }
    assert(all.take(i as int) =~= all);
    assert(out@ =~= packed(all));
    out
}

/// Parameters of a decoder for interval audio, and the framing of its packets.
pub struct AudioDecoder {
    sample_rate: u32,
    channels: u16,
    frame_size: usize,
}

/// What was read from an encoded interval.
pub struct UnpackedInterval {
    /// The packets, in order.
    pub packets: Vec<Vec<u8>>,
    /// Why reading stopped before the stated number of packets.
    pub error: Option<CodecError>,
}

impl AudioDecoder {
    pub closed spec fn wf(&self) -> bool {
        &&& is_opus_rate(self.sample_rate)
        &&& self.channels == 1 || self.channels == 2
        &&& self.frame_size == block_size(self.sample_rate)
    }

    pub closed spec fn rate(&self) -> u32 {
        self.sample_rate
    }

    pub closed spec fn channel_count(&self) -> u16 {
        self.channels
    }

    /// Choose the parameters of a decoder.
    pub fn new(sample_rate: u32, channels: u16) -> (r: Result<Self, CodecError>)
        ensures
            match r {
                Ok(d) => {
                    &&& is_opus_rate(sample_rate) && (channels == 1 || channels == 2)
                    &&& d.wf()
                    &&& d.rate() == sample_rate
                    &&& d.channel_count() == channels
                },
                Err(e) => {
                    ||| !is_opus_rate(sample_rate) && e == CodecError::DecoderRate(sample_rate)
                    ||| is_opus_rate(sample_rate) && channels != 1 && channels != 2 && e
                        == CodecError::DecoderChannels(channels)
                },
            },
    {
        if !is_valid_rate(sample_rate) {
            return Err(CodecError::DecoderRate(sample_rate));
        }
        if channels != 1 && channels != 2 {
            return Err(CodecError::DecoderChannels(channels));
        }
        Ok(AudioDecoder { sample_rate, channels, frame_size: samples_per_block(sample_rate) })
    }

    pub fn sample_rate(&self) -> (r: u32)
        ensures
            r == self.rate(),
    {
        self.sample_rate
    }

    pub fn channels(&self) -> (r: u16)
        ensures
            r == self.channel_count(),
    {
        self.channels
    }

    /// Interleaved samples per packet.
    pub fn frame_samples(&self) -> (r: usize)
        requires
            self.wf(),
        ensures
            r == block_size(self.rate()) * self.channel_count(),
    {
        if self.channels == 1 {
            self.frame_size
        } else {
            self.frame_size * 2
        }
    }
}

/// Read the packets of an encoded interval. Packets before an error are kept, so
/// that they can be decoded first.
pub fn unpack_packets(data: &[u8]) -> (r: UnpackedInterval)
    ensures
        (contents(r.packets@), r.error) == unpacked(data@),
{
    let len: usize = data.len();
    let mut out: Vec<Vec<u8>> = Vec::new();
    if len < 4 {
        assert(contents(out@) =~= Seq::empty());
        return UnpackedInterval { packets: out, error: Some(CodecError::MissingFrameCount) };
    }
    let mut left: u32 = get_u32(data, 0);
    let mut at: usize = 4;
    let ghost goal = unpacked(data@);
    assert(contents(out@) + unpacked_from(data@, left as nat, at as int).0 =~= goal.0);
    while left > 0
        invariant
            len == data@.len(),
            4 <= at <= len,
            goal == unpacked(data@),
            contents(out@) + unpacked_from(data@, left as nat, at as int).0 == goal.0,
            unpacked_from(data@, left as nat, at as int).1 == goal.1,
        decreases left,
    {
        if len - at < 2 {
            assert(contents(out@) =~= goal.0);
            return UnpackedInterval { packets: out, error: Some(CodecError::MissingFrameLength) };
        }
        let n: usize = get_u16(data, at) as usize;
        if len - at - 2 < n {
            assert(contents(out@) =~= goal.0);
            return UnpackedInterval { packets: out, error: Some(CodecError::MissingFramePayload) };
        }
        let end: usize = at + 2 + n;
        let mut packet: Vec<u8> = Vec::new();
        packet.extend_from_slice(vstd::slice::slice_subrange(data, at + 2, end));
        let ghost before = out@;
        let ghost p = data@.subrange(at + 2, end as int);
        assert(packet@ =~= p);
        out.push(packet);
        proof {
            let rest = unpacked_from(data@, (left - 1) as nat, end as int).0;
            assert(contents(out@) =~= contents(before).push(p));
            assert(contents(before) + (seq![p] + rest) =~= contents(out@) + rest);
        }
        at = end;
        left -= 1;
    }
    assert(contents(out@) =~= goal.0);
    UnpackedInterval { packets: out, error: None }
}

proof fn lemma_unpack_body(head: Seq<u8>, packets: Seq<Seq<u8>>, tail: Seq<u8>)
    requires
        forall|i: int| 0 <= i < packets.len() ==> (#[trigger] packets[i]).len() < 65536,
    ensures
        unpacked_from(
            head + packed_body(packets) + tail,
            packets.len(),
            head.len() as int,
        ) == (packets, None::<CodecError>),
    decreases packets.len(),
{
    if packets.len() > 0 {
        let p = packets[0];
        let rest = packets.skip(1);
        let len_bytes = crate::le::u16_bytes(p.len() as u16);
        lemma_packed_front(packets);
        let d = head + packed_body(packets) + tail;
        let head2 = head + len_bytes + p;
        assert(d =~= head2 + packed_body(rest) + tail);
        let at = head.len() as int;
        assert(d.subrange(at, at + 2) =~= len_bytes);
        crate::le::lemma_u16_at(d, at, p.len() as u16);
        assert(d.subrange(at + 2, at + 2 + p.len()) =~= p);
        assert forall|i: int| 0 <= i < rest.len() implies (#[trigger] rest[i]).len() < 65536 by {
            assert(rest[i] == packets[i + 1]);
        }
        lemma_unpack_body(head2, rest, tail);
        assert(seq![p] + rest =~= packets);
    }
}

proof fn lemma_packed_front(packets: Seq<Seq<u8>>)
    requires
        packets.len() > 0,
    ensures
        packed_body(packets) == crate::le::u16_bytes((packets[0].len() % 65536) as u16) + packets[0]
            + packed_body(packets.skip(1)),
    decreases packets.len(),
{
    if packets.len() == 1 {
        assert(packets.drop_last() =~= Seq::empty());
        assert(packets.skip(1) =~= Seq::empty());
        assert(packed_body(packets) =~= crate::le::u16_bytes((packets[0].len() % 65536) as u16)
            + packets[0] + packed_body(packets.skip(1)));
    } else {
        let front = packets.drop_last();
        lemma_packed_front(front);
        assert(packets.skip(1).drop_last() =~= front.skip(1));
        assert(packets.skip(1).last() == packets.last());
        assert(packed_body(packets) =~= crate::le::u16_bytes((packets[0].len() % 65536) as u16)
            + packets[0] + packed_body(packets.skip(1)));
    }
}

/// Unpacking what was packed gives the packets back. Packets are short enough for
/// their 16-bit lengths, and fewer than 2^32.
pub proof fn law_packets_round_trip(packets: Seq<Seq<u8>>)
    requires
        packets.len() < 0x1_0000_0000,
        forall|i: int| 0 <= i < packets.len() ==> (#[trigger] packets[i]).len() < 65536,
    ensures
        unpacked(packed(packets)) == (packets, None::<CodecError>),
{
    let head = crate::le::u32_bytes(packets.len() as u32);
    let d = packed(packets);
    assert(d =~= head + packed_body(packets) + Seq::<u8>::empty());
    assert(d.subrange(0, 4) =~= head);
    crate::le::lemma_u32_at(d, 0, packets.len() as u32);
    lemma_unpack_body(head, packets, Seq::<u8>::empty());
}

/// The samples of blocks one after the other.
pub open spec fn joined(bs: Seq<Seq<u32>>) -> Seq<u32>
    decreases bs.len(),
{
    if bs.len() == 0 {
        Seq::empty()
    } else {
        bs[0] + joined(bs.skip(1))
    }
}

/// Cutting an interval into blocks loses nothing: every block has the full size,
/// and the blocks one after the other are the interval followed by less than a
/// block of silence.
pub proof fn law_blocks_hold_the_interval(samples: Seq<u32>, n: nat)
    requires
        n > 0,
    ensures
        forall|i: int|
            0 <= i < blocks(samples, n).len() ==> (#[trigger] blocks(samples, n)[i]).len() == n,
        exists|pad: nat|
            pad < n && joined(blocks(samples, n)) == samples + #[trigger] crate::ring_state::silence(
                pad,
            ),
    decreases samples.len(),
{
    let bs = blocks(samples, n);
    if samples.len() == 0 {
        assert(joined(bs) =~= samples + crate::ring_state::silence(0));
    } else if samples.len() <= n {
        let pad = (n - samples.len()) as nat;
        let b = samples + crate::ring_state::silence(pad);
        assert(bs.skip(1) =~= Seq::empty());
        assert(bs[0] == b);
        assert(joined(bs.skip(1)) =~= Seq::empty());
        assert(joined(bs) =~= samples + crate::ring_state::silence(pad));
    } else {
        let rest = samples.skip(n as int);
        law_blocks_hold_the_interval(rest, n);
        let rs = blocks(rest, n);
        assert(bs.skip(1) =~= rs);
        let pad = choose|pad: nat|
            pad < n && joined(rs) == rest + #[trigger] crate::ring_state::silence(pad);
        assert forall|i: int| 0 <= i < bs.len() implies (#[trigger] bs[i]).len() == n by {
            if i > 0 {
                assert(bs[i] == rs[i - 1]);
            }
        }
        assert(bs[0] == samples.take(n as int));
        assert(joined(bs) == bs[0] + joined(rs));
        assert(samples.take(n as int) + (rest + crate::ring_state::silence(pad)) =~= samples
            + crate::ring_state::silence(pad));
    }
}

/// The codec knows five rates, and a block lasts a fiftieth of a second at each.
pub proof fn law_blocks_last_twenty_milliseconds(rate: u32)
    ensures
        is_opus_rate(rate) <==> rate == 8000 || rate == 12000 || rate == 16000 || rate == 24000
            || rate == 48000,
        is_opus_rate(rate) ==> block_size(rate) * 50 == rate,
        is_opus_rate(rate) ==> 160 <= block_size(rate) <= 960,
{
}

/// The nearest rate is one of the five, none of the others is nearer, and of two that are
/// equally near it is the lower.
pub proof fn law_nearest_rate_is_nearest(r: u32, rate: u32, v: u32)
    requires
        is_nearest_rate(r, rate),
        v == 8000 || v == 12000 || v == 16000 || v == 24000 || v == 48000,
    ensures
        r == 8000 || r == 12000 || r == 16000 || r == 24000 || r == 48000,
        ({
            let dr = if r >= rate {
                r - rate
            } else {
                rate - r
            };
            let dv = if v >= rate {
                v - rate
            } else {
                rate - v
            };
            dr < dv || (dr == dv && r <= v)
        }),
        rate == v ==> r == rate,
{
    assert(is_opus_rate(v));
}

/// Where packet `i` starts in packed data, behind the count.
pub open spec fn packet_start(packets: Seq<Seq<u8>>, i: int) -> int
    decreases i,
{
    if i <= 0 {
        4
    } else {
        packet_start(packets, i - 1) + 2 + packets[i - 1].len()
    }
}

/// Packed data is the number of packets in four bytes, and for each packet its length in
/// two bytes and its bytes, one after the other. Packets are short enough for their 16-bit
/// lengths, and fewer than 2^32.
pub proof fn law_packed_layout(packets: Seq<Seq<u8>>, i: int)
    requires
        packets.len() < 0x1_0000_0000,
        0 <= i < packets.len(),
        packets[i].len() < 65536,
    ensures
        ({
            let d = packed(packets);
            let at = packet_start(packets, i);
            let n = packets[i].len() as int;
            &&& d.take(4) == crate::le::u32_bytes(packets.len() as u32)
            &&& d.len() == packet_start(packets, packets.len() as int)
            &&& 4 <= at && at + 2 + n <= d.len()
            &&& d.subrange(at, at + 2) == crate::le::u16_bytes(n as u16)
            &&& d.subrange(at + 2, at + 2 + n) == packets[i]
        }),
{
    let d = packed(packets);
    let body = packed_body(packets);
    lemma_packed_at(packets, i);
    let at = packet_start(packets, i);
    let n = packets[i].len() as int;
    assert(d.take(4) =~= crate::le::u32_bytes(packets.len() as u32));
    assert(d.subrange(at, at + 2) =~= body.subrange(at - 4, at - 2));
    assert(d.subrange(at + 2, at + 2 + n) =~= body.subrange(at - 2, at - 2 + n));
}

proof fn lemma_packed_at(packets: Seq<Seq<u8>>, i: int)
    requires
        0 <= i < packets.len(),
    ensures
        ({
            let body = packed_body(packets);
            let at = packet_start(packets, i) - 4;
            let n = packets[i].len() as int;
            &&& body.len() + 4 == packet_start(packets, packets.len() as int)
            &&& 0 <= at && at + 2 + n <= body.len()
            &&& body.subrange(at, at + 2) == crate::le::u16_bytes((n % 65536) as u16)
            &&& body.subrange(at + 2, at + 2 + n) == packets[i]
        }),
    decreases packets.len(),
{
    let front = packets.drop_last();
    let body = packed_body(packets);
    let before = packed_body(front);
    let at = packet_start(packets, i) - 4;
    let n = packets[i].len() as int;
    lemma_packed_len(packets);
    lemma_packed_len(front);
    lemma_start_of_front(packets, front.len() as int);
    if i < front.len() {
        lemma_packed_at(front, i);
        lemma_start_of_front(packets, i);
        assert(body.subrange(at, at + 2) =~= before.subrange(at, at + 2));
        assert(body.subrange(at + 2, at + 2 + n) =~= before.subrange(at + 2, at + 2 + n));
    } else {
        assert(body.subrange(at, at + 2) =~= crate::le::u16_bytes((n % 65536) as u16));
        assert(body.subrange(at + 2, at + 2 + n) =~= packets[i]);
    }
}

proof fn lemma_packed_len(packets: Seq<Seq<u8>>)
    ensures
        packed_body(packets).len() + 4 == packet_start(packets, packets.len() as int),
    decreases packets.len(),
{
    if packets.len() > 0 {
        lemma_packed_len(packets.drop_last());
        lemma_start_of_front(packets, packets.len() - 1);
    }
}

proof fn lemma_start_of_front(packets: Seq<Seq<u8>>, i: int)
    requires
        0 <= i < packets.len(),
    ensures
        packet_start(packets.drop_last(), i) == packet_start(packets, i),
    decreases i,
{
    if i > 0 {
        lemma_start_of_front(packets, i - 1);
    }
}

/// Reading packed data stops where it ends: with an error that says whether the count, a
/// length or a packet is missing, exactly when there are fewer packets than it counts.
/// What was read before that stands.
pub proof fn law_truncated_data_is_noticed(d: Seq<u8>)
    ensures
        ({
            let (packets, error) = unpacked(d);
            &&& d.len() < 4 <==> error == Some(CodecError::MissingFrameCount)
            &&& d.len() < 4 ==> packets.len() == 0
            &&& d.len() >= 4 ==> packets.len() <= crate::le::u32_at(d, 0)
            &&& d.len() >= 4 ==> (error is None <==> packets.len() == crate::le::u32_at(d, 0))
            &&& packet_start(packets, packets.len() as int) <= d.len() || d.len() < 4
            &&& error == Some(CodecError::MissingFrameLength) ==> packet_start(
                packets,
                packets.len() as int,
            ) + 2 > d.len()
            &&& error == Some(CodecError::MissingFramePayload) ==> ({
                let at = packet_start(packets, packets.len() as int);
                at + 2 <= d.len() < at + 2 + crate::le::u16_at(d, at)
            })
            &&& error is None || error == Some(CodecError::MissingFrameCount) || error == Some(
                CodecError::MissingFrameLength,
            ) || error == Some(CodecError::MissingFramePayload)
        }),
{
    if d.len() >= 4 {
        lemma_unpacked(d, crate::le::u32_at(d, 0) as nat, 4);
    }
}

proof fn lemma_unpacked(d: Seq<u8>, n: nat, at: int)
    requires
        4 <= at <= d.len(),
    ensures
        ({
            let (packets, error) = unpacked_from(d, n, at);
            let end = at - 4 + packet_start(packets, packets.len() as int);
            &&& packets.len() <= n
            &&& error is None <==> packets.len() == n
            &&& end <= d.len()
            &&& error == Some(CodecError::MissingFrameLength) ==> end + 2 > d.len()
            &&& error == Some(CodecError::MissingFramePayload) ==> end + 2 <= d.len() < end + 2
                + crate::le::u16_at(d, end)
            &&& error is None || error == Some(CodecError::MissingFrameLength) || error == Some(
                CodecError::MissingFramePayload,
            )
        }),
    decreases n,
{
    if n > 0 && at + 2 <= d.len() && at + 2 + crate::le::u16_at(d, at) <= d.len() {
        let end = at + 2 + crate::le::u16_at(d, at);
        lemma_unpacked(d, (n - 1) as nat, end);
        let rest = unpacked_from(d, (n - 1) as nat, end).0;
        let packets = unpacked_from(d, n, at).0;
        assert(packets.skip(1) =~= rest);
        assert(packets[0].len() == crate::le::u16_at(d, at));
        lemma_start_skips(packets, packets.len() as int);
    }
}

proof fn lemma_start_skips(packets: Seq<Seq<u8>>, i: int)
    requires
        0 < i <= packets.len(),
    ensures
        packet_start(packets, i) == packet_start(packets.skip(1), i - 1) + 2 + packets[0].len(),
    decreases i,
{
    if i > 1 {
        lemma_start_skips(packets, i - 1);
        assert(packets.skip(1)[i - 2] == packets[i - 1]);
    } else {
        assert(packet_start(packets, 0) == 4);
        assert(packet_start(packets.skip(1), 0) == 4);
    }
}

} // verus!
