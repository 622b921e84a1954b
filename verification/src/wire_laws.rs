//! Laws of the bytes on the wire: which byte stands where.

use vstd::prelude::*;

use crate::wire::{FrameState, WireError};

verus! {

/// The number that bytes say, the least significant first.
pub open spec fn value(b: Seq<u8>) -> nat
    decreases b.len(),
{
    if b.len() == 0 {
        0
    } else {
        (b[0] + 256 * value(b.skip(1))) as nat
    }
}

proof fn lemma_value_2(b: Seq<u8>)
    requires
        b.len() == 2,
    ensures
        value(b) == b[0] + 256 * b[1],
{
    assert(value(b.skip(1).skip(1)) == 0);
    assert(value(b.skip(1)) == b[1]);
}

proof fn lemma_value_4(b: Seq<u8>)
    requires
        b.len() == 4,
    ensures
        value(b) == b[0] + 256 * b[1] + 65536 * b[2] + 16777216 * b[3],
{
    let c = b.skip(1);
    let d = c.skip(1);
    assert(d.len() == 2);
    lemma_value_2(d);
    assert(value(c) == c[0] + 256 * value(d));
}

proof fn lemma_value_8(b: Seq<u8>)
    requires
        b.len() == 8,
    ensures
        value(b) == value(b.take(4)) + 0x1_0000_0000 * value(b.skip(4)),
{
    let c = b.skip(1);
    let d = c.skip(1);
    let e = d.skip(1);
    let f = e.skip(1);
    assert(f =~= b.skip(4));
    assert(value(e) == e[0] + 256 * value(f));
    assert(value(d) == d[0] + 256 * value(e));
    assert(value(c) == c[0] + 256 * value(d));
    lemma_value_4(b.take(4));
}

/// Numbers are written in two, four or eight bytes, the least significant first; negative
/// ones in two's complement.
pub proof fn law_numbers_are_little_endian(a: u16, b: u32, c: u64, d: i64)
    ensures
        crate::le::u16_bytes(a).len() == 2 && value(crate::le::u16_bytes(a)) == a,
        crate::le::u32_bytes(b).len() == 4 && value(crate::le::u32_bytes(b)) == b,
        crate::le::u64_bytes(c).len() == 8 && value(crate::le::u64_bytes(c)) == c,
        crate::le::i64_bytes(d).len() == 8 && value(crate::le::i64_bytes(d)) == if d >= 0 {
            d as int
        } else {
            d + 0x1_0000_0000_0000_0000
        },
{
    lemma_value_2(crate::le::u16_bytes(a));
    lemma_u32_value(b);
    lemma_u64_value(c);
    lemma_u64_value(d as u64);
    if d >= 0 {
        assert(d as u64 == d) by (bit_vector)
            requires
                d >= 0,
        ;
    } else {
        assert(d as u64 == d + 0x1_0000_0000_0000_0000) by (bit_vector)
            requires
                d < 0,
        ;
    }
}

proof fn lemma_u32_value(x: u32)
    ensures
        crate::le::u32_bytes(x).len() == 4,
        value(crate::le::u32_bytes(x)) == x,
{
    lemma_value_4(crate::le::u32_bytes(x));
    assert(x == x % 256 + 256 * (x / 256 % 256) + 65536 * (x / 65536 % 256) + 16777216 * (x
        / 16777216)) by (bit_vector);
}

proof fn lemma_u64_value(x: u64)
    ensures
        crate::le::u64_bytes(x).len() == 8,
        value(crate::le::u64_bytes(x)) == x,
{
    let lo = (x % 0x1_0000_0000) as u32;
    let hi = (x / 0x1_0000_0000) as u32;
    let b = crate::le::u64_bytes(x);
    lemma_u32_value(lo);
    lemma_u32_value(hi);
    lemma_value_8(b);
    assert(b.take(4) =~= crate::le::u32_bytes(lo));
    assert(b.skip(4) =~= crate::le::u32_bytes(hi));
}

/// Numbers are read from two, four or eight bytes, the least significant first; a signed
/// one is negative where its highest bit is set.
pub proof fn law_numbers_are_read_little_endian(b: Seq<u8>, i: int)
    requires
        0 <= i,
        i + 8 <= b.len(),
    ensures
        crate::le::u16_at(b, i) == value(b.subrange(i, i + 2)),
        crate::le::u32_at(b, i) == value(b.subrange(i, i + 4)),
        crate::le::u64_at(b, i) == value(b.subrange(i, i + 8)),
        ({
            let v = value(b.subrange(i, i + 8));
            crate::le::i64_at(b, i) == if v < 0x8000_0000_0000_0000 {
                v as int
            } else {
                v - 0x1_0000_0000_0000_0000
            }
        }),
{
    let p = b.subrange(i, i + 2);
    let q = b.subrange(i, i + 4);
    let r = b.subrange(i, i + 8);
    lemma_value_2(p);
    lemma_value_4(q);
    lemma_value_8(r);
    assert(p[0] == b[i] && p[1] == b[i + 1]);
    assert(q[0] == b[i] && q[1] == b[i + 1] && q[2] == b[i + 2] && q[3] == b[i + 3]);
    assert(r.take(4) =~= q);
    let h = r.skip(4);
    lemma_value_4(h);
    assert(h[0] == b[i + 4] && h[1] == b[i + 5] && h[2] == b[i + 6] && h[3] == b[i + 7]);
    let v = crate::le::u64_at(b, i);
    if v < 0x8000_0000_0000_0000 {
        assert(v as i64 == v) by (bit_vector)
            requires
                v < 0x8000_0000_0000_0000,
        ;
    } else {
        assert(v as i64 == v - 0x1_0000_0000_0000_0000) by (bit_vector)
            requires
                v >= 0x8000_0000_0000_0000,
        ;
    }
}

/// Where the parts of a frame stand: the letters WAIF, the flags (the lowest bit for
/// stereo, the next for the last frame), stream, interval, number and packet length, the
/// packet, and behind the packet of a last frame its sample rate, frame count, tempo, beats
/// per bar and bars.
#[verifier::spinoff_prover]
#[verifier::rlimit(40)]
pub proof fn law_frame_layout(f: FrameState)
    requires
        f.opus.len() < 65536,
    ensures
        ({
            let d = crate::wire::frame_bytes(f);
            let n = f.opus.len() as int;
            &&& d.len() == if f.is_final {
                49 + n
            } else {
                21 + n
            }
            &&& d[0] == 0x57 && d[1] == 0x41 && d[2] == 0x49 && d[3] == 0x46
            &&& d[4] < 4
            &&& d[4] % 2 == 1 <==> f.channels == 2
            &&& d[4] >= 2 <==> f.is_final
            &&& value(d.subrange(5, 7)) == f.stream_id
            &&& value(d.subrange(7, 15)) == if f.interval_index >= 0 {
                f.interval_index as int
            } else {
                f.interval_index + 0x1_0000_0000_0000_0000
            }
            &&& value(d.subrange(15, 19)) == f.frame_number
            &&& value(d.subrange(19, 21)) == n
            &&& d.subrange(21, 21 + n) == f.opus
            &&& f.is_final ==> {
                &&& value(d.subrange(21 + n, 25 + n)) == f.sample_rate
                &&& value(d.subrange(25 + n, 29 + n)) == f.total_frames
                &&& value(d.subrange(29 + n, 37 + n)) == f.bpm
                &&& value(d.subrange(37 + n, 45 + n)) == f.quantum
                &&& value(d.subrange(45 + n, 49 + n)) == f.bars
            }
        }),
{
    let d = crate::wire::frame_bytes(f);
    let n = f.opus.len() as int;
    let h = crate::wire::header_bytes(f);
    law_numbers_are_little_endian(f.stream_id, f.frame_number, f.bpm, f.interval_index);
    law_numbers_are_little_endian(n as u16, f.sample_rate, f.quantum, 0);
    law_numbers_are_little_endian(0, f.total_frames, 0, 0);
    law_numbers_are_little_endian(0, f.bars, 0, 0);
    assert(h.len() == 21);
    assert(d.subrange(5, 7) =~= crate::le::u16_bytes(f.stream_id));
    assert(d.subrange(7, 15) =~= crate::le::i64_bytes(f.interval_index));
    assert(d.subrange(15, 19) =~= crate::le::u32_bytes(f.frame_number));
    assert(d.subrange(19, 21) =~= crate::le::u16_bytes(n as u16));
    assert(d.subrange(21, 21 + n) =~= f.opus);
    if f.is_final {
        let m = crate::wire::metadata_bytes(f);
        assert(m.len() == 28);
        assert(d.subrange(21 + n, 25 + n) =~= crate::le::u32_bytes(f.sample_rate));
        assert(d.subrange(25 + n, 29 + n) =~= crate::le::u32_bytes(f.total_frames));
        assert(d.subrange(29 + n, 37 + n) =~= crate::le::u64_bytes(f.bpm));
        assert(d.subrange(37 + n, 45 + n) =~= crate::le::u64_bytes(f.quantum));
        assert(d.subrange(45 + n, 49 + n) =~= crate::le::u32_bytes(f.bars));
    }
}

/// What is read of a frame that was written is the frame, whatever follows it.
pub proof fn law_written_frame_is_read(f: FrameState, rest: Seq<u8>)
    requires
        f.opus.len() < 65536,
        f.channels == 1 || f.channels == 2,
    ensures
        crate::wire::decoded(crate::wire::frame_bytes(f) + rest) matches Ok(g) && {
            &&& g.interval_index == f.interval_index
            &&& g.stream_id == f.stream_id
            &&& g.frame_number == f.frame_number
            &&& g.channels == f.channels
            &&& g.opus == f.opus
            &&& g.is_final == f.is_final
            &&& f.is_final ==> g == f
            &&& !f.is_final ==> g.total_frames == 0 && g.sample_rate == 0 && g.bpm == 0
                && g.quantum == 0 && g.bars == 0
        },
{
    crate::wire::law_frame_round_trip(f, rest);
}

/// Which bytes are a frame: they start with WAIF, hold a header of 21 bytes and the packet
/// that it states, and 28 more bytes where the flags say that it is the last one. What is
/// missing decides the error, the first thing first.
pub proof fn law_frames_are_told_from_other_bytes(d: Seq<u8>)
    requires
        d.len() <= usize::MAX - 65536 - 49,
    ensures
        ({
            let named = d[0] == 0x57 && d[1] == 0x41 && d[2] == 0x49 && d[3] == 0x46;
            let n = d[19] + 256 * d[20];
            let whole = if d[4] % 4 >= 2 {
                49 + n
            } else {
                21 + n
            };
            match crate::wire::decoded(d) {
                Ok(g) => {
                    &&& d.len() >= 21 && named && d.len() >= whole
                    &&& g.opus == d.subrange(21, 21 + n)
                    &&& g.is_final <==> d[4] % 4 >= 2
                    &&& g.channels == 1 + d[4] % 2
                },
                Err(WireError::TooShort { len }) => d.len() < 21 && len == d.len(),
                Err(WireError::BadMagic { b0, b1, b2, b3 }) => d.len() >= 21 && !named && b0 == d[0]
                    && b1 == d[1] && b2 == d[2] && b3 == d[3],
                Err(WireError::TruncatedPayload { expected, got }) => d.len() >= 21 && named
                    && d.len() < 21 + n && expected == n && got == d.len() - 21,
                Err(WireError::TruncatedMetadata { missing }) => d.len() >= 21 + n && named
                    && d[4] % 4 >= 2 && missing == 49 + n - d.len() && missing > 0,
            }
        }),
{
}

/// Rewriting the interval leaves every byte but the eight of the interval alone, and those
/// say the new one.
pub proof fn law_rewriting_touches_eight_bytes(d: Seq<u8>, index: i64)
    requires
        d.len() >= 21,
    ensures
        ({
            let w = crate::wire::with_index(d, index);
            &&& w.len() == d.len()
            &&& forall|j: int| 0 <= j < d.len() && !(7 <= j < 15) ==> #[trigger] w[j] == d[j]
            &&& value(w.subrange(7, 15)) == if index >= 0 {
                index as int
            } else {
                index + 0x1_0000_0000_0000_0000
            }
        }),
{
    law_numbers_are_little_endian(0, 0, 0, index);
    assert(crate::wire::with_index(d, index).subrange(7, 15) =~= crate::le::i64_bytes(index));
}

} // verus!
