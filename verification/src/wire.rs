//! Binary wire format for streaming audio frames.
//!
//! Each frame carries a single 20 ms packet. The final frame of an interval also
//! carries the metadata of the interval.
//!
//! All integers are little-endian:
//!
//! ```text
//! [4 bytes] magic: "WAIF"
//! [1 byte]  flags: bit 0 = stereo, bit 1 = final (last frame of interval)
//! [2 bytes] stream_id: u16
//! [8 bytes] interval_index: i64
//! [4 bytes] frame_number: u32  (0-indexed within interval)
//! [2 bytes] opus_len: u16
//! [N bytes] opus_data
//!
//! If the final flag is set, append:
//! [4 bytes] sample_rate: u32
//! [4 bytes] total_frames: u32
//! [8 bytes] bpm: bit pattern of a double
//! [8 bytes] quantum: bit pattern of a double
//! [4 bytes] bars: u32
//! ```

use vstd::prelude::*;

use crate::le::{get_i64, get_u16, get_u32, get_u64, push_i64, push_u16, push_u32, push_u64};
use crate::text::push_decimal;

verus! {

pub const FRAME_HEADER_SIZE: usize = 21;

pub const FRAME_FINAL_EXTRA: usize = 28;

/// One encoded packet of an interval, as it is streamed.
pub struct AudioFrame {
    pub interval_index: i64,
    pub stream_id: u16,
    /// Position of the packet within the interval, from 0.
    pub frame_number: u32,
    /// 1 = mono, 2 = stereo
    pub channels: u16,
    pub opus_data: Vec<u8>,
    /// Whether this is the last packet of the interval; the fields below are only
    /// meaningful then.
    pub is_final: bool,
    pub sample_rate: u32,
    pub total_frames: u32,
    /// Bit pattern of the tempo in beats per minute.
    pub bpm_bits: u64,
    /// Bit pattern of the beats per bar.
    pub quantum_bits: u64,
    pub bars: u32,
}

/// What a frame says.
#[verifier::ext_equal]
pub struct FrameState {
    pub interval_index: i64,
    pub stream_id: u16,
    pub frame_number: u32,
    pub channels: u16,
    pub opus: Seq<u8>,
    pub is_final: bool,
    pub sample_rate: u32,
    pub total_frames: u32,
    pub bpm: u64,
    pub quantum: u64,
    pub bars: u32,
}

impl View for AudioFrame {
    type V = FrameState;

    open spec fn view(&self) -> FrameState {
        FrameState {
            interval_index: self.interval_index,
            stream_id: self.stream_id,
            frame_number: self.frame_number,
            channels: self.channels,
            opus: self.opus_data@,
            is_final: self.is_final,
            sample_rate: self.sample_rate,
            total_frames: self.total_frames,
            bpm: self.bpm_bits,
            quantum: self.quantum_bits,
            bars: self.bars,
        }
    }
}

/// Why bytes are not a frame.
#[derive(Debug, Clone, Copy, PartialEq, Eq)]
pub enum WireError {
    /// Fewer bytes than a header.
    TooShort { len: usize },
    /// The first four bytes, which are not the magic.
    BadMagic { b0: u8, b1: u8, b2: u8, b3: u8 },
    /// Fewer packet bytes than the header says.
    TruncatedPayload { expected: usize, got: usize },
    /// The metadata of a final frame lacks bytes.
    TruncatedMetadata { missing: usize },
}

/// The text of an error.
pub open spec fn error_text(e: WireError) -> Seq<char> {
    match e {
        WireError::TooShort { len } => "Audio frame wire data too short: "@ + crate::text::decimal(
            len as nat,
        ) + " bytes, need at least 21"@,
        WireError::BadMagic { b0, b1, b2, b3 } => "Invalid audio frame wire magic: ["@
            + crate::text::decimal(b0 as nat) + ", "@ + crate::text::decimal(b1 as nat) + ", "@
            + crate::text::decimal(b2 as nat) + ", "@ + crate::text::decimal(b3 as nat) + "]"@,
        WireError::TruncatedPayload { expected, got } => "Audio frame wire truncated: expected "@
            + crate::text::decimal(expected as nat) + " opus bytes, got "@ + crate::text::decimal(
            got as nat,
        ),
        WireError::TruncatedMetadata {
            missing,
        } => "Audio frame final metadata truncated: need "@ + crate::text::decimal(missing as nat)
            + " more bytes"@,
    }
}

impl WireError {
    /// The error as text.
    pub fn message(&self) -> (r: String)
        ensures
            r@ == error_text(*self),
    {
        match self {
            WireError::TooShort { len } => {
                let mut out = "Audio frame wire data too short: ".to_string();
                push_decimal(&mut out, *len as u64);
                out.append(" bytes, need at least 21");
                out
            },
            WireError::BadMagic { b0, b1, b2, b3 } => {
                let mut out = "Invalid audio frame wire magic: [".to_string();
                push_decimal(&mut out, *b0 as u64);
                out.append(", ");
                push_decimal(&mut out, *b1 as u64);
                out.append(", ");
                push_decimal(&mut out, *b2 as u64);
                out.append(", ");
                push_decimal(&mut out, *b3 as u64);
                out.append("]");
                out
            },
            WireError::TruncatedPayload { expected, got } => {
                let mut out = "Audio frame wire truncated: expected ".to_string();
                push_decimal(&mut out, *expected as u64);
                out.append(" opus bytes, got ");
                push_decimal(&mut out, *got as u64);
                out
            },
            WireError::TruncatedMetadata { missing } => {
                let mut out = "Audio frame final metadata truncated: need ".to_string();
                push_decimal(&mut out, *missing as u64);
                out.append(" more bytes");
                out
            },
        }
    }
}

/// The bytes that open a frame: "WAIF".
pub open spec fn magic() -> Seq<u8> {
    seq![0x57u8, 0x41u8, 0x49u8, 0x46u8]
}

/// The flags byte: 1 for stereo, 2 for final.
pub open spec fn flags_of(f: FrameState) -> u8 {
    ((if f.channels == 2 {
        1int
    } else {
        0int
    }) + (if f.is_final {
        2int
    } else {
        0int
    })) as u8
}

/// The metadata that follows the packet of a final frame.
pub open spec fn metadata_bytes(f: FrameState) -> Seq<u8> {
    crate::le::u32_bytes(f.sample_rate) + crate::le::u32_bytes(f.total_frames)
        + crate::le::u64_bytes(f.bpm) + crate::le::u64_bytes(f.quantum) + crate::le::u32_bytes(
        f.bars,
    )
}

/// The header, which states the packet length modulo 65536.
pub open spec fn header_bytes(f: FrameState) -> Seq<u8> {
    magic().push(flags_of(f)) + crate::le::u16_bytes(f.stream_id) + crate::le::i64_bytes(
        f.interval_index,
    ) + crate::le::u32_bytes(f.frame_number) + crate::le::u16_bytes((f.opus.len() % 65536) as u16)
}

/// The bytes of a frame.
pub open spec fn frame_bytes(f: FrameState) -> Seq<u8> {
    header_bytes(f) + f.opus + if f.is_final {
        metadata_bytes(f)
    } else {
        Seq::empty()
    }
}

/// Whether bytes start with the magic.
pub open spec fn has_magic(d: Seq<u8>) -> bool {
    d[0] == 0x57 && d[1] == 0x41 && d[2] == 0x49 && d[3] == 0x46
}

/// The packet length that the header states.
pub open spec fn stated_len(d: Seq<u8>) -> nat {
    crate::le::u16_at(d, 19) as nat
}

/// Whether the header says that the frame is final.
pub open spec fn states_final(d: Seq<u8>) -> bool {
    d[4] / 2 % 2 == 1
}

/// What bytes say, read as a frame.
pub open spec fn decoded(d: Seq<u8>) -> Result<FrameState, WireError> {
    if d.len() < FRAME_HEADER_SIZE {
        Err(WireError::TooShort { len: d.len() as usize })
    } else if !has_magic(d) {
        Err(WireError::BadMagic { b0: d[0], b1: d[1], b2: d[2], b3: d[3] })
    } else if d.len() < FRAME_HEADER_SIZE + stated_len(d) {
        Err(
            WireError::TruncatedPayload {
                expected: stated_len(d) as usize,
                got: (d.len() - FRAME_HEADER_SIZE) as usize,
            },
        )
    } else {
        let m = FRAME_HEADER_SIZE + stated_len(d);
        let is_final = states_final(d);
        if is_final && d.len() < m + FRAME_FINAL_EXTRA {
            Err(
                WireError::TruncatedMetadata { missing: (m + FRAME_FINAL_EXTRA - d.len()) as usize },
            )
        } else {
            Ok(
                FrameState {
                    interval_index: crate::le::i64_at(d, 7),
                    stream_id: crate::le::u16_at(d, 5),
                    frame_number: crate::le::u32_at(d, 15),
                    channels: if d[4] % 2 == 1 {
                        2
                    } else {
                        1
                    },
                    opus: d.subrange(FRAME_HEADER_SIZE as int, m),
                    is_final,
                    sample_rate: if is_final {
                        crate::le::u32_at(d, m)
                    } else {
                        0
                    },
                    total_frames: if is_final {
                        crate::le::u32_at(d, m + 4)
                    } else {
                        0
                    },
                    bpm: if is_final {
                        crate::le::u64_at(d, m + 8)
                    } else {
                        0
                    },
                    quantum: if is_final {
                        crate::le::u64_at(d, m + 16)
                    } else {
                        0
                    },
                    bars: if is_final {
                        crate::le::u32_at(d, m + 24)
                    } else {
                        0
                    },
                },
            )
        }
    }
}

/// Binary wire format for streaming audio frames.
pub struct AudioFrameWire;

impl AudioFrameWire {
    /// The bytes of a frame.
    pub fn encode(frame: &AudioFrame) -> (r: Vec<u8>)
        ensures
            r@ == frame_bytes(frame@),
    {
        let mut buf: Vec<u8> = Vec::new();
        buf.push(0x57);
        buf.push(0x41);
        buf.push(0x49);
        buf.push(0x46);
        let stereo: u8 = if frame.channels == 2 {
            1
        } else {
            0
        };
        let last: u8 = if frame.is_final {
            2
        } else {
            0
        };
        buf.push(stereo + last);
        assert(buf@ =~= magic().push(flags_of(frame@)));
        push_u16(&mut buf, frame.stream_id);
        push_i64(&mut buf, frame.interval_index);
        push_u32(&mut buf, frame.frame_number);
        push_u16(&mut buf, (frame.opus_data.len() % 65536) as u16);
        assert(buf@ =~= header_bytes(frame@));
        buf.extend_from_slice(frame.opus_data.as_slice());
        assert(buf@ =~= header_bytes(frame@) + frame@.opus);
        if frame.is_final {
            push_u32(&mut buf, frame.sample_rate);
            push_u32(&mut buf, frame.total_frames);
            push_u64(&mut buf, frame.bpm_bits);
            push_u64(&mut buf, frame.quantum_bits);
            push_u32(&mut buf, frame.bars);
        }
        assert(buf@ =~= frame_bytes(frame@));
        buf
    }

    /// Read bytes as a frame. Bytes after the frame are ignored.
    pub fn decode(data: &[u8]) -> (r: Result<AudioFrame, WireError>)
        ensures
            match r {
                Ok(f) => decoded(data@) == Ok::<FrameState, WireError>(f@),
                Err(e) => decoded(data@) == Err::<FrameState, WireError>(e),
            },
    {
        let len: usize = data.len();
        if len < FRAME_HEADER_SIZE {
            return Err(WireError::TooShort { len });
        }
        if !(data[0] == 0x57 && data[1] == 0x41 && data[2] == 0x49 && data[3] == 0x46) {
            return Err(
                WireError::BadMagic { b0: data[0], b1: data[1], b2: data[2], b3: data[3] },
            );
        }
        let flags: u8 = data[4];
        let channels: u16 = if flags % 2 == 1 {
            2
        } else {
            1
        };
        let is_final = flags / 2 % 2 == 1;
        let stream_id: u16 = get_u16(data, 5);
        let interval_index: i64 = get_i64(data, 7);
        let frame_number: u32 = get_u32(data, 15);
        let opus_len: usize = get_u16(data, 19) as usize;
        if len < FRAME_HEADER_SIZE + opus_len {
            return Err(
                WireError::TruncatedPayload {
                    expected: opus_len,
                    got: len - FRAME_HEADER_SIZE,
                },
            );
        }
        let m: usize = FRAME_HEADER_SIZE + opus_len;
        let mut opus_data: Vec<u8> = Vec::new();
        opus_data.extend_from_slice(&data[FRAME_HEADER_SIZE..m]);
        assert(opus_data@ =~= data@.subrange(FRAME_HEADER_SIZE as int, m as int));
        let mut frame = AudioFrame {
            interval_index,
            stream_id,
            frame_number,
            channels,
            opus_data,
            is_final,
            sample_rate: 0,
            total_frames: 0,
            bpm_bits: 0,
            quantum_bits: 0,
            bars: 0,
        };
        if is_final {
            if len - m < FRAME_FINAL_EXTRA {
                return Err(
                    WireError::TruncatedMetadata { missing: FRAME_FINAL_EXTRA - (len - m) },
                );
            }
            frame.sample_rate = get_u32(data, m);
            frame.total_frames = get_u32(data, m + 4);
            frame.bpm_bits = get_u64(data, m + 8);
            frame.quantum_bits = get_u64(data, m + 16);
            frame.bars = get_u32(data, m + 24);
        }
        Ok(frame)
    }
}

/// Minimal frame header fields.
#[derive(Debug, Clone, Copy)]
pub struct WaifHeaderPeek {
    pub interval_index: i64,
    pub frame_number: u32,
    pub is_final: bool,
    /// Only valid when `is_final` is true.
    pub total_frames: u32,
}

/// The header fields of bytes that have the magic and, for a final frame, the
/// metadata.
pub open spec fn peeked(d: Seq<u8>) -> Option<WaifHeaderPeek> {
    if d.len() < FRAME_HEADER_SIZE || !has_magic(d) {
        None
    } else if states_final(d) && d.len() < FRAME_HEADER_SIZE + stated_len(d) + FRAME_FINAL_EXTRA {
        None
    } else {
        Some(
            WaifHeaderPeek {
                interval_index: crate::le::i64_at(d, 7),
                frame_number: crate::le::u32_at(d, 15),
                is_final: states_final(d),
                total_frames: if states_final(d) {
                    crate::le::u32_at(d, FRAME_HEADER_SIZE + stated_len(d) + 4)
                } else {
                    0
                },
            },
        )
    }
}

/// Peek at a frame header without copying. Returns `None` if the data is too short
/// or doesn't have the magic.
pub fn peek_waif_header(data: &[u8]) -> (r: Option<WaifHeaderPeek>)
    ensures
        r == peeked(data@),
{
    let len: usize = data.len();
    if len < FRAME_HEADER_SIZE {
        return None;
    }
    if !(data[0] == 0x57 && data[1] == 0x41 && data[2] == 0x49 && data[3] == 0x46) {
        return None;
    }
    let is_final = data[4] / 2 % 2 == 1;
    let mut total_frames: u32 = 0;
    if is_final {
        let m: usize = FRAME_HEADER_SIZE + get_u16(data, 19) as usize;
        if len < m + FRAME_FINAL_EXTRA {
            return None;
        }
        total_frames = get_u32(data, m + 4);
    }
    Some(
        WaifHeaderPeek {
            interval_index: get_i64(data, 7),
            frame_number: get_u32(data, 15),
            is_final,
            total_frames,
        },
    )
}

/// Bytes with the interval index of the header replaced.
pub open spec fn with_index(d: Seq<u8>, index: i64) -> Seq<u8> {
    d.subrange(0, 7) + crate::le::i64_bytes(index) + d.subrange(15, d.len() as int)
}

/// Rewrite the interval_index field in a frame header in-place.
///
/// Used by the session layer to remap a remote peer's interval index to
/// the local session's synced index before forwarding to the recv plugin.
/// Returns true if the rewrite was performed.
pub fn rewrite_waif_interval_index(data: &mut [u8], new_index: i64) -> (r: bool)
    ensures
        r == (old(data)@.len() >= FRAME_HEADER_SIZE && has_magic(old(data)@)),
        final(data)@ == if r {
            with_index(old(data)@, new_index)
        } else {
            old(data)@
        },
{
    if data.len() < FRAME_HEADER_SIZE {
        return false;
    }
    if !(data[0] == 0x57 && data[1] == 0x41 && data[2] == 0x49 && data[3] == 0x46) {
        return false;
    }
    let ghost pre = data@;
    let mut bytes: Vec<u8> = Vec::new();
    push_i64(&mut bytes, new_index);
    assert(bytes@ =~= crate::le::i64_bytes(new_index));
    let mut i: usize = 0;
    while i < 8
        invariant
            i <= 8,
            bytes@ == crate::le::i64_bytes(new_index),
            bytes@.len() == 8,
            data@.len() == pre.len(),
            pre.len() >= FRAME_HEADER_SIZE,
            forall|j: int|
                0 <= j < data@.len() ==> data@[j] == if 7 <= j < 7 + i {
                    bytes@[j - 7]
                } else {
                    pre[j]
                },
        decreases 8 - i,
    {
        data[7 + i] = bytes[i];
        i += 1;
    }
    assert(data@ =~= with_index(pre, new_index));
    true
}

/// A frame as its bytes can hold it: mono or stereo, and metadata only in a final
/// frame.
pub open spec fn canonical(f: FrameState) -> FrameState {
    FrameState {
        channels: if f.channels == 2 {
            2
        } else {
            1
        },
        sample_rate: if f.is_final {
            f.sample_rate
        } else {
            0
        },
        total_frames: if f.is_final {
            f.total_frames
        } else {
            0
        },
        bpm: if f.is_final {
            f.bpm
        } else {
            0
        },
        quantum: if f.is_final {
            f.quantum
        } else {
            0
        },
        bars: if f.is_final {
            f.bars
        } else {
            0
        },
        ..f
    }
}

/// What stands between two other pieces is found at its place.
proof fn lemma_piece(a: Seq<u8>, p: Seq<u8>, c: Seq<u8>)
    ensures
        (a + p + c).subrange(a.len() as int, (a.len() + p.len()) as int) == p,
{
    assert((a + p + c).subrange(a.len() as int, (a.len() + p.len()) as int) =~= p);
}

/// The fields of a header are read back.
#[verifier::rlimit(40)]
proof fn lemma_header_fields(f: FrameState, rest: Seq<u8>)
    requires
        f.opus.len() < 65536,
    ensures
        ({
            let d = header_bytes(f) + rest;
            &&& header_bytes(f).len() == FRAME_HEADER_SIZE
            &&& has_magic(d)
            &&& d[4] == flags_of(f)
            &&& crate::le::u16_at(d, 5) == f.stream_id
            &&& crate::le::i64_at(d, 7) == f.interval_index
            &&& crate::le::u32_at(d, 15) == f.frame_number
            &&& crate::le::u16_at(d, 19) == f.opus.len()
        }),
{
    let d = header_bytes(f) + rest;
    let h0 = magic().push(flags_of(f));
    let p1 = crate::le::u16_bytes(f.stream_id);
    let p2 = crate::le::i64_bytes(f.interval_index);
    let p3 = crate::le::u32_bytes(f.frame_number);
    let p4 = crate::le::u16_bytes(f.opus.len() as u16);
    assert(h0.len() == 5 && p1.len() == 2 && p2.len() == 8 && p3.len() == 4 && p4.len() == 2);
    assert(header_bytes(f) == h0 + p1 + p2 + p3 + p4);
    assert(d =~= h0 + p1 + (p2 + p3 + p4 + rest));
    lemma_piece(h0, p1, p2 + p3 + p4 + rest);
    assert(d =~= h0 + p1 + p2 + (p3 + p4 + rest));
    lemma_piece(h0 + p1, p2, p3 + p4 + rest);
    assert(d =~= h0 + p1 + p2 + p3 + (p4 + rest));
    lemma_piece(h0 + p1 + p2, p3, p4 + rest);
    lemma_piece(h0 + p1 + p2 + p3, p4, rest);
    crate::le::lemma_u16_at(d, 5, f.stream_id);
    crate::le::lemma_i64_at(d, 7, f.interval_index);
    crate::le::lemma_u32_at(d, 15, f.frame_number);
    crate::le::lemma_u16_at(d, 19, f.opus.len() as u16);
    assert forall|j: int| 0 <= j < 5 implies #[trigger] d[j] == h0[j] by {}
    assert(d[0] == h0[0] && d[1] == h0[1] && d[2] == h0[2] && d[3] == h0[3] && d[4] == h0[4]);
}

/// The fields of the metadata are read back.
#[verifier::rlimit(40)]
proof fn lemma_metadata_fields(pre: Seq<u8>, f: FrameState, rest: Seq<u8>)
    ensures
        ({
            let d = pre + metadata_bytes(f) + rest;
            let m = pre.len() as int;
            &&& metadata_bytes(f).len() == FRAME_FINAL_EXTRA
            &&& crate::le::u32_at(d, m) == f.sample_rate
            &&& crate::le::u32_at(d, m + 4) == f.total_frames
            &&& crate::le::u64_at(d, m + 8) == f.bpm
            &&& crate::le::u64_at(d, m + 16) == f.quantum
            &&& crate::le::u32_at(d, m + 24) == f.bars
        }),
{
    let d = pre + metadata_bytes(f) + rest;
    let m = pre.len() as int;
    let p1 = crate::le::u32_bytes(f.sample_rate);
    let p2 = crate::le::u32_bytes(f.total_frames);
    let p3 = crate::le::u64_bytes(f.bpm);
    let p4 = crate::le::u64_bytes(f.quantum);
    let p5 = crate::le::u32_bytes(f.bars);
    assert(p1.len() == 4 && p2.len() == 4 && p3.len() == 8 && p4.len() == 8 && p5.len() == 4);
    assert(d =~= pre + p1 + (p2 + p3 + p4 + p5 + rest));
    lemma_piece(pre, p1, p2 + p3 + p4 + p5 + rest);
    assert(d =~= pre + p1 + p2 + (p3 + p4 + p5 + rest));
    lemma_piece(pre + p1, p2, p3 + p4 + p5 + rest);
    assert(d =~= pre + p1 + p2 + p3 + (p4 + p5 + rest));
    lemma_piece(pre + p1 + p2, p3, p4 + p5 + rest);
    assert(d =~= pre + p1 + p2 + p3 + p4 + (p5 + rest));
    lemma_piece(pre + p1 + p2 + p3, p4, p5 + rest);
    assert(d =~= pre + p1 + p2 + p3 + p4 + p5 + rest);
    lemma_piece(pre + p1 + p2 + p3 + p4, p5, rest);
    crate::le::lemma_u32_at(d, m, f.sample_rate);
    crate::le::lemma_u32_at(d, m + 4, f.total_frames);
    crate::le::lemma_u64_at(d, m + 8, f.bpm);
    crate::le::lemma_u64_at(d, m + 16, f.quantum);
    crate::le::lemma_u32_at(d, m + 24, f.bars);
}

/// The ways to bracket four pieces.
proof fn lemma_brackets(a: Seq<u8>, b: Seq<u8>, c: Seq<u8>, d: Seq<u8>)
    ensures
        a + b + c + d == a + (b + c + d),
        a + b + c + d == a + b + (c + d),
{
    assert(a + b + c + d =~= a + (b + c + d));
    assert(a + b + c + d =~= a + b + (c + d));
}

/// The flags are read back.
proof fn lemma_flags(f: FrameState)
    ensures
        (flags_of(f) % 2 == 1) == (f.channels == 2),
        (flags_of(f) / 2 % 2 == 1) == f.is_final,
{
}

/// Decoding an encoded frame gives the frame back, whatever bytes follow it. The
/// packet length fits the 16 bits that the header has for it.
#[verifier::spinoff_prover]
pub proof fn law_frame_round_trip(f: FrameState, rest: Seq<u8>)
    requires
        f.opus.len() < 65536,
    ensures
        decoded(frame_bytes(f) + rest) == Ok::<FrameState, WireError>(canonical(f)),
{
    let d = frame_bytes(f) + rest;
    let h = header_bytes(f);
    let tail = if f.is_final {
        metadata_bytes(f)
    } else {
        Seq::empty()
    };
    lemma_flags(f);
    lemma_brackets(h, f.opus, tail, rest);
    lemma_header_fields(f, f.opus + tail + rest);
    lemma_piece(h, f.opus, tail + rest);
    lemma_metadata_fields(h + f.opus, f, rest);
    lemma_decode_parts(f, d);
}

/// Bytes whose parts are those of a frame decode to the frame.
#[verifier::spinoff_prover]
proof fn lemma_decode_parts(f: FrameState, d: Seq<u8>)
    requires
        d.len() >= FRAME_HEADER_SIZE + f.opus.len() + if f.is_final {
            FRAME_FINAL_EXTRA as int
        } else {
            0
        },
        has_magic(d),
        (d[4] % 2 == 1) == (f.channels == 2),
        states_final(d) == f.is_final,
        crate::le::u16_at(d, 5) == f.stream_id,
        crate::le::i64_at(d, 7) == f.interval_index,
        crate::le::u32_at(d, 15) == f.frame_number,
        stated_len(d) == f.opus.len(),
        d.subrange(FRAME_HEADER_SIZE as int, FRAME_HEADER_SIZE + f.opus.len()) == f.opus,
        f.is_final ==> {
            let m = FRAME_HEADER_SIZE + f.opus.len();
            &&& crate::le::u32_at(d, m) == f.sample_rate
            &&& crate::le::u32_at(d, m + 4) == f.total_frames
            &&& crate::le::u64_at(d, m + 8) == f.bpm
            &&& crate::le::u64_at(d, m + 16) == f.quantum
            &&& crate::le::u32_at(d, m + 24) == f.bars
        },
    ensures
        decoded(d) == Ok::<FrameState, WireError>(canonical(f)),
{
}

/// Peeking agrees with decoding wherever decoding succeeds.
pub proof fn law_peek_agrees_with_decode(d: Seq<u8>)
    ensures
        decoded(d) matches Ok(f) ==> peeked(d) == Some(
            WaifHeaderPeek {
                interval_index: f.interval_index,
                frame_number: f.frame_number,
                is_final: f.is_final,
                total_frames: f.total_frames,
            },
        ),
{
}

/// Rewriting the index changes what is decoded in the index alone, and does not
/// turn an unreadable frame into a readable one or back.
pub proof fn law_rewrite_changes_only_the_index(d: Seq<u8>, index: i64)
    requires
        d.len() >= FRAME_HEADER_SIZE,
        has_magic(d),
    ensures
        decoded(with_index(d, index)) == match decoded(d) {
            Ok(f) => Ok::<FrameState, WireError>(FrameState { interval_index: index, ..f }),
            Err(e) => Err::<FrameState, WireError>(e),
        },
{
    let w = with_index(d, index);
    assert(w.len() == d.len());
    assert forall|j: int| 0 <= j < d.len() && !(7 <= j < 15) implies #[trigger] w[j] == d[j] by {}
    assert(w.subrange(7, 15) =~= crate::le::i64_bytes(index));
    crate::le::lemma_i64_at(w, 7, index);
    let m = FRAME_HEADER_SIZE + stated_len(d);
    if d.len() >= m {
        assert(w.subrange(FRAME_HEADER_SIZE as int, m) =~= d.subrange(FRAME_HEADER_SIZE as int, m));
    }
}

} // verus!
