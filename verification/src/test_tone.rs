//! Test intervals and validation of received audio.

use vstd::prelude::*;

use crate::text::{push_decimal, push_signed};
use crate::wire::{AudioFrame, AudioFrameWire, FrameState, WireError};

verus! {

/// Result of validating received audio data.
pub struct AudioValidation {
    /// Wire format: "WAIF" (frame)
    pub format: String,
    /// Total wire size in bytes
    pub size_bytes: usize,
    /// Bit pattern of the energy of the decoded samples (0 = silence)
    pub rms_bits: u32,
    /// Human-readable detail string
    pub detail: String,
}

/// Why received data is not audio.
#[derive(Debug, Clone, Copy, PartialEq, Eq)]
pub enum AudioError {
    TooShort { len: usize },
    BadFrame(WireError),
    UnknownFormat { b0: u8, b1: u8, b2: u8, b3: u8 },
}

/// The text of an error.
pub open spec fn error_text(e: AudioError) -> Seq<char> {
    match e {
        AudioError::TooShort { len } => "audio data too short ("@ + crate::text::decimal(len as nat)
            + " bytes)"@,
        AudioError::BadFrame(w) => crate::wire::error_text(w),
        AudioError::UnknownFormat { b0, b1, b2, b3 } => "unknown wire format: magic=["@
            + crate::text::decimal(b0 as nat) + ", "@ + crate::text::decimal(b1 as nat) + ", "@
            + crate::text::decimal(b2 as nat) + ", "@ + crate::text::decimal(b3 as nat) + "]"@,
    }
}

impl AudioError {
    /// The error as text.
    pub fn message(&self) -> (r: String)
        ensures
            r@ == error_text(*self),
    {
        match self {
            AudioError::TooShort { len } => {
                let mut out = "audio data too short (".to_string();
                push_decimal(&mut out, *len as u64);
                out.append(" bytes)");
                out
            },
            AudioError::BadFrame(w) => w.message(),
            AudioError::UnknownFormat { b0, b1, b2, b3 } => {
                let mut out = "unknown wire format: magic=[".to_string();
                push_decimal(&mut out, *b0 as u64);
                out.append(", ");
                push_decimal(&mut out, *b1 as u64);
                out.append(", ");
                push_decimal(&mut out, *b2 as u64);
                out.append(", ");
                push_decimal(&mut out, *b3 as u64);
                out.append("]");
                out
            },
        }
    }
}

/// The text of a truth value.
pub open spec fn bool_text(b: bool) -> Seq<char> {
    if b {
        "true"@
    } else {
        "false"@
    }
}

/// The description of a frame that came in `len` bytes.
pub open spec fn frame_detail(len: nat, f: FrameState) -> Seq<char> {
    "WAIF frame: "@ + crate::text::decimal(len) + " bytes, frame #"@ + crate::text::decimal(
        f.frame_number as nat,
    ) + ", interval "@ + crate::text::signed_decimal(f.interval_index as int) + ", final="@
        + bool_text(f.is_final)
}

/// What validating bytes finds: the frame they hold, or what is wrong with them.
pub open spec fn validated(d: Seq<u8>) -> Result<FrameState, AudioError> {
    if d.len() < 4 {
        Err(AudioError::TooShort { len: d.len() as usize })
    } else if crate::wire::has_magic(d) {
        match crate::wire::decoded(d) {
            Ok(f) => Ok(f),
            Err(e) => Err(AudioError::BadFrame(e)),
        }
    } else {
        Err(AudioError::UnknownFormat { b0: d[0], b1: d[1], b2: d[2], b3: d[3] })
    }
}

/// Validate received audio wire data: decode, check format, return details.
pub fn validate_audio(data: &[u8]) -> (r: Result<AudioValidation, AudioError>)
    ensures
        match r {
            Ok(v) => {
                &&& validated(data@) is Ok
                &&& v.format@ == "WAIF"@
                &&& v.size_bytes == data@.len()
                &&& v.rms_bits == 0
                &&& v.detail@ == frame_detail(data@.len(), validated(data@)->Ok_0)
            },
            Err(e) => validated(data@) == Err::<FrameState, AudioError>(e),
        },
{
    let len: usize = data.len();
    if len < 4 {
        return Err(AudioError::TooShort { len });
    }
    if !(data[0] == 0x57 && data[1] == 0x41 && data[2] == 0x49 && data[3] == 0x46) {
        return Err(
            AudioError::UnknownFormat { b0: data[0], b1: data[1], b2: data[2], b3: data[3] },
        );
    }
    match AudioFrameWire::decode(data) {
        Ok(frame) => {
            let mut detail = "WAIF frame: ".to_string();
            push_decimal(&mut detail, len as u64);
            detail.append(" bytes, frame #");
            push_decimal(&mut detail, frame.frame_number as u64);
            detail.append(", interval ");
            push_signed(&mut detail, frame.interval_index);
            detail.append(", final=");
            if frame.is_final {
                detail.append("true");
            } else {
                detail.append("false");
            }
            Ok(
                AudioValidation {
                    format: "WAIF".to_string(),
                    size_bytes: len,
                    rms_bits: 0,
                    detail,
                },
            )
        },
        Err(e) => Err(AudioError::BadFrame(e)),
    }
}

/// The frame of packet `i` of `packets`; the last one carries the interval's
/// metadata.
pub open spec fn test_frame(
    index: i64,
    packets: Seq<Seq<u8>>,
    i: int,
    bpm: u64,
    bars: u32,
    quantum: u64,
) -> FrameState {
    let last = i == packets.len() - 1;
    FrameState {
        interval_index: index,
        stream_id: 0,
        frame_number: i as u32,
        channels: 2,
        opus: packets[i],
        is_final: last,
        sample_rate: if last {
            48000
        } else {
            0
        },
        total_frames: if last {
            packets.len() as u32
        } else {
            0
        },
        bpm: if last {
            bpm
        } else {
            0
        },
        quantum: if last {
            quantum
        } else {
            0
        },
        bars: if last {
            bars
        } else {
            0
        },
    }
}

/// Frame the stereo 48 kHz packets of one interval for the wire.
pub fn encode_test_interval(
    index: i64,
    packets: Vec<Vec<u8>>,
    bpm_bits: u64,
    bars: u32,
    quantum_bits: u64,
) -> (r: Vec<Vec<u8>>)
    requires
        packets@.len() <= u32::MAX,
    ensures
        r@.len() == packets@.len(),
        forall|i: int|
            0 <= i < r@.len() ==> (#[trigger] r@[i])@ == crate::wire::frame_bytes(
                test_frame(
                    index,
                    crate::codec::contents(packets@),
                    i,
                    bpm_bits,
                    bars,
                    quantum_bits,
                ),
            ),
{
    let ghost all = crate::codec::contents(packets@);
    let total: usize = packets.len();
    let mut left: Vec<Vec<u8>> = packets;
    let mut out: Vec<Vec<u8>> = Vec::new();
    let mut i: usize = 0;
    while i < total
        invariant
            total == all.len(),
            total <= u32::MAX,
            i <= total,
            left@.len() == total - i,
            forall|j: int| 0 <= j < left@.len() ==> (#[trigger] left@[j])@ == all[i + j],
            out@.len() == i,
            forall|j: int|
                0 <= j < i ==> (#[trigger] out@[j])@ == crate::wire::frame_bytes(
                    test_frame(index, all, j, bpm_bits, bars, quantum_bits),
                ),
        decreases total - i,
    {
        let ghost before = left@;
        assert(before[0]@ == all[i + 0]);
        let opus_data: Vec<u8> = left.remove(0);
        assert forall|j: int| 0 <= j < left@.len() implies (#[trigger] left@[j])@ == all[i + 1
            + j] by {
            assert(left@[j] == before[j + 1]);
        }
        let is_final = i == total - 1;
        let frame = AudioFrame {
            interval_index: index,
            stream_id: 0,
            frame_number: i as u32,
            channels: 2,
            opus_data,
            is_final,
            sample_rate: if is_final {
                48000
            } else {
                0
            },
            total_frames: if is_final {
                total as u32
            } else {
                0
            },
            bpm_bits: if is_final {
                bpm_bits
            } else {
                0
            },
            quantum_bits: if is_final {
                quantum_bits
            } else {
                0
            },
            bars: if is_final {
                bars
            } else {
                0
            },
        };
        assert(frame@ =~= test_frame(index, all, i as int, bpm_bits, bars, quantum_bits));
        out.push(AudioFrameWire::encode(&frame));
        i += 1;
    }
    out
}

/// The test tone sends each packet in a frame of its own, numbered from zero on stream
/// zero in stereo, and only the last frame is final and says how many there are, and at
/// which rate and tempo they were made.
pub proof fn law_test_frames_make_an_interval(
    index: i64,
    packets: Seq<Seq<u8>>,
    i: int,
    bpm: u64,
    bars: u32,
    quantum: u64,
)
    requires
        0 <= i < packets.len() < 0x1_0000_0000,
    ensures
        ({
            let f = test_frame(index, packets, i, bpm, bars, quantum);
            &&& f.interval_index == index && f.stream_id == 0 && f.channels == 2
            &&& f.frame_number == i
            &&& f.opus == packets[i]
            &&& f.is_final <==> i + 1 == packets.len()
            &&& f.is_final ==> f.total_frames == packets.len() && f.sample_rate == 48000 && f.bpm
                == bpm && f.bars == bars && f.quantum == quantum
            &&& !f.is_final ==> f.total_frames == 0 && f.sample_rate == 0 && f.bpm == 0 && f.bars
                == 0 && f.quantum == 0
        }),
{
}

/// A frame that was written passes the check and is read as it was; bytes that are too few
/// to say what they are, or that say they are something else, do not pass.
pub proof fn law_only_frames_pass(f: FrameState, d: Seq<u8>)
    requires
        f.channels == 1 || f.channels == 2,
        f.opus.len() <= 65535,
    ensures
        ({
            let r = validated(crate::wire::frame_bytes(f));
            &&& r is Ok
            &&& r->Ok_0.interval_index == f.interval_index && r->Ok_0.stream_id == f.stream_id
            &&& r->Ok_0.frame_number == f.frame_number && r->Ok_0.channels == f.channels
            &&& r->Ok_0.opus == f.opus && r->Ok_0.is_final == f.is_final
        }),
        d.len() < 4 ==> validated(d) is Err && validated(d)->Err_0 is TooShort,
        d.len() >= 4 && (d[0] != 0x57 || d[1] != 0x41 || d[2] != 0x49 || d[3] != 0x46) ==> {
            &&& validated(d) is Err
            &&& validated(d)->Err_0 is UnknownFormat
        },
        validated(d) is Ok ==> d.len() >= 21,
{
    let b = crate::wire::frame_bytes(f);
    assert(b + Seq::<u8>::empty() =~= b);
    crate::wire::law_frame_round_trip(f, Seq::empty());
}

} // verus!
