//! Length-prefixed framing and messages between the plugins and the application.
//!
//! ```text
//! [4 bytes] payload_length: u32 LE
//! [N bytes] payload
//! ```
//!
//! A payload starts with a tag byte. Peer ids, identities and display names are a
//! length byte followed by at most 255 bytes of UTF-8.

use vstd::prelude::*;
use vstd::utf8::*;

use crate::le::{get_u32, get_u64, push_u32, push_u64};

verus! {

/// IPC role byte sent by plugins on connect to identify themselves.
pub const IPC_ROLE_SEND: u8 = 0x00;

/// IPC role byte sent by plugins on connect to identify themselves.
pub const IPC_ROLE_RECV: u8 = 0x01;

pub const IPC_TAG_AUDIO: u8 = 0x01;

pub const IPC_TAG_PEER_JOINED: u8 = 0x02;

pub const IPC_TAG_PEER_LEFT: u8 = 0x03;

pub const IPC_TAG_PEER_NAME: u8 = 0x04;

pub const IPC_TAG_AUDIO_FRAME: u8 = 0x05;

pub const IPC_TAG_METRICS: u8 = 0x06;

/// IPC message tag constants for matching in the recv plugin.
pub const IPC_TAG_AUDIO_PUB: u8 = 0x01;

pub const IPC_TAG_PEER_JOINED_PUB: u8 = 0x02;

pub const IPC_TAG_PEER_LEFT_PUB: u8 = 0x03;

pub const IPC_TAG_PEER_NAME_PUB: u8 = 0x04;

pub const IPC_TAG_AUDIO_FRAME_PUB: u8 = 0x05;

pub const IPC_TAG_METRICS_PUB: u8 = 0x06;

/// The text that `String::from_utf8_lossy` makes of bytes that are not UTF-8.
pub uninterp spec fn lossy_text(bytes: Seq<u8>) -> Seq<char>;

/// The text that bytes stand for; what is not UTF-8 is replaced.
pub open spec fn text_of(bytes: Seq<u8>) -> Seq<char> {
    if valid_utf8(bytes) {
        decode_utf8(bytes)
    } else {
        lossy_text(bytes)
    }
}

/// `String::from_utf8_lossy`: bytes that are UTF-8 give the text they encode. What
/// other bytes give is a function of the bytes, which is only named.
#[verifier::external_body]
pub(crate) fn text_from_utf8_lossy(bytes: &[u8]) -> (r: String)
    ensures
        r@ == (if valid_utf8(bytes@) {
            decode_utf8(bytes@)
        } else {
            lossy_text(bytes@)
        }),
{
    String::from_utf8_lossy(bytes).into_owned()
}

/// The bytes of a text, cut off after 255.
pub open spec fn short_bytes(s: Seq<char>) -> Seq<u8> {
    let b = encode_utf8(s);
    if b.len() <= 255 {
        b
    } else {
        b.take(255)
    }
}

/// A text field: its length in one byte, then its bytes.
pub open spec fn field_bytes(s: Seq<char>) -> Seq<u8> {
    seq![short_bytes(s).len() as u8] + short_bytes(s)
}

/// Whether a whole text field stands at position `at`.
pub open spec fn has_field(d: Seq<u8>, at: int) -> bool {
    at < d.len() && at + 1 + d[at] <= d.len()
}

/// The text of the field at position `at`.
pub open spec fn field_text(d: Seq<u8>, at: int) -> Seq<char> {
    text_of(d.subrange(at + 1, at + 1 + d[at]))
}

/// The position after the field at position `at`.
pub open spec fn field_end(d: Seq<u8>, at: int) -> int {
    at + 1 + d[at]
}

/// A frame: the payload length modulo 2^32, then the payload.
pub open spec fn framed(payload: Seq<u8>) -> Seq<u8> {
    crate::le::u32_bytes((payload.len() % 0x1_0000_0000) as u32) + payload
}

/// Whether the bytes start with a whole frame.
pub open spec fn has_frame(b: Seq<u8>) -> bool {
    b.len() >= 4 && b.len() >= 4 + crate::le::u32_at(b, 0)
}

/// The payload of the first frame.
pub open spec fn first_payload(b: Seq<u8>) -> Seq<u8> {
    b.subrange(4, 4 + crate::le::u32_at(b, 0))
}

/// What follows the first frame.
pub open spec fn after_frame(b: Seq<u8>) -> Seq<u8> {
    b.skip(4 + crate::le::u32_at(b, 0))
}

/// The payloads of all whole frames, in order.
pub open spec fn all_payloads(b: Seq<u8>) -> Seq<Seq<u8>>
    decreases b.len(),
{
    if has_frame(b) {
        seq![first_payload(b)] + all_payloads(after_frame(b))
    } else {
        Seq::empty()
    }
}

/// What is left once all whole frames are taken.
pub open spec fn left_over(b: Seq<u8>) -> Seq<u8>
    decreases b.len(),
{
    if has_frame(b) {
        left_over(after_frame(b))
    } else {
        b
    }
}

/// Append a text field.
fn push_field(out: &mut Vec<u8>, s: &str)
    ensures
        final(out)@ == old(out)@ + field_bytes(s@),
{
    let bytes = s.as_bytes();
    let n: usize = if bytes.len() < 255 {
        bytes.len()
    } else {
        255
    };
    out.push(n as u8);
    out.extend_from_slice(vstd::slice::slice_subrange(bytes, 0, n));
    assert(bytes@.subrange(0, n as int) =~= short_bytes(s@));
    assert(out@ =~= old(out)@ + field_bytes(s@));
}

/// The text field at position `at`, and the position after it.
fn read_field(d: &[u8], at: usize) -> (r: Option<(String, usize)>)
    requires
        at <= d@.len(),
    ensures
        match r {
            Some((s, end)) => {
                &&& has_field(d@, at as int)
                &&& s@ == field_text(d@, at as int)
                &&& end == field_end(d@, at as int)
            },
            None => !has_field(d@, at as int),
        },
{
    let len: usize = d.len();
    if at >= len {
        return None;
    }
    let n: usize = d[at] as usize;
    if len - at - 1 < n {
        return None;
    }
    let end: usize = at + 1 + n;
    Some((text_from_utf8_lossy(vstd::slice::slice_subrange(d, at + 1, end)), end))
}

/// A copy of the bytes from position `at` on.
fn bytes_from(d: &[u8], at: usize) -> (r: Vec<u8>)
    requires
        at <= d@.len(),
    ensures
        r@ == d@.skip(at as int),
{
    let mut out: Vec<u8> = Vec::new();
    out.extend_from_slice(vstd::slice::slice_subrange(d, at, d.len()));
    assert(out@ =~= d@.skip(at as int));
    out
}

/// Length-prefixed framing. Operates on byte buffers, not sockets.
pub struct IpcFramer;

impl IpcFramer {
    /// Wrap a payload in a length-prefixed frame.
    pub fn encode_frame(payload: &[u8]) -> (r: Vec<u8>)
        ensures
            r@ == framed(payload@),
    {
        let mut frame: Vec<u8> = Vec::new();
        push_u32(&mut frame, (payload.len() as u64 % 0x1_0000_0000) as u32);
        frame.extend_from_slice(payload);
        assert(frame@ =~= framed(payload@));
        frame
    }

    /// Try to extract a complete frame from a receive buffer.
    ///
    /// Returns `Some((payload, consumed))` if a complete frame is available,
    /// where `consumed` is the total bytes used (4-byte header + payload).
    /// Returns `None` if more data is needed.
    pub fn decode_frame(buf: &[u8]) -> (r: Option<(Vec<u8>, usize)>)
        ensures
            match r {
                Some((payload, consumed)) => {
                    &&& has_frame(buf@)
                    &&& payload@ == first_payload(buf@)
                    &&& consumed == 4 + first_payload(buf@).len()
                    &&& consumed <= buf@.len()
                },
                None => !has_frame(buf@),
            },
    {
        let len: usize = buf.len();
        if len < 4 {
            return None;
        }
        let stated: u32 = get_u32(buf, 0);
        if ((len - 4) as u64) < stated as u64 {
            return None;
        }
        let total: usize = 4 + stated as usize;
        let mut payload: Vec<u8> = Vec::new();
        payload.extend_from_slice(vstd::slice::slice_subrange(buf, 4, total));
        assert(payload@ =~= first_payload(buf@));
        Some((payload, total))
    }
}

/// Accumulating receive buffer that handles partial reads.
///
/// Data arrives in arbitrary chunks from the socket. This buffer
/// accumulates bytes and yields complete frames when available.
pub struct IpcRecvBuffer {
    buf: Vec<u8>,
}

impl View for IpcRecvBuffer {
    type V = Seq<u8>;

    closed spec fn view(&self) -> Seq<u8> {
        self.buf@
    }
}

impl Default for IpcRecvBuffer {
    fn default() -> (r: Self)
        ensures
            r@ == Seq::<u8>::empty(),
    {
        IpcRecvBuffer { buf: Vec::with_capacity(65536) }
    }
}

impl IpcRecvBuffer {
    pub fn new() -> (r: Self)
        ensures
            r@ == Seq::<u8>::empty(),
    {
        IpcRecvBuffer::default()
    }

    /// Append received bytes from a socket read.
    pub fn push(&mut self, data: &[u8])
        ensures
            final(self)@ == old(self)@ + data@,
    {
        self.buf.extend_from_slice(data);
        assert(self@ =~= old(self)@ + data@);
    }

    /// Try to extract the next complete frame.
    /// Returns `None` if more data is needed.
    pub fn next_frame(&mut self) -> (r: Option<Vec<u8>>)
        ensures
            match r {
                Some(payload) => {
                    &&& has_frame(old(self)@)
                    &&& payload@ == first_payload(old(self)@)
                    &&& final(self)@ == after_frame(old(self)@)
                },
                None => !has_frame(old(self)@) && final(self)@ == old(self)@,
            },
    {
        match IpcFramer::decode_frame(self.buf.as_slice()) {
            Some((payload, consumed)) => {
                let rest = self.buf.split_off(consumed);
                self.buf = rest;
                assert(self@ =~= after_frame(old(self)@));
                Some(payload)
            },
            None => None,
        }
    }

    /// Number of buffered bytes not yet consumed.
    pub fn buffered(&self) -> (r: usize)
        ensures
            r == self@.len(),
    {
        self.buf.len()
    }
}

/// Whether a payload has the tag.
pub open spec fn has_tag(d: Seq<u8>, tag: u8) -> bool {
    d.len() >= 2 && d[0] == tag
}

/// An audio message.
pub open spec fn audio_msg(peer: Seq<char>, wire: Seq<u8>) -> Seq<u8> {
    seq![0x01u8] + field_bytes(peer) + wire
}

/// A message with two text fields.
pub open spec fn two_field_msg(tag: u8, a: Seq<char>, b: Seq<char>) -> Seq<u8> {
    seq![tag] + field_bytes(a) + field_bytes(b)
}

/// Whether a payload is a whole message with two text fields.
pub open spec fn is_two_field(d: Seq<u8>, tag: u8) -> bool {
    has_tag(d, tag) && has_field(d, 1) && has_field(d, field_end(d, 1))
}

/// Encode a message with two text fields.
fn encode_two_fields(tag: u8, a: &str, b: &str) -> (r: Vec<u8>)
    ensures
        r@ == two_field_msg(tag, a@, b@),
{
    let mut msg: Vec<u8> = Vec::new();
    msg.push(tag);
    push_field(&mut msg, a);
    push_field(&mut msg, b);
    assert(msg@ =~= two_field_msg(tag, a@, b@));
    msg
}

/// Decode a message with two text fields.
fn decode_two_fields(tag: u8, payload: &[u8]) -> (r: Option<(String, String)>)
    ensures
        match r {
            Some((a, b)) => {
                &&& is_two_field(payload@, tag)
                &&& a@ == field_text(payload@, 1)
                &&& b@ == field_text(payload@, field_end(payload@, 1))
            },
            None => !is_two_field(payload@, tag),
        },
{
    if payload.len() < 2 || payload[0] != tag {
        return None;
    }
    match read_field(payload, 1) {
        Some((a, end)) => match read_field(payload, end) {
            Some((b, _)) => Some((a, b)),
            None => None,
        },
        None => None,
    }
}

/// IPC message encoding.
///
/// Each frame payload contains a tagged message:
/// - `0x01` audio: peer_id + wire data
/// - `0x02` peer joined: peer_id + identity (for slot affinity)
/// - `0x03` peer left: peer_id
/// - `0x04` peer name: peer_id + display_name
/// - `0x05` audio frame: wire data
/// - `0x06` metrics: decode failure count
pub struct IpcMessage;

impl IpcMessage {
    /// Encode an audio message.
    pub fn encode_audio(peer_id: &str, wire_data: &[u8]) -> (r: Vec<u8>)
        ensures
            r@ == audio_msg(peer_id@, wire_data@),
    {
        let mut msg: Vec<u8> = Vec::new();
        msg.push(IPC_TAG_AUDIO);
        push_field(&mut msg, peer_id);
        msg.extend_from_slice(wire_data);
        assert(msg@ =~= audio_msg(peer_id@, wire_data@));
        msg
    }

    /// Decode an audio message. Returns `(peer_id, wire_data)`.
    pub fn decode_audio(payload: &[u8]) -> (r: Option<(String, Vec<u8>)>)
        ensures
            match r {
                Some((peer_id, wire_data)) => {
                    &&& has_tag(payload@, 0x01) && has_field(payload@, 1)
                    &&& peer_id@ == field_text(payload@, 1)
                    &&& wire_data@ == payload@.skip(field_end(payload@, 1))
                },
                None => !(has_tag(payload@, 0x01) && has_field(payload@, 1)),
            },
    {
        if payload.len() < 2 || payload[0] != IPC_TAG_AUDIO {
            return None;
        }
        match read_field(payload, 1) {
            Some((peer_id, end)) => Some((peer_id, bytes_from(payload, end))),
            None => None,
        }
    }

    /// Encode a peer-joined message: tag + peer_id_len + peer_id + identity_len + identity.
    pub fn encode_peer_joined(peer_id: &str, identity: &str) -> (r: Vec<u8>)
        ensures
            r@ == two_field_msg(0x02, peer_id@, identity@),
    {
        encode_two_fields(IPC_TAG_PEER_JOINED, peer_id, identity)
    }

    /// Decode a peer-joined message. Returns `(peer_id, identity)`.
    pub fn decode_peer_joined(payload: &[u8]) -> (r: Option<(String, String)>)
        ensures
            match r {
                Some((peer_id, identity)) => {
                    &&& is_two_field(payload@, 0x02)
                    &&& peer_id@ == field_text(payload@, 1)
                    &&& identity@ == field_text(payload@, field_end(payload@, 1))
                },
                None => !is_two_field(payload@, 0x02),
            },
    {
        decode_two_fields(IPC_TAG_PEER_JOINED, payload)
    }

    /// Encode a peer-left message: tag + peer_id_len + peer_id.
    pub fn encode_peer_left(peer_id: &str) -> (r: Vec<u8>)
        ensures
            r@ == seq![0x03u8] + field_bytes(peer_id@),
    {
        let mut msg: Vec<u8> = Vec::new();
        msg.push(IPC_TAG_PEER_LEFT);
        push_field(&mut msg, peer_id);
        assert(msg@ =~= seq![0x03u8] + field_bytes(peer_id@));
        msg
    }

    /// Decode a peer-left message. Returns `peer_id`.
    pub fn decode_peer_left(payload: &[u8]) -> (r: Option<String>)
        ensures
            match r {
                Some(peer_id) => {
                    &&& has_tag(payload@, 0x03) && has_field(payload@, 1)
                    &&& peer_id@ == field_text(payload@, 1)
                },
                None => !(has_tag(payload@, 0x03) && has_field(payload@, 1)),
            },
    {
        if payload.len() < 2 || payload[0] != IPC_TAG_PEER_LEFT {
            return None;
        }
        match read_field(payload, 1) {
            Some((peer_id, _)) => Some(peer_id),
            None => None,
        }
    }

    /// Encode a peer-name message: tag + peer_id_len + peer_id + name_len + display_name.
    pub fn encode_peer_name(peer_id: &str, display_name: &str) -> (r: Vec<u8>)
        ensures
            r@ == two_field_msg(0x04, peer_id@, display_name@),
    {
        encode_two_fields(IPC_TAG_PEER_NAME, peer_id, display_name)
    }

    /// Decode a peer-name message. Returns `(peer_id, display_name)`.
    pub fn decode_peer_name(payload: &[u8]) -> (r: Option<(String, String)>)
        ensures
            match r {
                Some((peer_id, display_name)) => {
                    &&& is_two_field(payload@, 0x04)
                    &&& peer_id@ == field_text(payload@, 1)
                    &&& display_name@ == field_text(payload@, field_end(payload@, 1))
                },
                None => !is_two_field(payload@, 0x04),
            },
    {
        decode_two_fields(IPC_TAG_PEER_NAME, payload)
    }

    /// Encode a streaming audio frame message (no peer_id — send plugin only).
    pub fn encode_audio_frame(wire_data: &[u8]) -> (r: Vec<u8>)
        ensures
            r@ == seq![0x05u8] + wire_data@,
    {
        let mut msg: Vec<u8> = Vec::new();
        msg.push(IPC_TAG_AUDIO_FRAME);
        msg.extend_from_slice(wire_data);
        assert(msg@ =~= seq![0x05u8] + wire_data@);
        msg
    }

    /// Decode a streaming audio frame message. Returns the frame's wire bytes; a
    /// message without any is rejected.
    pub fn decode_audio_frame(payload: &[u8]) -> (r: Option<Vec<u8>>)
        ensures
            match r {
                Some(wire_data) => has_tag(payload@, 0x05) && wire_data@ == payload@.skip(1),
                None => !has_tag(payload@, 0x05),
            },
    {
        if payload.len() < 2 || payload[0] != IPC_TAG_AUDIO_FRAME {
            return None;
        }
        Some(bytes_from(payload, 1))
    }

    /// Encode a plugin metrics report: tag + decode_failures(u64 LE).
    pub fn encode_metrics(decode_failures: u64) -> (r: Vec<u8>)
        ensures
            r@ == seq![0x06u8] + crate::le::u64_bytes(decode_failures),
    {
        let mut msg: Vec<u8> = Vec::new();
        msg.push(IPC_TAG_METRICS);
        push_u64(&mut msg, decode_failures);
        assert(msg@ =~= seq![0x06u8] + crate::le::u64_bytes(decode_failures));
        msg
    }

    /// Decode a plugin metrics report. Returns `decode_failures` count.
    pub fn decode_metrics(payload: &[u8]) -> (r: Option<u64>)
        ensures
            r == if payload@.len() >= 9 && payload@[0] == 0x06 {
                Some(crate::le::u64_at(payload@, 1))
            } else {
                None
            },
    {
        if payload.len() < 9 || payload[0] != IPC_TAG_METRICS {
            return None;
        }
        Some(get_u64(payload, 1))
    }

    /// Get the tag byte from a payload, if any.
    pub fn tag(payload: &[u8]) -> (r: Option<u8>)
        ensures
            r == if payload@.len() > 0 {
                Some(payload@[0])
            } else {
                None
            },
    {
        if payload.len() > 0 {
            Some(payload[0])
        } else {
            None
        }
    }
}

} // verus!
