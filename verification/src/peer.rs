//! Message-level logic of a direct peer connection: chunking of large audio
//! messages, queues for what cannot be sent yet, and channel roles.

use vstd::prelude::*;

use crate::le::{get_u32, push_u32};
use crate::text::same_text;

verus! {

/// Largest message on a data channel. Small enough to fit in a single datagram on
/// typical internet paths.
pub const CHUNK_MAX: usize = 1200;

/// Magic and total length in front of each chunk.
pub const CHUNK_HEADER_SIZE: usize = 8;

/// Payload bytes per chunk.
pub const CHUNK_MAX_PAYLOAD: usize = 1192;

/// The bytes that open a chunk: "WACH".
pub open spec fn chunk_magic() -> Seq<u8> {
    seq![0x57u8, 0x41u8, 0x43u8, 0x48u8]
}

/// The header of a chunk of a message with `len` bytes, stated modulo 2^32.
pub open spec fn chunk_header(len: nat) -> Seq<u8> {
    chunk_magic() + crate::le::u32_bytes((len % 0x1_0000_0000) as u32)
}

/// Where the chunk that starts at `at` ends.
pub open spec fn chunk_end(len: nat, at: nat) -> nat {
    if at + CHUNK_MAX_PAYLOAD <= len {
        at + CHUNK_MAX_PAYLOAD as nat
    } else {
        len
    }
}

/// The chunks of `d` from position `at` on.
pub open spec fn chunks_from(d: Seq<u8>, at: nat) -> Seq<Seq<u8>>
    decreases d.len() - at,
{
    if at >= d.len() {
        Seq::empty()
    } else {
        let end = chunk_end(d.len(), at);
        seq![chunk_header(d.len()) + d.subrange(at as int, end as int)] + chunks_from(d, end)
    }
}

/// The messages in which audio data is sent: as it is if it fits in one, else in
/// chunks.
pub open spec fn messages_of(d: Seq<u8>) -> Seq<Seq<u8>> {
    if d.len() <= CHUNK_MAX {
        seq![d]
    } else {
        chunks_from(d, 0)
    }
}

/// Whether a message is a chunk.
pub open spec fn is_chunk(m: Seq<u8>) -> bool {
    m.len() >= CHUNK_HEADER_SIZE && m[0] == 0x57 && m[1] == 0x41 && m[2] == 0x43 && m[3] == 0x48
}

/// An unfinished message.
#[verifier::ext_equal]
pub struct PartialState {
    pub buffer: Seq<u8>,
    pub expected: nat,
}

/// The unfinished message once chunk `m` was added to it.
pub open spec fn extended(s: Option<PartialState>, m: Seq<u8>) -> PartialState {
    let payload = m.skip(CHUNK_HEADER_SIZE as int);
    match s {
        Some(p) => PartialState { buffer: p.buffer + payload, expected: p.expected },
        None => PartialState { buffer: payload, expected: crate::le::u32_at(m, 4) as nat },
    }
}

/// The unfinished message after message `m`.
pub open spec fn after_message(s: Option<PartialState>, m: Seq<u8>) -> Option<PartialState> {
    if is_chunk(m) {
        let p = extended(s, m);
        if p.buffer.len() >= p.expected {
            None
        } else {
            Some(p)
        }
    } else {
        s
    }
}

/// The audio data that message `m` completes.
pub open spec fn completed_by(s: Option<PartialState>, m: Seq<u8>) -> Option<Seq<u8>> {
    if is_chunk(m) {
        let p = extended(s, m);
        if p.buffer.len() >= p.expected {
            Some(p.buffer)
        } else {
            None
        }
    } else {
        Some(m)
    }
}

/// The messages in which audio data is sent: as it is if it fits in one message,
/// else in chunks of `[WACH][total_len u32 LE][payload]`.
pub fn split_audio(data: &[u8]) -> (r: Vec<Vec<u8>>)
    ensures
        crate::codec::contents(r@) == messages_of(data@),
{
    let len: usize = data.len();
    let mut out: Vec<Vec<u8>> = Vec::new();
    if len <= CHUNK_MAX {
        let mut whole: Vec<u8> = Vec::new();
        whole.extend_from_slice(data);
        assert(whole@ =~= data@);
        out.push(whole);
        assert(crate::codec::contents(out@) =~= seq![data@]);
        return out;
    }
    let mut at: usize = 0;
    assert(crate::codec::contents(out@) + chunks_from(data@, 0) =~= chunks_from(data@, 0));
    while at < len
        invariant
            len == data@.len(),
            at <= len,
            crate::codec::contents(out@) + chunks_from(data@, at as nat) == chunks_from(data@, 0),
        decreases len - at,
    {
        let end: usize = if len - at < CHUNK_MAX_PAYLOAD {
            len
        } else {
            at + CHUNK_MAX_PAYLOAD
        };
        let mut chunk: Vec<u8> = Vec::new();
        chunk.push(0x57);
        chunk.push(0x41);
        chunk.push(0x43);
        chunk.push(0x48);
        assert(chunk@ =~= chunk_magic());
        push_u32(&mut chunk, (len as u64 % 0x1_0000_0000) as u32);
        chunk.extend_from_slice(vstd::slice::slice_subrange(data, at, end));
        let ghost c = chunk_header(data@.len()) + data@.subrange(at as int, end as int);
        assert(chunk@ =~= c);
        let ghost before = out@;
        out.push(chunk);
        proof {
            assert(end == chunk_end(len as nat, at as nat));
            let rest = chunks_from(data@, end as nat);
            assert(crate::codec::contents(out@) =~= crate::codec::contents(before).push(c));
            assert(crate::codec::contents(before) + (seq![c] + rest) =~= crate::codec::contents(
                out@,
            ) + rest);
        }
        at = end;
    }
    assert(crate::codec::contents(out@) =~= chunks_from(data@, 0));
    out
}

/// Reassembly of chunked audio messages arriving on a data channel.
pub struct AudioReassembly {
    partial: Option<PartialMessage>,
}

struct PartialMessage {
    buffer: Vec<u8>,
    expected_len: usize,
}

impl View for AudioReassembly {
    type V = Option<PartialState>;

    closed spec fn view(&self) -> Option<PartialState> {
        match self.partial {
            Some(p) => Some(
                PartialState { buffer: p.buffer@, expected: p.expected_len as nat },
            ),
            None => None,
        }
    }
}

impl AudioReassembly {
    pub fn new() -> (r: Self)
        ensures
            r@ is None,
    {
        AudioReassembly { partial: None }
    }

    /// Handle one incoming message. Returns the audio data that it completes.
    pub fn on_message(&mut self, data: &[u8]) -> (r: Option<Vec<u8>>)
        ensures
            final(self)@ == after_message(old(self)@, data@),
            match r {
                Some(d) => completed_by(old(self)@, data@) == Some(d@),
                None => completed_by(old(self)@, data@) is None,
            },
    {
        let len: usize = data.len();
        let chunk = len >= CHUNK_HEADER_SIZE && data[0] == 0x57 && data[1] == 0x41 && data[2]
            == 0x43 && data[3] == 0x48;
        if !chunk {
            let mut whole: Vec<u8> = Vec::new();
            whole.extend_from_slice(data);
            assert(whole@ =~= data@);
            return Some(whole);
        }
        let total: u32 = get_u32(data, 4);
        let payload = vstd::slice::slice_subrange(data, CHUNK_HEADER_SIZE, len);
        assert(payload@ =~= data@.skip(CHUNK_HEADER_SIZE as int));
        let mut p = match self.partial.take() {
            Some(p) => p,
            None => PartialMessage { buffer: Vec::new(), expected_len: total as usize },
        };
        p.buffer.extend_from_slice(payload);
        assert(p.buffer@ =~= extended(old(self)@, data@).buffer);
        if p.buffer.len() >= p.expected_len {
            Some(p.buffer)
        } else {
            self.partial = Some(p);
            None
        }
    }
}

/// The unfinished message after several messages.
pub open spec fn after_all(s: Option<PartialState>, ms: Seq<Seq<u8>>) -> Option<PartialState>
    decreases ms.len(),
{
    if ms.len() == 0 {
        s
    } else {
        after_all(after_message(s, ms[0]), ms.skip(1))
    }
}

/// The audio data that several messages complete, in order.
pub open spec fn completed_by_all(s: Option<PartialState>, ms: Seq<Seq<u8>>) -> Seq<Seq<u8>>
    decreases ms.len(),
{
    if ms.len() == 0 {
        Seq::empty()
    } else {
        (match completed_by(s, ms[0]) {
            Some(d) => seq![d],
            None => Seq::empty(),
        }) + completed_by_all(after_message(s, ms[0]), ms.skip(1))
    }
}

proof fn lemma_chunks_reassemble(d: Seq<u8>, at: nat)
    requires
        at < d.len() < 0x1_0000_0000,
    ensures
        ({
            let s = if at == 0 {
                None
            } else {
                Some(PartialState { buffer: d.take(at as int), expected: d.len() })
            };
            &&& completed_by_all(s, chunks_from(d, at)) == seq![d]
            &&& after_all(s, chunks_from(d, at)) is None
        }),
    decreases d.len() - at,
{
    let s = if at == 0 {
        None
    } else {
        Some(PartialState { buffer: d.take(at as int), expected: d.len() })
    };
    let end = chunk_end(d.len(), at);
    let piece = d.subrange(at as int, end as int);
    let m = chunk_header(d.len()) + piece;
    let ms = chunks_from(d, at);
    assert(ms[0] == m);
    assert(ms.skip(1) =~= chunks_from(d, end));
    assert(m.subrange(4, 8) =~= crate::le::u32_bytes(d.len() as u32));
    crate::le::lemma_u32_at(m, 4, d.len() as u32);
    assert(is_chunk(m));
    assert(m.skip(CHUNK_HEADER_SIZE as int) =~= piece);
    let p = extended(s, m);
    assert(p.buffer =~= d.take(end as int));
    assert(p.expected == d.len());
    if end < d.len() {
        lemma_chunks_reassemble(d, end);
        assert(completed_by_all(s, ms) =~= seq![d]);
    } else {
        assert(d.take(end as int) =~= d);
        let none = Seq::<Seq<u8>>::empty();
        assert(chunks_from(d, end) =~= none);
        assert(completed_by_all(None, none) =~= none);
        assert(after_all(None, none) is None);
        assert(completed_by(s, m) == Some(d));
        assert(after_message(s, m) is None);
        assert(completed_by_all(s, ms) =~= seq![d]);
    }
}

/// Audio data that is sent is received: its messages, taken in order, complete
/// exactly the data, and nothing is left over. The data is below 4 GiB, and data
/// that goes out as it is does not itself look like a chunk.
pub proof fn law_sent_audio_is_received(d: Seq<u8>)
    requires
        d.len() < 0x1_0000_0000,
        d.len() <= CHUNK_MAX ==> !is_chunk(d),
    ensures
        completed_by_all(None, messages_of(d)) == seq![d],
        after_all(None, messages_of(d)) is None,
{
    if d.len() <= CHUNK_MAX {
        let ms = messages_of(d);
        let none = Seq::<Seq<u8>>::empty();
        assert(ms.skip(1) =~= none);
        assert(completed_by_all(None, none) =~= none);
        assert(after_all(None, none) is None);
        assert(completed_by_all(None, ms) =~= seq![d]);
    } else {
        lemma_chunks_reassemble(d, 0);
    }
}

/// No message exceeds the channel's limit.
pub proof fn law_messages_fit(d: Seq<u8>)
    ensures
        forall|i: int|
            0 <= i < messages_of(d).len() ==> (#[trigger] messages_of(d)[i]).len() <= CHUNK_MAX,
{
    lemma_chunks_fit(d, 0);
}

proof fn lemma_chunks_fit(d: Seq<u8>, at: nat)
    ensures
        forall|i: int|
            0 <= i < chunks_from(d, at).len() ==> (#[trigger] chunks_from(d, at)[i]).len()
                <= CHUNK_MAX,
    decreases d.len() - at,
{
    if at < d.len() {
        let end = chunk_end(d.len(), at);
        lemma_chunks_fit(d, end);
        let ms = chunks_from(d, at);
        let rest = chunks_from(d, end);
        assert forall|i: int| 0 <= i < ms.len() implies (#[trigger] ms[i]).len() <= CHUNK_MAX by {
            if i > 0 {
                assert(ms[i] == rest[i - 1]);
            }
        }
    }
}

/// Drain all pending sync messages from the queue.
pub fn take_pending(pending: &mut Vec<String>) -> (r: Vec<String>)
    ensures
        r@ == old(pending)@,
        final(pending)@ == Seq::<String>::empty(),
{
    let mut taken: Vec<String> = Vec::new();
    std::mem::swap(&mut taken, pending);
    taken
}

/// Send a sync message now if the channel is open, else queue it.
pub fn send_or_queue(pending: &mut Vec<String>, open: bool, text: String) -> (r: Option<String>)
    ensures
        open ==> r == Some(text) && final(pending)@ == old(pending)@,
        !open ==> r is None && final(pending)@ == old(pending)@.push(text),
{
    if open {
        Some(text)
    } else {
        pending.push(text);
        None
    }
}

/// A network path candidate of the remote peer.
#[derive(Debug)]
pub struct Candidate {
    pub candidate: String,
    pub sdp_mid: Option<String>,
    pub sdp_mline_index: Option<u16>,
}

/// Candidates that arrived before the remote description was set.
pub struct CandidateQueue {
    pending: Vec<Candidate>,
    remote_desc_set: bool,
}

impl CandidateQueue {
    pub closed spec fn waiting(&self) -> Seq<Candidate> {
        self.pending@
    }

    pub closed spec fn ready(&self) -> bool {
        self.remote_desc_set
    }

    pub fn new() -> (r: Self)
        ensures
            r.waiting() == Seq::<Candidate>::empty(),
            !r.ready(),
    {
        CandidateQueue { pending: Vec::new(), remote_desc_set: false }
    }

    /// Add a remote candidate. Returns it if it can be applied now; before the
    /// remote description is set it waits.
    pub fn add_ice_candidate(&mut self, candidate: Candidate) -> (r: Option<Candidate>)
        ensures
            final(self).ready() == old(self).ready(),
            old(self).ready() ==> r == Some(candidate) && final(self).waiting() == old(
                self,
            ).waiting(),
            !old(self).ready() ==> r is None && final(self).waiting() == old(self).waiting().push(
                candidate,
            ),
    {
        if self.remote_desc_set {
            Some(candidate)
        } else {
            self.pending.push(candidate);
            None
        }
    }

    /// The remote description was set. Returns the candidates that waited for it, in
    /// the order in which they came.
    pub fn remote_description_set(&mut self) -> (r: Vec<Candidate>)
        ensures
            final(self).ready(),
            r@ == old(self).waiting(),
            final(self).waiting() == Seq::<Candidate>::empty(),
    {
        self.remote_desc_set = true;
        let mut taken: Vec<Candidate> = Vec::new();
        std::mem::swap(&mut taken, &mut self.pending);
        taken
    }
}

/// What a data channel is for.
#[derive(Debug, Clone, Copy, PartialEq, Eq)]
pub enum ChannelRole {
    Sync,
    Audio,
    Unknown,
}

/// The role of a data channel by its label.
pub fn channel_role(label: &str) -> (r: ChannelRole)
    ensures
        r == if label@ == "sync"@ {
            ChannelRole::Sync
        } else if label@ == "audio"@ {
            ChannelRole::Audio
        } else {
            ChannelRole::Unknown
        },
{
    if same_text(label, "sync") {
        ChannelRole::Sync
    } else if same_text(label, "audio") {
        ChannelRole::Audio
    } else {
        ChannelRole::Unknown
    }
}

/// Chunks are collected until there are as many bytes as the first of them announced, and
/// then handed over, in order; until then nothing is. Data that is not complete waits.
pub proof fn law_chunks_are_collected(s: Option<PartialState>, m: Seq<u8>)
    requires
        m.len() >= 8,
        m[0] == 0x57 && m[1] == 0x41 && m[2] == 0x43 && m[3] == 0x48,
    ensures
        ({
            let held = match s {
                Some(p) => p.buffer,
                None => Seq::empty(),
            };
            let expected = match s {
                Some(p) => p.expected as int,
                None => m[4] + 256 * m[5] + 65536 * m[6] + 16777216 * m[7],
            };
            let all = held + m.subrange(8, m.len() as int);
            &&& all.len() >= expected ==> completed_by(s, m) == Some(all) && after_message(
                s,
                m,
            ) is None
            &&& all.len() < expected ==> {
                &&& completed_by(s, m) is None
                &&& after_message(s, m) is Some
                &&& after_message(s, m)->0.buffer == all
                &&& after_message(s, m)->0.expected == expected
            }
        }),
{
    let payload = m.skip(8);
    assert(payload =~= m.subrange(8, m.len() as int));
    assert(Seq::<u8>::empty() + payload =~= payload);
}

} // verus!
