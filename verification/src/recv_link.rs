//! The receiver's side of the connection to the app.

use vstd::prelude::*;

use crate::buffers::silent_samples;
use crate::codec::{nearest_opus_rate, AudioDecoder};
use crate::ipc::{IpcMessage, IpcRecvBuffer};
use crate::recv::PeerEvent;
use crate::text::same_text;
use crate::wire::AudioFrameWire;

verus! {

/// What to do about a message of the app.
pub enum IpcAction {
    /// Decode a packet and feed the samples. A stream that is heard for the first
    /// time gets a decoder of its own, which is kept across intervals.
    Decode {
        peer_id: String,
        stream_id: u16,
        interval_index: i64,
        opus_data: Vec<u8>,
        new_decoder: bool,
    },
    /// Make a decoder for a stream; there is nothing to decode yet.
    Prepare { peer_id: String, stream_id: u16 },
    /// Tell the audio thread. A peer that left loses its decoders.
    Event(PeerEvent),
    /// Nothing.
    Ignore,
}

/// What a peer event says.
#[verifier::ext_equal]
pub enum EventState {
    Joined { peer: Seq<char>, identity: Seq<char> },
    Left { peer: Seq<char> },
    NameChanged { peer: Seq<char>, name: Seq<char> },
    Connected,
    Disconnected,
}

/// What an action says.
#[verifier::ext_equal]
pub enum ActionState {
    Decode { peer: Seq<char>, stream: u16, index: i64, packet: Seq<u8>, fresh: bool },
    Prepare { peer: Seq<char>, stream: u16 },
    Event { event: EventState },
    Ignore,
}

impl View for PeerEvent {
    type V = EventState;

    open spec fn view(&self) -> EventState {
        match *self {
            PeerEvent::Joined { peer_id, identity } => EventState::Joined {
                peer: peer_id@,
                identity: identity@,
            },
            PeerEvent::Left { peer_id } => EventState::Left { peer: peer_id@ },
            PeerEvent::NameChanged { peer_id, display_name } => EventState::NameChanged {
                peer: peer_id@,
                name: display_name@,
            },
            PeerEvent::Connected => EventState::Connected,
            PeerEvent::Disconnected => EventState::Disconnected,
        }
    }
}

impl View for IpcAction {
    type V = ActionState;

    open spec fn view(&self) -> ActionState {
        match *self {
            IpcAction::Decode {
                peer_id,
                stream_id,
                interval_index,
                opus_data,
                new_decoder,
            } => ActionState::Decode {
                peer: peer_id@,
                stream: stream_id,
                index: interval_index,
                packet: opus_data@,
                fresh: new_decoder,
            },
            IpcAction::Prepare { peer_id, stream_id } => ActionState::Prepare {
                peer: peer_id@,
                stream: stream_id,
            },
            IpcAction::Event(event) => ActionState::Event { event: event@ },
            IpcAction::Ignore => ActionState::Ignore,
        }
    }
}

/// What actions say.
pub open spec fn action_states(s: Seq<IpcAction>) -> Seq<ActionState> {
    s.map_values(|a: IpcAction| a@)
}

/// Whether a stream is another peer's.
pub open spec fn of_others(peer: Seq<char>) -> spec_fn((Seq<char>, u16)) -> bool {
    |k: (Seq<char>, u16)| k.0 != peer
}

/// What a message of the app leads to, with decoders for the `known` streams: the
/// streams with decoders afterwards, and what to do.
pub open spec fn read_message(known: Set<(Seq<char>, u16)>, d: Seq<u8>) -> (
    Set<(Seq<char>, u16)>,
    ActionState,
) {
    if crate::ipc::has_tag(d, 0x01) && crate::ipc::has_field(d, 1) {
        let peer = crate::ipc::field_text(d, 1);
        match crate::wire::decoded(d.skip(crate::ipc::field_end(d, 1))) {
            Ok(f) => {
                let fresh = !known.contains((peer, f.stream_id));
                (
                    known.insert((peer, f.stream_id)),
                    if f.opus.len() > 0 {
                        ActionState::Decode {
                            peer,
                            stream: f.stream_id,
                            index: f.interval_index,
                            packet: f.opus,
                            fresh,
                        }
                    } else if fresh {
                        ActionState::Prepare { peer, stream: f.stream_id }
                    } else {
                        ActionState::Ignore
                    },
                )
            },
            Err(_) => (known, ActionState::Ignore),
        }
    } else if crate::ipc::is_two_field(d, 0x02) {
        (
            known,
            ActionState::Event {
                event: EventState::Joined {
                    peer: crate::ipc::field_text(d, 1),
                    identity: crate::ipc::field_text(d, crate::ipc::field_end(d, 1)),
                },
            },
        )
    } else if crate::ipc::has_tag(d, 0x03) && crate::ipc::has_field(d, 1) {
        let peer = crate::ipc::field_text(d, 1);
        (
            known.filter(of_others(peer)),
            ActionState::Event { event: EventState::Left { peer } },
        )
    } else if crate::ipc::is_two_field(d, 0x04) {
        (
            known,
            ActionState::Event {
                event: EventState::NameChanged {
                    peer: crate::ipc::field_text(d, 1),
                    name: crate::ipc::field_text(d, crate::ipc::field_end(d, 1)),
                },
            },
        )
    } else {
        (known, ActionState::Ignore)
    }
}

/// What messages of the app lead to, one after the other.
pub open spec fn read_all(known: Set<(Seq<char>, u16)>, payloads: Seq<Seq<u8>>) -> (
    Set<(Seq<char>, u16)>,
    Seq<ActionState>,
)
    decreases payloads.len(),
{
    if payloads.len() == 0 {
        (known, Seq::empty())
    } else {
        let (k, actions) = read_all(known, payloads.drop_last());
        let (after, action) = read_message(k, payloads.last());
        (after, actions.push(action))
    }
}

/// What the connection knows.
#[verifier::ext_equal]
pub struct LinkStatus {
    /// Bytes of a frame that is not whole yet.
    pub buffered: Seq<u8>,
    /// The streams that have decoders.
    pub decoders: Set<(Seq<char>, u16)>,
}

spec fn stream_keys(s: Seq<(String, u16)>) -> Seq<(Seq<char>, u16)> {
    s.map_values(|k: (String, u16)| (k.0@, k.1))
}

spec fn stream_set(s: Seq<(String, u16)>) -> Set<(Seq<char>, u16)> {
    Set::new(|k: (Seq<char>, u16)| stream_keys(s).contains(k))
}

/// The outcome of a socket read.
pub enum ReadOutcome {
    /// The app closed the connection.
    Closed,
    Bytes(Vec<u8>),
    /// Nothing came in for a while.
    TimedOut,
    /// The connection failed.
    Failed,
}

/// What to do after a socket read.
pub enum ReadStep {
    /// Carry out these actions and read on.
    Act(Vec<IpcAction>),
    /// Read on.
    ReadOn,
    /// Tell the audio thread that the app is gone, drop all decoders and connect
    /// again.
    Reconnect(PeerEvent),
    /// Stop for good.
    Exit,
}

/// The receiver's side of the connection to the app.
pub struct RecvLink {
    buf: IpcRecvBuffer,
    decoders: Vec<(String, u16)>,
}

impl View for RecvLink {
    type V = LinkStatus;

    closed spec fn view(&self) -> LinkStatus {
        LinkStatus { buffered: self.buf@, decoders: stream_set(self.decoders@) }
    }
}

impl RecvLink {
    pub fn new() -> (r: Self)
        ensures
            r@ == (LinkStatus { buffered: Seq::empty(), decoders: Set::empty() }),
    {
        let r = RecvLink { buf: IpcRecvBuffer::new(), decoders: Vec::new() };
        assert(r@.decoders =~= Set::empty());
        r
    }

    /// A connection was made: frames start over, decoders stay. The event is for the
    /// audio thread.
    pub fn connected(&mut self) -> (r: PeerEvent)
        ensures
            r is Connected,
            final(self)@ == (LinkStatus { buffered: Seq::empty(), ..old(self)@ }),
    {
        self.buf = IpcRecvBuffer::new();
        PeerEvent::Connected
    }

    fn has_decoder(&self, peer_id: &str, stream_id: u16) -> (r: bool)
        ensures
            r == self@.decoders.contains((peer_id@, stream_id)),
    {
        let ghost keys = stream_keys(self.decoders@);
        let mut i: usize = 0;
        while i < self.decoders.len()
            invariant
                keys == stream_keys(self.decoders@),
                i <= self.decoders@.len(),
                forall|j: int| 0 <= j < i ==> #[trigger] keys[j] != (peer_id@, stream_id),
            decreases self.decoders@.len() - i,
        {
            assert(keys[i as int] == (self.decoders@[i as int].0@, self.decoders@[i as int].1));
            if self.decoders[i].1 == stream_id && same_text(
                self.decoders[i].0.as_str(),
                peer_id,
            ) {
                assert(keys.contains((peer_id@, stream_id)));
                return true;
            }
            i += 1;
        }
        false
    }

    /// Note a decoder for a stream. Returns whether there was none.
    fn add_decoder(&mut self, peer_id: &str, stream_id: u16) -> (r: bool)
        ensures
            r == !old(self)@.decoders.contains((peer_id@, stream_id)),
            final(self)@ == (LinkStatus {
                decoders: old(self)@.decoders.insert((peer_id@, stream_id)),
                ..old(self)@
            }),
    {
        let ghost key = (peer_id@, stream_id);
        let ghost before = stream_keys(self.decoders@);
        if self.has_decoder(peer_id, stream_id) {
            assert(self@.decoders =~= old(self)@.decoders.insert(key));
            return false;
        }
        self.decoders.push((peer_id.to_string(), stream_id));
        proof {
            let after = stream_keys(self.decoders@);
            assert(after =~= before.push(key));
            assert forall|k: (Seq<char>, u16)| #[trigger] self@.decoders.contains(k) == old(
                self,
            )@.decoders.insert(key).contains(k) by {
                if before.contains(k) {
                    let j = choose|j: int| 0 <= j < before.len() && before[j] == k;
                    assert(after[j] == k);
                }
                if k == key {
                    assert(after[before.len() as int] == k);
                }
                if after.contains(k) {
                    let j = choose|j: int| 0 <= j < after.len() && after[j] == k;
                    if j < before.len() {
                        assert(before[j] == k);
                    }
                }
            }
            assert(self@.decoders =~= old(self)@.decoders.insert(key));
        }
        true
    }

    /// Forget the decoders of a peer.
    fn drop_decoders(&mut self, peer_id: &str)
        ensures
            final(self)@ == (LinkStatus {
                decoders: old(self)@.decoders.filter(of_others(peer_id@)),
                ..old(self)@
            }),
    {
        let ghost before = stream_keys(self.decoders@);
        let mut kept: Vec<(String, u16)> = Vec::new();
        let mut i: usize = 0;
        assert(stream_set(kept@) =~= Set::empty());
        while i < self.decoders.len()
            invariant
                before == stream_keys(self.decoders@),
                self@ == old(self)@,
                i <= self.decoders@.len(),
                forall|k: (Seq<char>, u16)| #[trigger]
                    stream_keys(kept@).contains(k) == (k.0 != peer_id@ && before.take(
                        i as int,
                    ).contains(k)),
            decreases self.decoders@.len() - i,
        {
            let ghost old_kept = stream_keys(kept@);
            let ghost key = (self.decoders@[i as int].0@, self.decoders@[i as int].1);
            assert(before[i as int] == key);
            let mine = same_text(self.decoders[i].0.as_str(), peer_id);
            if !mine {
                kept.push((self.decoders[i].0.clone(), self.decoders[i].1));
                assert(stream_keys(kept@) =~= old_kept.push(key));
            }
            proof {
                let a = before.take(i as int);
                let b = before.take(i + 1);
                assert(b =~= a.push(key));
                assert forall|k: (Seq<char>, u16)| #[trigger]
                    stream_keys(kept@).contains(k) == (k.0 != peer_id@ && b.contains(k)) by {
                    lemma_push_contains(a, key, k);
                    lemma_push_contains(old_kept, key, k);
                    assert(old_kept.contains(k) == (k.0 != peer_id@ && a.contains(k)));
                }
            }
            i += 1;
        }
        assert(before.take(i as int) =~= before);
        self.decoders = kept;
        assert(self@.decoders =~= old(self)@.decoders.filter(of_others(peer_id@)));
    }

    /// What a message of the app leads to.
    fn on_message(&mut self, payload: &[u8]) -> (r: IpcAction)
        ensures
            (final(self)@.decoders, r@) == read_message(old(self)@.decoders, payload@),
            final(self)@.buffered == old(self)@.buffered,
    {
        if let Some((peer_id, wire)) = IpcMessage::decode_audio(payload) {
            return match AudioFrameWire::decode(wire.as_slice()) {
                Ok(frame) => {
                    let fresh = self.add_decoder(peer_id.as_str(), frame.stream_id);
                    if frame.opus_data.len() > 0 {
                        IpcAction::Decode {
                            peer_id,
                            stream_id: frame.stream_id,
                            interval_index: frame.interval_index,
                            opus_data: frame.opus_data,
                            new_decoder: fresh,
                        }
                    } else if fresh {
                        IpcAction::Prepare { peer_id, stream_id: frame.stream_id }
                    } else {
                        IpcAction::Ignore
                    }
                },
                Err(_) => IpcAction::Ignore,
            };
        }
        if let Some((peer_id, identity)) = IpcMessage::decode_peer_joined(payload) {
            return IpcAction::Event(PeerEvent::Joined { peer_id, identity });
        }
        if let Some(peer_id) = IpcMessage::decode_peer_left(payload) {
            self.drop_decoders(peer_id.as_str());
            return IpcAction::Event(PeerEvent::Left { peer_id });
        }
        if let Some((peer_id, display_name)) = IpcMessage::decode_peer_name(payload) {
            return IpcAction::Event(PeerEvent::NameChanged { peer_id, display_name });
        }
        IpcAction::Ignore
    }

    /// What received bytes lead to: each whole message is handled, in order; the rest
    /// waits for more bytes.
    pub fn on_bytes(&mut self, data: &[u8]) -> (r: Vec<IpcAction>)
        ensures
            final(self)@.buffered == crate::ipc::left_over(old(self)@.buffered + data@),
            (final(self)@.decoders, action_states(r@)) == read_all(
                old(self)@.decoders,
                crate::ipc::all_payloads(old(self)@.buffered + data@),
            ),
    {
        let ghost known = self@.decoders;
        let ghost input = self@.buffered + data@;
        let ghost goal = crate::ipc::all_payloads(input);
        self.buf.push(data);
        let mut out: Vec<IpcAction> = Vec::new();
        let ghost mut done: Seq<Seq<u8>> = Seq::empty();
        proof {
            assert(action_states(out@) =~= Seq::empty());
            assert(done + crate::ipc::all_payloads(self.buf@) =~= goal);
        }
        loop
            invariant
                known == old(self)@.decoders,
                goal == crate::ipc::all_payloads(input),
                input == old(self)@.buffered + data@,
                done + crate::ipc::all_payloads(self.buf@) == goal,
                crate::ipc::left_over(self.buf@) == crate::ipc::left_over(input),
                (self@.decoders, action_states(out@)) == read_all(known, done),
            ensures
                self.buf@ == crate::ipc::left_over(input),
                (self@.decoders, action_states(out@)) == read_all(known, goal),
            decreases self.buf@.len(),
        {
            let ghost b = self.buf@;
            let next = self.buf.next_frame();
            match next {
                Some(payload) => {
                    let ghost p = payload@;
                    let ghost out0 = out@;
                    let action = self.on_message(payload.as_slice());
                    proof {
                        let rest = crate::ipc::all_payloads(crate::ipc::after_frame(b));
                        assert(done + (seq![p] + rest) =~= done.push(p) + rest);
                        assert(done.push(p).drop_last() =~= done);
                    }
                    out.push(action);
                    proof {
                        assert(action_states(out@) =~= action_states(out0).push(action@));
                        done = done.push(p);
                    }
                },
                None => {
                    proof {
                        assert(crate::ipc::all_payloads(b) =~= Seq::empty());
                        assert(done =~= goal);
                    }
                    break;
                },
            }
        }
        out
    }

    /// What to do after a socket read.
    pub fn on_read(&mut self, outcome: ReadOutcome, shutdown: bool) -> (r: ReadStep)
        ensures
            match outcome {
                ReadOutcome::Bytes(data) => {
                    &&& final(self)@.buffered == crate::ipc::left_over(
                        old(self)@.buffered + data@,
                    )
                    &&& r matches ReadStep::Act(actions) && (
                        final(self)@.decoders,
                        action_states(actions@),
                    ) == read_all(
                        old(self)@.decoders,
                        crate::ipc::all_payloads(old(self)@.buffered + data@),
                    )
                },
                ReadOutcome::TimedOut => {
                    &&& final(self)@ == old(self)@
                    &&& if shutdown {
                        r is Exit
                    } else {
                        r is ReadOn
                    }
                },
                _ => {
                    &&& r == ReadStep::Reconnect(PeerEvent::Disconnected)
                    &&& final(self)@ == (LinkStatus { decoders: Set::empty(), ..old(self)@ })
                },
            },
    {
        match outcome {
            ReadOutcome::Bytes(data) => ReadStep::Act(self.on_bytes(data.as_slice())),
            ReadOutcome::TimedOut => if shutdown {
                ReadStep::Exit
            } else {
                ReadStep::ReadOn
            },
            _ => {
                self.decoders = Vec::new();
                assert(self@.decoders =~= Set::empty());
                ReadStep::Reconnect(PeerEvent::Disconnected)
            },
        }
    }
}

proof fn lemma_push_contains(s: Seq<(Seq<char>, u16)>, x: (Seq<char>, u16), k: (Seq<char>, u16))
    ensures
        s.push(x).contains(k) == (s.contains(k) || k == x),
{
    let t = s.push(x);
    if s.contains(k) {
        let j = choose|j: int| 0 <= j < s.len() && s[j] == k;
        assert(t[j] == k);
    }
    if k == x {
        assert(t[s.len() as int] == k);
    }
    if t.contains(k) {
        let j = choose|j: int| 0 <= j < t.len() && t[j] == k;
        if j < s.len() {
            assert(s[j] == k);
        }
    }
}

/// The decoder for a host's sample rate: the codec runs at the nearest rate that it
/// supports.
pub fn decoder_for(sample_rate: u32, channels: u16) -> (r: Option<AudioDecoder>)
    ensures
        match r {
            Some(d) => {
                &&& channels == 1 || channels == 2
                &&& d.wf()
                &&& crate::codec::is_nearest_rate(d.rate(), sample_rate)
                &&& d.channel_count() == channels
            },
            None => channels != 1 && channels != 2,
        },
{
    match AudioDecoder::new(nearest_opus_rate(sample_rate), channels) {
        Ok(d) => Some(d),
        Err(_) => None,
    }
}

/// The samples that a packet stands for: what it decodes to, or else what the decoder
/// conceals its loss with, or else silence.
pub fn packet_samples(
    decoded: Option<Vec<u32>>,
    concealed: Option<Vec<u32>>,
    decoder: &AudioDecoder,
) -> (r: Vec<u32>)
    requires
        decoder.wf(),
    ensures
        r@ == match decoded {
            Some(s) => s@,
            None => match concealed {
                Some(s) => s@,
                None => crate::ring_state::silence(
                    crate::codec::block_size(decoder.rate()) * decoder.channel_count() as nat,
                ),
            },
        },
{
    if let Some(s) = decoded {
        return s;
    }
    if let Some(s) = concealed {
        return s;
    }
    silent_samples(decoder.frame_samples())
}

/// Audio that a peer sent is decoded: a message with a frame leads to decoding exactly
/// the frame's packet for its stream and interval. The packet is not empty and has at
/// most 65535 bytes.
pub proof fn law_sent_frame_is_decoded(
    known: Set<(Seq<char>, u16)>,
    peer: Seq<char>,
    f: crate::wire::FrameState,
)
    requires
        vstd::utf8::encode_utf8(peer).len() <= 255,
        0 < f.opus.len() <= 65535,
    ensures
        read_message(known, crate::ipc::audio_msg(peer, crate::wire::frame_bytes(f))).1
            == (ActionState::Decode {
            peer,
            stream: f.stream_id,
            index: f.interval_index,
            packet: f.opus,
            fresh: !known.contains((peer, f.stream_id)),
        }),
{
    crate::ipc_laws::law_audio_round_trip(peer, crate::wire::frame_bytes(f));
    let b = crate::wire::frame_bytes(f);
    assert(b + Seq::<u8>::empty() =~= b);
    crate::wire::law_frame_round_trip(f, Seq::empty());
}

/// Whether a message says that `peer` left.
pub open spec fn says_left(d: Seq<u8>, peer: Seq<char>) -> bool {
    crate::ipc::has_tag(d, 0x03) && crate::ipc::has_field(d, 1) && crate::ipc::field_text(d, 1)
        == peer
}

/// A stream keeps its decoder while its peer does not leave.
proof fn lemma_decoder_is_kept(
    known: Set<(Seq<char>, u16)>,
    between: Seq<Seq<u8>>,
    peer: Seq<char>,
    stream: u16,
)
    requires
        known.contains((peer, stream)),
        forall|i: int| 0 <= i < between.len() ==> !says_left(#[trigger] between[i], peer),
    ensures
        read_all(known, between).0.contains((peer, stream)),
    decreases between.len(),
{
    if between.len() > 0 {
        assert forall|i: int| 0 <= i < between.len() - 1 implies !says_left(
            #[trigger] between.drop_last()[i],
            peer,
        ) by {
            assert(between.drop_last()[i] == between[i]);
        }
        lemma_decoder_is_kept(known, between.drop_last(), peer, stream);
        assert(!says_left(between[between.len() - 1], peer));
    }
}

/// A decoder is made once per stream until its peer leaves: after a frame of the
/// stream, whatever messages follow, the next frame needs none.
pub proof fn law_decoder_is_made_once(
    known: Set<(Seq<char>, u16)>,
    peer: Seq<char>,
    f: crate::wire::FrameState,
    between: Seq<Seq<u8>>,
    g: crate::wire::FrameState,
)
    requires
        vstd::utf8::encode_utf8(peer).len() <= 255,
        f.opus.len() <= 65535,
        0 < g.opus.len() <= 65535,
        f.stream_id == g.stream_id,
        forall|i: int| 0 <= i < between.len() ==> !says_left(#[trigger] between[i], peer),
    ensures
        ({
            let first = read_message(
                known,
                crate::ipc::audio_msg(peer, crate::wire::frame_bytes(f)),
            );
            let later = read_message(
                read_all(first.0, between).0,
                crate::ipc::audio_msg(peer, crate::wire::frame_bytes(g)),
            );
            later.1 matches ActionState::Decode { fresh, .. } && !fresh
        }),
{
    let first = read_message(known, crate::ipc::audio_msg(peer, crate::wire::frame_bytes(f)));
    crate::ipc_laws::law_audio_round_trip(peer, crate::wire::frame_bytes(f));
    let b = crate::wire::frame_bytes(f);
    assert(b + Seq::<u8>::empty() =~= b);
    crate::wire::law_frame_round_trip(f, Seq::empty());
    lemma_decoder_is_kept(first.0, between, peer, f.stream_id);
    law_sent_frame_is_decoded(read_all(first.0, between).0, peer, g);
}

} // verus!
