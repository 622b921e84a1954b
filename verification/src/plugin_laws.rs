//! Laws of the plugins' surroundings: messages of the app, the slots that are shown, and
//! the buffers of the host.

use vstd::prelude::*;
use vstd::utf8::*;

use crate::editor::{SnapshotState, VisualState};
use crate::interval::RecorderState;
use crate::recv::PeerEvent;
use crate::recv_link::IpcAction;

verus! {

/// What the app says of a peer reaches the audio thread as it was said. Nobody's decoders
/// go, but for those of a peer that left.
pub proof fn law_app_messages_become_events(
    known: Set<(Seq<char>, u16)>,
    peer: String,
    text: String,
    rest: Seq<u8>,
    k: (Seq<char>, u16),
)
    requires
        encode_utf8(peer@).len() <= 255,
        encode_utf8(text@).len() <= 255,
    ensures
        crate::recv_link::read_message(known, crate::ipc::two_field_msg(2, peer@, text@) + rest)
            == (known, IpcAction::Event(PeerEvent::Joined { peer_id: peer, identity: text })@),
        crate::recv_link::read_message(known, crate::ipc::two_field_msg(4, peer@, text@) + rest)
            == (
            known,
            IpcAction::Event(PeerEvent::NameChanged { peer_id: peer, display_name: text })@,
        ),
        ({
            let d = seq![3u8] + crate::ipc::field_bytes(peer@) + rest;
            let (after, action) = crate::recv_link::read_message(known, d);
            &&& action == IpcAction::Event(PeerEvent::Left { peer_id: peer })@
            &&& after.contains(k) <==> known.contains(k) && k.0 != peer@
        }),
{
    crate::ipc_laws::law_two_field_round_trip(2, peer@, text@, rest, 0);
    crate::ipc_laws::law_two_field_round_trip(4, peer@, text@, rest, 0);
    crate::ipc_laws::law_peer_left_round_trip(peer@, rest, 0);
    let joined = crate::ipc::two_field_msg(2, peer@, text@) + rest;
    let named = crate::ipc::two_field_msg(4, peer@, text@) + rest;
    assert(joined[0] == 2);
    assert(named[0] == 4);
    assert((seq![3u8] + crate::ipc::field_bytes(peer@) + rest)[0] == 3);
}

/// Audio goes to the decoder of its stream, which is made for the first frame; a frame
/// without audio is no more than a reason to make one. The stream has a decoder from then
/// on, and no other stream loses or gains one.
pub proof fn law_app_audio_is_decoded(
    known: Set<(Seq<char>, u16)>,
    peer: String,
    f: crate::wire::FrameState,
    packet: Vec<u8>,
    k: (Seq<char>, u16),
)
    requires
        encode_utf8(peer@).len() <= 255,
        f.opus == packet@,
        packet@.len() <= 65535,
    ensures
        ({
            let d = crate::ipc::audio_msg(peer@, crate::wire::frame_bytes(f));
            let (after, action) = crate::recv_link::read_message(known, d);
            let fresh = !known.contains((peer@, f.stream_id));
            &&& after.contains(k) <==> known.contains(k) || k == (peer@, f.stream_id)
            &&& packet@.len() > 0 ==> action == (IpcAction::Decode {
                peer_id: peer,
                stream_id: f.stream_id,
                interval_index: f.interval_index,
                opus_data: packet,
                new_decoder: fresh,
            })@
            &&& packet@.len() == 0 && fresh ==> action == (IpcAction::Prepare {
                peer_id: peer,
                stream_id: f.stream_id,
            })@
            &&& packet@.len() == 0 && !fresh ==> action == IpcAction::Ignore@
        }),
{
    crate::ipc_laws::law_audio_round_trip(peer@, crate::wire::frame_bytes(f));
    let b = crate::wire::frame_bytes(f);
    assert(b + Seq::<u8>::empty() =~= b);
    crate::wire::law_frame_round_trip(f, Seq::empty());
}

/// Messages that say nothing the receiver understands are ignored: empty ones, ones of
/// another kind, and audio that is no frame.
pub proof fn law_other_app_messages_are_ignored(
    known: Set<(Seq<char>, u16)>,
    d: Seq<u8>,
    peer: Seq<char>,
    wire: Seq<u8>,
)
    requires
        encode_utf8(peer).len() <= 255,
        d.len() == 0 || d[0] == 0 || d[0] > 4,
        wire.len() < 21 || wire[0] != 0x57 || wire[1] != 0x41 || wire[2] != 0x49 || wire[3]
            != 0x46,
    ensures
        crate::recv_link::read_message(known, d) == (known, IpcAction::Ignore@),
        crate::recv_link::read_message(known, crate::ipc::audio_msg(peer, wire)) == (
            known,
            IpcAction::Ignore@,
        ),
{
    crate::ipc_laws::law_audio_round_trip(peer, wire);
}

/// Messages of the app are dealt with one by one, in order, each with the decoders that
/// those before it left.
pub proof fn law_app_messages_are_read_in_order(
    known: Set<(Seq<char>, u16)>,
    payloads: Seq<Seq<u8>>,
    i: int,
)
    requires
        0 <= i < payloads.len(),
    ensures
        crate::recv_link::read_all(known, payloads).1.len() == payloads.len(),
        crate::recv_link::read_all(known, payloads).1[i] == crate::recv_link::read_message(
            crate::recv_link::read_all(known, payloads.take(i)).0,
            payloads[i],
        ).1,
        crate::recv_link::read_all(known, payloads.take(i + 1)).0
            == crate::recv_link::read_message(
            crate::recv_link::read_all(known, payloads.take(i)).0,
            payloads[i],
        ).0,
        crate::recv_link::read_all(known, payloads.take(0)).0 == known,
    decreases payloads.len(),
{
    let front = payloads.drop_last();
    assert(payloads.take(i + 1).drop_last() =~= payloads.take(i));
    if i < front.len() {
        law_app_messages_are_read_in_order(known, front, i);
        assert(front.take(i) =~= payloads.take(i));
    } else {
        assert(payloads.take(i) =~= front);
        lemma_one_action_each(known, front);
    }
}

proof fn lemma_one_action_each(known: Set<(Seq<char>, u16)>, payloads: Seq<Seq<u8>>)
    ensures
        crate::recv_link::read_all(known, payloads).1.len() == payloads.len(),
    decreases payloads.len(),
{
    if payloads.len() > 0 {
        lemma_one_action_each(known, payloads.drop_last());
    }
}

/// A name of at most 64 bytes is kept whole, and a longer one up to there. Bytes that are
/// no text are shown as a question mark.
pub proof fn law_names_are_kept_up_to_64_bytes(name: Seq<char>, b: Seq<u8>)
    ensures
        encode_utf8(name).len() <= 64 ==> crate::editor::kept_name(name) == encode_utf8(name),
        encode_utf8(name).len() > 64 ==> crate::editor::kept_name(name) == encode_utf8(
            name,
        ).take(64),
        valid_utf8(b) ==> encode_utf8(crate::editor::shown_name(b)) == b,
        !valid_utf8(b) ==> crate::editor::shown_name(b) == seq!['?'],
{
    reveal_strlit("?");
    if valid_utf8(b) {
        decode_utf8_encode_utf8(b);
    } else {
        assert("?"@ =~= seq!['?']);
    }
}

/// How many of the first `n` slots are active.
pub open spec fn active_among(s: Seq<VisualState>, n: nat) -> nat
    decreases n,
{
    if n == 0 {
        0
    } else {
        active_among(s, (n - 1) as nat) + (if s[n - 1].active {
            1nat
        } else {
            0nat
        })
    }
}

/// The window draws the active slots and no others, in the order of the slots, each with
/// its own name, levels and peak.
pub proof fn law_active_slots_are_drawn(s: Seq<VisualState>, i: int)
    requires
        0 <= i < s.len(),
    ensures
        crate::editor::drawn(s).len() == active_among(s, s.len()),
        s[i].active ==> {
            let at = active_among(s, i as nat) as int;
            &&& at < crate::editor::drawn(s).len()
            &&& crate::editor::drawn(s)[at] == (SnapshotState {
                name: crate::editor::shown_name(s[i].name),
                history: s[i].history,
                peak: s[i].peak,
            })
        },
    decreases s.len(),
{
    let front = s.drop_last();
    lemma_drawn_count(s);
    lemma_drawn_count(front);
    lemma_active_among_front(s, front.len());
    if i < front.len() {
        law_active_slots_are_drawn(front, i);
        lemma_active_among_front(s, i as nat);
    }
}

proof fn lemma_active_among_front(s: Seq<VisualState>, n: nat)
    requires
        n < s.len(),
    ensures
        active_among(s.drop_last(), n) == active_among(s, n),
    decreases n,
{
    if n > 0 {
        lemma_active_among_front(s, (n - 1) as nat);
    }
}

proof fn lemma_drawn_count(s: Seq<VisualState>)
    ensures
        crate::editor::drawn(s).len() == active_among(s, s.len()),
    decreases s.len(),
{
    if s.len() > 0 {
        lemma_drawn_count(s.drop_last());
        lemma_active_among_front(s, (s.len() - 1) as nat);
    }
}

/// A slot is shown as active exactly when it plays a stream; nothing else that it shows
/// changes on that account.
pub proof fn law_playing_slots_are_shown_active(
    visuals: Seq<VisualState>,
    active: Seq<(usize, Seq<char>, u16)>,
    s: int,
)
    requires
        0 <= s < visuals.len(),
    ensures
        ({
            let m = crate::recv::marked(visuals, active);
            &&& m.len() == visuals.len()
            &&& m[s].active <==> exists|i: int| 0 <= i < active.len() && (#[trigger] active[i]).0
                == s
            &&& m[s].name == visuals[s].name
            &&& m[s].history == visuals[s].history
            &&& m[s].peak == visuals[s].peak
        }),
{
}

/// A slot that plays a stream of a peer whose name is known shows that name, and any other
/// slot what it showed before. Every stream plays in a slot of its own.
pub proof fn law_slots_show_their_peers(
    visuals: Seq<VisualState>,
    active: Seq<(usize, Seq<char>, u16)>,
    names: Map<Seq<char>, Seq<char>>,
    s: int,
)
    requires
        0 <= s < visuals.len(),
        forall|i: int, j: int|
            0 <= i < j < active.len() ==> (#[trigger] active[i]).0 != (#[trigger] active[j]).0,
    ensures
        ({
            let v = crate::recv::labelled(visuals, active, names, active.len());
            &&& v.len() == visuals.len()
            &&& forall|i: int|
                0 <= i < active.len() && (#[trigger] active[i]).0 == s && names.dom().contains(
                    active[i].1,
                ) ==> v[s].name == crate::editor::kept_name(names[active[i].1])
            &&& (forall|i: int|
                0 <= i < active.len() && (#[trigger] active[i]).0 == s
                    ==> !names.dom().contains(active[i].1)) ==> v[s].name == visuals[s].name
            &&& v[s].active == visuals[s].active
            &&& v[s].history == visuals[s].history
            &&& v[s].peak == visuals[s].peak
        }),
{
    lemma_labelled(visuals, active, names, s, active.len());
}

proof fn lemma_labelled(
    visuals: Seq<VisualState>,
    active: Seq<(usize, Seq<char>, u16)>,
    names: Map<Seq<char>, Seq<char>>,
    s: int,
    n: nat,
)
    requires
        0 <= s < visuals.len(),
        n <= active.len(),
        forall|i: int, j: int|
            0 <= i < j < active.len() ==> (#[trigger] active[i]).0 != (#[trigger] active[j]).0,
    ensures
        ({
            let v = crate::recv::labelled(visuals, active, names, n);
            &&& v.len() == visuals.len()
            &&& forall|i: int|
                0 <= i < n && (#[trigger] active[i]).0 == s && names.dom().contains(active[i].1)
                    ==> v[s].name == crate::editor::kept_name(names[active[i].1])
            &&& (forall|i: int|
                0 <= i < n && (#[trigger] active[i]).0 == s ==> !names.dom().contains(
                    active[i].1,
                )) ==> v[s].name == visuals[s].name
            &&& v[s].active == visuals[s].active
            &&& v[s].history == visuals[s].history
            &&& v[s].peak == visuals[s].peak
        }),
    decreases n,
{
    if n > 0 {
        lemma_labelled(visuals, active, names, s, (n - 1) as nat);
        assert(active[n - 1].0 == active[n - 1].0);
    }
}

/// The receiver shows the latest interval that it heard of, and interval zero before it
/// heard of any.
pub proof fn law_shown_interval_is_the_latest(s: crate::recv::RecvState)
    ensures
        s.remote is Some ==> s.shown_interval() == s.remote->0,
        s.remote is None ==> s.shown_interval() == 0,
{
}

/// Buffers of an interval are recorded one after the other. What was recorded of another
/// interval that was not finished is given up.
pub proof fn law_recorder_joins_an_interval(
    s: RecorderState,
    a: Seq<u32>,
    b: Seq<u32>,
    index: i64,
    other: i64,
)
    requires
        other != index,
    ensures
        s.pushed(a, index).index == Some(index),
        s.pushed(a, index).pushed(b, index).samples == s.pushed(a, index).samples + b,
        s.pushed(a, index).pushed(b, index) == s.pushed(a + b, index),
        s.index is None ==> s.pushed(a, index).samples == s.samples + a,
        s.pushed(a, other).pushed(b, index).samples == b,
{
    assert(s.samples + a + b =~= s.samples + (a + b));
}

/// Sample `t` of channel `c` stands at place `t * k + c` of `k` interleaved channels;
/// nothing is heard of a host that is not playing.
pub proof fn law_channels_are_interleaved(channels: Seq<Seq<u32>>, n: nat, t: int, c: int)
    requires
        0 <= t < n,
        0 <= c < channels.len(),
    ensures
        ({
            let k = channels.len();
            let at = t * k + c;
            &&& crate::buffers::interleaved(channels, n, true).len() == n * k
            &&& crate::buffers::interleaved(channels, n, false).len() == n * k
            &&& 0 <= at < n * k
            &&& crate::buffers::interleaved(channels, n, true)[at] == channels[c][t]
            &&& crate::buffers::interleaved(channels, n, false)[at] == 0
        }),
{
    let k = channels.len() as int;
    let at = t * k + c;
    assert(0 <= at < n * k) by (nonlinear_arith)
        requires
            at == t * k + c,
            0 <= t < n,
            0 <= c < k,
    ;
    vstd::arithmetic::div_mod::lemma_fundamental_div_mod_converse(at, k, t, c);
}

/// Playback goes back to the host's channels the same way; channels and samples that there
/// is no playback for stay as they are.
pub proof fn law_playback_is_spread_over_channels(
    buf: Seq<u32>,
    before: Seq<Seq<u32>>,
    n: nat,
    k: nat,
    t: int,
    c: int,
)
    requires
        0 <= c < before.len(),
        0 <= t < before[c].len(),
    ensures
        ({
            let after = crate::buffers::spread(buf, before, n, k);
            &&& after.len() == before.len()
            &&& after[c].len() == before[c].len()
            &&& c < k && t < n ==> after[c][t] == buf[t * k + c]
            &&& c >= k || t >= n ==> after[c][t] == before[c][t]
        }),
{
}

} // verus!
