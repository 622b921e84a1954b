//! Laws of the framing and of the messages.

use vstd::prelude::*;
use vstd::utf8::*;

verus! {

/// A frame followed by anything yields its payload and leaves what followed.
pub proof fn law_frame_round_trip(payload: Seq<u8>, rest: Seq<u8>)
    requires
        payload.len() < 0x1_0000_0000,
    ensures
        crate::ipc::has_frame(crate::ipc::framed(payload) + rest),
        crate::ipc::first_payload(crate::ipc::framed(payload) + rest) == payload,
        crate::ipc::after_frame(crate::ipc::framed(payload) + rest) == rest,
{
    let b = crate::ipc::framed(payload) + rest;
    assert(b.subrange(0, 4) =~= crate::le::u32_bytes(payload.len() as u32));
    crate::le::lemma_u32_at(b, 0, payload.len() as u32);
    assert(crate::ipc::first_payload(b) =~= payload);
    assert(crate::ipc::after_frame(b) =~= rest);
}

/// The frames of several payloads, one after the other.
pub open spec fn stream_of(payloads: Seq<Seq<u8>>) -> Seq<u8>
    decreases payloads.len(),
{
    if payloads.len() == 0 {
        Seq::empty()
    } else {
        crate::ipc::framed(payloads[0]) + stream_of(payloads.skip(1))
    }
}

/// A stream of frames yields exactly the payloads that were framed, in order.
pub proof fn law_stream_yields_payloads(payloads: Seq<Seq<u8>>)
    requires
        forall|i: int| 0 <= i < payloads.len() ==> (#[trigger] payloads[i]).len() < 0x1_0000_0000,
    ensures
        crate::ipc::all_payloads(stream_of(payloads)) == payloads,
        crate::ipc::left_over(stream_of(payloads)).len() == 0,
    decreases payloads.len(),
{
    if payloads.len() > 0 {
        let rest = payloads.skip(1);
        law_frame_round_trip(payloads[0], stream_of(rest));
        assert forall|i: int| 0 <= i < rest.len() implies (#[trigger] rest[i]).len()
            < 0x1_0000_0000 by {
            assert(rest[i] == payloads[i + 1]);
        }
        law_stream_yields_payloads(rest);
        assert(seq![payloads[0]] + rest =~= payloads);
    }
}

/// How the bytes are cut into reads does not matter: taking the whole frames of
/// `a`, and then those of what was left together with `b`, gives the frames of
/// `a + b`.
pub proof fn law_chunking_does_not_matter(a: Seq<u8>, b: Seq<u8>)
    ensures
        crate::ipc::all_payloads(a + b) == crate::ipc::all_payloads(a) + crate::ipc::all_payloads(
            crate::ipc::left_over(a) + b,
        ),
        crate::ipc::left_over(a + b) == crate::ipc::left_over(crate::ipc::left_over(a) + b),
    decreases a.len(),
{
    if crate::ipc::has_frame(a) {
        let n = 4 + crate::le::u32_at(a, 0);
        assert(crate::le::u32_at(a + b, 0) == crate::le::u32_at(a, 0));
        assert(crate::ipc::has_frame(a + b));
        assert(crate::ipc::first_payload(a + b) =~= crate::ipc::first_payload(a));
        assert(crate::ipc::after_frame(a + b) =~= crate::ipc::after_frame(a) + b);
        law_chunking_does_not_matter(crate::ipc::after_frame(a), b);
        let rest = crate::ipc::all_payloads(crate::ipc::left_over(a) + b);
        assert(seq![crate::ipc::first_payload(a)] + (crate::ipc::all_payloads(
            crate::ipc::after_frame(a),
        ) + rest) =~= seq![crate::ipc::first_payload(a)] + crate::ipc::all_payloads(
            crate::ipc::after_frame(a),
        ) + rest);
    } else {
        assert(crate::ipc::all_payloads(a) + crate::ipc::all_payloads(a + b)
            =~= crate::ipc::all_payloads(a + b));
    }
}

/// A field that was written is read back, when its text has at most 255 bytes.
proof fn lemma_field(pre: Seq<u8>, s: Seq<char>, rest: Seq<u8>)
    requires
        encode_utf8(s).len() <= 255,
    ensures
        ({
            let d = pre + crate::ipc::field_bytes(s) + rest;
            let at = pre.len() as int;
            &&& crate::ipc::has_field(d, at)
            &&& crate::ipc::field_text(d, at) == s
            &&& crate::ipc::field_end(d, at) == pre.len() + crate::ipc::field_bytes(s).len()
        }),
{
    let d = pre + crate::ipc::field_bytes(s) + rest;
    let at = pre.len() as int;
    let bytes = encode_utf8(s);
    assert(d[at] == bytes.len());
    assert(d.subrange(at + 1, at + 1 + d[at]) =~= bytes);
    encode_utf8_valid_utf8(s);
    encode_utf8_decode_utf8(s);
}

/// An audio message gives its peer id and its data back.
pub proof fn law_audio_round_trip(peer: Seq<char>, wire: Seq<u8>)
    requires
        encode_utf8(peer).len() <= 255,
    ensures
        ({
            let d = crate::ipc::audio_msg(peer, wire);
            &&& crate::ipc::has_tag(d, 0x01) && crate::ipc::has_field(d, 1)
            &&& crate::ipc::field_text(d, 1) == peer
            &&& d.skip(crate::ipc::field_end(d, 1)) == wire
        }),
{
    let d = crate::ipc::audio_msg(peer, wire);
    lemma_field(seq![0x01u8], peer, wire);
    assert(d.skip(crate::ipc::field_end(d, 1)) =~= wire);
}

/// An audio message that was cut short within its peer id is not read; one that was cut
/// short later gives that much less data.
pub proof fn law_audio_cut_short(peer: Seq<char>, wire: Seq<u8>, n: int)
    requires
        encode_utf8(peer).len() <= 255,
        0 <= n < crate::ipc::audio_msg(peer, wire).len(),
    ensures
        ({
            let whole = crate::ipc::audio_msg(peer, wire);
            let d = whole.take(n);
            let header = 1 + crate::ipc::field_bytes(peer).len();
            &&& (crate::ipc::has_tag(d, 0x01) && crate::ipc::has_field(d, 1)) == (n >= header)
            &&& n >= header ==> crate::ipc::field_text(d, 1) == peer && d.skip(
                crate::ipc::field_end(d, 1),
            ) == wire.take(n - header)
        }),
{
    let whole = crate::ipc::audio_msg(peer, wire);
    let d = whole.take(n);
    let header = 1 + crate::ipc::field_bytes(peer).len();
    assert(whole[1] == encode_utf8(peer).len());
    if n >= header {
        assert(d =~= crate::ipc::audio_msg(peer, wire.take(n - header)));
        law_audio_round_trip(peer, wire.take(n - header));
    }
}

/// Messages with two texts (peer joined, peer name) give both back, whatever follows
/// them; cut short, they are not read.
pub proof fn law_two_field_round_trip(
    tag: u8,
    a: Seq<char>,
    b: Seq<char>,
    rest: Seq<u8>,
    n: int,
)
    requires
        encode_utf8(a).len() <= 255,
        encode_utf8(b).len() <= 255,
    ensures
        ({
            let d = crate::ipc::two_field_msg(tag, a, b) + rest;
            &&& crate::ipc::is_two_field(d, tag)
            &&& crate::ipc::field_text(d, 1) == a
            &&& crate::ipc::field_text(d, crate::ipc::field_end(d, 1)) == b
        }),
        0 <= n < crate::ipc::two_field_msg(tag, a, b).len() ==> !crate::ipc::is_two_field(
            crate::ipc::two_field_msg(tag, a, b).take(n),
            tag,
        ),
{
    let whole = crate::ipc::two_field_msg(tag, a, b);
    let d = whole + rest;
    assert(d =~= seq![tag] + crate::ipc::field_bytes(a) + (crate::ipc::field_bytes(b) + rest));
    lemma_field(seq![tag], a, crate::ipc::field_bytes(b) + rest);
    let pre = seq![tag] + crate::ipc::field_bytes(a);
    assert(d =~= pre + crate::ipc::field_bytes(b) + rest);
    lemma_field(pre, b, rest);
    if 0 <= n < whole.len() {
        assert(whole[1] == encode_utf8(a).len());
        assert(whole[pre.len() as int] == encode_utf8(b).len());
    }
}

/// A peer-left message gives the peer id back, whatever follows it; cut short, it is
/// not read.
pub proof fn law_peer_left_round_trip(peer: Seq<char>, rest: Seq<u8>, n: int)
    requires
        encode_utf8(peer).len() <= 255,
    ensures
        ({
            let d = seq![0x03u8] + crate::ipc::field_bytes(peer) + rest;
            &&& crate::ipc::has_tag(d, 0x03) && crate::ipc::has_field(d, 1)
            &&& crate::ipc::field_text(d, 1) == peer
        }),
        0 <= n < 1 + crate::ipc::field_bytes(peer).len() ==> !(crate::ipc::has_tag(
            (seq![0x03u8] + crate::ipc::field_bytes(peer)).take(n),
            0x03,
        ) && crate::ipc::has_field((seq![0x03u8] + crate::ipc::field_bytes(peer)).take(n), 1)),
{
    let whole = seq![0x03u8] + crate::ipc::field_bytes(peer);
    lemma_field(seq![0x03u8], peer, rest);
    assert(whole[1] == encode_utf8(peer).len());
}

/// A streaming audio message gives its data back, if there is any.
pub proof fn law_audio_frame_round_trip(wire: Seq<u8>)
    ensures
        ({
            let d = seq![0x05u8] + wire;
            &&& crate::ipc::has_tag(d, 0x05) == (wire.len() > 0)
            &&& d.skip(1) == wire
        }),
{
    assert((seq![0x05u8] + wire).skip(1) =~= wire);
}

/// A metrics message gives the count back, whatever follows it; cut short, it is too
/// short to be read.
pub proof fn law_metrics_round_trip(n: u64, rest: Seq<u8>)
    ensures
        ({
            let whole = seq![0x06u8] + crate::le::u64_bytes(n);
            let d = whole + rest;
            &&& whole.len() == 9
            &&& d[0] == 0x06
            &&& crate::le::u64_at(d, 1) == n
        }),
{
    let d = seq![0x06u8] + crate::le::u64_bytes(n) + rest;
    assert(d.subrange(1, 9) =~= crate::le::u64_bytes(n));
    crate::le::lemma_u64_at(d, 1, n);
}

} // verus!
