//! Laws of the messages between peers, the server and the plugins: who is in the room, how
//! data is cut into messages, and where servers are.

use vstd::prelude::*;
use vstd::utf8::*;

use crate::mesh::MeshState;
use crate::protocol::SignalMessage;
use crate::signaling::{MemberState, SenderError};
use crate::wire_laws::value;

verus! {

/// A list of the room's peers makes all of them known but this one, and nobody unknown.
pub proof fn law_listed_peers_are_known(s: MeshState, peers: Vec<String>, p: Seq<char>)
    ensures
        ({
            let t = s.after(SignalMessage::PeerList { peers });
            &&& t.peers.contains(p) <==> s.peers.contains(p) || (p != s.me && exists|i: int|
                0 <= i < peers@.len() && (#[trigger] peers@[i])@ == p)
            &&& t.me == s.me
            &&& t.drops == s.drops
        }),
{
    let list = crate::mesh::texts(peers@);
    if exists|i: int| 0 <= i < peers@.len() && (#[trigger] peers@[i])@ == p {
        let i = choose|i: int| 0 <= i < peers@.len() && (#[trigger] peers@[i])@ == p;
        assert(list[i] == p);
    }
    if list.contains(p) {
        let i = choose|i: int| 0 <= i < list.len() && list[i] == p;
        assert(peers@[i]@ == p);
    }
}

/// A peer that joins is known from then on, and one that leaves is not; nobody else is
/// touched. Other messages of the server say nothing on who is there.
pub proof fn law_joining_and_leaving(
    s: MeshState,
    peer_id: String,
    display_name: Option<String>,
    msg: SignalMessage,
    q: Seq<char>,
)
    requires
        msg is LogBroadcast || msg is MetricsReport,
    ensures
        s.after(SignalMessage::PeerJoined { peer_id, display_name }).peers.contains(q) <==> q
            == peer_id@ || s.peers.contains(q),
        s.after(SignalMessage::PeerLeft { peer_id }).peers.contains(q) <==> q != peer_id@
            && s.peers.contains(q),
        s.after(SignalMessage::PeerJoined { peer_id, display_name }).me == s.me,
        s.after(SignalMessage::PeerLeft { peer_id }).me == s.me,
        s.after(msg) == s,
{
}

/// Data that fits in one message goes out as it is.
pub proof fn law_small_data_is_not_cut(d: Seq<u8>)
    requires
        d.len() <= 1200,
    ensures
        crate::peer::messages_of(d).len() == 1,
        crate::peer::messages_of(d)[0] == d,
{
}

/// What chunks carry, one after the other.
pub open spec fn carried(ms: Seq<Seq<u8>>) -> Seq<u8>
    decreases ms.len(),
{
    if ms.len() == 0 {
        Seq::empty()
    } else {
        ms[0].skip(8) + carried(ms.skip(1))
    }
}

/// Larger data is cut into chunks: each starts with the letters WACH and the length of all
/// the data, carries at most 1192 bytes and no fewer unless it is the last, and what they
/// carry, one after the other, is the data.
pub proof fn law_large_data_is_cut(d: Seq<u8>)
    requires
        1200 < d.len() < 0x1_0000_0000,
    ensures
        ({
            let ms = crate::peer::messages_of(d);
            &&& carried(ms) == d
            &&& forall|i: int|
                0 <= i < ms.len() ==> {
                    let m = #[trigger] ms[i];
                    &&& 8 < m.len() <= 1200
                    &&& i < ms.len() - 1 ==> m.len() == 1200
                    &&& m[0] == 0x57 && m[1] == 0x41 && m[2] == 0x43 && m[3] == 0x48
                    &&& value(m.subrange(4, 8)) == d.len()
                }
        }),
{
    lemma_cut(d, 0);
    assert(d.skip(0) =~= d);
}

#[verifier::spinoff_prover]
#[verifier::rlimit(40)]
proof fn lemma_cut(d: Seq<u8>, at: nat)
    requires
        at <= d.len() < 0x1_0000_0000,
    ensures
        ({
            let ms = crate::peer::chunks_from(d, at);
            &&& carried(ms) == d.skip(at as int)
            &&& forall|i: int|
                0 <= i < ms.len() ==> {
                    let m = #[trigger] ms[i];
                    &&& 8 < m.len() <= 1200
                    &&& i < ms.len() - 1 ==> m.len() == 1200
                    &&& m[0] == 0x57 && m[1] == 0x41 && m[2] == 0x43 && m[3] == 0x48
                    &&& value(m.subrange(4, 8)) == d.len()
                }
        }),
    decreases d.len() - at,
{
    let ms = crate::peer::chunks_from(d, at);
    if at < d.len() {
        let end = crate::peer::chunk_end(d.len(), at);
        lemma_cut(d, end);
        let rest = crate::peer::chunks_from(d, end);
        let m = ms[0];
        let piece = d.subrange(at as int, end as int);
        assert(ms.skip(1) =~= rest);
        assert(m.skip(8) =~= piece);
        assert(piece + d.skip(end as int) =~= d.skip(at as int));
        crate::wire_laws::law_numbers_are_little_endian(0, d.len() as u32, 0, 0);
        assert(m.subrange(4, 8) =~= crate::le::u32_bytes(d.len() as u32));
        assert forall|i: int| 0 <= i < ms.len() implies {
            let m = #[trigger] ms[i];
            &&& 8 < m.len() <= 1200
            &&& i < ms.len() - 1 ==> m.len() == 1200
            &&& m[0] == 0x57 && m[1] == 0x41 && m[2] == 0x43 && m[3] == 0x48
            &&& value(m.subrange(4, 8)) == d.len()
        } by {
            if i > 0 {
                assert(ms[i] == rest[i - 1]);
            }
        }
    } else {
        assert(d.skip(at as int) =~= Seq::empty());
    }
}

/// A message that is not a chunk is data of its own, also between chunks.
pub proof fn law_whole_messages_pass(s: Option<crate::peer::PartialState>, m: Seq<u8>)
    requires
        m.len() < 8 || m[0] != 0x57 || m[1] != 0x41 || m[2] != 0x43 || m[3] != 0x48,
    ensures
        crate::peer::completed_by(s, m) == Some(m),
        crate::peer::after_message(s, m) == s,
{
}

/// A frame on the plugin connection is the length of its payload in four bytes, and the
/// payload; bytes hold a whole frame when they hold as much as the length says.
pub proof fn law_ipc_frame_layout(payload: Seq<u8>, b: Seq<u8>)
    requires
        payload.len() < 0x1_0000_0000,
    ensures
        ({
            let f = crate::ipc::framed(payload);
            &&& f.len() == 4 + payload.len()
            &&& value(f.take(4)) == payload.len()
            &&& f.skip(4) == payload
        }),
        b.len() < 4 ==> !crate::ipc::has_frame(b),
        b.len() >= 4 ==> (crate::ipc::has_frame(b) <==> b.len() >= 4 + value(b.take(4))),
{
    let f = crate::ipc::framed(payload);
    crate::wire_laws::law_numbers_are_little_endian(0, payload.len() as u32, 0, 0);
    assert(f.take(4) =~= crate::le::u32_bytes(payload.len() as u32));
    assert(f.skip(4) =~= payload);
    if b.len() >= 4 {
        let c = b + seq![0u8, 0u8, 0u8, 0u8];
        crate::wire_laws::law_numbers_are_read_little_endian(c, 0);
        assert(c.subrange(0, 4) =~= b.take(4));
        assert(crate::le::u32_at(c, 0) == crate::le::u32_at(b, 0));
    }
}

/// A text field is the number of its bytes, and its bytes, of which there are at most 255.
pub proof fn law_ipc_field_layout(s: Seq<char>)
    ensures
        ({
            let f = crate::ipc::field_bytes(s);
            let b = encode_utf8(s);
            &&& f.len() == 1 + f[0]
            &&& b.len() <= 255 ==> f[0] == b.len() && f.skip(1) == b
            &&& b.len() > 255 ==> f[0] == 255 && f.skip(1) == b.take(255)
        }),
{
    let f = crate::ipc::field_bytes(s);
    assert(f.skip(1) =~= crate::ipc::short_bytes(s));
}

/// What the messages of the plugin connection are made of: their number, and their fields
/// in order.
pub proof fn law_ipc_message_layout(tag: u8, a: Seq<char>, b: Seq<char>, wire: Seq<u8>)
    ensures
        ({
            let m = crate::ipc::audio_msg(a, wire);
            let n = crate::ipc::field_bytes(a).len() as int;
            &&& m[0] == 1
            &&& m.subrange(1, 1 + n) == crate::ipc::field_bytes(a)
            &&& m.skip(1 + n) == wire
        }),
        ({
            let m = crate::ipc::two_field_msg(tag, a, b);
            let n = crate::ipc::field_bytes(a).len() as int;
            &&& m[0] == tag
            &&& m.subrange(1, 1 + n) == crate::ipc::field_bytes(a)
            &&& m.skip(1 + n) == crate::ipc::field_bytes(b)
        }),
{
    let m = crate::ipc::audio_msg(a, wire);
    let n = crate::ipc::field_bytes(a).len() as int;
    assert(m.subrange(1, 1 + n) =~= crate::ipc::field_bytes(a));
    assert(m.skip(1 + n) =~= wire);
    let w = crate::ipc::two_field_msg(tag, a, b);
    assert(w.subrange(1, 1 + n) =~= crate::ipc::field_bytes(a));
    assert(w.skip(1 + n) =~= crate::ipc::field_bytes(b));
}

/// A relayed audio frame is the number of bytes of its sender's id, the id, and the audio.
/// It is rejected when nothing came, when there are fewer bytes than the number says, and
/// when the id is not text.
pub proof fn law_sender_frame_layout(d: Seq<u8>, peer: Seq<char>, audio: Seq<u8>)
    requires
        encode_utf8(peer).len() <= 255,
    ensures
        ({
            let f = crate::signaling::sender_frame_bytes(peer, audio);
            &&& f[0] == encode_utf8(peer).len()
            &&& f.subrange(1, 1 + f[0]) == encode_utf8(peer)
            &&& f.skip(1 + f[0]) == audio
        }),
        match crate::signaling::sender_frame(d) {
            Ok((p, a)) => {
                &&& d.len() >= 1 + d[0]
                &&& encode_utf8(p) == d.subrange(1, 1 + d[0])
                &&& a == d.skip(1 + d[0])
            },
            Err(SenderError::Empty) => d.len() == 0,
            Err(SenderError::TooShort) => 0 < d.len() < 1 + d[0],
            Err(SenderError::BadSender) => d.len() >= 1 + d[0] && !valid_utf8(
                d.subrange(1, 1 + d[0]),
            ),
        },
{
    let f = crate::signaling::sender_frame_bytes(peer, audio);
    assert(f.subrange(1, 1 + f[0]) =~= encode_utf8(peer));
    assert(f.skip(1 + f[0]) =~= audio);
    if d.len() > 0 && d.len() >= 1 + d[0] && valid_utf8(d.subrange(1, 1 + d[0])) {
        decode_utf8_encode_utf8(d.subrange(1, 1 + d[0]));
    }
}

/// Whether a text is nothing but slashes.
pub open spec fn all_slashes(s: Seq<char>) -> bool {
    forall|i: int| 0 <= i < s.len() ==> (#[trigger] s[i]) == '/'
}

/// Trimming takes slashes off the end, all of them, and nothing else.
pub proof fn law_trailing_slashes_are_dropped(s: Seq<char>)
    ensures
        ({
            let t = crate::signaling::without_trailing_slashes(s);
            &&& t.len() <= s.len()
            &&& t == s.take(t.len() as int)
            &&& all_slashes(s.skip(t.len() as int))
            &&& t.len() > 0 ==> t.last() != '/'
        }),
    decreases s.len(),
{
    let t = crate::signaling::without_trailing_slashes(s);
    if s.len() > 0 && s.last() == '/' {
        law_trailing_slashes_are_dropped(s.drop_last());
        let d = s.drop_last();
        assert(d.take(t.len() as int) =~= s.take(t.len() as int));
        assert forall|i: int| 0 <= i < s.skip(t.len() as int).len() implies (
        #[trigger] s.skip(t.len() as int)[i]) == '/' by {
            if i < d.skip(t.len() as int).len() {
                assert(s.skip(t.len() as int)[i] == d.skip(t.len() as int)[i]);
            }
        }
    } else {
        assert(t =~= s.take(t.len() as int));
    }
}

/// Whether a text occurs in another.
pub open spec fn occurs(s: Seq<char>, p: Seq<char>) -> bool {
    exists|i: int| 0 <= i && i + p.len() <= s.len() && #[trigger] s.subrange(i, i + p.len()) == p
}

proof fn lemma_nothing_replaced(s: Seq<char>, from: Seq<char>, to: Seq<char>)
    requires
        from.len() > 0,
        !occurs(s, from),
    ensures
        crate::signaling::replaced(s, from, to) == s,
    decreases s.len(),
{
    if s.len() > 0 {
        if crate::signaling::starts_with(s, from) {
            assert(s.subrange(0int, 0int + from.len()) =~= s.take(from.len() as int));
            assert(occurs(s, from));
        }
        let r = s.skip(1);
        if occurs(r, from) {
            let i = choose|i: int|
                0 <= i && i + from.len() <= r.len() && #[trigger] r.subrange(i, i + from.len())
                    == from;
            assert(s.subrange(i + 1, i + 1 + from.len()) =~= r.subrange(i, i + from.len()));
            assert(occurs(s, from));
        }
        lemma_nothing_replaced(r, from, to);
        assert(seq![s[0]] + r =~= s);
    }
}

/// The public rooms of a server are listed below its own address, over HTTP in place of
/// WebSocket, encrypted where the connection is. The rest of the address does not itself
/// look like such an address.
pub proof fn law_rooms_are_listed_over_http(host: Seq<char>)
    requires
        !occurs(host, "ws://"@),
        !occurs(host, "wss://"@),
    ensures
        ({
            let r = crate::signaling::rooms_address("wss://"@ + host);
            exists|t: Seq<char>|
                r == "https://"@ + t + "/rooms"@ && #[trigger] is_trimmed(t, host)
        }) || all_slashes(host),
        ({
            let r = crate::signaling::rooms_address("ws://"@ + host);
            exists|t: Seq<char>|
                r == "http://"@ + t + "/rooms"@ && #[trigger] is_trimmed(t, host)
        }) || all_slashes(host),
{
    if !all_slashes(host) {
        lemma_rooms(host, "wss://"@, "https://"@, true);
        lemma_rooms(host, "ws://"@, "http://"@, false);
    }
}

/// Whether `t` is `s` without the slashes at its end.
pub open spec fn is_trimmed(t: Seq<char>, s: Seq<char>) -> bool {
    &&& t.len() <= s.len()
    &&& t == s.take(t.len() as int)
    &&& all_slashes(s.skip(t.len() as int))
    &&& t.len() > 0 ==> t.last() != '/'
}

proof fn lemma_rooms(host: Seq<char>, scheme: Seq<char>, plain: Seq<char>, secure: bool)
    requires
        !occurs(host, "ws://"@),
        !occurs(host, "wss://"@),
        !all_slashes(host),
        secure ==> scheme == "wss://"@ && plain == "https://"@,
        !secure ==> scheme == "ws://"@ && plain == "http://"@,
    ensures
        exists|t: Seq<char>|
            crate::signaling::rooms_address(scheme + host) == plain + t + "/rooms"@
                && #[trigger] is_trimmed(t, host),
{
    reveal_strlit("wss://");
    reveal_strlit("ws://");
    reveal_strlit("https://");
    reveal_strlit("http://");
    let wss = "wss://"@;
    let ws = "ws://"@;
    let server = scheme + host;
    let once = crate::signaling::replaced(server, wss, "https://"@);
    let twice = crate::signaling::replaced(once, ws, "http://"@);
    if secure {
        assert(server.take(6) =~= wss);
        assert(server.skip(6) =~= host);
        lemma_nothing_replaced(host, wss, "https://"@);
        assert(once == plain + host);
        lemma_no_scheme_inside(plain, host);
        lemma_nothing_replaced(once, ws, "http://"@);
    } else {
        lemma_plain_is_kept(host);
        assert(once == server);
        assert(once.take(5) =~= ws);
        assert(once.skip(5) =~= host);
        lemma_nothing_replaced(host, ws, "http://"@);
    }
    assert(twice == plain + host);
    lemma_trimmed_behind(plain, host);
    let t = crate::signaling::without_trailing_slashes(host);
    law_trailing_slashes_are_dropped(host);
    assert(is_trimmed(t, host));
}

proof fn lemma_no_scheme_inside(plain: Seq<char>, host: Seq<char>)
    requires
        plain == "https://"@,
        !occurs(host, "ws://"@),
    ensures
        !occurs(plain + host, "ws://"@),
{
    reveal_strlit("ws://");
    reveal_strlit("https://");
    let s = plain + host;
    let p = "ws://"@;
    if occurs(s, p) {
        let i = choose|i: int|
            0 <= i && i + p.len() <= s.len() && #[trigger] s.subrange(i, i + p.len()) == p;
        assert(s.subrange(i, i + p.len())[0] == s[i]);
        assert(p[0] == 'w');
        if i < 8 {
            assert(s[i] == plain[i]);
            assert(plain[i] != 'w');
        } else {
            assert(host.subrange(i - 8, i - 8 + p.len()) =~= s.subrange(i, i + p.len()));
            assert(occurs(host, p));
        }
    }
}

/// An address without encryption is not mistaken for one with it.
proof fn lemma_plain_is_kept(host: Seq<char>)
    requires
        !occurs(host, "wss://"@),
    ensures
        crate::signaling::replaced("ws://"@ + host, "wss://"@, "https://"@) == "ws://"@ + host,
{
    reveal_strlit("ws://");
    reveal_strlit("wss://");
    let s = "ws://"@ + host;
    let p = "wss://"@;
    if occurs(s, p) {
        let i = choose|i: int|
            0 <= i && i + p.len() <= s.len() && #[trigger] s.subrange(i, i + p.len()) == p;
        let u = s.subrange(i, i + p.len());
        assert(u[0] == s[i] && u[2] == s[i + 2]);
        assert(p[0] == 'w' && p[2] == 's');
        if i < 5 {
            assert(s[i] == "ws://"@[i]);
            if i == 0 {
                assert(s[2] == "ws://"@[2]);
            }
        } else {
            assert(host.subrange(i - 5, i - 5 + p.len()) =~= s.subrange(i, i + p.len()));
            assert(occurs(host, p));
        }
    }
    lemma_nothing_replaced(s, p, "https://"@);
}

proof fn lemma_trimmed_behind(plain: Seq<char>, host: Seq<char>)
    requires
        !all_slashes(host),
    ensures
        crate::signaling::without_trailing_slashes(plain + host) == plain
            + crate::signaling::without_trailing_slashes(host),
    decreases host.len(),
{
    let s = plain + host;
    assert(host.len() > 0);
    assert(s.last() == host.last());
    if host.last() == '/' {
        let d = host.drop_last();
        if all_slashes(d) {
            assert forall|i: int| 0 <= i < host.len() implies (#[trigger] host[i]) == '/' by {
                if i < d.len() {
                    assert(d[i] == '/');
                }
            }
        }
        assert(s.drop_last() =~= plain + d);
        lemma_trimmed_behind(plain, d);
    }
}

/// The room endpoint of a server stands below its address, whatever slashes end it.
pub proof fn law_rooms_endpoint_stands_below_the_server(server: Seq<char>)
    ensures
        exists|t: Seq<char>|
            crate::signaling::ws_address(server) == t + "/ws"@ && #[trigger] is_trimmed(t, server),
{
    law_trailing_slashes_are_dropped(server);
    assert(is_trimmed(crate::signaling::without_trailing_slashes(server), server));
}

/// A request to join says what it is, the room, who asks, the version and how many streams
/// there will be, and a password and a name exactly when there are any; nothing is said
/// twice.
pub proof fn law_join_request_says_all(
    room: Seq<char>,
    peer: Seq<char>,
    password: Option<Seq<char>>,
    streams: u16,
    name: Option<Seq<char>>,
    version: Seq<char>,
)
    ensures
        ({
            let ms = crate::signaling::join_members(room, peer, password, streams, name, version);
            &&& ms.contains((seq!["type"@], MemberState::Text("join"@)))
            &&& ms.contains((seq!["room"@], MemberState::Text(room)))
            &&& ms.contains((seq!["peer_id"@], MemberState::Text(peer)))
            &&& ms.contains((seq!["client_version"@], MemberState::Text(version)))
            &&& ms.contains((seq!["stream_count"@], MemberState::Number(streams as u64)))
            &&& password is Some ==> ms.contains(
                (seq!["password"@], MemberState::Text(password->0)),
            )
            &&& name is Some ==> ms.contains((seq!["display_name"@], MemberState::Text(name->0)))
            &&& ms.len() == 5 + (if password is Some {
                1int
            } else {
                0int
            }) + (if name is Some {
                1int
            } else {
                0int
            })
        }),
{
    let ms = crate::signaling::join_members(room, peer, password, streams, name, version);
    assert(ms[0] == (seq!["type"@], MemberState::Text("join"@)));
    assert(ms[1] == (seq!["room"@], MemberState::Text(room)));
    assert(ms[2] == (seq!["peer_id"@], MemberState::Text(peer)));
    assert(ms[3] == (seq!["client_version"@], MemberState::Text(version)));
    assert(ms[4] == (seq!["stream_count"@], MemberState::Number(streams as u64)));
    if password is Some {
        assert(ms[5] == (seq!["password"@], MemberState::Text(password->0)));
    }
    if name is Some {
        assert(ms[ms.len() - 1] == (seq!["display_name"@], MemberState::Text(name->0)));
    }
}

/// A log entry says its level, target, message and time.
pub proof fn law_log_entry_says_all(
    level: Seq<char>,
    target: Seq<char>,
    message: Seq<char>,
    timestamp_us: u64,
)
    ensures
        ({
            let ms = crate::signaling::log_members(level, target, message, timestamp_us);
            &&& ms.len() == 5
            &&& ms.contains((seq!["type"@], MemberState::Text("log"@)))
            &&& ms.contains((seq!["level"@], MemberState::Text(level)))
            &&& ms.contains((seq!["target"@], MemberState::Text(target)))
            &&& ms.contains((seq!["message"@], MemberState::Text(message)))
            &&& ms.contains((seq!["timestamp_us"@], MemberState::Number(timestamp_us)))
        }),
{
    let ms = crate::signaling::log_members(level, target, message, timestamp_us);
    assert(ms[0] == (seq!["type"@], MemberState::Text("log"@)));
    assert(ms[1] == (seq!["level"@], MemberState::Text(level)));
    assert(ms[2] == (seq!["target"@], MemberState::Text(target)));
    assert(ms[3] == (seq!["message"@], MemberState::Text(message)));
    assert(ms[4] == (seq!["timestamp_us"@], MemberState::Number(timestamp_us)));
}

/// A metrics report says what the channel, the plugin and the drops are, and every count
/// of every peer under the peer's id; times that are not known are not said, and a drift
/// that is not known is null.
pub proof fn law_metrics_report_says_all(
    dc_open: bool,
    plugin_connected: bool,
    per_peer: Seq<(String, crate::protocol::PeerFrameReport)>,
    ipc_drops: u64,
    drift: Option<i64>,
    i: int,
)
    requires
        0 <= i < per_peer.len(),
    ensures
        ({
            let ms = crate::signaling::metrics_members(
                dc_open,
                plugin_connected,
                per_peer,
                ipc_drops,
                drift,
            );
            let p = per_peer[i].0@;
            let r = per_peer[i].1;
            let at = |key: Seq<char>| seq!["per_peer"@, p, key];
            &&& ms.contains((seq!["type"@], MemberState::Text("metrics_report"@)))
            &&& ms.contains((seq!["dc_open"@], MemberState::Flag(dc_open)))
            &&& ms.contains((seq!["plugin_connected"@], MemberState::Flag(plugin_connected)))
            &&& ms.contains((seq!["ipc_drops"@], MemberState::Number(ipc_drops)))
            &&& ms.contains((seq!["boundary_drift_us"@], MemberState::Signed(drift)))
            &&& ms.contains((at("frames_expected"@), MemberState::Number(r.frames_expected)))
            &&& ms.contains((at("frames_received"@), MemberState::Number(r.frames_received)))
            &&& ms.contains((at("dc_drops"@), MemberState::Number(r.dc_drops)))
            &&& ms.contains((at("late_frames"@), MemberState::Number(r.late_frames)))
            &&& ms.contains((at("decode_failures"@), MemberState::Number(r.decode_failures)))
            &&& r.rtt_us is Some ==> ms.contains((at("rtt_us"@), MemberState::Signed(r.rtt_us)))
            &&& r.jitter_us is Some ==> ms.contains(
                (at("jitter_us"@), MemberState::Signed(r.jitter_us)),
            )
        }),
{
    let ms = crate::signaling::metrics_members(dc_open, plugin_connected, per_peer, ipc_drops, drift);
    let all = crate::signaling::all_report_members(per_peer);
    let n = ms.len() as int;
    assert(ms[0] == (seq!["type"@], MemberState::Text("metrics_report"@)));
    assert(ms[1] == (seq!["dc_open"@], MemberState::Flag(dc_open)));
    assert(ms[2] == (seq!["plugin_connected"@], MemberState::Flag(plugin_connected)));
    assert(ms[n - 2] == (seq!["ipc_drops"@], MemberState::Number(ipc_drops)));
    assert(ms[n - 1] == (seq!["boundary_drift_us"@], MemberState::Signed(drift)));
    lemma_reported(per_peer, i);
    let one = crate::signaling::report_members(per_peer[i].0@, per_peer[i].1);
    assert forall|e: (Seq<Seq<char>>, MemberState)| one.contains(e) implies #[trigger] ms.contains(
        e,
    ) by {
        assert(all.contains(e));
        let j = choose|j: int| 0 <= j < all.len() && all[j] == e;
        assert(ms[4 + j] == e);
    }
    let r = per_peer[i].1;
    let p = per_peer[i].0@;
    let m = one.len() as int;
    assert(one.contains(one[0]) && one.contains(one[1]));
    assert(one.contains(one[m - 3]) && one.contains(one[m - 2]) && one.contains(one[m - 1]));
    if r.rtt_us is Some {
        assert(one.contains(one[2]));
        assert(one[2] == (seq!["per_peer"@, p, "rtt_us"@], MemberState::Signed(r.rtt_us)));
    }
    if r.jitter_us is Some {
        assert(one.contains(one[m - 4]));
        assert(one[m - 4] == (
            seq!["per_peer"@, p, "jitter_us"@],
            MemberState::Signed(r.jitter_us),
        ));
    }
}

proof fn lemma_reported(per_peer: Seq<(String, crate::protocol::PeerFrameReport)>, i: int)
    requires
        0 <= i < per_peer.len(),
    ensures
        forall|e: (Seq<Seq<char>>, MemberState)|
            crate::signaling::report_members(per_peer[i].0@, per_peer[i].1).contains(e)
                ==> #[trigger] crate::signaling::all_report_members(per_peer).contains(e),
    decreases per_peer.len(),
{
    let front = per_peer.drop_last();
    let a = crate::signaling::all_report_members(front);
    let b = crate::signaling::report_members(per_peer.last().0@, per_peer.last().1);
    let all = crate::signaling::all_report_members(per_peer);
    if i < front.len() {
        lemma_reported(front, i);
    }
    assert forall|e: (Seq<Seq<char>>, MemberState)|
        crate::signaling::report_members(
            per_peer[i].0@,
            per_peer[i].1,
        ).contains(e) implies #[trigger] all.contains(e) by {
        if i < front.len() {
            assert(a.contains(e));
            let j = choose|j: int| 0 <= j < a.len() && a[j] == e;
            assert(all[j] == e);
        } else {
            let j = choose|j: int| 0 <= j < b.len() && b[j] == e;
            assert(all[a.len() + j] == e);
        }
    }
}

/// Where messages of the server go: who joins, who leaves and what is logged goes to the
/// control plane with all it says, sync messages that could be read to their receiver with
/// who sent them, and being evicted ends reading; the rest goes nowhere.
pub proof fn law_server_messages_are_delivered(
    peer_id: String,
    display_name: Option<String>,
    message: crate::protocol::SyncMessage,
    level: String,
    target: String,
    text: String,
    timestamp_us: u64,
)
    ensures
        crate::signaling::delivery_of(
            crate::signaling::ServerMsg::PeerJoined { peer_id, display_name },
        ) == crate::signaling::Delivery::Control(
            SignalMessage::PeerJoined { peer_id, display_name },
        ),
        crate::signaling::delivery_of(crate::signaling::ServerMsg::PeerLeft { peer_id })
            == crate::signaling::Delivery::Control(SignalMessage::PeerLeft { peer_id }),
        crate::signaling::delivery_of(
            crate::signaling::ServerMsg::Sync { from: peer_id, payload: Some(message) },
        ) == (crate::signaling::Delivery::Sync { from: peer_id, message }),
        crate::signaling::delivery_of(
            crate::signaling::ServerMsg::Sync { from: peer_id, payload: None },
        ) is Nothing,
        crate::signaling::delivery_of(
            crate::signaling::ServerMsg::Log {
                from: peer_id,
                level,
                target,
                message: text,
                timestamp_us,
            },
        ) == crate::signaling::Delivery::Control(
            SignalMessage::LogBroadcast { from: peer_id, level, target, message: text, timestamp_us },
        ),
        crate::signaling::delivery_of(crate::signaling::ServerMsg::Evicted) is Stop,
        crate::signaling::delivery_of(crate::signaling::ServerMsg::Signal) is Nothing,
{
}

/// A refusal says what the server said: how many stream slots are left, which version is
/// asked for, or the code itself where it is not a known one.
pub proof fn law_refusal_says_why(
    code: Seq<char>,
    min_version: Option<Seq<char>>,
    slots: Option<u64>,
    version: Seq<char>,
)
    ensures
        ({
            let t = crate::signaling::join_error_text(code, min_version, slots, version);
            let known = code == "unauthorized"@ || code == "room_full"@ || code
                == "version_outdated"@;
            &&& !known ==> t == "Join failed: "@ + code
            &&& code == "unauthorized"@ ==> t
                == "Invalid room password — the room exists and the password doesn't match"@
            &&& code == "room_full"@ && slots is Some ==> t == "Room full — only "@
                + crate::text::decimal(slots->0 as nat) + " stream slots available"@
            &&& code == "version_outdated"@ && min_version is Some ==> t
                == "Your WAIL version ("@ + version
                + ") is outdated. Please update to at least version "@ + min_version->0 + "."@
        }),
{
    reveal_strlit("unauthorized");
    reveal_strlit("room_full");
    reveal_strlit("version_outdated");
    assert("unauthorized"@.len() == 12);
    assert("room_full"@.len() == 9);
    assert("version_outdated"@.len() == 16);
}

} // verus!
