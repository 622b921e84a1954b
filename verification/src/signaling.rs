//! What is said to the signaling server, and what its messages mean.

use vstd::prelude::*;
use vstd::utf8::*;

use crate::protocol::{PeerFrameReport, SignalMessage, SyncMessage};
use crate::text::{push_decimal, same_text, text_from_utf8};

verus! {

/// What stands at a place of a JSON object.
pub enum Member {
    Text(String),
    Number(u64),
    /// A signed number, or null.
    Signed(Option<i64>),
    Flag(bool),
    /// An object without members.
    Object,
}

/// What a member says.
#[verifier::ext_equal]
pub enum MemberState {
    Text(Seq<char>),
    Number(u64),
    Signed(Option<i64>),
    Flag(bool),
    Object,
}

impl View for Member {
    type V = MemberState;

    open spec fn view(&self) -> MemberState {
        match self {
            Member::Text(v) => MemberState::Text(v@),
            Member::Number(v) => MemberState::Number(*v),
            Member::Signed(v) => MemberState::Signed(*v),
            Member::Flag(v) => MemberState::Flag(*v),
            Member::Object => MemberState::Object,
        }
    }
}

/// What a list of members says: the keys that lead to each, from the outermost, and
/// what stands there.
pub open spec fn members_of(s: Seq<(Vec<String>, Member)>) -> Seq<(Seq<Seq<char>>, MemberState)> {
    s.map_values(|p: (Vec<String>, Member)| (keys_of(p.0@), p.1@))
}

/// What a list of keys says.
pub open spec fn keys_of(s: Seq<String>) -> Seq<Seq<char>> {
    s.map_values(|k: String| k@)
}

/// Whether every place above a member is an object when the members are put in place one
/// after the other.
pub open spec fn nests(s: Seq<(Seq<Seq<char>>, MemberState)>) -> bool {
    forall|i: int, j: int|
        0 <= i < j < s.len() && (#[trigger] s[i]).1 !is Object && s[i].0.len() < (
        #[trigger] s[j]).0.len() ==> s[j].0.take(s[i].0.len() as int) != s[i].0
}

/// The text that `serde_json` writes for an object into which these members were put,
/// one after the other, each at the place that its keys lead to.
pub uninterp spec fn json_object(members: Seq<(Seq<Seq<char>>, MemberState)>) -> Seq<char>;

/// `serde_json::Value::to_string` on an object into which the members were put by
/// `IndexMut`, which makes the objects that lead to a place and panics where something
/// else is in the way. What the text looks like is a function of the members, which is
/// only named.
#[verifier::external_body]
fn json_object_text(members: &Vec<(Vec<String>, Member)>) -> (r: String)
    requires
        nests(members_of(members@)),
    ensures
        r@ == json_object(members_of(members@)),
{
    let mut root = serde_json::Value::Object(serde_json::Map::new());
    for (path, member) in members {
        let mut at = &mut root;
        for key in path {
            at = &mut at[key.as_str()];
        }
        *at = match member {
            Member::Text(v) => v.as_str().into(),
            Member::Number(v) => (*v).into(),
            Member::Signed(v) => (*v).into(),
            Member::Flag(v) => (*v).into(),
            Member::Object => serde_json::Map::new().into(),
        };
    }
    root.to_string()
}

/// A text member of the outermost object.
pub open spec fn text(key: Seq<char>, v: Seq<char>) -> (Seq<Seq<char>>, MemberState) {
    (seq![key], MemberState::Text(v))
}

/// A number member of the outermost object.
pub open spec fn number(key: Seq<char>, v: u64) -> (Seq<Seq<char>>, MemberState) {
    (seq![key], MemberState::Number(v))
}

fn push_member(out: &mut Vec<(Vec<String>, Member)>, key: &str, value: Member)
    ensures
        members_of(final(out)@) == members_of(old(out)@).push((seq![key@], value@)),
{
    let mut path: Vec<String> = Vec::new();
    path.push(key.to_string());
    assert(keys_of(path@) =~= seq![key@]);
    out.push((path, value));
    assert(members_of(out@) =~= members_of(old(out)@).push((seq![key@], value@)));
}

fn push_text(out: &mut Vec<(Vec<String>, Member)>, key: &str, value: &str)
    ensures
        members_of(final(out)@) == members_of(old(out)@).push(text(key@, value@)),
{
    push_member(out, key, Member::Text(value.to_string()));
}

/// A text without its trailing slashes.
pub open spec fn without_trailing_slashes(s: Seq<char>) -> Seq<char>
    decreases s.len(),
{
    if s.len() > 0 && s.last() == '/' {
        without_trailing_slashes(s.drop_last())
    } else {
        s
    }
}

/// Whether `s` starts with `p`.
pub open spec fn starts_with(s: Seq<char>, p: Seq<char>) -> bool {
    s.len() >= p.len() && s.take(p.len() as int) == p
}

/// `s` with every occurrence of `from`, found from left to right, replaced by `to`.
pub open spec fn replaced(s: Seq<char>, from: Seq<char>, to: Seq<char>) -> Seq<char>
    decreases s.len(),
{
    if s.len() == 0 || from.len() == 0 {
        s
    } else if starts_with(s, from) {
        to + replaced(s.skip(from.len() as int), from, to)
    } else {
        seq![s[0]] + replaced(s.skip(1), from, to)
    }
}

/// The address of the room endpoint of a server.
pub open spec fn ws_address(server: Seq<char>) -> Seq<char> {
    without_trailing_slashes(server) + "/ws"@
}

/// The address of the public room list of a server.
pub open spec fn rooms_address(server: Seq<char>) -> Seq<char> {
    without_trailing_slashes(
        replaced(replaced(server, "wss://"@, "https://"@), "ws://"@, "http://"@),
    ) + "/rooms"@
}

fn trim_slashes(s: &str) -> (r: String)
    ensures
        r@ == without_trailing_slashes(s@),
{
    let mut n: usize = s.unicode_len();
    assert(s@.take(n as int) =~= s@);
    while n > 0 && s.get_char(n - 1) == '/'
        invariant
            n <= s@.len(),
            without_trailing_slashes(s@.take(n as int)) == without_trailing_slashes(s@),
        decreases n,
    {
        assert(s@.take(n as int).drop_last() =~= s@.take(n - 1));
        assert(s@.take(n as int).last() == '/');
        n -= 1;
    }
    let r = s.substring_char(0, n).to_string();
    assert(r@ =~= s@.take(n as int));
    assert(without_trailing_slashes(s@.take(n as int)) == s@.take(n as int)) by {
        if n > 0 {
            assert(s@.take(n as int).last() == s@[n - 1]);
        }
    }
    r
}

fn replace_all(s: &str, from: &str, to: &str) -> (r: String)
    requires
        from@.len() > 0,
    ensures
        r@ == replaced(s@, from@, to@),
{
    let len: usize = s.unicode_len();
    let k: usize = from.unicode_len();
    let mut out = String::new();
    let mut i: usize = 0;
    assert(s@.skip(0) =~= s@);
    assert(out@ + replaced(s@, from@, to@) =~= replaced(s@, from@, to@));
    while i < len
        invariant
            len == s@.len(),
            k == from@.len(),
            k > 0,
            i <= len,
            out@ + replaced(s@.skip(i as int), from@, to@) == replaced(s@, from@, to@),
        decreases len - i,
    {
        let ghost rest = s@.skip(i as int);
        let ghost before = out@;
        let mut found = false;
        if len - i >= k {
            let piece = s.substring_char(i, i + k);
            assert(piece@ =~= rest.take(k as int));
            found = same_text(piece, from);
        }
        assert(found == starts_with(rest, from@));
        if found {
            out.append(to);
            i = i + k;
            proof {
                assert(rest.skip(k as int) =~= s@.skip(i as int));
                let tail = replaced(s@.skip(i as int), from@, to@);
                assert(before + (to@ + tail) =~= out@ + tail);
            }
        } else {
            let c = s.substring_char(i, i + 1);
            assert(c@ =~= seq![rest[0]]);
            out.append(c);
            i = i + 1;
            proof {
                assert(rest.skip(1) =~= s@.skip(i as int));
                let tail = replaced(s@.skip(i as int), from@, to@);
                assert(before + (seq![rest[0]] + tail) =~= out@ + tail);
            }
        }
    }
    assert(s@.skip(i as int).len() == 0);
    assert(out@ =~= replaced(s@, from@, to@));
    out
}

/// The address of the room endpoint of a server: `/ws` below its base address.
pub fn ws_url(server_url: &str) -> (r: String)
    ensures
        r@ == ws_address(server_url@),
{
    trim_slashes(server_url).concat("/ws")
}

/// The address of the public room list of a server: `/rooms` below its base
/// address, over HTTP.
pub fn rooms_url(base_url: &str) -> (r: String)
    ensures
        r@ == rooms_address(base_url@),
{
    proof {
        reveal_strlit("wss://");
        reveal_strlit("ws://");
    }
    let secure = replace_all(base_url, "wss://", "https://");
    let http = replace_all(secure.as_str(), "ws://", "http://");
    trim_slashes(http.as_str()).concat("/rooms")
}

/// The members of a request to join a room.
pub open spec fn join_members(
    room: Seq<char>,
    peer_id: Seq<char>,
    password: Option<Seq<char>>,
    stream_count: u16,
    display_name: Option<Seq<char>>,
    version: Seq<char>,
) -> Seq<(Seq<Seq<char>>, MemberState)> {
    seq![
        text("type"@, "join"@),
        text("room"@, room),
        text("peer_id"@, peer_id),
        text("client_version"@, version),
        number("stream_count"@, stream_count as u64),
    ] + (match password {
        Some(p) => seq![text("password"@, p)],
        None => Seq::empty(),
    }) + (match display_name {
        Some(n) => seq![text("display_name"@, n)],
        None => Seq::empty(),
    })
}

/// The members of a log entry.
pub open spec fn log_members(
    level: Seq<char>,
    target: Seq<char>,
    message: Seq<char>,
    timestamp_us: u64,
) -> Seq<(Seq<Seq<char>>, MemberState)> {
    seq![
        text("type"@, "log"@),
        text("level"@, level),
        text("target"@, target),
        text("message"@, message),
        number("timestamp_us"@, timestamp_us),
    ]
}

/// A member of the report on a peer.
pub open spec fn report_member(peer: Seq<char>, key: Seq<char>, v: MemberState) -> (
    Seq<Seq<char>>,
    MemberState,
) {
    (seq!["per_peer"@, peer, key], v)
}

/// The members of the report on a peer. Times that are not known are left out.
pub open spec fn report_members(peer: Seq<char>, r: PeerFrameReport) -> Seq<
    (Seq<Seq<char>>, MemberState),
> {
    seq![
        report_member(peer, "frames_expected"@, MemberState::Number(r.frames_expected)),
        report_member(peer, "frames_received"@, MemberState::Number(r.frames_received)),
    ] + (if r.rtt_us is Some {
        seq![report_member(peer, "rtt_us"@, MemberState::Signed(r.rtt_us))]
    } else {
        Seq::empty()
    }) + (if r.jitter_us is Some {
        seq![report_member(peer, "jitter_us"@, MemberState::Signed(r.jitter_us))]
    } else {
        Seq::empty()
    }) + seq![
        report_member(peer, "dc_drops"@, MemberState::Number(r.dc_drops)),
        report_member(peer, "late_frames"@, MemberState::Number(r.late_frames)),
        report_member(peer, "decode_failures"@, MemberState::Number(r.decode_failures)),
    ]
}

/// The members of the reports on all peers.
pub open spec fn all_report_members(per_peer: Seq<(String, PeerFrameReport)>) -> Seq<
    (Seq<Seq<char>>, MemberState),
>
    decreases per_peer.len(),
{
    if per_peer.len() == 0 {
        Seq::empty()
    } else {
        all_report_members(per_peer.drop_last()) + report_members(
            per_peer.last().0@,
            per_peer.last().1,
        )
    }
}

/// The members of a metrics report. A drift that is not known is null.
pub open spec fn metrics_members(
    dc_open: bool,
    plugin_connected: bool,
    per_peer: Seq<(String, PeerFrameReport)>,
    ipc_drops: u64,
    boundary_drift_us: Option<i64>,
) -> Seq<(Seq<Seq<char>>, MemberState)> {
    seq![
        text("type"@, "metrics_report"@),
        (seq!["dc_open"@], MemberState::Flag(dc_open)),
        (seq!["plugin_connected"@], MemberState::Flag(plugin_connected)),
        (seq!["per_peer"@], MemberState::Object),
    ] + all_report_members(per_peer) + seq![
        number("ipc_drops"@, ipc_drops),
        (seq!["boundary_drift_us"@], MemberState::Signed(boundary_drift_us)),
    ]
}

/// The text of an optional `str`.
pub open spec fn opt_str(s: Option<&str>) -> Option<Seq<char>> {
    match s {
        Some(t) => Some(t@),
        None => None,
    }
}

/// A request to join a room.
pub fn join_request(
    room: &str,
    peer_id: &str,
    password: Option<&str>,
    stream_count: u16,
    display_name: Option<&str>,
    client_version: &str,
) -> (r: String)
    ensures
        r@ == json_object(
            join_members(
                room@,
                peer_id@,
                opt_str(password),
                stream_count,
                opt_str(display_name),
                client_version@,
            ),
        ),
{
    let mut members: Vec<(Vec<String>, Member)> = Vec::new();
    push_text(&mut members, "type", "join");
    push_text(&mut members, "room", room);
    push_text(&mut members, "peer_id", peer_id);
    push_text(&mut members, "client_version", client_version);
    push_member(&mut members, "stream_count", Member::Number(stream_count as u64));
    if let Some(p) = password {
        push_text(&mut members, "password", p);
    }
    if let Some(n) = display_name {
        push_text(&mut members, "display_name", n);
    }
    assert(members_of(members@) =~= join_members(
        room@,
        peer_id@,
        opt_str(password),
        stream_count,
        opt_str(display_name),
        client_version@,
    ));
    json_object_text(&members)
}

/// A log entry for the other peers of the room. The server fills in who sent it.
pub fn log_message(level: &str, target: &str, message: &str, timestamp_us: u64) -> (r: String)
    ensures
        r@ == json_object(log_members(level@, target@, message@, timestamp_us)),
{
    let mut members: Vec<(Vec<String>, Member)> = Vec::new();
    push_text(&mut members, "type", "log");
    push_text(&mut members, "level", level);
    push_text(&mut members, "target", target);
    push_text(&mut members, "message", message);
    push_member(&mut members, "timestamp_us", Member::Number(timestamp_us));
    assert(members_of(members@) =~= log_members(level@, target@, message@, timestamp_us));
    json_object_text(&members)
}

/// What is said when the connection is closed: a leave message, unless it is
/// suppressed because the client reconnects.
pub fn closing_message(leave_suppressed: bool) -> (r: Option<String>)
    ensures
        match r {
            Some(t) => !leave_suppressed && t@ == json_object(seq![text("type"@, "leave"@)]),
            None => leave_suppressed,
        },
{
    if leave_suppressed {
        return None;
    }
    let mut members: Vec<(Vec<String>, Member)> = Vec::new();
    push_text(&mut members, "type", "leave");
    assert(members_of(members@) =~= seq![text("type"@, "leave"@)]);
    Some(json_object_text(&members))
}

fn push_report_member(
    out: &mut Vec<(Vec<String>, Member)>,
    peer: &str,
    key: &str,
    value: Member,
)
    ensures
        members_of(final(out)@) == members_of(old(out)@).push(report_member(peer@, key@, value@)),
{
    let mut path: Vec<String> = Vec::new();
    path.push("per_peer".to_string());
    path.push(peer.to_string());
    path.push(key.to_string());
    assert(keys_of(path@) =~= seq!["per_peer"@, peer@, key@]);
    out.push((path, value));
    assert(members_of(out@) =~= members_of(old(out)@).push(report_member(peer@, key@, value@)));
}

fn push_report(out: &mut Vec<(Vec<String>, Member)>, peer: &str, report: &PeerFrameReport)
    ensures
        members_of(final(out)@) == members_of(old(out)@) + report_members(peer@, *report),
{
    push_report_member(out, peer, "frames_expected", Member::Number(report.frames_expected));
    push_report_member(out, peer, "frames_received", Member::Number(report.frames_received));
    if report.rtt_us.is_some() {
        push_report_member(out, peer, "rtt_us", Member::Signed(report.rtt_us));
    }
    if report.jitter_us.is_some() {
        push_report_member(out, peer, "jitter_us", Member::Signed(report.jitter_us));
    }
    push_report_member(out, peer, "dc_drops", Member::Number(report.dc_drops));
    push_report_member(out, peer, "late_frames", Member::Number(report.late_frames));
    push_report_member(out, peer, "decode_failures", Member::Number(report.decode_failures));
    assert(members_of(out@) =~= members_of(old(out)@) + report_members(peer@, *report));
}

/// All members of the reports on peers stand below the same key.
proof fn lemma_reports_are_nested(per_peer: Seq<(String, PeerFrameReport)>)
    ensures
        forall|i: int|
            0 <= i < all_report_members(per_peer).len() ==> (#[trigger] all_report_members(
                per_peer,
            )[i]).0.len() == 3 && all_report_members(per_peer)[i].0[0] == "per_peer"@,
    decreases per_peer.len(),
{
    if per_peer.len() > 0 {
        lemma_reports_are_nested(per_peer.drop_last());
        let before = all_report_members(per_peer.drop_last());
        let last = report_members(per_peer.last().0@, per_peer.last().1);
        assert forall|i: int| 0 <= i < all_report_members(per_peer).len() implies (
        #[trigger] all_report_members(per_peer)[i]).0.len() == 3 && all_report_members(
            per_peer,
        )[i].0[0] == "per_peer"@ by {
            if i < before.len() {
                assert(all_report_members(per_peer)[i] == before[i]);
            } else {
                assert(all_report_members(per_peer)[i] == last[i - before.len()]);
            }
        }
    }
}

/// Nothing is in the way of the reports on peers.
proof fn lemma_metrics_nest(
    dc_open: bool,
    plugin_connected: bool,
    per_peer: Seq<(String, PeerFrameReport)>,
    ipc_drops: u64,
    boundary_drift_us: Option<i64>,
)
    ensures
        nests(
            metrics_members(dc_open, plugin_connected, per_peer, ipc_drops, boundary_drift_us),
        ),
{
    let s = metrics_members(dc_open, plugin_connected, per_peer, ipc_drops, boundary_drift_us);
    let reports = all_report_members(per_peer);
    lemma_reports_are_nested(per_peer);
    reveal_strlit("per_peer");
    reveal_strlit("type");
    reveal_strlit("dc_open");
    reveal_strlit("plugin_connected");
    assert forall|i: int, j: int|
        0 <= i < j < s.len() && (#[trigger] s[i]).1 !is Object && s[i].0.len() < (
        #[trigger] s[j]).0.len() implies s[j].0.take(s[i].0.len() as int) != s[i].0 by {
        if i >= 4 && i < 4 + reports.len() {
            assert(s[i] == reports[i - 4]);
        }
        if j >= 4 && j < 4 + reports.len() {
            assert(s[j] == reports[j - 4]);
            assert(s[j].0.take(1)[0] == "per_peer"@);
            assert(s[i].0[0] != "per_peer"@);
        }
    }
}

/// A metrics report for the server.
pub fn metrics_message(
    dc_open: bool,
    plugin_connected: bool,
    per_peer: &Vec<(String, PeerFrameReport)>,
    ipc_drops: u64,
    boundary_drift_us: Option<i64>,
) -> (r: String)
    ensures
        r@ == json_object(
            metrics_members(dc_open, plugin_connected, per_peer@, ipc_drops, boundary_drift_us),
        ),
{
    let mut members: Vec<(Vec<String>, Member)> = Vec::new();
    push_text(&mut members, "type", "metrics_report");
    push_member(&mut members, "dc_open", Member::Flag(dc_open));
    push_member(&mut members, "plugin_connected", Member::Flag(plugin_connected));
    push_member(&mut members, "per_peer", Member::Object);
    let ghost head = members_of(members@);
    let mut i: usize = 0;
    assert(head =~= head + all_report_members(per_peer@.take(0)));
    while i < per_peer.len()
        invariant
            i <= per_peer.len(),
            members_of(members@) == head + all_report_members(per_peer@.take(i as int)),
        decreases per_peer.len() - i,
    {
        proof {
            assert(per_peer@.take(i + 1).drop_last() =~= per_peer@.take(i as int));
        }
        push_report(&mut members, per_peer[i].0.as_str(), &per_peer[i].1);
        i += 1;
        assert(members_of(members@) =~= head + all_report_members(per_peer@.take(i as int)));
    }
    push_member(&mut members, "ipc_drops", Member::Number(ipc_drops));
    push_member(&mut members, "boundary_drift_us", Member::Signed(boundary_drift_us));
    proof {
        assert(per_peer@.take(i as int) =~= per_peer@);
        assert(members_of(members@) =~= metrics_members(
            dc_open,
            plugin_connected,
            per_peer@,
            ipc_drops,
            boundary_drift_us,
        ));
        lemma_metrics_nest(dc_open, plugin_connected, per_peer@, ipc_drops, boundary_drift_us);
    }
    json_object_text(&members)
}

/// What an outgoing control message is put on the wire as: log entries and metrics
/// reports are sent, everything else comes from the server only.
pub fn outgoing(msg: &SignalMessage) -> (r: Option<String>)
    ensures
        match *msg {
            SignalMessage::LogBroadcast { level, target, message, timestamp_us, .. } => {
                r matches Some(t) && t@ == json_object(
                    log_members(level@, target@, message@, timestamp_us),
                )
            },
            SignalMessage::MetricsReport {
                dc_open,
                plugin_connected,
                per_peer,
                ipc_drops,
                boundary_drift_us,
            } => {
                r matches Some(t) && t@ == json_object(
                    metrics_members(
                        dc_open,
                        plugin_connected,
                        per_peer@,
                        ipc_drops,
                        boundary_drift_us,
                    ),
                )
            },
            _ => r is None,
        },
{
    match msg {
        SignalMessage::LogBroadcast { level, target, message, timestamp_us, .. } => Some(
            log_message(level.as_str(), target.as_str(), message.as_str(), *timestamp_us),
        ),
        SignalMessage::MetricsReport {
            dc_open,
            plugin_connected,
            per_peer,
            ipc_drops,
            boundary_drift_us,
        } => Some(
            metrics_message(
                *dc_open,
                *plugin_connected,
                per_peer,
                *ipc_drops,
                *boundary_drift_us,
            ),
        ),
        _ => None,
    }
}

/// A public room of a signaling server.
#[derive(Debug)]
pub struct PublicRoom {
    pub room: String,
    pub created_at: i64,
    pub peer_count: u32,
    pub display_names: Vec<String>,
    /// Bit pattern of the tempo, if it is known.
    pub bpm_bits: Option<u64>,
}

/// Messages of the server.
pub enum ServerMsg {
    JoinOk { peers: Vec<String>, peer_display_names: Vec<(String, Option<String>)> },
    JoinError { code: String, min_version: Option<String>, slots_available: Option<u64> },
    PeerJoined { peer_id: String, display_name: Option<String> },
    PeerLeft { peer_id: String },
    /// Negotiation between peers: ignored.
    Signal,
    /// Sync message relayed from another peer; absent when it could not be read.
    Sync { from: String, payload: Option<SyncMessage> },
    Evicted,
    Log { from: String, level: String, target: String, message: String, timestamp_us: u64 },
}

/// What is known of a room on joining it.
pub struct Joined {
    pub peers: Vec<String>,
    pub peer_display_names: Vec<(String, Option<String>)>,
}

/// The text of a refusal to let the client join.
pub open spec fn join_error_text(
    code: Seq<char>,
    min_version: Option<Seq<char>>,
    slots_available: Option<u64>,
    client_version: Seq<char>,
) -> Seq<char> {
    if code == "unauthorized"@ {
        "Invalid room password — the room exists and the password doesn't match"@
    } else if code == "room_full"@ {
        "Room full — only "@ + crate::text::decimal(
            match slots_available {
                Some(n) => n as nat,
                None => 0,
            },
        ) + " stream slots available"@
    } else if code == "version_outdated"@ {
        "Your WAIL version ("@ + client_version
            + ") is outdated. Please update to at least version "@ + (match min_version {
            Some(v) => v,
            None => "unknown"@,
        }) + "."@
    } else {
        "Join failed: "@ + code
    }
}

fn join_error(
    code: &str,
    min_version: &Option<String>,
    slots_available: Option<u64>,
    client_version: &str,
) -> (r: String)
    ensures
        r@ == join_error_text(
            code@,
            crate::protocol::opt_text(*min_version),
            slots_available,
            client_version@,
        ),
{
    if same_text(code, "unauthorized") {
        "Invalid room password — the room exists and the password doesn't match".to_string()
    } else if same_text(code, "room_full") {
        let mut out = "Room full — only ".to_string();
        push_decimal(
            &mut out,
            match slots_available {
                Some(n) => n,
                None => 0,
            },
        );
        out.append(" stream slots available");
        out
    } else if same_text(code, "version_outdated") {
        let mut out = "Your WAIL version (".to_string();
        out.append(client_version);
        out.append(") is outdated. Please update to at least version ");
        match min_version {
            Some(v) => {
                out.append(v.as_str());
            },
            None => {
                out.append("unknown");
            },
        }
        out.append(".");
        out
    } else {
        let mut out = "Join failed: ".to_string();
        out.append(code);
        out
    }
}

/// What the server's answer to a join request means.
pub fn join_outcome(msg: ServerMsg, client_version: &str) -> (r: Result<Joined, String>)
    ensures
        match msg {
            ServerMsg::JoinOk { peers, peer_display_names } => r == Ok::<Joined, String>(
                Joined { peers, peer_display_names },
            ),
            ServerMsg::JoinError { code, min_version, slots_available } => r is Err && r->Err_0@
                == join_error_text(
                code@,
                crate::protocol::opt_text(min_version),
                slots_available,
                client_version@,
            ),
            _ => r is Err && r->Err_0@ == "Unexpected server message before join_ok"@,
        },
{
    match msg {
        ServerMsg::JoinOk { peers, peer_display_names } => Ok(
            Joined { peers, peer_display_names },
        ),
        ServerMsg::JoinError { code, min_version, slots_available } => Err(
            join_error(code.as_str(), &min_version, slots_available, client_version),
        ),
        _ => Err("Unexpected server message before join_ok".to_string()),
    }
}

/// What came in while waiting for the answer to a join request.
pub enum JoinEvent {
    /// A text message.
    Text,
    /// The connection was closed, or ended.
    Closed,
    /// The connection failed, with this error.
    Failed(String),
    /// Anything else.
    Other,
}

/// What to do while waiting for the answer to a join request.
pub enum JoinStep {
    /// Read the text as the answer.
    Read,
    /// Go on waiting.
    Wait,
    /// Give up with this error.
    Fail(String),
}

/// What to do while waiting for the answer to a join request.
pub fn join_step(event: JoinEvent) -> (r: JoinStep)
    ensures
        match event {
            JoinEvent::Text => r is Read,
            JoinEvent::Closed => r matches JoinStep::Fail(t) && t@
                == "WebSocket closed before join response"@,
            JoinEvent::Failed(e) => r matches JoinStep::Fail(t) && t@
                == "WebSocket error waiting for join response: "@ + e@,
            JoinEvent::Other => r is Wait,
        },
{
    match event {
        JoinEvent::Text => JoinStep::Read,
        JoinEvent::Closed => JoinStep::Fail("WebSocket closed before join response".to_string()),
        JoinEvent::Failed(e) => JoinStep::Fail(
            "WebSocket error waiting for join response: ".to_string().concat(e.as_str()),
        ),
        JoinEvent::Other => JoinStep::Wait,
    }
}

/// Where a server message goes.
pub enum Delivery {
    /// To the control plane.
    Control(SignalMessage),
    /// To the receiver of sync messages.
    Sync { from: String, message: SyncMessage },
    /// Nowhere; reading stops.
    Stop,
    /// Nowhere.
    Nothing,
}

/// Where a server message goes once the room is joined.
pub open spec fn delivery_of(msg: ServerMsg) -> Delivery {
    match msg {
        ServerMsg::PeerJoined { peer_id, display_name } => Delivery::Control(
            SignalMessage::PeerJoined { peer_id, display_name },
        ),
        ServerMsg::PeerLeft { peer_id } => Delivery::Control(SignalMessage::PeerLeft { peer_id }),
        ServerMsg::Sync { from, payload } => match payload {
            Some(m) => Delivery::Sync { from, message: m },
            None => Delivery::Nothing,
        },
        ServerMsg::Evicted => Delivery::Stop,
        ServerMsg::Log { from, level, target, message, timestamp_us } => Delivery::Control(
            SignalMessage::LogBroadcast { from, level, target, message, timestamp_us },
        ),
        _ => Delivery::Nothing,
    }
}

/// Where a server message goes once the room is joined.
pub fn deliver(msg: ServerMsg) -> (r: Delivery)
    ensures
        r == delivery_of(msg),
{
    match msg {
        ServerMsg::PeerJoined { peer_id, display_name } => Delivery::Control(
            SignalMessage::PeerJoined { peer_id, display_name },
        ),
        ServerMsg::PeerLeft { peer_id } => Delivery::Control(SignalMessage::PeerLeft { peer_id }),
        ServerMsg::Sync { from, payload } => match payload {
            Some(m) => Delivery::Sync { from, message: m },
            None => Delivery::Nothing,
        },
        ServerMsg::Evicted => Delivery::Stop,
        ServerMsg::Log { from, level, target, message, timestamp_us } => Delivery::Control(
            SignalMessage::LogBroadcast { from, level, target, message, timestamp_us },
        ),
        _ => Delivery::Nothing,
    }
}

/// Why a relayed binary frame is not audio.
#[derive(Debug, Clone, Copy, PartialEq, Eq)]
pub enum SenderError {
    Empty,
    /// Shorter than the sender header says.
    TooShort,
    /// The sender is not UTF-8.
    BadSender,
}

/// What a relayed binary frame says: who sent it, and the audio.
///
/// `[1 byte: peer_id_len][peer_id][audio_payload]`
pub open spec fn sender_frame(d: Seq<u8>) -> Result<(Seq<char>, Seq<u8>), SenderError> {
    if d.len() == 0 {
        Err(SenderError::Empty)
    } else if d.len() < 1 + d[0] {
        Err(SenderError::TooShort)
    } else if !valid_utf8(d.subrange(1, 1 + d[0])) {
        Err(SenderError::BadSender)
    } else {
        Ok((decode_utf8(d.subrange(1, 1 + d[0])), d.skip(1 + d[0])))
    }
}

/// The bytes in which the server relays audio of a peer.
pub open spec fn sender_frame_bytes(peer: Seq<char>, audio: Seq<u8>) -> Seq<u8> {
    seq![encode_utf8(peer).len() as u8] + encode_utf8(peer) + audio
}

/// Read a relayed binary frame.
pub fn parse_sender_frame(data: &[u8]) -> (r: Result<(String, Vec<u8>), SenderError>)
    ensures
        match r {
            Ok((peer, audio)) => sender_frame(data@) == Ok::<(Seq<char>, Seq<u8>), SenderError>(
                (peer@, audio@),
            ),
            Err(e) => sender_frame(data@) == Err::<(Seq<char>, Seq<u8>), SenderError>(e),
        },
{
    let len: usize = data.len();
    if len == 0 {
        return Err(SenderError::Empty);
    }
    let n: usize = data[0] as usize;
    if len - 1 < n {
        return Err(SenderError::TooShort);
    }
    let sender = vstd::slice::slice_subrange(data, 1, 1 + n);
    match text_from_utf8(sender) {
        Some(peer) => {
            let mut audio: Vec<u8> = Vec::new();
            audio.extend_from_slice(vstd::slice::slice_subrange(data, 1 + n, len));
            assert(audio@ =~= data@.skip(1 + data@[0]));
            Ok((peer, audio))
        },
        None => Err(SenderError::BadSender),
    }
}

/// A relayed frame gives its sender and its audio back. The sender's id has at most
/// 255 bytes.
pub proof fn law_sender_frame_round_trip(peer: Seq<char>, audio: Seq<u8>)
    requires
        encode_utf8(peer).len() <= 255,
    ensures
        sender_frame(sender_frame_bytes(peer, audio)) == Ok::<(Seq<char>, Seq<u8>), SenderError>(
            (peer, audio),
        ),
{
    let d = sender_frame_bytes(peer, audio);
    let n = encode_utf8(peer).len();
    assert(d[0] == n);
    assert(d.subrange(1, 1 + d[0]) =~= encode_utf8(peer));
    assert(d.skip(1 + d[0]) =~= audio);
    encode_utf8_valid_utf8(peer);
    encode_utf8_decode_utf8(peer);
}

} // verus!
