//! Presence of the peers of a room.

use vstd::prelude::*;

use crate::protocol::{PeerFrameReport, SignalMessage};
use crate::text::same_text;

verus! {

/// Events from the peer mesh.
#[derive(Debug)]
pub enum MeshEvent {
    PeerListReceived(usize),
    PeerJoined { peer_id: String, display_name: Option<String> },
    PeerLeft(String),
    SignalingProcessed,
    /// A structured log entry broadcast by a remote peer.
    PeerLogBroadcast {
        from: String,
        level: String,
        target: String,
        message: String,
        timestamp_us: u64,
    },
}

/// What a mesh knows.
#[verifier::ext_equal]
pub struct MeshState {
    /// The id of this peer.
    pub me: Seq<char>,
    /// The other peers in the room.
    pub peers: Set<Seq<char>>,
    /// Audio frames dropped because the outgoing queue was full, modulo 2^64.
    pub drops: u64,
}

/// The texts of a list of strings.
pub open spec fn texts(s: Seq<String>) -> Seq<Seq<char>> {
    s.map_values(|t: String| t@)
}

impl MeshState {
    /// The mesh after a list of the room's peers came in: all of them but this one
    /// are known besides those known before.
    pub open spec fn listed(self, peers: Seq<Seq<char>>) -> MeshState {
        MeshState {
            peers: Set::new(
                |p: Seq<char>| self.peers.contains(p) || (peers.contains(p) && p != self.me),
            ),
            ..self
        }
    }

    /// The mesh after a message of the server.
    pub open spec fn after(self, msg: SignalMessage) -> MeshState {
        match msg {
            SignalMessage::PeerList { peers } => self.listed(texts(peers@)),
            SignalMessage::PeerJoined { peer_id, .. } => MeshState {
                peers: self.peers.insert(peer_id@),
                ..self
            },
            SignalMessage::PeerLeft { peer_id } => MeshState {
                peers: self.peers.remove(peer_id@),
                ..self
            },
            _ => self,
        }
    }

    /// The mesh after a number of messages, one after the other.
    pub open spec fn after_all(self, msgs: Seq<SignalMessage>) -> MeshState
        decreases msgs.len(),
    {
        if msgs.len() == 0 {
            self
        } else {
            self.after_all(msgs.drop_last()).after(msgs.last())
        }
    }
}

spec fn members(s: Seq<String>) -> Set<Seq<char>> {
    Set::new(|p: Seq<char>| texts(s).contains(p))
}

spec fn no_repeats(s: Seq<String>) -> bool {
    forall|i: int, j: int| 0 <= i < j < s.len() ==> (#[trigger] s[i])@ != (#[trigger] s[j])@
}

/// The peers of a room, as announced by the signaling server.
pub struct PeerMesh {
    peer_id: String,
    /// Known peers in the room, each once.
    peers: Vec<String>,
    stream_count: u16,
    /// Display names of the peers that were in the room at join time.
    initial_peer_names: Vec<(String, Option<String>)>,
    audio_send_drops: u64,
}

impl View for PeerMesh {
    type V = MeshState;

    closed spec fn view(&self) -> MeshState {
        MeshState {
            me: self.peer_id@,
            peers: members(self.peers@),
            drops: self.audio_send_drops,
        }
    }
}

impl PeerMesh {
    pub closed spec fn wf(&self) -> bool {
        no_repeats(self.peers@)
    }

    /// The display names that were not taken yet.
    pub closed spec fn names(&self) -> Seq<(String, Option<String>)> {
        self.initial_peer_names@
    }

    /// How many streams this peer sends.
    pub closed spec fn streams(&self) -> u16 {
        self.stream_count
    }

    /// A mesh of a room that was just joined.
    pub fn new(
        peer_id: &str,
        stream_count: u16,
        initial_peer_names: Vec<(String, Option<String>)>,
    ) -> (r: Self)
        ensures
            r.wf(),
            r@ == (MeshState { me: peer_id@, peers: Set::empty(), drops: 0 }),
            r.names() == initial_peer_names@,
            r.streams() == stream_count,
    {
        let r = PeerMesh {
            peer_id: peer_id.to_string(),
            peers: Vec::new(),
            stream_count,
            initial_peer_names,
            audio_send_drops: 0,
        };
        assert(r@.peers =~= Set::empty());
        r
    }

    /// The position of a peer in the list.
    fn find(&self, peer_id: &str) -> (r: Option<usize>)
        ensures
            match r {
                Some(i) => i < self.peers@.len() && self.peers@[i as int]@ == peer_id@,
                None => forall|i: int|
                    0 <= i < self.peers@.len() ==> (#[trigger] self.peers@[i])@ != peer_id@,
            },
            r is Some == self@.peers.contains(peer_id@),
    {
        let mut i: usize = 0;
        while i < self.peers.len()
            invariant
                i <= self.peers@.len(),
                forall|j: int| 0 <= j < i ==> (#[trigger] self.peers@[j])@ != peer_id@,
            decreases self.peers@.len() - i,
        {
            if same_text(self.peers[i].as_str(), peer_id) {
                assert(texts(self.peers@)[i as int] == peer_id@);
                return Some(i);
            }
            i += 1;
        }
        assert(!texts(self.peers@).contains(peer_id@)) by {
            if texts(self.peers@).contains(peer_id@) {
                let j = choose|j: int|
                    0 <= j < self.peers@.len() && texts(self.peers@)[j] == peer_id@;
                assert(self.peers@[j]@ == peer_id@);
            }
        }
        None
    }

    fn insert(&mut self, peer_id: String)
        requires
            old(self).wf(),
        ensures
            final(self).wf(),
            final(self)@ == (MeshState {
                peers: old(self)@.peers.insert(peer_id@),
                ..old(self)@
            }),
            final(self).names() == old(self).names(),
            final(self).streams() == old(self).streams(),
    {
        let ghost p = peer_id@;
        let ghost pre = self.peers@;
        if self.find(peer_id.as_str()).is_none() {
            self.peers.push(peer_id);
            proof {
                assert(texts(self.peers@) =~= texts(pre).push(p));
                assert forall|q: Seq<char>| #[trigger]
                    self@.peers.contains(q) == old(self)@.peers.insert(p).contains(q) by {
                    if texts(pre).contains(q) {
                        let j = choose|j: int| 0 <= j < texts(pre).len() && texts(pre)[j] == q;
                        assert(texts(self.peers@)[j] == q);
                    }
                    if q == p {
                        assert(texts(self.peers@)[pre.len() as int] == q);
                    }
                    if texts(self.peers@).contains(q) {
                        let j = choose|j: int|
                            0 <= j < texts(self.peers@).len() && texts(self.peers@)[j] == q;
                        if j < pre.len() {
                            assert(texts(pre)[j] == q);
                        }
                    }
                }
                assert(self@.peers =~= old(self)@.peers.insert(p));
            }
        } else {
            assert(self@.peers =~= old(self)@.peers.insert(p));
        }
    }

    /// Remove a peer from tracking.
    pub fn remove_peer(&mut self, peer_id: &str)
        requires
            old(self).wf(),
        ensures
            final(self).wf(),
            final(self)@ == (MeshState {
                peers: old(self)@.peers.remove(peer_id@),
                ..old(self)@
            }),
            final(self).names() == old(self).names(),
            final(self).streams() == old(self).streams(),
    {
        let ghost p = peer_id@;
        let ghost pre = self.peers@;
        if let Some(i) = self.find(peer_id) {
            self.peers.remove(i);
            proof {
                let post = self.peers@;
                assert forall|q: Seq<char>| #[trigger]
                    self@.peers.contains(q) == old(self)@.peers.remove(p).contains(q) by {
                    if texts(post).contains(q) {
                        let j = choose|j: int| 0 <= j < texts(post).len() && texts(post)[j] == q;
                        let k = if j < i {
                            j
                        } else {
                            j + 1
                        };
                        assert(post[j] == pre[k]);
                        assert(texts(pre)[k] == q);
                        if k < i {
                            assert(pre[k]@ != pre[i as int]@);
                        } else {
                            assert(pre[i as int]@ != pre[k]@);
                        }
                    }
                    if texts(pre).contains(q) && q != p {
                        let k = choose|k: int| 0 <= k < texts(pre).len() && texts(pre)[k] == q;
                        let j = if k < i {
                            k
                        } else {
                            k - 1
                        };
                        assert(k != i);
                        assert(post[j] == pre[k]);
                        assert(texts(post)[j] == q);
                    }
                }
                assert(self@.peers =~= old(self)@.peers.remove(p));
            }
        } else {
            assert(self@.peers =~= old(self)@.peers.remove(p));
        }
    }

    /// Take over a list of the room's peers.
    fn adopt_list(&mut self, peers: Vec<String>)
        requires
            old(self).wf(),
        ensures
            final(self).wf(),
            final(self)@ == old(self)@.listed(texts(peers@)),
            final(self).names() == old(self).names(),
            final(self).streams() == old(self).streams(),
    {
        let ghost all = texts(peers@);
        let ghost s = self@;
        let mut left: Vec<String> = peers;
        let ghost mut done: int = 0;
        proof {
            assert(all.skip(0) =~= all);
            assert(self@.peers =~= s.listed(all.take(0)).peers);
        }
        while left.len() > 0
            invariant
                self.wf(),
                self.names() == old(self).names(),
                self.streams() == old(self).streams(),
                0 <= done <= all.len(),
                texts(left@) == all.skip(done),
                self@ == s.listed(all.take(done)),
            decreases left@.len(),
        {
            let ghost before = left@;
            let remote = left.remove(0);
            let ghost q = remote@;
            proof {
                assert(texts(before).len() == all.skip(done).len());
                assert(texts(before)[0] == all.skip(done)[0]);
                assert(q == all[done]);
                assert(texts(left@) =~= texts(before).skip(1));
                assert(all.skip(done).skip(1) =~= all.skip(done + 1));
                assert(all.take(done + 1) =~= all.take(done).push(q));
            }
            if !same_text(remote.as_str(), self.peer_id.as_str()) {
                self.insert(remote);
            }
            proof {
                lemma_listed_push(s, all.take(done), q);
                done = done + 1;
            }
        }
        proof {
            assert(texts(left@).len() == 0);
            assert(all.take(done) =~= all);
        }
    }

    /// Handle a single signaling message.
    pub fn handle_signal_message(&mut self, msg: SignalMessage) -> (r: Option<MeshEvent>)
        requires
            old(self).wf(),
        ensures
            final(self).wf(),
            final(self)@ == old(self)@.after(msg),
            final(self).names() == old(self).names(),
            final(self).streams() == old(self).streams(),
            match msg {
                SignalMessage::PeerList { peers } => r == Some(
                    MeshEvent::PeerListReceived(peers@.len() as usize),
                ),
                SignalMessage::PeerJoined { peer_id, display_name } => r matches Some(
                    MeshEvent::PeerJoined { peer_id: p, display_name: n },
                ) && p@ == peer_id@ && n == display_name,
                SignalMessage::PeerLeft { peer_id } => r == Some(MeshEvent::PeerLeft(peer_id)),
                SignalMessage::LogBroadcast { from, level, target, message, timestamp_us } => r
                    == Some(
                    MeshEvent::PeerLogBroadcast { from, level, target, message, timestamp_us },
                ),
                _ => r is None,
            },
    {
        match msg {
            SignalMessage::PeerList { peers } => {
                let count: usize = peers.len();
                self.adopt_list(peers);
                Some(MeshEvent::PeerListReceived(count))
            },
            SignalMessage::PeerJoined { peer_id, display_name } => {
                self.insert(peer_id.clone());
                Some(MeshEvent::PeerJoined { peer_id, display_name })
            },
            SignalMessage::PeerLeft { peer_id } => {
                self.remove_peer(peer_id.as_str());
                Some(MeshEvent::PeerLeft(peer_id))
            },
            SignalMessage::LogBroadcast { from, level, target, message, timestamp_us } => Some(
                MeshEvent::PeerLogBroadcast { from, level, target, message, timestamp_us },
            ),
            _ => None,
        }
    }

    /// Take over a new connection: its display names, and the peer list that comes
    /// first. Returns whether a peer list came first.
    pub fn reconnected(
        &mut self,
        initial_peer_names: Vec<(String, Option<String>)>,
        first: Option<SignalMessage>,
    ) -> (r: bool)
        requires
            old(self).wf(),
        ensures
            final(self).wf(),
            final(self).names() == initial_peer_names@,
            final(self).streams() == old(self).streams(),
            match first {
                Some(SignalMessage::PeerList { peers }) => r && final(self)@ == old(self)@.listed(
                    texts(peers@),
                ),
                _ => !r && final(self)@ == old(self)@,
            },
    {
        self.initial_peer_names = initial_peer_names;
        match first {
            Some(SignalMessage::PeerList { peers }) => {
                self.adopt_list(peers);
                true
            },
            _ => false,
        }
    }

    /// Note the outcome of queueing an audio frame; one that did not fit is counted.
    pub fn audio_queued(&mut self, queued: bool)
        requires
            old(self).wf(),
        ensures
            final(self).wf(),
            final(self).names() == old(self).names(),
            final(self).streams() == old(self).streams(),
            final(self)@ == (MeshState {
                drops: if queued {
                    old(self)@.drops
                } else if old(self)@.drops == u64::MAX {
                    0
                } else {
                    (old(self)@.drops + 1) as u64
                },
                ..old(self)@
            }),
    {
        if !queued {
            self.audio_send_drops = if self.audio_send_drops == u64::MAX {
                0
            } else {
                self.audio_send_drops + 1
            };
        }
    }

    /// The message that sends a structured log entry to the room. The server fills in
    /// who sent it.
    pub fn send_log(&self, level: &str, target: &str, message: &str, timestamp_us: u64) -> (r:
        SignalMessage)
        ensures
            r matches SignalMessage::LogBroadcast {
                from,
                level: l,
                target: t,
                message: m,
                timestamp_us: ts,
            } && from@ == Seq::<char>::empty() && l@ == level@ && t@ == target@ && m@ == message@
                && ts == timestamp_us,
    {
        let from = String::new();
        assert(from@ =~= Seq::<char>::empty());
        SignalMessage::LogBroadcast {
            from,
            level: level.to_string(),
            target: target.to_string(),
            message: message.to_string(),
            timestamp_us,
        }
    }

    /// The message that sends a metrics report to the server (not relayed to peers).
    pub fn send_metrics_report(
        &self,
        dc_open: bool,
        plugin_connected: bool,
        per_peer: Vec<(String, PeerFrameReport)>,
        ipc_drops: u64,
        boundary_drift_us: Option<i64>,
    ) -> (r: SignalMessage)
        ensures
            r == (SignalMessage::MetricsReport {
                dc_open,
                plugin_connected,
                per_peer,
                ipc_drops,
                boundary_drift_us,
            }),
    {
        SignalMessage::MetricsReport {
            dc_open,
            plugin_connected,
            per_peer,
            ipc_drops,
            boundary_drift_us,
        }
    }

    /// Audio frames dropped so far. Not per peer: all peers share one outgoing queue.
    pub fn dc_audio_drops(&self, _peer_id: &str) -> (r: u64)
        ensures
            r == self@.drops,
    {
        self.audio_send_drops
    }

    /// The known peers, each once.
    pub fn connected_peers(&self) -> (r: Vec<String>)
        requires
            self.wf(),
        ensures
            forall|p: Seq<char>| #[trigger] texts(r@).contains(p) == self@.peers.contains(p),
            forall|i: int, j: int|
                0 <= i < j < r@.len() ==> (#[trigger] r@[i])@ != (#[trigger] r@[j])@,
    {
        let mut out: Vec<String> = Vec::new();
        let mut i: usize = 0;
        while i < self.peers.len()
            invariant
                i <= self.peers@.len(),
                out@.len() == i,
                forall|j: int| 0 <= j < i ==> (#[trigger] out@[j])@ == self.peers@[j]@,
            decreases self.peers@.len() - i,
        {
            out.push(self.peers[i].clone());
            i += 1;
        }
        assert(texts(out@) =~= texts(self.peers@));
        out
    }

    /// Take the initial peer display names; they are handed out once.
    pub fn take_initial_peer_names(&mut self) -> (r: Vec<(String, Option<String>)>)
        requires
            old(self).wf(),
        ensures
            final(self).wf(),
            r@ == old(self).names(),
            final(self).names() == Seq::<(String, Option<String>)>::empty(),
            final(self)@ == old(self)@,
            final(self).streams() == old(self).streams(),
    {
        let mut taken: Vec<(String, Option<String>)> = Vec::new();
        std::mem::swap(&mut taken, &mut self.initial_peer_names);
        taken
    }

    /// Check whether any peer is connected.
    pub fn any_audio_dc_open(&self) -> (r: bool)
        requires
            self.wf(),
        ensures
            r == (exists|p: Seq<char>| self@.peers.contains(p)),
    {
        let r = self.peers.len() > 0;
        proof {
            if r {
                assert(texts(self.peers@)[0] == self.peers@[0]@);
                assert(self@.peers.contains(self.peers@[0]@));
            }
        }
        r
    }

    /// Check whether a specific peer is connected.
    pub fn is_peer_audio_dc_open(&self, peer_id: &str) -> (r: bool)
        ensures
            r == self@.peers.contains(peer_id@),
    {
        self.find(peer_id).is_some()
    }

    /// The (connection, sync, audio) state of a peer; only known peers have one.
    pub fn peer_network_state(&self, peer_id: &str) -> (r: Option<(String, String, String)>)
        ensures
            match r {
                Some((c, s, a)) => self@.peers.contains(peer_id@) && c@ == "connected"@ && s@
                    == "open"@ && a@ == "open"@,
                None => !self@.peers.contains(peer_id@),
            },
    {
        if self.find(peer_id).is_some() {
            Some(("connected".to_string(), "open".to_string(), "open".to_string()))
        } else {
            None
        }
    }

    /// How many streams this peer sends.
    pub fn stream_count(&self) -> (r: u16)
        ensures
            r == self.streams(),
    {
        self.stream_count
    }

    /// The id of this peer.
    pub fn peer_id(&self) -> (r: &str)
        ensures
            r@ == self@.me,
    {
        self.peer_id.as_str()
    }
}

proof fn lemma_listed_push(s: MeshState, list: Seq<Seq<char>>, q: Seq<char>)
    ensures
        s.listed(list.push(q)) == if q == s.me {
            s.listed(list)
        } else {
            MeshState { peers: s.listed(list).peers.insert(q), ..s }
        },
{
    let a = s.listed(list.push(q)).peers;
    let b = if q == s.me {
        s.listed(list).peers
    } else {
        s.listed(list).peers.insert(q)
    };
    assert forall|p: Seq<char>| #[trigger] a.contains(p) == b.contains(p) by {
        if list.contains(p) {
            let j = choose|j: int| 0 <= j < list.len() && list[j] == p;
            assert(list.push(q)[j] == p);
        }
        if p == q {
            assert(list.push(q)[list.len() as int] == p);
        }
        if list.push(q).contains(p) {
            let j = choose|j: int| 0 <= j < list.push(q).len() && list.push(q)[j] == p;
            if j < list.len() {
                assert(list[j] == p);
            }
        }
    }
    assert(a =~= b);
}

/// A peer list never makes this peer one of its own peers.
pub proof fn law_mesh_never_lists_itself(s: MeshState, peers: Seq<Seq<char>>)
    requires
        !s.peers.contains(s.me),
    ensures
        !s.listed(peers).peers.contains(s.me),
{
}

/// Whether a message says that `peer` left.
pub open spec fn says_left(msg: SignalMessage, peer: Seq<char>) -> bool {
    msg matches SignalMessage::PeerLeft { peer_id } && peer_id@ == peer
}

proof fn lemma_peer_stays(s: MeshState, msgs: Seq<SignalMessage>, peer: Seq<char>)
    requires
        s.peers.contains(peer),
        forall|i: int| 0 <= i < msgs.len() ==> !says_left(#[trigger] msgs[i], peer),
    ensures
        s.after_all(msgs).peers.contains(peer),
    decreases msgs.len(),
{
    if msgs.len() > 0 {
        assert forall|i: int| 0 <= i < msgs.len() - 1 implies !says_left(
            #[trigger] msgs.drop_last()[i],
            peer,
        ) by {
            assert(msgs.drop_last()[i] == msgs[i]);
        }
        lemma_peer_stays(s, msgs.drop_last(), peer);
        assert(!says_left(msgs[msgs.len() - 1], peer));
    }
}

/// A peer that joined is known, whatever other messages come in, until it leaves.
pub proof fn law_join_then_leave(
    s: MeshState,
    peer_id: String,
    display_name: Option<String>,
    between: Seq<SignalMessage>,
)
    requires
        forall|i: int| 0 <= i < between.len() ==> !says_left(#[trigger] between[i], peer_id@),
    ensures
        ({
            let t = s.after(SignalMessage::PeerJoined { peer_id, display_name }).after_all(between);
            &&& t.peers.contains(peer_id@)
            &&& !t.after(SignalMessage::PeerLeft { peer_id }).peers.contains(peer_id@)
        }),
{
    lemma_peer_stays(
        s.after(SignalMessage::PeerJoined { peer_id, display_name }),
        between,
        peer_id@,
    );
}

} // verus!
