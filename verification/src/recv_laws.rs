//! Laws of the receiver: who plays in which output, and what outputs are called.

use vstd::prelude::*;

use crate::recv::{PeerEvent, RecvState};
use crate::ring_state::RingState;
use crate::slot::{ChannelKey, Entry, TableState, MAX_SLOTS};

verus! {

impl RecvState {
    /// The receiver after a number of peer events, one after the other.
    pub open spec fn after_all(self, events: Seq<PeerEvent>) -> RecvState
        decreases events.len(),
    {
        if events.len() == 0 {
            self
        } else {
            self.after_all(events.drop_last()).after(events.last())
        }
    }
}

/// A peer has the identity that it joined with. Joining tells the receiver nothing else:
/// what others are called, the connection and the interval stay.
pub proof fn law_joined_peer_has_its_identity(r: RecvState, peer: String, identity: String)
    ensures
        ({
            let t = r.after(PeerEvent::Joined { peer_id: peer, identity });
            &&& crate::ring_state::identity_of(t.bridge.ring.identities, peer@) == identity@
            &&& forall|q: Seq<char>|
                q != peer@ ==> #[trigger] crate::ring_state::identity_of(
                    t.bridge.ring.identities,
                    q,
                ) == crate::ring_state::identity_of(r.bridge.ring.identities, q)
            &&& t.bridge.ring.pending == r.bridge.ring.pending
            &&& t.names == r.names
            &&& t.applied == r.applied
            &&& t.remote == r.remote
            &&& t.connected == r.connected
            &&& t.was_playing == r.was_playing
            &&& t.samples == r.samples
        }),
{
    crate::ring_history::lemma_identity_joined(r.bridge.ring.identities, peer@, identity@);
}

/// Whether slot `i` waits for channel `k`: nobody holds it, it is reserved for the
/// channel, and no other reservation of the client asks for it.
pub open spec fn waits_for(t: TableState, k: ChannelKey, i: usize) -> bool {
    let es = crate::slot::of_client(t.reserved, k.client);
    &&& !crate::slot::takes(t.active, i)
    &&& !crate::slot::holds(t.active, k)
    &&& exists|x: int|
        {
            &&& 0 <= x < es.len()
            &&& #[trigger] es[x] == (k, i)
            &&& forall|j: int|
                0 <= j < es.len() && j != x ==> (#[trigger] es[j]).1 != i && es[j].0 != k
        }
}

/// Whether no entry of the table is of client `c`.
pub open spec fn never_listed(t: TableState, c: Seq<char>) -> bool {
    &&& forall|i: int| 0 <= i < t.active.len() ==> (#[trigger] t.active[i]).0.client != c
    &&& forall|i: int| 0 <= i < t.reserved.len() ==> (#[trigger] t.reserved[i]).0.client != c
}

/// A slot that waits for a stream of an identity is played by the peer that joins with
/// that identity, at once.
pub proof fn law_waiting_slot_is_given_back(
    r: RecvState,
    peer: String,
    identity: String,
    stream: u16,
    i: usize,
)
    requires
        r.bridge.ring.valid(),
        never_listed(r.bridge.ring.table, peer@),
        waits_for(
            r.bridge.ring.table,
            ChannelKey { client: identity@, channel: stream },
            i,
        ),
    ensures
        r.after(PeerEvent::Joined { peer_id: peer, identity }).active().contains(
            (i, peer@, stream),
        ),
{
    let s = r.bridge.ring;
    let k = ChannelKey { client: identity@, channel: stream };
    let u = s.table;
    let v = u.rekeyed(peer@, identity@);
    assert(crate::slot::all_renamed(u.active, peer@, identity@) =~= u.active);
    crate::slot::lemma_firsts_of_distinct(u.active);
    assert(v.active =~= u.active);
    assert(v.reserved =~= u.reserved);
    let list = crate::slot::of_client(u.reserved, identity@);
    let x = choose|x: int|
        {
            &&& 0 <= x < list.len()
            &&& #[trigger] list[x] == (k, i)
            &&& forall|j: int|
                0 <= j < list.len() && j != x ==> (#[trigger] list[j]).1 != i && list[j].0 != k
        };
    crate::slot_laws::lemma_uncontested_is_accepted(u.active, list, x);
    let es = v.reclaimable(identity@);
    let a = choose|a: int| 0 <= a < es.len() && es[a] == (k, i);
    crate::ring_history::lemma_reclaimable(v, identity@);
    crate::ring_laws::lemma_retuned(s.slots, peer@, es, a);
    let t = s.peer_joined(peer@, identity@);
    assert(t.slots[i as int].active);
    crate::play_laws::law_active_list_is_exact(t.slots);
}

/// Reserving for other clients keeps a client's reservations.
proof fn lemma_others_reserve(reserved: Seq<Entry>, es: Seq<Entry>, c: Seq<char>)
    requires
        forall|i: int| 0 <= i < es.len() ==> (#[trigger] es[i]).0.client != c,
    ensures
        crate::slot::of_client(crate::slot::reserve_all(reserved, es), c)
            == crate::slot::of_client(reserved, c),
    decreases es.len(),
{
    if es.len() > 0 {
        let front = es.drop_last();
        let e = es.last();
        assert forall|i: int| 0 <= i < front.len() implies (#[trigger] front[i]).0.client != c by {
            assert(front[i] == es[i]);
        }
        lemma_others_reserve(reserved, front, c);
        let r0 = crate::slot::reserve_all(reserved, front);
        let pm = crate::slot::same_client(c);
        assert(es[es.len() - 1].0.client != c);
        let f = crate::slot::of_client(r0, c);
        if crate::slot::holds(f, e.0) {
            let i = choose|i: int| 0 <= i < f.len() && (#[trigger] f[i]).0 == e.0;
            r0.lemma_filter_pred(pm, i);
        }
        crate::slot_history::lemma_without_keeps_client(r0, c, e.0);
        crate::slot::without(r0, e.0).lemma_filter_push(e, pm);
    }
}

/// A slot goes on waiting when another client leaves.
proof fn lemma_leaving_keeps_waiting(
    t: TableState,
    k: ChannelKey,
    i: usize,
    c: Seq<char>,
    q: Seq<char>,
)
    requires
        t.valid(),
        waits_for(t, k, i),
        never_listed(t, q),
        c != k.client,
    ensures
        waits_for(t.client_released(c), k, i),
        never_listed(t.client_released(c), q),
{
    let u = t.client_released(c);
    let po = crate::slot::other_client(c);
    let pm = crate::slot::same_client(c);
    let es = crate::slot::of_client(t.active, c);
    assert forall|j: int| 0 <= j < es.len() implies (#[trigger] es[j]).0.client != k.client
        && es[j].0.client != q by {
        t.active.lemma_filter_pred(pm, j);
        assert(es.contains(es[j]));
        t.active.lemma_filter_contains_rev(pm, es[j]);
    }
    lemma_others_reserve(t.reserved, es, k.client);
    crate::ring_laws::lemma_released_clients(t.reserved, es, q);
    assert forall|j: int| 0 <= j < u.active.len() implies t.active.contains(
        #[trigger] u.active[j],
    ) && u.active[j].0.client != q by {
        assert(u.active.contains(u.active[j]));
        t.active.lemma_filter_contains_rev(po, u.active[j]);
    }
    if crate::slot::takes(u.active, i) {
        let j = choose|j: int| 0 <= j < u.active.len() && (#[trigger] u.active[j]).1 == i;
        let m = choose|m: int| 0 <= m < t.active.len() && t.active[m] == u.active[j];
        assert(t.active[m].1 == i);
    }
    if crate::slot::holds(u.active, k) {
        let j = choose|j: int| 0 <= j < u.active.len() && (#[trigger] u.active[j]).0 == k;
        let m = choose|m: int| 0 <= m < t.active.len() && t.active[m] == u.active[j];
        assert(t.active[m].0 == k);
    }
    let list = crate::slot::of_client(t.reserved, k.client);
    assert(crate::slot::of_client(u.reserved, k.client) == list);
    let x = choose|x: int|
        {
            &&& 0 <= x < list.len()
            &&& #[trigger] list[x] == (k, i)
            &&& forall|j: int|
                0 <= j < list.len() && j != x ==> (#[trigger] list[j]).1 != i && list[j].0 != k
        };
    assert(list[x] == (k, i));
}

/// Whether events between leaving and coming back leave an identity's slots alone: peers
/// of other identities leave or are named, or the connection is reported.
pub open spec fn leaves_alone(events: Seq<PeerEvent>, s: RingState, identity: Seq<char>) -> bool {
    forall|n: int|
        0 <= n < events.len() ==> match #[trigger] events[n] {
            PeerEvent::Left { peer_id } => peer_id@ != identity
                && crate::ring_state::identity_of(s.identities, peer_id@) != identity,
            PeerEvent::NameChanged { .. } => true,
            PeerEvent::Connected => true,
            _ => false,
        }
}

proof fn lemma_waits_on(
    r: RecvState,
    events: Seq<PeerEvent>,
    k: ChannelKey,
    i: usize,
    q: Seq<char>,
)
    requires
        r.bridge.ring.valid(),
        waits_for(r.bridge.ring.table, k, i),
        never_listed(r.bridge.ring.table, q),
        leaves_alone(events, r.bridge.ring, k.client),
    ensures
        ({
            let t = r.after_all(events).bridge.ring;
            &&& t.valid()
            &&& waits_for(t.table, k, i)
            &&& never_listed(t.table, q)
            &&& forall|o: Seq<char>|
                #[trigger] crate::ring_state::identity_of(t.identities, o) == o
                    || crate::ring_state::identity_of(t.identities, o)
                    == crate::ring_state::identity_of(r.bridge.ring.identities, o)
        }),
    decreases events.len(),
{
    if events.len() > 0 {
        let front = events.drop_last();
        assert forall|n: int| 0 <= n < front.len() implies match #[trigger] front[n] {
            PeerEvent::Left { peer_id } => peer_id@ != k.client && crate::ring_state::identity_of(
                r.bridge.ring.identities,
                peer_id@,
            ) != k.client,
            PeerEvent::NameChanged { .. } => true,
            PeerEvent::Connected => true,
            _ => false,
        } by {
            assert(front[n] == events[n]);
        }
        lemma_waits_on(r, front, k, i, q);
        let s = r.after_all(front).bridge.ring;
        let e = events[events.len() - 1];
        if let PeerEvent::Left { peer_id } = e {
            let c = crate::ring_state::identity_of(s.identities, peer_id@);
            assert(c != k.client);
            lemma_leaving_keeps_waiting(s.table, k, i, c, q);
            crate::slot_history::law_calls_keep_table_valid(
                s.table,
                crate::slot_history::TableCall::ReleaseAllForClient(c),
            );
            crate::play_laws::law_leaving_touches_nobody_else(s, peer_id@);
            let t = s.peer_removed(peer_id@);
            lemma_removed_is_valid(s, peer_id@);
            assert forall|o: Seq<char>| #[trigger] crate::ring_state::identity_of(t.identities, o)
                == o || crate::ring_state::identity_of(t.identities, o)
                == crate::ring_state::identity_of(r.bridge.ring.identities, o) by {
                if o != peer_id@ {
                    assert(crate::ring_state::identity_of(t.identities, o)
                        == crate::ring_state::identity_of(s.identities, o));
                }
            }
        }
    }
}

proof fn lemma_removed_is_valid(s: RingState, peer: Seq<char>)
    requires
        s.valid(),
    ensures
        s.peer_removed(peer).valid(),
{
    let t = s.peer_removed(peer);
    let c = crate::ring_state::identity_of(s.identities, peer);
    crate::slot_history::law_calls_keep_table_valid(
        s.table,
        crate::slot_history::TableCall::ReleaseAllForClient(c),
    );
    assert forall|i: int| 0 <= i < t.slots.len() implies (#[trigger] t.slots[i]).valid() by {
        assert(s.slots[i].valid());
    }
    assert forall|i: int, j: int|
        0 <= i < j < t.slots.len() && (#[trigger] t.slots[i]).active && (
        #[trigger] t.slots[j]).active implies !(t.slots[i].peer == t.slots[j].peer
        && t.slots[i].stream == t.slots[j].stream) by {
        assert(s.slots[i].active && s.slots[j].active);
    }
}

/// A peer that drops and comes back under a fresh peer id, with the identity it had, gets
/// its outputs back: every slot that one of its streams held plays that stream for the
/// new peer id as soon as it joined, whoever else left in the meantime.
///
/// No older reservation of the identity asks for a slot that the identity holds.
pub proof fn law_reconnected_peer_gets_its_outputs_back(
    r: RecvState,
    peer: String,
    new_peer: String,
    identity: String,
    events: Seq<PeerEvent>,
    stream: u16,
    i: usize,
)
    requires
        r.bridge.ring.valid(),
        crate::ring_state::identity_of(r.bridge.ring.identities, peer@) == identity@,
        r.bridge.ring.table.slot_of(ChannelKey { client: identity@, channel: stream }) == Some(i),
        never_listed(r.bridge.ring.table, new_peer@),
        forall|a: int, b: int|
            0 <= a < r.bridge.ring.table.reserved.len() && 0 <= b
                < r.bridge.ring.table.active.len() && (
            #[trigger] r.bridge.ring.table.reserved[a]).0.client == identity@ && (
            #[trigger] r.bridge.ring.table.active[b]).0.client == identity@
                && r.bridge.ring.table.reserved[a].0 != r.bridge.ring.table.active[b].0
                ==> r.bridge.ring.table.reserved[a].1 != r.bridge.ring.table.active[b].1,
        leaves_alone(events, r.after(PeerEvent::Left { peer_id: peer }).bridge.ring, identity@),
    ensures
        r.after(PeerEvent::Left { peer_id: peer }).after_all(events).after(
            PeerEvent::Joined { peer_id: new_peer, identity },
        ).active().contains((i, new_peer@, stream)),
{
    let s = r.bridge.ring;
    let k = ChannelKey { client: identity@, channel: stream };
    let r2 = r.after(PeerEvent::Left { peer_id: peer });
    let u = r2.bridge.ring.table;
    let x = crate::slot_laws::lemma_released_is_uncontested(s.table, identity@, k);
    let es = crate::slot::of_client(u.reserved, identity@);
    assert(es[x] == (k, i));
    assert(waits_for(u, k, i));
    lemma_removed_is_valid(s, peer@);
    let mine = crate::slot::of_client(s.table.active, identity@);
    assert forall|j: int| 0 <= j < mine.len() implies (#[trigger] mine[j]).0.client
        != new_peer@ by {
        assert(mine.contains(mine[j]));
        s.table.active.lemma_filter_contains_rev(crate::slot::same_client(identity@), mine[j]);
    }
    crate::ring_laws::lemma_released_clients(s.table.reserved, mine, new_peer@);
    assert forall|j: int| 0 <= j < u.active.len() implies (#[trigger] u.active[j]).0.client
        != new_peer@ by {
        assert(u.active.contains(u.active[j]));
        s.table.active.lemma_filter_contains_rev(crate::slot::other_client(identity@), u.active[j]);
    }
    lemma_waits_on(r2, events, k, i, new_peer@);
    law_waiting_slot_is_given_back(r2.after_all(events), new_peer, identity, stream, i);
}

/// A peer that leaves plays in no output, and the outputs that it played lose their names;
/// every other output keeps what it plays and its name.
pub proof fn law_left_peer_frees_its_outputs(r: RecvState, peer: String, i: int)
    requires
        r.bridge.ring.valid(),
        r.applied.len() == MAX_SLOTS,
        0 <= i < MAX_SLOTS,
    ensures
        ({
            let t = r.after(PeerEvent::Left { peer_id: peer });
            let was = r.bridge.ring.slots[i];
            let now = t.bridge.ring.slots[i];
            &&& t.applied.len() == r.applied.len()
            &&& was.active && was.peer == peer@ ==> !now.active && t.applied[i] is None
            &&& !(was.active && was.peer == peer@) ==> t.applied[i] == r.applied[i]
            &&& was.peer != peer@ ==> now == was
            &&& t.names == r.names
            &&& t.remote == r.remote
            &&& t.connected == r.connected
        }),
{
    let slots = r.bridge.ring.slots;
    let l = r.active();
    crate::play_laws::law_active_list_is_exact(slots);
    let was = slots[i];
    if was.active && was.peer == peer@ {
        let e = (i as usize, was.peer, was.stream);
        assert(l.contains(e));
        let a = choose|a: int| 0 <= a < l.len() && l[a] == e;
        assert(l[a].0 == i && l[a].1 == peer@);
        assert(crate::recv::slot_plays_peer(l, i, peer@));
    } else if crate::recv::slot_plays_peer(l, i, peer@) {
        let a = choose|a: int| 0 <= a < l.len() && (#[trigger] l[a]).0 == i && l[a].1 == peer@;
        assert(slots[l[a].0 as int].active);
    }
}

/// A name counts for the peer it was given to, until another one is given; names change
/// nothing of what plays.
pub proof fn law_name_is_known(r: RecvState, peer: String, name: String)
    ensures
        ({
            let t = r.after(PeerEvent::NameChanged { peer_id: peer, display_name: name });
            &&& t.names.dom().contains(peer@)
            &&& t.names[peer@] == name@
            &&& forall|q: Seq<char>|
                q != peer@ ==> (#[trigger] t.names.dom().contains(q) == r.names.dom().contains(q)
                    && (r.names.dom().contains(q) ==> t.names[q] == r.names[q]))
            &&& t.bridge == r.bridge
            &&& t.applied == r.applied
            &&& t.remote == r.remote
            &&& t.connected == r.connected
        }),
{
}

/// When the connection drops, nothing plays, nothing waits, and no name or output is
/// remembered; establishing one changes nothing but that.
pub proof fn law_dropped_connection_silences(r: RecvState)
    requires
        r.bridge.ring.valid(),
    ensures
        ({
            let t = r.after(PeerEvent::Disconnected);
            &&& !t.connected
            &&& t.active().len() == 0
            &&& t.bridge.ring.pending.len() == 0
            &&& t.bridge.ring.playback.len() == 0
            &&& t.remote is None
            &&& t.names.dom() == Set::<Seq<char>>::empty()
            &&& t.applied.len() == r.applied.len()
            &&& forall|j: int| 0 <= j < t.applied.len() ==> (#[trigger] t.applied[j]) is None
            &&& t.was_playing == r.was_playing
            &&& t.samples == r.samples
            &&& t.last_interval == r.last_interval
        }),
        ({
            let t = r.after(PeerEvent::Connected);
            t.connected && t == RecvState { connected: true, ..r }
        }),
{
    let t = r.after(PeerEvent::Disconnected);
    crate::play_laws::law_active_list_is_exact(t.bridge.ring.slots);
    let l = t.active();
    if l.len() > 0 {
        assert(t.bridge.ring.slots[l[0].0 as int].active);
    }
    assert(t.names.dom() =~= Set::<Seq<char>>::empty());
}

/// A receiver that the host reset plays nothing and counts from zero; only the connection
/// stays.
pub proof fn law_reset_receiver_is_fresh(r: RecvState)
    requires
        r.bridge.ring.valid(),
    ensures
        ({
            let t = r.reset();
            &&& t.active().len() == 0
            &&& t.bridge.ring.pending.len() == 0
            &&& t.bridge.ring.current is None
            &&& t.remote is None
            &&& t.names.dom() == Set::<Seq<char>>::empty()
            &&& forall|j: int| 0 <= j < t.applied.len() ==> (#[trigger] t.applied[j]) is None
            &&& t.was_playing is None
            &&& t.samples == 0
            &&& t.last_interval == 0
            &&& t.connected == r.connected
        }),
{
    law_dropped_connection_silences(r);
}

/// Buffers are counted from where the transport started: each adds its length, and one
/// that starts the transport again counts from zero and rewinds the ring. The tempo is
/// the host's, and peers, names and waiting audio stay.
pub proof fn law_receiver_counts_from_the_start(
    r: RecvState,
    playing: bool,
    num_samples: u64,
    bpm: u64,
)
    requires
        r.samples + num_samples <= u64::MAX,
    ensures
        ({
            let t = r.begun(playing, num_samples, bpm);
            let again = playing && r.was_playing == Some(false);
            &&& again ==> t.samples == num_samples
            &&& !again ==> t.samples == r.samples + num_samples
            &&& t.was_playing == Some(playing)
            &&& t.bridge.bpm == bpm
            &&& t.bridge.bars == 4 && t.bridge.ring.bars == 4
            &&& t.bridge.quantum == 0x4010_0000_0000_0000
            &&& t.bridge.ring.quantum == 0x4010_0000_0000_0000
            &&& t.bridge.ring.pending == r.bridge.ring.pending
            &&& t.bridge.ring.table == r.bridge.ring.table
            &&& t.bridge.ring.identities == r.bridge.ring.identities
            &&& t.bridge.ring.capacity == r.bridge.ring.capacity
            &&& again ==> t.bridge.ring.current is None && t.bridge.ring.playing is None
                && t.bridge.ring.playback.len() == 0
            &&& !again ==> t.bridge.ring.current == r.bridge.ring.current
                && t.bridge.ring.playback == r.bridge.ring.playback && t.bridge.ring.slots
                == r.bridge.ring.slots && t.bridge.ring.playback_pos == r.bridge.ring.playback_pos
            &&& t.names == r.names
            &&& t.applied == r.applied
            &&& t.remote == r.remote
            &&& t.connected == r.connected
        }),
{
}

/// The interval that drives the ring is the latest that audio came in for: one of the two,
/// and neither is later.
pub proof fn law_latest_interval_drives(so_far: Option<i64>, index: i64)
    ensures
        ({
            let l = crate::recv::latest(so_far, index);
            &&& l == index || so_far == Some(l)
            &&& l >= index
            &&& so_far is Some ==> l >= so_far->0
        }),
{
}

/// Whether another active slot than the one at `i` plays the same peer.
pub open spec fn plays_more(active: Seq<(usize, Seq<char>, u16)>, i: int) -> bool {
    exists|j: int| 0 <= j < active.len() && j != i && (#[trigger] active[j]).1 == active[i].1
}

/// A peer is counted more than once exactly when two slots play it.
proof fn lemma_counted(active: Seq<(usize, Seq<char>, u16)>, peer: Seq<char>)
    ensures
        crate::recv::streams_of(active, peer) > 0 <==> exists|i: int|
            0 <= i < active.len() && (#[trigger] active[i]).1 == peer,
        crate::recv::streams_of(active, peer) > 1 <==> exists|i: int, j: int|
            0 <= i < j < active.len() && (#[trigger] active[i]).1 == peer && (
            #[trigger] active[j]).1 == peer,
    decreases active.len(),
{
    if active.len() > 0 {
        let front = active.drop_last();
        let n = active.len() - 1;
        lemma_counted(front, peer);
        if crate::recv::streams_of(front, peer) > 0 {
            let i = choose|i: int| 0 <= i < front.len() && (#[trigger] front[i]).1 == peer;
            assert(active[i].1 == peer);
            if active[n].1 == peer {
                assert(active[i].1 == peer && active[n].1 == peer);
            }
        }
        if crate::recv::streams_of(front, peer) > 1 {
            let (i, j) = choose|i: int, j: int|
                0 <= i < j < front.len() && (#[trigger] front[i]).1 == peer && (
                #[trigger] front[j]).1 == peer;
            assert(active[i].1 == peer && active[j].1 == peer);
        }
        if active[n].1 == peer {
            assert(active[n].1 == peer);
        }
        if exists|i: int| 0 <= i < active.len() && (#[trigger] active[i]).1 == peer {
            let i = choose|i: int| 0 <= i < active.len() && (#[trigger] active[i]).1 == peer;
            if i < n {
                assert(front[i].1 == peer);
            }
        }
        if exists|i: int, j: int|
            0 <= i < j < active.len() && (#[trigger] active[i]).1 == peer && (
            #[trigger] active[j]).1 == peer {
            let (i, j) = choose|i: int, j: int|
                0 <= i < j < active.len() && (#[trigger] active[i]).1 == peer && (
                #[trigger] active[j]).1 == peer;
            assert(front[i].1 == peer);
            if j < n {
                assert(front[j].1 == peer);
            }
        }
    }
}

/// What an output is to be called: the name of the peer it plays, with the number of the
/// stream, counted from one, where the peer plays in more than one output.
pub open spec fn right_name(
    active: Seq<(usize, Seq<char>, u16)>,
    names: Map<Seq<char>, Seq<char>>,
    i: int,
    label: Seq<char>,
) -> bool {
    &&& names.dom().contains(active[i].1)
    &&& !plays_more(active, i) ==> label == names[active[i].1]
    &&& plays_more(active, i) && active[i].2 < 65535 ==> label == names[active[i].1] + " "@
        + crate::text::decimal((active[i].2 + 1) as nat)
}

/// Once outputs were named, each output that plays a peer with a known name has it, and
/// exactly those that did not have it before are reported, with the name they got. Other
/// outputs keep what they were called.
pub proof fn law_outputs_are_named_after_their_peers(
    active: Seq<(usize, Seq<char>, u16)>,
    names: Map<Seq<char>, Seq<char>>,
    applied: Seq<Option<Seq<char>>>,
)
    requires
        forall|i: int, j: int|
            0 <= i < j < active.len() ==> (#[trigger] active[i]).0 != (#[trigger] active[j]).0,
        forall|i: int| 0 <= i < active.len() ==> (#[trigger] active[i]).0 < applied.len(),
    ensures
        ({
            let (now, changed) = crate::recv::named(active, names, applied, active.len());
            &&& now.len() == applied.len()
            &&& forall|i: int|
                0 <= i < active.len() ==> {
                    let slot = (#[trigger] active[i]).0 as int;
                    if names.dom().contains(active[i].1) {
                        &&& now[slot] is Some
                        &&& right_name(active, names, i, now[slot]->0)
                        &&& applied[slot] != now[slot] <==> changed.contains(
                            (active[i].0, now[slot]->0),
                        )
                    } else {
                        now[slot] == applied[slot]
                    }
                }
            &&& forall|s: int|
                0 <= s < applied.len() && !crate::recv::is_active(active, s) ==> (#[trigger] now[s])
                    == applied[s]
            &&& forall|c: int|
                0 <= c < changed.len() ==> (#[trigger] changed[c]).0 < applied.len()
                    && now[changed[c].0 as int] == Some(changed[c].1) && applied[changed[c].0 as int]
                    != Some(changed[c].1)
        }),
{
    lemma_naming(active, names, applied, active.len());
    let (now, changed) = crate::recv::named(active, names, applied, active.len());
    assert forall|i: int| 0 <= i < active.len() implies {
        let slot = (#[trigger] active[i]).0 as int;
        if names.dom().contains(active[i].1) {
            &&& now[slot] is Some
            &&& right_name(active, names, i, now[slot]->0)
            &&& applied[slot] != now[slot] <==> changed.contains((active[i].0, now[slot]->0))
        } else {
            now[slot] == applied[slot]
        }
    } by {
        let slot = active[i].0 as int;
        lemma_counted(active, active[i].1);
        if plays_more(active, i) {
            let j = choose|j: int|
                0 <= j < active.len() && j != i && (#[trigger] active[j]).1 == active[i].1;
            if j < i {
                assert(active[j].1 == active[i].1 && active[i].1 == active[i].1);
            } else {
                assert(active[i].1 == active[i].1 && active[j].1 == active[i].1);
            }
        } else if crate::recv::streams_of(active, active[i].1) > 1 {
            let (a, b) = choose|a: int, b: int|
                0 <= a < b < active.len() && (#[trigger] active[a]).1 == active[i].1 && (
                #[trigger] active[b]).1 == active[i].1;
            if a != i {
                assert(active[a].1 == active[i].1);
            } else {
                assert(active[b].1 == active[i].1);
            }
        }
        assert(now[slot] == match crate::recv::slot_label(active, names, i) {
            Some(l) => Some(l),
            None => applied[slot],
        });
    }
}

proof fn lemma_naming(
    active: Seq<(usize, Seq<char>, u16)>,
    names: Map<Seq<char>, Seq<char>>,
    applied: Seq<Option<Seq<char>>>,
    n: nat,
)
    requires
        n <= active.len(),
        forall|i: int, j: int|
            0 <= i < j < active.len() ==> (#[trigger] active[i]).0 != (#[trigger] active[j]).0,
        forall|i: int| 0 <= i < active.len() ==> (#[trigger] active[i]).0 < applied.len(),
    ensures
        ({
            let (now, changed) = crate::recv::named(active, names, applied, n);
            &&& now.len() == applied.len()
            &&& forall|i: int|
                0 <= i < n ==> now[(#[trigger] active[i]).0 as int]
                    == match crate::recv::slot_label(active, names, i) {
                    Some(l) => Some(l),
                    None => applied[active[i].0 as int],
                }
            &&& forall|i: int|
                0 <= i < n && crate::recv::slot_label(active, names, i) is Some ==> (
                applied[(#[trigger] active[i]).0 as int] != crate::recv::slot_label(
                    active,
                    names,
                    i,
                ) <==> changed.contains(
                    (active[i].0, crate::recv::slot_label(active, names, i)->0),
                ))
            &&& forall|s: int|
                0 <= s < applied.len() && !crate::recv::is_active(active.take(n as int), s)
                    ==> (#[trigger] now[s]) == applied[s]
            &&& forall|c: int|
                0 <= c < changed.len() ==> (#[trigger] changed[c]).0 < applied.len()
                    && now[changed[c].0 as int] == Some(changed[c].1) && applied[changed[c].0 as int]
                    != Some(changed[c].1) && crate::recv::is_active(
                    active.take(n as int),
                    changed[c].0 as int,
                )
        }),
    decreases n,
{
    if n > 0 {
        let m = (n - 1) as nat;
        lemma_naming(active, names, applied, m);
        let (before, old) = crate::recv::named(active, names, applied, m);
        let (now, changed) = crate::recv::named(active, names, applied, n);
        let slot = active[m as int].0 as int;
        let label = crate::recv::slot_label(active, names, m as int);
        let a = active.take(m as int);
        let b = active.take(n as int);
        assert(b[m as int] == active[m as int]);
        assert(!crate::recv::is_active(a, slot)) by {
            if crate::recv::is_active(a, slot) {
                let j = choose|j: int| 0 <= j < a.len() && (#[trigger] a[j]).0 == slot;
                assert(active[j].0 != active[m as int].0);
            }
        }
        assert(before[slot] == applied[slot]);
        assert forall|s: int| crate::recv::is_active(a, s) implies #[trigger] crate::recv::is_active(
            b,
            s,
        ) by {
            let j = choose|j: int| 0 <= j < a.len() && (#[trigger] a[j]).0 == s;
            assert(b[j].0 == s);
        }
        assert(crate::recv::is_active(b, slot));
        assert forall|i: int| 0 <= i < n implies now[(#[trigger] active[i]).0 as int]
            == match crate::recv::slot_label(active, names, i) {
            Some(l) => Some(l),
            None => applied[active[i].0 as int],
        } by {
            if i < m {
                assert(active[i].0 != active[m as int].0);
            }
        }
        assert forall|c: int| 0 <= c < changed.len() implies (#[trigger] changed[c]).0
            < applied.len() && now[changed[c].0 as int] == Some(changed[c].1)
            && applied[changed[c].0 as int] != Some(changed[c].1) && crate::recv::is_active(
            b,
            changed[c].0 as int,
        ) by {
            if c < old.len() {
                assert(changed[c] == old[c]);
                assert(crate::recv::is_active(a, old[c].0 as int));
                assert(old[c].0 != slot);
            }
        }
        assert forall|i: int|
            0 <= i < n && crate::recv::slot_label(active, names, i) is Some implies (applied[(
        #[trigger] active[i]).0 as int] != crate::recv::slot_label(active, names, i)
            <==> changed.contains((active[i].0, crate::recv::slot_label(active, names, i)->0))) by {
            let e = (active[i].0, crate::recv::slot_label(active, names, i)->0);
            if i < m {
                assert(active[i].0 != active[m as int].0);
                if old.contains(e) {
                    let c = choose|c: int| 0 <= c < old.len() && old[c] == e;
                    assert(changed[c] == e);
                }
                if changed.contains(e) {
                    let c = choose|c: int| 0 <= c < changed.len() && changed[c] == e;
                    assert(old[c] == e);
                }
            } else {
                if applied[slot] != label {
                    assert(changed[old.len() as int] == e);
                } else if changed.contains(e) {
                    let c = choose|c: int| 0 <= c < changed.len() && changed[c] == e;
                    assert(applied[changed[c].0 as int] != Some(changed[c].1));
                }
            }
        }
        assert forall|s: int|
            0 <= s < applied.len() && !crate::recv::is_active(b, s) implies (#[trigger] now[s])
            == applied[s] by {
            assert(s != slot);
            assert(!crate::recv::is_active(a, s));
        }
    }
}

/// The receiver plays the latest interval that audio came in for: while that is the one
/// that plays, a buffer goes on with the playback where the last one stopped, and then is
/// silent; before any audio came in it is silent. Nothing is recorded by it, and nothing
/// that is known of the peers changes.
pub proof fn law_receiver_plays_on<
    M: Fn(u32, u32) -> u32,
    F: Fn(u32, u32, usize, usize) -> u32,
>(mix: M, fade: F, s: RecvState, out: Seq<u32>, t: RecvState, j: int)
    requires
        s.bridge.ring.valid(),
        crate::recv::played(mix, fade, s, out, t),
        0 <= j < out.len(),
    ensures
        s.remote is None ==> out[j] == 0 && t == s,
        s.remote is Some ==> t.bridge.ring.current == s.remote,
        s.remote is Some && s.bridge.ring.current == s.remote ==> {
            let r = s.bridge.ring;
            &&& out[j] == if r.playback_pos + j < r.playback.len() {
                r.playback[r.playback_pos + j]
            } else {
                0u32
            }
            &&& t.bridge.ring.playback == r.playback
            &&& t.bridge.ring.playback_pos == if r.playback_pos + out.len() <= r.playback.len() {
                r.playback_pos + out.len()
            } else {
                r.playback.len()
            }
            &&& t.bridge.ring.record == r.record
            &&& t.bridge.ring.slots == r.slots
            &&& t.bridge.ring.pending == r.pending
        },
        t.names == s.names,
        t.applied == s.applied,
        t.remote == s.remote,
        t.connected == s.connected,
        t.samples == s.samples,
{
    if let Some(index) = s.remote {
        let completed = choose|completed: Seq<crate::ring_state::CompletedState>|
            #[trigger] crate::bridge::processed(
                mix,
                fade,
                s.bridge,
                Seq::empty(),
                index,
                out,
                completed,
                t.bridge,
            );
        crate::play_laws::law_recordings_are_handed_out_once(
            mix,
            fade,
            s.bridge,
            Seq::empty(),
            index,
            out,
            completed,
            t.bridge,
        );
        if s.bridge.ring.current == s.remote {
            let r = s.bridge.ring;
            assert(r.record + Seq::<u32>::empty() =~= r.record);
            assert(t.bridge.ring.record =~= r.record);
        }
    }
}

} // verus!
