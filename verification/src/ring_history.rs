//! Laws of the interval ring over several calls: streams and slots, reconnects, and
//! what is heard one interval later.

use vstd::prelude::*;

use crate::ring_state::{PendingState, RingState, SlotState, SILENCE, XFADE_SAMPLES};
use crate::slot::{ChannelKey, Entry, MAX_SLOTS};

verus! {

/// What a list of active slots says of its entries.
proof fn lemma_active_list(slots: Seq<SlotState>)
    requires
        slots.len() <= MAX_SLOTS,
    ensures
        ({
            let list = crate::ring_state::active_list(slots);
            &&& forall|i: int|
                0 <= i < list.len() ==> {
                    let e = #[trigger] list[i];
                    &&& e.0 < slots.len()
                    &&& slots[e.0 as int].active
                    &&& e.1 == slots[e.0 as int].peer
                    &&& e.2 == slots[e.0 as int].stream
                }
            &&& forall|i: int, j: int|
                0 <= i < j < list.len() ==> (#[trigger] list[i]).0 < (#[trigger] list[j]).0
        }),
    decreases slots.len(),
{
    if slots.len() > 0 {
        let front = slots.drop_last();
        lemma_active_list(front);
        let before = crate::ring_state::active_list(front);
        let list = crate::ring_state::active_list(slots);
        assert forall|i: int| 0 <= i < before.len() implies #[trigger] list[i] == before[i] by {}
    }
}

/// No stream plays in two slots: no pair of peer and stream is listed twice.
pub proof fn law_no_stream_plays_twice(s: RingState, i: int, j: int)
    requires
        s.valid(),
        0 <= i < j < crate::ring_state::active_list(s.slots).len(),
    ensures
        ({
            let list = crate::ring_state::active_list(s.slots);
            !(list[i].1 == list[j].1 && list[i].2 == list[j].2)
        }),
{
    lemma_active_list(s.slots);
    let list = crate::ring_state::active_list(s.slots);
    let a = list[i].0 as int;
    let b = list[j].0 as int;
    assert(a < b);
    assert(s.slots[a].active && s.slots[b].active);
}

/// The entries that a valid table takes back are of the client, in range, and apart
/// from each other and from those held.
pub proof fn lemma_reclaimable(t: crate::slot::TableState, c: Seq<char>)
    requires
        t.valid(),
    ensures
        forall|a: int|
            0 <= a < t.reclaimable(c).len() ==> (#[trigger] t.reclaimable(c)[a]).1 < MAX_SLOTS
                && t.reclaimable(c)[a].0.client == c && !crate::slot::takes(
                t.active,
                t.reclaimable(c)[a].1,
            ) && !crate::slot::holds(t.active, t.reclaimable(c)[a].0),
        forall|a: int, b: int|
            0 <= a < b < t.reclaimable(c).len() ==> (#[trigger] t.reclaimable(c)[a]).1 != (
            #[trigger] t.reclaimable(c)[b]).1 && t.reclaimable(c)[a].0.channel
                != t.reclaimable(c)[b].0.channel,
        t.reclaimed(c).valid(),
{
    let list = crate::slot::of_client(t.reserved, c);
    let es = t.reclaimable(c);
    let all = t.active + es;
    crate::slot_history::law_calls_keep_table_valid(
        t,
        crate::slot_history::TableCall::ReclaimReservedForClient(c),
    );
    assert forall|a: int| 0 <= a < es.len() implies (#[trigger] es[a]).1 < MAX_SLOTS
        && es[a].0.client == c && !crate::slot::takes(t.active, es[a].1) && !crate::slot::holds(
        t.active,
        es[a].0,
    ) by {
        crate::ring_laws::lemma_accepted_from(t.active, list, a);
        crate::ring_laws::lemma_client_of(t.reserved, c, es[a]);
        let n = t.active.len() + a;
        assert(all[n] == es[a]);
        if crate::slot::takes(t.active, es[a].1) {
            let x = choose|x: int| 0 <= x < t.active.len() && (#[trigger] t.active[x]).1 == es[a].1;
            assert(all[x].1 != all[n].1);
        }
        if crate::slot::holds(t.active, es[a].0) {
            let x = choose|x: int| 0 <= x < t.active.len() && (#[trigger] t.active[x]).0 == es[a].0;
            assert(all[x].0 != all[n].0);
        }
    }
    assert forall|a: int, b: int| 0 <= a < b < es.len() implies (#[trigger] es[a]).1 != (
    #[trigger] es[b]).1 && es[a].0.channel != es[b].0.channel by {
        assert(all[t.active.len() + a] == es[a] && all[t.active.len() + b] == es[b]);
        if es[a].0.channel == es[b].0.channel {
            assert(es[a].0 =~= es[b].0);
        }
    }
}

/// Retuning spares a slot that no entry asks for and that plays none of the streams.
proof fn lemma_retuned_spares(slots: Seq<SlotState>, peer: Seq<char>, es: Seq<Entry>, i: int)
    requires
        0 <= i < slots.len(),
        forall|a: int|
            0 <= a < es.len() ==> (#[trigger] es[a]).1 != i && es[a].1 < slots.len()
                && !crate::ring_state::plays(slots[i], peer, es[a].0.channel),
    ensures
        crate::ring_state::retuned(slots, peer, es).len() == slots.len(),
        crate::ring_state::retuned(slots, peer, es)[i] == slots[i],
    decreases es.len(),
{
    if es.len() > 0 {
        let front = es.drop_last();
        assert forall|a: int| 0 <= a < front.len() implies (#[trigger] front[a]).1 != i
            && front[a].1 < slots.len() && !crate::ring_state::plays(
            slots[i],
            peer,
            front[a].0.channel,
        ) by {
            assert(front[a] == es[a]);
        }
        lemma_retuned_spares(slots, peer, front, i);
        assert(es[es.len() - 1].1 != i);
    }
}

/// The slot that stands first of those held for a stream under its peer's id and under
/// its peer's identity.
pub open spec fn held_first(
    t: crate::slot::TableState,
    peer: Seq<char>,
    identity: Seq<char>,
    stream: u16,
) -> Option<usize> {
    let a = ChannelKey { client: peer, channel: stream };
    let k = ChannelKey { client: identity, channel: stream };
    if t.slot_of(k) is None || t.slot_of(a) is Some && crate::slot::first_of(t.active, a)
        < crate::slot::first_of(t.active, k) {
        t.slot_of(a)
    } else {
        t.slot_of(k)
    }
}

/// A stream that already had a slot keeps it when its peer's identity becomes known,
/// and goes on playing there: no slot is leaked, and none is taken in its place. Where
/// it had one under the peer's id and one under the identity, it keeps the one that
/// stands first.
pub proof fn law_joining_keeps_slot(
    s: RingState,
    peer: Seq<char>,
    identity: Seq<char>,
    stream: u16,
    slot: usize,
)
    requires
        s.valid(),
        held_first(s.table, peer, identity, stream) == Some(slot),
    ensures
        ({
            let t = s.peer_joined(peer, identity);
            &&& t.channel_of(peer, stream) == ChannelKey { client: identity, channel: stream }
            &&& t.table.slot_of(t.channel_of(peer, stream)) == Some(slot)
            &&& crate::ring_state::plays(s.slots[slot as int], peer, stream)
                ==> t.slots[slot as int] == s.slots[slot as int]
        }),
{
    let k = ChannelKey { client: identity, channel: stream };
    let t = s.peer_joined(peer, identity);
    lemma_identity_joined(s.identities, peer, identity);
    let u = s.table.rekeyed(peer, identity);
    crate::slot_laws::lemma_rekeyed(s.table, peer, identity);
    crate::slot_laws::law_rekey_keeps_slots(s.table, peer, identity, k);
    assert(u.slot_of(k) == Some(slot));
    lemma_reclaimable(u, identity);
    crate::slot_laws::lemma_slot_is_listed(u, k, slot);
    let m = choose|m: int| 0 <= m < u.active.len() && u.active[m] == (k, slot);
    assert(t.table.active[m] == (k, slot));
    crate::slot_laws::lemma_slot_is_listed(t.table, k, slot);
    let es = u.reclaimable(identity);
    if crate::ring_state::plays(s.slots[slot as int], peer, stream) {
        assert(slot < MAX_SLOTS) by {
            assert(u.active[m].1 < MAX_SLOTS);
        }
        assert forall|a: int| 0 <= a < es.len() implies (#[trigger] es[a]).1 != slot && es[a].1
            < s.slots.len() && !crate::ring_state::plays(
            s.slots[slot as int],
            peer,
            es[a].0.channel,
        ) by {
            if es[a].1 == slot {
                assert(u.active[m].1 == es[a].1);
                assert(crate::slot::takes(u.active, es[a].1));
            }
            if es[a].0.channel == stream {
                assert(es[a].0 =~= k);
                assert(u.active[m].0 == es[a].0);
                assert(crate::slot::holds(u.active, es[a].0));
            }
        }
        lemma_retuned_spares(s.slots, peer, es, slot as int);
    }
}

/// A peer has the identity that it announced last, and others keep theirs.
pub proof fn lemma_identity_joined(
    ids: Seq<(Seq<char>, Seq<char>)>,
    peer: Seq<char>,
    identity: Seq<char>,
)
    ensures
        ({
            let after = ids.filter(crate::ring_state::other_peer(peer)).push((peer, identity));
            &&& crate::ring_state::identity_of(after, peer) == identity
            &&& forall|q: Seq<char>|
                q != peer ==> #[trigger] crate::ring_state::identity_of(after, q)
                    == crate::ring_state::identity_of(ids, q)
        }),
{
    let p = crate::ring_state::other_peer(peer);
    let kept = ids.filter(p);
    let after = kept.push((peer, identity));
    assert(kept + seq![(peer, identity)] =~= after);
    assert forall|i: int| 0 <= i < kept.len() implies (#[trigger] kept[i]).0 != peer by {
        ids.lemma_filter_pred(p, i);
    }
    lemma_identity_absent(kept, peer, seq![(peer, identity)]);
    assert(seq![(peer, identity)][0].0 == peer);
    assert forall|q: Seq<char>| q != peer implies #[trigger] crate::ring_state::identity_of(
        after,
        q,
    ) == crate::ring_state::identity_of(ids, q) by {
        lemma_identity_appended(kept, q, (peer, identity));
        lemma_identity_filtered(ids, peer, q);
    }
}

/// Looking past entries of other peers.
pub proof fn lemma_identity_absent(
    a: Seq<(Seq<char>, Seq<char>)>,
    peer: Seq<char>,
    b: Seq<(Seq<char>, Seq<char>)>,
)
    requires
        forall|i: int| 0 <= i < a.len() ==> (#[trigger] a[i]).0 != peer,
    ensures
        crate::ring_state::identity_of(a + b, peer) == crate::ring_state::identity_of(b, peer),
    decreases a.len(),
{
    if a.len() == 0 {
        assert(a + b =~= b);
    } else {
        assert(a[0].0 != peer);
        assert((a + b).skip(1) =~= a.skip(1) + b);
        assert forall|i: int| 0 <= i < a.skip(1).len() implies (#[trigger] a.skip(1)[i]).0
            != peer by {
            assert(a.skip(1)[i] == a[i + 1]);
        }
        lemma_identity_absent(a.skip(1), peer, b);
    }
}

/// An entry of another peer at the end changes nothing.
proof fn lemma_identity_appended(
    a: Seq<(Seq<char>, Seq<char>)>,
    q: Seq<char>,
    e: (Seq<char>, Seq<char>),
)
    requires
        e.0 != q,
    ensures
        crate::ring_state::identity_of(a.push(e), q) == crate::ring_state::identity_of(a, q),
    decreases a.len(),
{
    if a.len() == 0 {
        assert(a.push(e).skip(1) =~= Seq::empty());
        assert(crate::ring_state::identity_of(a.push(e).skip(1), q) == q);
    } else {
        assert(a.push(e).skip(1) =~= a.skip(1).push(e));
        lemma_identity_appended(a.skip(1), q, e);
    }
}

/// Dropping the entries of another peer changes nothing.
pub proof fn lemma_identity_filtered(ids: Seq<(Seq<char>, Seq<char>)>, peer: Seq<char>, q: Seq<char>)
    requires
        q != peer,
    ensures
        crate::ring_state::identity_of(ids.filter(crate::ring_state::other_peer(peer)), q)
            == crate::ring_state::identity_of(ids, q),
    decreases ids.len(),
{
    let p = crate::ring_state::other_peer(peer);
    reveal(Seq::filter);
    if ids.len() > 0 {
        let head = ids.take(1);
        let rest = ids.skip(1);
        assert(head + rest =~= ids);
        Seq::filter_distributes_over_add(head, rest, p);
        lemma_identity_filtered(rest, peer, q);
        assert(head.drop_last() =~= Seq::empty());
        assert(head.drop_last().filter(p) =~= Seq::empty());
        if p(ids[0]) {
            assert(head.filter(p) =~= head);
            let f = head + rest.filter(p);
            assert(f[0] == ids[0]);
            assert(f.skip(1) =~= rest.filter(p));
        } else {
            assert(head.filter(p) =~= Seq::empty());
            assert(Seq::<(Seq<char>, Seq<char>)>::empty() + rest.filter(p) =~= rest.filter(p));
        }
    }
}

/// Whether every channel of `client` that the table lists is a stream of `peer` that
/// plays in the slot it is listed with.
pub open spec fn lists_only(s: RingState, client: Seq<char>, peer: Seq<char>) -> bool {
    forall|n: int|
        0 <= n < s.table.active.len() && (#[trigger] s.table.active[n]).0.client == client
            ==> crate::ring_state::plays(
            s.slots[s.table.active[n].1 as int],
            peer,
            s.table.active[n].0.channel,
        )
}

/// Whether slots and table agree on a peer: the table lists its streams with the slots
/// that play them, and lists nothing else for its identity.
pub open spec fn in_step(s: RingState, peer: Seq<char>) -> bool {
    &&& forall|i: int|
        0 <= i < s.slots.len() && (#[trigger] s.slots[i]).active && s.slots[i].peer == peer
            ==> s.table.active.contains((s.channel_of(peer, s.slots[i].stream), i as usize))
    &&& lists_only(s, crate::ring_state::identity_of(s.identities, peer), peer)
}

/// What retuning does to each slot, where no slot plays the peer yet.
proof fn lemma_retuned_all(slots: Seq<SlotState>, peer: Seq<char>, es: Seq<Entry>, i: int)
    requires
        0 <= i < slots.len() <= MAX_SLOTS,
        forall|j: int|
            0 <= j < slots.len() && (#[trigger] slots[j]).active ==> slots[j].peer != peer,
        forall|a: int| 0 <= a < es.len() ==> (#[trigger] es[a]).1 < slots.len(),
        forall|a: int, b: int|
            0 <= a < b < es.len() ==> (#[trigger] es[a]).1 != (#[trigger] es[b]).1
                && es[a].0.channel != es[b].0.channel,
    ensures
        crate::ring_state::retuned(slots, peer, es).len() == slots.len(),
        crate::slot::takes(es, i as usize) ==> exists|a: int|
            {
                &&& 0 <= a < es.len()
                &&& (#[trigger] es[a]).1 == i
                &&& crate::ring_state::retuned(slots, peer, es)[i] == (SlotState {
                    peer,
                    stream: es[a].0.channel,
                    active: true,
                    tail: crate::ring_state::silence(XFADE_SAMPLES as nat),
                    ..slots[i]
                })
            },
        !crate::slot::takes(es, i as usize) ==> crate::ring_state::retuned(slots, peer, es)[i]
            == slots[i],
    decreases es.len(),
{
    if es.len() > 0 {
        let front = es.drop_last();
        let e = es.last();
        let n = es.len() - 1;
        assert(es[n] == e);
        assert forall|a: int| 0 <= a < front.len() implies (#[trigger] front[a]).1
            < slots.len() by {
            assert(front[a] == es[a]);
        }
        assert forall|a: int, b: int| 0 <= a < b < front.len() implies (#[trigger] front[a]).1 != (
        #[trigger] front[b]).1 && front[a].0.channel != front[b].0.channel by {
            assert(front[a] == es[a] && front[b] == es[b]);
        }
        lemma_retuned_all(slots, peer, front, i);
        let r0 = crate::ring_state::retuned(slots, peer, front);
        let r = crate::ring_state::retuned(slots, peer, es);
        if crate::slot::takes(front, i as usize) {
            let a = choose|a: int|
                {
                    &&& 0 <= a < front.len()
                    &&& (#[trigger] front[a]).1 == i
                    &&& r0[i] == (SlotState {
                        peer,
                        stream: front[a].0.channel,
                        active: true,
                        tail: crate::ring_state::silence(XFADE_SAMPLES as nat),
                        ..slots[i]
                    })
                };
            assert(es[a] == front[a]);
            assert(es[a].1 != es[n].1 && es[a].0.channel != es[n].0.channel);
            assert(r[i] == r0[i]);
        } else {
            assert(r0[i] == slots[i]);
            if e.1 == i {
                assert(crate::slot::takes(es, i as usize));
                assert(r[i] == (SlotState {
                    peer,
                    stream: es[n].0.channel,
                    active: true,
                    tail: crate::ring_state::silence(XFADE_SAMPLES as nat),
                    ..slots[i]
                }));
            } else {
                assert(r[i] == r0[i]);
                if crate::slot::takes(es, i as usize) {
                    let a = choose|a: int| 0 <= a < es.len() && (#[trigger] es[a]).1 == i as usize;
                    assert(front[a].1 == i as usize);
                }
            }
        }
    }
}

/// A peer that leaves and comes back directly under a fresh peer id, with the same
/// identity, plays all its streams in the slots they had, fading in from silence, and
/// nobody else is touched: the list of active slots is the one from before with the
/// new peer id in place of the old. Slots and table agree on the new peer id too.
///
/// The identity has no older reservations. What slots and table hold for other peers
/// does not matter.
pub proof fn law_reconnect_restores_slots(s: RingState, peer: Seq<char>, new_peer: Seq<char>)
    requires
        s.valid(),
        in_step(s, peer),
        crate::slot::of_client(
            s.table.reserved,
            crate::ring_state::identity_of(s.identities, peer),
        ).len() == 0,
        new_peer != peer,
        forall|i: int|
            0 <= i < s.slots.len() && (#[trigger] s.slots[i]).active ==> s.slots[i].peer
                != new_peer,
        forall|i: int|
            0 <= i < s.table.active.len() ==> (#[trigger] s.table.active[i]).0.client != new_peer,
        forall|i: int|
            0 <= i < s.table.reserved.len() ==> (#[trigger] s.table.reserved[i]).0.client
                != new_peer,
    ensures
        ({
            let c = crate::ring_state::identity_of(s.identities, peer);
            let t = s.peer_removed(peer).peer_joined(new_peer, c);
            &&& crate::ring_state::active_list(t.slots) == crate::ring_state::active_list(
                s.slots,
            ).map_values(
                |e: (usize, Seq<char>, u16)|
                    (
                        e.0,
                        if e.1 == peer {
                            new_peer
                        } else {
                            e.1
                        },
                        e.2,
                    ),
            )
            &&& forall|i: int|
                0 <= i < s.slots.len() ==> if (#[trigger] s.slots[i]).peer != peer {
                    t.slots[i] == s.slots[i]
                } else {
                    s.slots[i].active ==> t.slots[i].tail == crate::ring_state::silence(
                        XFADE_SAMPLES as nat,
                    )
                }
            &&& in_step(t, new_peer)
            &&& forall|k: ChannelKey| #[trigger] t.table.slot_of(k) == s.table.slot_of(k)
        }),
{
    let c = crate::ring_state::identity_of(s.identities, peer);
    let r = s.peer_removed(peer);
    let t = r.peer_joined(new_peer, c);
    let mine = crate::slot::of_client(s.table.active, c);
    let pm = crate::slot::same_client(c);
    crate::slot_history::law_client_reclaims_in_order(s.table, c);
    lemma_rename_of_nobody(s.table, c, new_peer);
    crate::slot_history::law_calls_keep_table_valid(
        s.table,
        crate::slot_history::TableCall::ReleaseAllForClient(c),
    );
    lemma_reclaimable(r.table, c);
    assert(t.slots == crate::ring_state::retuned(r.slots, new_peer, mine));
    assert forall|j: int| 0 <= j < r.slots.len() && (#[trigger] r.slots[j]).active implies
        r.slots[j].peer != new_peer by {
        assert(s.slots[j].active);
    }
    lemma_retuned_all(r.slots, new_peer, mine, 0);
    assert forall|i: int| 0 <= i < s.slots.len() implies {
        let a = #[trigger] s.slots[i];
        let b = t.slots[i];
        &&& b.active == a.active
        &&& a.active ==> b.stream == a.stream
        &&& a.active && a.peer == peer ==> b.peer == new_peer && b.tail
            == crate::ring_state::silence(XFADE_SAMPLES as nat)
        &&& a.peer != peer ==> b == a
    } by {
        let a = s.slots[i];
        lemma_retuned_all(r.slots, new_peer, mine, i);
        if crate::slot::takes(mine, i as usize) {
            let n = choose|n: int|
                {
                    &&& 0 <= n < mine.len()
                    &&& (#[trigger] mine[n]).1 == i
                    &&& t.slots[i] == (SlotState {
                        peer: new_peer,
                        stream: mine[n].0.channel,
                        active: true,
                        tail: crate::ring_state::silence(XFADE_SAMPLES as nat),
                        ..r.slots[i]
                    })
                };
            s.table.active.lemma_filter_pred(pm, n);
            assert(mine.contains(mine[n]));
            s.table.active.lemma_filter_contains_rev(pm, mine[n]);
            let m = choose|m: int| 0 <= m < s.table.active.len() && s.table.active[m] == mine[n];
            assert(crate::ring_state::plays(a, peer, mine[n].0.channel));
        } else if a.active && a.peer == peer {
            let e = (s.channel_of(peer, a.stream), i as usize);
            assert(s.table.active.contains(e));
            let m = choose|m: int| 0 <= m < s.table.active.len() && s.table.active[m] == e;
            s.table.active.lemma_filter_contains(pm, m);
            let n = choose|n: int| 0 <= n < mine.len() && mine[n] == e;
            assert(mine[n].1 == i as usize);
        }
    }
    lemma_lists_correspond(s.slots, t.slots, peer, new_peer);
    lemma_identity_joined(r.identities, new_peer, c);
    assert forall|k: ChannelKey, i: usize| t.table.active.contains((k, i)) == (#[trigger]
    s.table.active.contains((k, i))) by {
        crate::slot_laws::lemma_slot_is_listed(s.table, k, i);
        crate::slot_laws::lemma_slot_is_listed(t.table, k, i);
        assert(t.table.slot_of(k) == s.table.slot_of(k));
    }
    assert forall|i: int|
        0 <= i < t.slots.len() && (#[trigger] t.slots[i]).active && t.slots[i].peer
            == new_peer implies t.table.active.contains(
        (t.channel_of(new_peer, t.slots[i].stream), i as usize),
    ) by {
        let a = s.slots[i];
        assert(a.active && a.peer == peer);
        assert(s.table.active.contains((s.channel_of(peer, a.stream), i as usize)));
    }
    assert forall|n: int|
        0 <= n < t.table.active.len() && (#[trigger] t.table.active[n]).0.client
            == c implies crate::ring_state::plays(
        t.slots[t.table.active[n].1 as int],
        new_peer,
        t.table.active[n].0.channel,
    ) by {
        let e = t.table.active[n];
        assert(t.table.active.contains(e));
        assert(s.table.active.contains((e.0, e.1)));
        let m = choose|m: int| 0 <= m < s.table.active.len() && s.table.active[m] == e;
        assert(e.1 < MAX_SLOTS);
        assert(crate::ring_state::plays(s.slots[e.1 as int], peer, e.0.channel));
    }
}

/// Renaming a client that is not listed, after another one was released, changes
/// nothing.
proof fn lemma_rename_of_nobody(t: crate::slot::TableState, c: Seq<char>, q: Seq<char>)
    requires
        t.valid(),
        forall|i: int| 0 <= i < t.active.len() ==> (#[trigger] t.active[i]).0.client != q,
        forall|i: int| 0 <= i < t.reserved.len() ==> (#[trigger] t.reserved[i]).0.client != q,
    ensures
        t.client_released(c).rekeyed(q, c) == t.client_released(c),
{
    let u = t.client_released(c);
    let mine = crate::slot::of_client(t.active, c);
    assert forall|i: int| 0 <= i < mine.len() implies (#[trigger] mine[i]).0.client != q by {
        assert(mine.contains(mine[i]));
        t.active.lemma_filter_contains_rev(crate::slot::same_client(c), mine[i]);
    }
    crate::ring_laws::lemma_released_clients(t.reserved, mine, q);
    assert forall|i: int| 0 <= i < u.active.len() implies (#[trigger] u.active[i]).0.client != q by {
        assert(u.active.contains(u.active[i]));
        t.active.lemma_filter_contains_rev(crate::slot::other_client(c), u.active[i]);
    }
    assert(crate::slot::all_renamed(u.active, q, c) =~= u.active);
    crate::slot_laws::lemma_filter_keeps_valid(t.active, crate::slot::other_client(c));
    crate::slot::lemma_firsts_of_distinct(u.active);
    assert(u.rekeyed(q, c).active =~= u.active);
    assert(u.rekeyed(q, c).reserved =~= u.reserved);
}

/// Lists of slots that agree but for the name of a peer give lists of active slots that
/// do.
proof fn lemma_lists_correspond(
    a: Seq<SlotState>,
    b: Seq<SlotState>,
    peer: Seq<char>,
    new_peer: Seq<char>,
)
    requires
        a.len() == b.len(),
        forall|i: int|
            0 <= i < a.len() ==> b[i].active == (#[trigger] a[i]).active && (a[i].active
                ==> b[i].stream == a[i].stream && b[i].peer == if a[i].peer == peer {
                new_peer
            } else {
                a[i].peer
            }),
    ensures
        crate::ring_state::active_list(b) == crate::ring_state::active_list(a).map_values(
            |e: (usize, Seq<char>, u16)|
                (
                    e.0,
                    if e.1 == peer {
                        new_peer
                    } else {
                        e.1
                    },
                    e.2,
                ),
        ),
    decreases a.len(),
{
    let f = |e: (usize, Seq<char>, u16)|
        (
            e.0,
            if e.1 == peer {
                new_peer
            } else {
                e.1
            },
            e.2,
        );
    if a.len() == 0 {
        assert(crate::ring_state::active_list(b) =~= crate::ring_state::active_list(a).map_values(
            f,
        ));
    } else {
        let x = a.drop_last();
        let y = b.drop_last();
        assert forall|i: int| 0 <= i < x.len() implies y[i].active == (#[trigger] x[i]).active && (
        x[i].active ==> y[i].stream == x[i].stream && y[i].peer == if x[i].peer == peer {
            new_peer
        } else {
            x[i].peer
        }) by {
            assert(x[i] == a[i] && y[i] == b[i]);
        }
        lemma_lists_correspond(x, y, peer, new_peer);
        assert(a[a.len() - 1] == a.last());
        assert(crate::ring_state::active_list(b) =~= crate::ring_state::active_list(a).map_values(
            f,
        ));
    }
}

/// In a new ring, and in one that was reset, slots and table agree on every peer.
pub proof fn law_fresh_ring_is_in_step(
    s: RingState,
    sample_rate: u32,
    channels: u16,
    capacity: nat,
    bars: u32,
    quantum: u64,
    peer: Seq<char>,
)
    ensures
        in_step(RingState::fresh(sample_rate, channels, capacity, bars, quantum), peer),
        in_step(s.cleared(), peer),
{
}

/// Slots that play the same as before agree with a table that is the same.
proof fn lemma_same_streams_in_step(s: RingState, t: RingState, peer: Seq<char>)
    requires
        in_step(s, peer),
        s.table.valid(),
        s.slots.len() == MAX_SLOTS,
        t.slots.len() == s.slots.len(),
        t.table == s.table,
        t.identities == s.identities,
        forall|i: int|
            0 <= i < s.slots.len() ==> (#[trigger] t.slots[i]).active == s.slots[i].active
                && t.slots[i].peer == s.slots[i].peer && t.slots[i].stream == s.slots[i].stream,
    ensures
        in_step(t, peer),
{
    assert forall|i: int|
        0 <= i < t.slots.len() && (#[trigger] t.slots[i]).active && t.slots[i].peer
            == peer implies t.table.active.contains(
        (t.channel_of(peer, t.slots[i].stream), i as usize),
    ) by {
        assert(s.slots[i].active);
    }
    let c = crate::ring_state::identity_of(t.identities, peer);
    assert forall|n: int|
        0 <= n < t.table.active.len() && (#[trigger] t.table.active[n]).0.client
            == c implies crate::ring_state::plays(
        t.slots[t.table.active[n].1 as int],
        peer,
        t.table.active[n].0.channel,
    ) by {
        assert(s.table.active[n].1 < MAX_SLOTS);
    }
}

/// Whether no piece is of another peer with the identity of `peer`.
pub open spec fn sole_sender(
    pieces: Seq<PendingState>,
    ids: Seq<(Seq<char>, Seq<char>)>,
    peer: Seq<char>,
) -> bool {
    forall|i: int|
        0 <= i < pieces.len() && (#[trigger] pieces[i]).peer != peer
            ==> crate::ring_state::identity_of(ids, pieces[i].peer)
            != crate::ring_state::identity_of(ids, peer)
}

/// Mixing a due piece keeps slots and table in agreement on a peer, unless it is the
/// piece of another peer with the same identity.
proof fn lemma_step_keeps_in_step<M: Fn(u32, u32) -> u32, F: Fn(u32, u32, usize, usize) -> u32>(
    mix: M,
    fade: F,
    s: RingState,
    p: PendingState,
    t: RingState,
    peer: Seq<char>,
)
    requires
        crate::ring_state::mix_step(mix, fade, s, p, t),
        s.table.valid(),
        s.slots.len() == MAX_SLOTS,
        in_step(s, peer),
        p.peer == peer || crate::ring_state::identity_of(s.identities, p.peer)
            != crate::ring_state::identity_of(s.identities, peer),
    ensures
        in_step(t, peer),
        t.table.valid(),
        t.slots.len() == MAX_SLOTS,
        t.identities == s.identities,
{
    let k = s.channel_of(p.peer, p.stream);
    let c = crate::ring_state::identity_of(s.identities, peer);
    crate::slot_laws::law_assign_keeps_table_valid(s.table, k);
    crate::slot_laws::law_assign_keeps_table_valid(s.table.assigned(k), s.channel_of(p.peer, 0));
    crate::slot_laws::lemma_assigned_is_held(s.table, k);
    match s.table.assigned_slot(k) {
        Some(x) => {
            crate::slot_laws::lemma_slot_is_listed(t.table, k, x);
            let mx = choose|m: int| 0 <= m < t.table.active.len() && t.table.active[m] == (k, x);
            assert(x < MAX_SLOTS) by {
                assert(t.table.active[mx].1 < MAX_SLOTS);
            }
            assert forall|i: int|
                0 <= i < t.slots.len() && (#[trigger] t.slots[i]).active && t.slots[i].peer
                    == peer implies t.table.active.contains(
                (t.channel_of(peer, t.slots[i].stream), i as usize),
            ) by {
                if i != x {
                    assert(s.slots[i].active && s.slots[i].peer == peer);
                    let e = (s.channel_of(peer, s.slots[i].stream), i as usize);
                    assert(s.table.active.contains(e));
                    let m = choose|m: int| 0 <= m < s.table.active.len() && s.table.active[m] == e;
                    assert(t.table.active[m] == e);
                }
            }
            assert forall|n: int|
                0 <= n < t.table.active.len() && (#[trigger] t.table.active[n]).0.client
                    == c implies crate::ring_state::plays(
                t.slots[t.table.active[n].1 as int],
                peer,
                t.table.active[n].0.channel,
            ) by {
                let e = t.table.active[n];
                if e.1 == x {
                    if mx < n {
                        assert(t.table.active[mx].1 != t.table.active[n].1);
                    } else if n < mx {
                        assert(t.table.active[n].1 != t.table.active[mx].1);
                    }
                } else {
                    assert(n < s.table.active.len());
                    assert(s.table.active[n] == e);
                    assert(e.1 < MAX_SLOTS);
                    assert(crate::ring_state::plays(s.slots[e.1 as int], peer, e.0.channel));
                    if crate::ring_state::plays(s.slots[e.1 as int], p.peer, p.stream) {
                        assert(e.0 =~= k);
                        if mx < n {
                            assert(t.table.active[mx].0 != t.table.active[n].0);
                        } else if n < mx {
                            assert(t.table.active[n].0 != t.table.active[mx].0);
                        }
                    }
                }
            }
        },
        None => {
            assert(t.table.active == s.table.active);
            assert forall|i: int| 0 <= i < t.slots.len() implies (#[trigger] t.slots[i]).active
                == s.slots[i].active && t.slots[i].peer == s.slots[i].peer && t.slots[i].stream
                == s.slots[i].stream by {}
            assert forall|i: int|
                0 <= i < t.slots.len() && (#[trigger] t.slots[i]).active && t.slots[i].peer
                    == peer implies t.table.active.contains(
                (t.channel_of(peer, t.slots[i].stream), i as usize),
            ) by {
                assert(s.slots[i].active);
            }
            assert forall|n: int|
                0 <= n < t.table.active.len() && (#[trigger] t.table.active[n]).0.client
                    == c implies crate::ring_state::plays(
                t.slots[t.table.active[n].1 as int],
                peer,
                t.table.active[n].0.channel,
            ) by {
                assert(s.table.active[n].1 < MAX_SLOTS);
            }
        },
    }
}

proof fn lemma_trace_keeps_in_step<M: Fn(u32, u32) -> u32, F: Fn(u32, u32, usize, usize) -> u32>(
    mix: M,
    fade: F,
    due: Seq<PendingState>,
    trace: Seq<RingState>,
    n: int,
    peer: Seq<char>,
)
    requires
        crate::ring_state::is_trace(mix, fade, due, trace),
        trace[0].table.valid(),
        trace[0].slots.len() == MAX_SLOTS,
        in_step(trace[0], peer),
        sole_sender(due, trace[0].identities, peer),
        0 <= n <= due.len(),
    ensures
        in_step(trace[n], peer),
        trace[n].table.valid(),
        trace[n].slots.len() == MAX_SLOTS,
        trace[n].identities == trace[0].identities,
    decreases n,
{
    if n > 0 {
        lemma_trace_keeps_in_step(mix, fade, due, trace, n - 1, peer);
        assert(crate::ring_state::mix_step(mix, fade, trace[n - 1], due[n - 1], trace[n - 1 + 1]));
        lemma_step_keeps_in_step(mix, fade, trace[n - 1], due[n - 1], trace[n], peer);
    }
}

/// Processing buffers, feeding audio, reading slots and restarting the transport keep
/// slots and table in agreement on a peer, where no audio of another peer with its
/// identity is waiting.
pub proof fn law_playing_keeps_in_step<
    M: Fn(u32, u32) -> u32,
    F: Fn(u32, u32, usize, usize) -> u32,
>(
    mix: M,
    fade: F,
    s: RingState,
    t: RingState,
    peer: Seq<char>,
    fed: PendingState,
    slot: usize,
    wanted: nat,
    index: i64,
)
    requires
        s.valid(),
        in_step(s, peer),
    ensures
        crate::ring_state::reached(mix, fade, s, index, t) && sole_sender(
            s.pending,
            s.identities,
            peer,
        ) ==> in_step(t, peer),
        crate::ring_state::fed(mix, s, fed.peer, fed.stream, fed.index, fed.samples, t) ==> in_step(
            t,
            peer,
        ),
        in_step(s.slot_advanced(slot, wanted), peer),
        in_step(s.restarted(), peer),
{
    if crate::ring_state::reached(mix, fade, s, index, t) && sole_sender(
        s.pending,
        s.identities,
        peer,
    ) {
        match s.current {
            Some(prev) => if prev != index {
                let m = choose|m: RingState|
                    #[trigger] crate::ring_state::swapped(mix, fade, s.stocked(), prev, m) && t
                        == RingState { current: Some(index), ..m };
                let due = s.stocked().due(prev);
                let trace = choose|trace: Seq<RingState>|
                    {
                        &&& #[trigger] crate::ring_state::is_trace(mix, fade, due, trace)
                        &&& trace[0] == s.stocked().turned(prev)
                        &&& trace.last() == m
                    };
                assert forall|i: int|
                    0 <= i < due.len() && (#[trigger] due[i]).peer
                        != peer implies crate::ring_state::identity_of(s.identities, due[i].peer)
                    != crate::ring_state::identity_of(s.identities, peer) by {
                    let p = crate::ring_state::is_due(prev, s.playing);
                    assert(due.contains(due[i]));
                    s.pending.lemma_filter_contains_rev(p, due[i]);
                    let j = choose|j: int| 0 <= j < s.pending.len() && s.pending[j] == due[i];
                    assert(s.pending[j].peer != peer);
                }
                lemma_same_streams_in_step(s, trace[0], peer);
                lemma_trace_keeps_in_step(mix, fade, due, trace, due.len() as int, peer);
                lemma_same_streams_in_step(m, t, peer);
            } else {
                lemma_same_streams_in_step(s, t, peer);
            },
            None => {
                lemma_same_streams_in_step(s, t, peer);
            },
        }
    }
    if crate::ring_state::fed(mix, s, fed.peer, fed.stream, fed.index, fed.samples, t) {
        if s.playing == Some(fed.index) && crate::ring_state::peer_slot(
            s.slots,
            fed.peer,
            fed.stream,
        ) is Some {
            let i = crate::ring_state::peer_slot(s.slots, fed.peer, fed.stream)->0;
            assert(crate::ring_state::is_peer_slot(s.slots, fed.peer, fed.stream, i));
        }
        lemma_same_streams_in_step(s, t, peer);
    }
    lemma_same_streams_in_step(s, s.slot_advanced(slot, wanted), peer);
    lemma_same_streams_in_step(s, s.restarted(), peer);
}

/// A peer with another identity that leaves keeps slots and table in agreement.
pub proof fn law_leaving_keeps_in_step(s: RingState, peer: Seq<char>, other: Seq<char>)
    requires
        s.valid(),
        in_step(s, peer),
        other != peer,
        crate::ring_state::identity_of(s.identities, other) != crate::ring_state::identity_of(
            s.identities,
            peer,
        ),
    ensures
        in_step(s.peer_removed(other), peer),
{
    let c = crate::ring_state::identity_of(s.identities, other);
    let t = s.peer_removed(other);
    let po = crate::slot::other_client(c);
    lemma_identity_filtered(s.identities, other, peer);
    assert forall|i: int|
        0 <= i < t.slots.len() && (#[trigger] t.slots[i]).active && t.slots[i].peer
            == peer implies t.table.active.contains(
        (t.channel_of(peer, t.slots[i].stream), i as usize),
    ) by {
        let a = s.slots[i];
        assert(a.active && a.peer == peer);
        let e = (s.channel_of(peer, a.stream), i as usize);
        assert(s.table.active.contains(e));
        let m = choose|m: int| 0 <= m < s.table.active.len() && s.table.active[m] == e;
        s.table.active.lemma_filter_contains(po, m);
    }
    let d = crate::ring_state::identity_of(t.identities, peer);
    assert forall|n: int|
        0 <= n < t.table.active.len() && (#[trigger] t.table.active[n]).0.client
            == d implies crate::ring_state::plays(
        t.slots[t.table.active[n].1 as int],
        peer,
        t.table.active[n].0.channel,
    ) by {
        let e = t.table.active[n];
        assert(t.table.active.contains(e));
        s.table.active.lemma_filter_contains_rev(po, e);
        let m = choose|m: int| 0 <= m < s.table.active.len() && s.table.active[m] == e;
        assert(s.table.active[m].1 < MAX_SLOTS);
        assert(crate::ring_state::plays(s.slots[e.1 as int], peer, e.0.channel));
    }
}

/// What announcing an identity leaves alone: a slot that the table gives to a channel,
/// where the channel keeps it and the slot plays none of the streams that get one back.
proof fn lemma_joining_spares(s: RingState, peer: Seq<char>, identity: Seq<char>, m: int)
    requires
        s.valid(),
        0 <= m < s.table.rekeyed(peer, identity).active.len(),
        ({
            let e = s.table.rekeyed(peer, identity).active[m];
            let a = s.slots[e.1 as int];
            a.active && a.peer == peer ==> e.0 == ChannelKey { client: identity, channel: a.stream }
        }),
    ensures
        ({
            let i = s.table.rekeyed(peer, identity).active[m].1 as int;
            &&& i < MAX_SLOTS
            &&& s.peer_joined(peer, identity).slots[i] == s.slots[i]
        }),
{
    let u = s.table.rekeyed(peer, identity);
    let es = u.reclaimable(identity);
    let i = u.active[m].1 as int;
    let a = s.slots[i];
    crate::slot_laws::lemma_rekeyed(s.table, peer, identity);
    lemma_reclaimable(u, identity);
    assert(i < MAX_SLOTS);
    assert forall|x: int| 0 <= x < es.len() implies (#[trigger] es[x]).1 != i && es[x].1
        < s.slots.len() && !crate::ring_state::plays(a, peer, es[x].0.channel) by {
        if es[x].1 == i {
            assert(u.active[m].1 == es[x].1);
            assert(crate::slot::takes(u.active, es[x].1));
        }
        if crate::ring_state::plays(a, peer, es[x].0.channel) {
            assert(es[x].0 =~= u.active[m].0);
            assert(crate::slot::holds(u.active, es[x].0));
        }
    }
    lemma_retuned_spares(s.slots, peer, es, i);
}

/// Another peer that announces an identity keeps slots and table in agreement on a
/// peer, where neither its id nor the identity is the peer's identity.
pub proof fn law_others_joining_keeps_in_step(
    s: RingState,
    peer: Seq<char>,
    other: Seq<char>,
    identity: Seq<char>,
)
    requires
        s.valid(),
        in_step(s, peer),
        other != peer,
        other != crate::ring_state::identity_of(s.identities, peer),
        identity != crate::ring_state::identity_of(s.identities, peer),
    ensures
        in_step(s.peer_joined(other, identity), peer),
{
    let c = crate::ring_state::identity_of(s.identities, peer);
    let t = s.peer_joined(other, identity);
    let u = s.table.rekeyed(other, identity);
    let es = u.reclaimable(identity);
    lemma_identity_joined(s.identities, other, identity);
    crate::slot_laws::lemma_rekeyed(s.table, other, identity);
    lemma_reclaimable(u, identity);
    crate::ring_laws::lemma_retuned_len(s.slots, other, es);
    assert(t.table.active == u.active + es);
    assert forall|i: int|
        0 <= i < t.slots.len() && (#[trigger] t.slots[i]).active && t.slots[i].peer
            == peer implies t.table.active.contains(
        (t.channel_of(peer, t.slots[i].stream), i as usize),
    ) by {
        lemma_retuned_frame(s.slots, other, es, i);
        let a = s.slots[i];
        let k = s.channel_of(peer, a.stream);
        assert(s.table.active.contains((k, i as usize)));
        crate::slot_laws::lemma_slot_is_listed(s.table, k, i as usize);
        crate::slot_laws::law_rekey_keeps_slots(s.table, other, identity, k);
        crate::slot_laws::lemma_slot_is_listed(u, k, i as usize);
        let m = choose|m: int| 0 <= m < u.active.len() && u.active[m] == (k, i as usize);
        assert(t.table.active[m] == (k, i as usize));
    }
    assert forall|n: int|
        0 <= n < t.table.active.len() && (#[trigger] t.table.active[n]).0.client
            == c implies crate::ring_state::plays(
        t.slots[t.table.active[n].1 as int],
        peer,
        t.table.active[n].0.channel,
    ) by {
        let e = t.table.active[n];
        if n < u.active.len() {
            let f = crate::slot_laws::lemma_rekeyed_source(s.table, other, identity, n);
            let m = choose|m: int| 0 <= m < s.table.active.len() && s.table.active[m] == f;
            assert(f == e);
            assert(s.table.active[m].1 < MAX_SLOTS);
            assert(crate::ring_state::plays(s.slots[e.1 as int], peer, e.0.channel));
            lemma_joining_spares(s, other, identity, n);
        } else {
            let a = n - u.active.len();
            assert(es[a] == e);
        }
    }
}

/// A peer that announces its identity, the first time or again, has slots and table in
/// agreement, where what the table lists for its id and for the identity are its own
/// streams.
pub proof fn law_joining_keeps_in_step(s: RingState, peer: Seq<char>, identity: Seq<char>)
    requires
        s.valid(),
        in_step(s, peer),
        crate::ring_state::identity_of(s.identities, peer) == peer
            || crate::ring_state::identity_of(s.identities, peer) == identity,
        lists_only(s, peer, peer),
        lists_only(s, identity, peer),
    ensures
        in_step(s.peer_joined(peer, identity), peer),
{
    let c = crate::ring_state::identity_of(s.identities, peer);
    let t = s.peer_joined(peer, identity);
    let u = s.table.rekeyed(peer, identity);
    let es = u.reclaimable(identity);
    lemma_identity_joined(s.identities, peer, identity);
    crate::slot_laws::lemma_rekeyed(s.table, peer, identity);
    lemma_reclaimable(u, identity);
    crate::ring_laws::lemma_retuned_len(s.slots, peer, es);
    assert(t.table.active == u.active + es);
    // Slots that play the peer keep their channels
    assert forall|i: int|
        0 <= i < s.slots.len() && (#[trigger] s.slots[i]).active && s.slots[i].peer
            == peer implies u.active.contains(
        (ChannelKey { client: identity, channel: s.slots[i].stream }, i as usize),
    ) by {
        lemma_own_slot_joins(s, peer, identity, i);
    }
    assert forall|i: int|
        0 <= i < t.slots.len() && (#[trigger] t.slots[i]).active && t.slots[i].peer
            == peer implies t.table.active.contains(
        (t.channel_of(peer, t.slots[i].stream), i as usize),
    ) by {
        if crate::slot::takes(es, i as usize) {
            let a = choose|a: int| 0 <= a < es.len() && (#[trigger] es[a]).1 == i as usize;
            crate::ring_laws::lemma_retuned(s.slots, peer, es, a);
            assert(es[a].0 =~= t.channel_of(peer, t.slots[i].stream));
            assert(t.table.active[u.active.len() + a] == es[a]);
        } else {
            lemma_retuned_frame(s.slots, peer, es, i);
            let e = (ChannelKey { client: identity, channel: s.slots[i].stream }, i as usize);
            assert(u.active.contains(e));
            let m = choose|m: int| 0 <= m < u.active.len() && u.active[m] == e;
            assert(t.table.active[m] == e);
        }
    }
    assert forall|n: int|
        0 <= n < t.table.active.len() && (#[trigger] t.table.active[n]).0.client
            == identity implies crate::ring_state::plays(
        t.slots[t.table.active[n].1 as int],
        peer,
        t.table.active[n].0.channel,
    ) by {
        let e = t.table.active[n];
        if n < u.active.len() {
            let f = crate::slot_laws::lemma_rekeyed_source(s.table, peer, identity, n);
            let m = choose|m: int| 0 <= m < s.table.active.len() && s.table.active[m] == f;
            assert(s.table.active[m].1 < MAX_SLOTS);
            assert(f.0.client == peer || f.0.client == identity);
            assert(crate::ring_state::plays(s.slots[e.1 as int], peer, e.0.channel));
            assert(e.0 =~= ChannelKey { client: identity, channel: e.0.channel });
            lemma_joining_spares(s, peer, identity, n);
        } else {
            let a = n - u.active.len();
            assert(es[a] == e);
            crate::ring_laws::lemma_retuned(s.slots, peer, es, a);
        }
    }
}

/// A slot that plays a peer when it announces its identity is listed for the stream
/// under the identity.
proof fn lemma_own_slot_joins(s: RingState, peer: Seq<char>, identity: Seq<char>, i: int)
    requires
        s.valid(),
        in_step(s, peer),
        crate::ring_state::identity_of(s.identities, peer) == peer
            || crate::ring_state::identity_of(s.identities, peer) == identity,
        lists_only(s, peer, peer),
        lists_only(s, identity, peer),
        0 <= i < s.slots.len(),
        s.slots[i].active,
        s.slots[i].peer == peer,
    ensures
        s.table.rekeyed(peer, identity).active.contains(
            (ChannelKey { client: identity, channel: s.slots[i].stream }, i as usize),
        ),
{
    let u = s.table.rekeyed(peer, identity);
    let a = ChannelKey { client: peer, channel: s.slots[i].stream };
    let k = ChannelKey { client: identity, channel: s.slots[i].stream };
    let h = s.channel_of(peer, s.slots[i].stream);
    assert(s.table.active.contains((h, i as usize)));
    crate::slot_laws::lemma_slot_is_listed(s.table, h, i as usize);
    crate::slot_laws::lemma_rekeyed(s.table, peer, identity);
    crate::slot_laws::law_rekey_keeps_slots(s.table, peer, identity, k);
    lemma_own_slot(s, peer, peer, s.slots[i].stream, i);
    lemma_own_slot(s, peer, identity, s.slots[i].stream, i);
    assert(h == a || h == k);
    assert(u.slot_of(k) == Some(i as usize));
    crate::slot_laws::lemma_slot_is_listed(u, k, i as usize);
}

/// A channel that is listed for a stream of the peer is listed with the slot that
/// plays it.
proof fn lemma_own_slot(s: RingState, peer: Seq<char>, client: Seq<char>, stream: u16, i: int)
    requires
        s.valid(),
        lists_only(s, client, peer),
        0 <= i < s.slots.len(),
        crate::ring_state::plays(s.slots[i], peer, stream),
    ensures
        ({
            let k = ChannelKey { client, channel: stream };
            s.table.slot_of(k) is Some ==> s.table.slot_of(k) == Some(i as usize)
        }),
{
    let k = ChannelKey { client, channel: stream };
    if crate::slot::holds(s.table.active, k) {
        crate::slot::lemma_first_exists(s.table.active, k);
        let n = crate::slot::first_of(s.table.active, k);
        let j = s.table.active[n].1 as int;
        assert(s.table.active[n].1 < MAX_SLOTS);
        assert(crate::ring_state::plays(s.slots[j], peer, stream));
        if i < j {
            assert(s.slots[i].active && s.slots[j].active);
        } else if j < i {
            assert(s.slots[j].active && s.slots[i].active);
        }
    }
}

/// Retuning makes no slot play anything but what it asks for: a slot that plays and that
/// no entry asks for, or that plays another peer, was so before.
proof fn lemma_retuned_frame(slots: Seq<SlotState>, peer: Seq<char>, es: Seq<Entry>, i: int)
    requires
        0 <= i < slots.len(),
        forall|a: int| 0 <= a < es.len() ==> (#[trigger] es[a]).1 < slots.len(),
        crate::ring_state::retuned(slots, peer, es)[i].active,
        crate::ring_state::retuned(slots, peer, es)[i].peer != peer || !crate::slot::takes(
            es,
            i as usize,
        ),
    ensures
        crate::ring_state::retuned(slots, peer, es)[i] == slots[i],
    decreases es.len(),
{
    if es.len() > 0 {
        let front = es.drop_last();
        let n = es.len() - 1;
        assert forall|a: int| 0 <= a < front.len() implies (#[trigger] front[a]).1
            < slots.len() by {
            assert(front[a] == es[a]);
        }
        crate::ring_laws::lemma_retuned_len(slots, peer, front);
        let before = crate::ring_state::retuned(slots, peer, front);
        assert(es[n].1 < slots.len());
        if es[n].1 == i {
            assert(crate::slot::takes(es, i as usize));
        }
        assert(before[i] == crate::ring_state::retuned(slots, peer, es)[i]);
        if crate::slot::takes(front, i as usize) {
            let a = choose|a: int| 0 <= a < front.len() && (#[trigger] front[a]).1 == i as usize;
            assert(es[a].1 == i as usize);
        }
        lemma_retuned_frame(slots, peer, front, i);
    }
}

/// A buffer with `input` at interval `index` takes the ring from `s` to `t` and gives
/// `out`. Completed recordings may have been handed out.
pub open spec fn processed<M: Fn(u32, u32) -> u32, F: Fn(u32, u32, usize, usize) -> u32>(
    mix: M,
    fade: F,
    s: RingState,
    input: Seq<u32>,
    index: i64,
    out: Seq<u32>,
    t: RingState,
) -> bool {
    exists|m: RingState|
        {
            &&& #[trigger] crate::ring_state::reached(mix, fade, s, index, m)
            &&& out == m.heard(out.len())
            &&& t == RingState {
                completed: t.completed,
                ..m.recorded(input).advanced(out.len())
            }
        }
}

/// Consecutive buffers at interval `index` give `outs` and take the ring through
/// `states`.
pub open spec fn is_run<M: Fn(u32, u32) -> u32, F: Fn(u32, u32, usize, usize) -> u32>(
    mix: M,
    fade: F,
    states: Seq<RingState>,
    inputs: Seq<Seq<u32>>,
    index: i64,
    outs: Seq<Seq<u32>>,
) -> bool {
    &&& states.len() == outs.len() + 1
    &&& inputs.len() == outs.len()
    &&& forall|i: int|
        0 <= i < outs.len() ==> processed(
            mix,
            fade,
            states[i],
            inputs[i],
            index,
            #[trigger] outs[i],
            states[i + 1],
        )
}

/// All that buffers gave, one after the other.
pub open spec fn all_heard(outs: Seq<Seq<u32>>) -> Seq<u32>
    decreases outs.len(),
{
    if outs.len() == 0 {
        Seq::empty()
    } else {
        all_heard(outs.drop_last()) + outs.last()
    }
}

/// Whether rings `a` and `b` play and hold the same, but for how much was recorded,
/// handed out and read.
pub open spec fn sounds_like(a: RingState, b: RingState) -> bool {
    b == RingState {
        record: b.record,
        playback_pos: b.playback_pos,
        completed: b.completed,
        spare: b.spare,
        ..a
    }
}

/// What was heard is the audio from its start, then silence.
pub open spec fn is_read_off(heard: Seq<u32>, audio: Seq<u32>) -> bool {
    forall|j: int|
        0 <= j < heard.len() ==> #[trigger] heard[j] == crate::ring_state::sample_or_silence(
            audio,
            j,
        )
}

/// Where a run stands after `n` buffers, of which the playback was read from its
/// start.
spec fn reads_on(s: RingState, at: RingState, outs: Seq<Seq<u32>>, index: i64) -> bool {
    &&& sounds_like(s, at)
    &&& at.current == Some(index)
    &&& at.record.len() <= at.capacity
    &&& at.playback_pos == crate::ring_state::min_len(
        all_heard(outs).len(),
        at.playback.len(),
    )
    &&& is_read_off(all_heard(outs), at.playback)
}

/// Within an interval the playback is read off, buffer by buffer.
proof fn lemma_reads_on<M: Fn(u32, u32) -> u32, F: Fn(u32, u32, usize, usize) -> u32>(
    mix: M,
    fade: F,
    states: Seq<RingState>,
    inputs: Seq<Seq<u32>>,
    index: i64,
    outs: Seq<Seq<u32>>,
    b: int,
    n: int,
)
    requires
        is_run(mix, fade, states, inputs, index, outs),
        0 <= b <= n <= outs.len(),
        reads_on(states[b], states[b], outs.take(b), index),
    ensures
        reads_on(states[b], states[n], outs.take(n), index),
    decreases n - b,
{
    if b < n {
        lemma_reads_on(mix, fade, states, inputs, index, outs, b, n - 1);
        let s = states[n - 1];
        let out = outs[n - 1];
        let t = states[n];
        assert(processed(mix, fade, s, inputs[n - 1], index, outs[n - 1], states[n - 1 + 1]));
        let m = choose|m: RingState|
            {
                &&& #[trigger] crate::ring_state::reached(mix, fade, s, index, m)
                &&& out == m.heard(out.len())
                &&& t == RingState {
                    completed: t.completed,
                    ..m.recorded(inputs[n - 1]).advanced(out.len())
                }
            };
        assert(m == s.stocked());
        let before = all_heard(outs.take(n - 1));
        assert(outs.take(n).drop_last() =~= outs.take(n - 1));
        assert(outs.take(n).last() == out);
        let all = all_heard(outs.take(n));
        assert(all == before + out);
        assert forall|j: int| 0 <= j < all.len() implies #[trigger] all[j]
            == crate::ring_state::sample_or_silence(t.playback, j) by {
            if j < before.len() {
                assert(all[j] == before[j]);
            } else {
                assert(all[j] == out[j - before.len()]);
            }
        }
    }
}

/// Whether `y` is what is heard of `x`: its head fades in from silence, and each sample
/// is added to silence.
pub open spec fn is_heard_as<M: Fn(u32, u32) -> u32, F: Fn(u32, u32, usize, usize) -> u32>(
    mix: M,
    fade: F,
    x: Seq<u32>,
    y: Seq<u32>,
) -> bool {
    exists|faded: Seq<u32>|
        {
            &&& #[trigger] crate::ring_state::crossfaded(
                fade,
                x,
                crate::ring_state::silence(XFADE_SAMPLES as nat),
                faded,
            )
            &&& y.len() == x.len()
            &&& forall|j: int|
                0 <= j < y.len() ==> call_ensures(mix, (SILENCE, faded[j]), #[trigger] y[j])
        }
}

/// Playback is one interval behind. Audio that is fed for the current interval, and is
/// the only audio there is, is not heard while that interval lasts; during the next
/// one it is heard from its start, in order, faded in from silence, and then there is
/// silence.
///
/// The audio fits the capacity, and its stream, which has no slot yet, gets one.
pub proof fn law_one_interval_behind<
    M: Fn(u32, u32) -> u32,
    F: Fn(u32, u32, usize, usize) -> u32,
>(
    mix: M,
    fade: F,
    s: RingState,
    x: PendingState,
    states: Seq<RingState>,
    inputs: Seq<Seq<u32>>,
    outs: Seq<Seq<u32>>,
    next: i64,
    next_states: Seq<RingState>,
    next_inputs: Seq<Seq<u32>>,
    next_outs: Seq<Seq<u32>>,
)
    requires
        s.valid(),
        s.current == Some(x.index),
        s.pending.len() == 0,
        s.playback.len() == 0,
        s.table.assigned_slot(s.channel_of(x.peer, x.stream)) is Some,
        forall|i: int|
            0 <= i < s.slots.len() ==> !crate::ring_state::plays(
                #[trigger] s.slots[i],
                x.peer,
                x.stream,
            ),
        x.samples.len() <= s.capacity,
        is_run(mix, fade, states, inputs, x.index, outs),
        crate::ring_state::fed(mix, s, x.peer, x.stream, x.index, x.samples, states[0]),
        next != x.index,
        is_run(mix, fade, next_states, next_inputs, next, next_outs),
        next_states[0] == states.last(),
        next_outs.len() > 0,
    ensures
        is_read_off(all_heard(outs), Seq::empty()),
        exists|y: Seq<u32>|
            #[trigger] is_heard_as(mix, fade, x.samples, y) && is_read_off(
                all_heard(next_outs),
                y,
            ),
{
    let k = x.index;
    let t0 = states[0];
    // The audio waits
    assert(crate::ring_state::peer_slot(s.slots, x.peer, x.stream) is None) by {
        assert forall|i: int| !crate::ring_state::is_peer_slot(s.slots, x.peer, x.stream, i) by {}
    }
    assert(t0.pending =~= seq![x]) by {
        assert forall|i: int| !crate::ring_state::is_pending_at(
            s.pending,
            x.peer,
            x.stream,
            k,
            i,
        ) by {}
        assert(s.pending =~= Seq::empty());
    }
    // The rest of the current interval
    assert(all_heard(outs.take(0)) =~= Seq::empty());
    assert(reads_on(t0, t0, outs.take(0), k));
    lemma_reads_on(mix, fade, states, inputs, k, outs, 0, outs.len() as int);
    assert(outs.take(outs.len() as int) =~= outs);
    let e = states.last();
    assert(e == states[outs.len() as int]);
    assert(e.playback =~= Seq::empty());
    assert(e.valid());
    // The boundary
    let first = next_outs[0];
    assert(processed(
        mix,
        fade,
        next_states[0],
        next_inputs[0],
        next,
        next_outs[0],
        next_states[0int + 1],
    ));
    let m = choose|m: RingState|
        {
            &&& #[trigger] crate::ring_state::reached(mix, fade, e, next, m)
            &&& first == m.heard(first.len())
            &&& next_states[1] == RingState {
                completed: next_states[1].completed,
                ..m.recorded(next_inputs[0]).advanced(first.len())
            }
        };
    let v = choose|v: RingState|
        #[trigger] crate::ring_state::swapped(mix, fade, e.stocked(), k, v) && m == RingState {
            current: Some(next),
            ..v
        };
    lemma_only_piece_is_heard(mix, fade, e.stocked(), k, v, x);
    // The next interval
    let one = next_outs.take(1);
    assert(one.drop_last() =~= Seq::empty());
    assert(one.last() == first);
    assert(all_heard(one.drop_last()) =~= Seq::empty());
    assert(all_heard(one) =~= first);
    let at = next_states[1];
    crate::ring_laws::law_boundary(mix, fade, e.stocked(), k, v);
    assert(at.record.len() <= at.capacity);
    assert(reads_on(at, at, one, next));
    lemma_reads_on(
        mix,
        fade,
        next_states,
        next_inputs,
        next,
        next_outs,
        1,
        next_outs.len() as int,
    );
    assert(next_outs.take(next_outs.len() as int) =~= next_outs);
    assert(next_states.last().playback == v.playback);
    assert(is_read_off(all_heard(next_outs), v.playback));
}

/// A boundary at which one piece is due, of a stream without a slot, plays that piece
/// faded in from silence.
proof fn lemma_only_piece_is_heard<
    M: Fn(u32, u32) -> u32,
    F: Fn(u32, u32, usize, usize) -> u32,
>(mix: M, fade: F, s: RingState, completed: i64, t: RingState, x: PendingState)
    requires
        s.valid(),
        crate::ring_state::swapped(mix, fade, s, completed, t),
        s.pending == seq![x],
        x.index == completed,
        x.samples.len() <= s.capacity,
        s.table.assigned_slot(s.channel_of(x.peer, x.stream)) is Some,
        forall|i: int|
            0 <= i < s.slots.len() ==> !crate::ring_state::plays(
                #[trigger] s.slots[i],
                x.peer,
                x.stream,
            ),
    ensures
        is_heard_as(mix, fade, x.samples, t.playback),
        t.playback_pos == 0,
        t.record.len() == 0,
        t.capacity == s.capacity,
{
    let due = s.due(completed);
    let pred = crate::ring_state::is_due(completed, s.playing);
    assert(due =~= seq![x]) by {
        reveal(Seq::filter);
        assert(s.pending.drop_last() =~= Seq::empty());
        assert(s.pending.drop_last().filter(pred) =~= Seq::empty());
        assert(pred(s.pending.last()));
    }
    let k = s.channel_of(x.peer, x.stream);
    let slot = s.table.assigned_slot(k)->0;
    crate::slot_laws::law_assign_keeps_table_valid(s.table, k);
    crate::slot_laws::lemma_assigned_is_held(s.table, k);
    let trace = choose|trace: Seq<RingState>|
        {
            &&& #[trigger] crate::ring_state::is_trace(mix, fade, s.due(completed), trace)
            &&& trace[0] == s.turned(completed)
            &&& trace.last() == t
        };
    assert(due[0] == x);
    assert(crate::ring_state::mix_step(mix, fade, trace[0], due[0], trace[0int + 1]));
    assert(t == trace[1]);
    assert(t.table.slot_of(k) == Some(slot));
    crate::ring_laws::law_boundary(mix, fade, s, completed, t);
    crate::ring_laws::law_previous_interval_is_heard(mix, fade, s, completed, t, x, slot);
    crate::ring_laws::law_every_stream_is_heard(mix, fade, s, completed, t, 0, slot);
    assert(crate::ring_laws::longest(due) == x.samples.len()) by {
        assert(due.drop_last() =~= Seq::empty());
        assert(crate::ring_laws::longest(due.drop_last()) == 0);
    }
    let faded = t.slots[slot as int].samples;
    assert(!crate::ring_state::plays(
        crate::ring_state::emptied(s.slots[slot as int]),
        x.peer,
        x.stream,
    ));
    assert(crate::ring_state::crossfaded(
        fade,
        x.samples,
        crate::ring_state::silence(XFADE_SAMPLES as nat),
        faded,
    ));
}

} // verus!
