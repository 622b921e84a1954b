//! Laws of slot assignment: stability, affinity and capacity.

use vstd::prelude::*;

use crate::slot::{ChannelKey, Entry, TableState, MAX_SLOTS};

verus! {

/// Where a slot is free, one is the lowest.
proof fn lemma_lowest_free_exists(active: Seq<Entry>, s: usize)
    requires
        s < MAX_SLOTS,
        !crate::slot::takes(active, s),
    ensures
        exists|c: usize| crate::slot::is_lowest_free(active, c),
    decreases s,
{
    if exists|c: usize| c < s && !#[trigger] crate::slot::takes(active, c) {
        let c = choose|c: usize| c < s && !#[trigger] crate::slot::takes(active, c);
        lemma_lowest_free_exists(active, c);
    } else {
        assert(crate::slot::is_lowest_free(active, s));
    }
}

/// Assigning keeps the table valid, and gives slots in range.
pub proof fn law_assign_keeps_table_valid(t: TableState, k: ChannelKey)
    requires
        t.valid(),
    ensures
        t.assigned(k).valid(),
        t.assigned_slot(k) is Some ==> t.assigned_slot(k)->0 < MAX_SLOTS,
        t.slot_of(k) is Some ==> t.slot_of(k)->0 < MAX_SLOTS,
{
    if crate::slot::holds(t.active, k) {
        crate::slot::lemma_first_exists(t.active, k);
        assert(t.active[crate::slot::first_of(t.active, k)].1 < MAX_SLOTS);
    } else {
        let r = t.reserved_without_first(k);
        if crate::slot::holds(t.reserved, k) {
            crate::slot::lemma_first_exists(t.reserved, k);
            let f = crate::slot::first_of(t.reserved, k);
            assert(t.reserved[f].1 < MAX_SLOTS);
            assert forall|i: int| 0 <= i < r.len() implies (#[trigger] r[i]).1 < MAX_SLOTS by {
                if i < f {
                    assert(r[i] == t.reserved[i]);
                } else {
                    assert(r[i] == t.reserved[i + 1]);
                }
            }
        }
        if !crate::slot::is_full(t.active) {
            let s = choose|s: usize| s < MAX_SLOTS && !crate::slot::takes(t.active, s);
            lemma_lowest_free_exists(t.active, s);
            let c = choose|c: usize| crate::slot::is_lowest_free(t.active, c);
            assert(crate::slot::is_lowest_free(t.active, c));
        }
        if let Some(s) = t.assigned_slot(k) {
            assert(!crate::slot::takes(t.active, s));
            let a = t.assigned(k).active;
            assert forall|i: int, j: int| 0 <= i < j < a.len() implies (#[trigger] a[i]).1 != (
            #[trigger] a[j]).1 by {
                if j == t.active.len() {
                    assert(t.active[i] == a[i]);
                }
            }
        }
    }
}

/// Assigning a channel twice is the same as assigning it once, and both calls
/// give the same slot.
pub proof fn law_assign_is_idempotent(t: TableState, k: ChannelKey)
    requires
        t.assigned_slot(k) is Some,
    ensures
        t.assigned(k).assigned_slot(k) == t.assigned_slot(k),
        t.assigned(k).assigned(k) == t.assigned(k),
{
    let t2 = t.assigned(k);
    if crate::slot::holds(t.active, k) {
    } else {
        let n = t.active.len() as int;
        assert(t2.active[n].0 == k);
        assert forall|j: int| 0 <= j < n implies (#[trigger] t2.active[j]).0 != k by {
            assert(t2.active[j] == t.active[j]);
        }
        assert(crate::slot::is_first(t2.active, k, n));
        crate::slot::lemma_first_is_unique(t2.active, k, n);
    }
}

/// A channel holds the slot that it is assigned; it is assigned none only when the
/// table is full.
pub proof fn lemma_assigned_is_held(t: TableState, k: ChannelKey)
    requires
        t.valid(),
    ensures
        t.assigned(k).slot_of(k) == t.assigned_slot(k),
        t.assigned_slot(k) is None ==> crate::slot::is_full(t.assigned(k).active),
{
    if !crate::slot::holds(t.active, k) {
        if let Some(s) = t.assigned_slot(k) {
            let a = t.assigned(k).active;
            let n = t.active.len() as int;
            assert(a[n].0 == k);
            assert forall|j: int| 0 <= j < n implies (#[trigger] a[j]).0 != k by {
                assert(a[j] == t.active[j]);
            }
            assert(crate::slot::is_first(a, k, n));
            crate::slot::lemma_first_is_unique(a, k, n);
        }
    }
}

/// A full table stays full, with the same channels in the same slots.
pub proof fn lemma_full_stays(t: TableState, k: ChannelKey)
    requires
        t.valid(),
        crate::slot::is_full(t.active),
    ensures
        t.assigned(k).active == t.active,
{
    if !crate::slot::holds(t.active, k) && crate::slot::holds(t.reserved, k) {
        crate::slot::lemma_first_exists(t.reserved, k);
        let f = crate::slot::first_of(t.reserved, k);
        assert(t.reserved[f].1 < MAX_SLOTS);
        assert(crate::slot::takes(t.active, t.reserved[f].1));
    }
}

/// Two channels never hold the same slot.
pub proof fn law_channels_hold_different_slots(t: TableState, k1: ChannelKey, k2: ChannelKey)
    requires
        t.valid(),
        k1 != k2,
        t.slot_of(k1) is Some,
    ensures
        t.slot_of(k1) != t.slot_of(k2),
{
    crate::slot::lemma_first_exists(t.active, k1);
    if crate::slot::holds(t.active, k2) {
        crate::slot::lemma_first_exists(t.active, k2);
        let a = crate::slot::first_of(t.active, k1);
        let b = crate::slot::first_of(t.active, k2);
        assert(t.active[a].0 != t.active[b].0);
        if a < b {
            assert(t.active[a].1 != t.active[b].1);
        } else {
            assert(t.active[b].1 != t.active[a].1);
        }
    }
}

/// Assigning one channel leaves the slots of all others as they were.
pub proof fn law_assign_keeps_other_slots(t: TableState, k: ChannelKey, other: ChannelKey)
    requires
        other != k,
    ensures
        t.assigned(k).slot_of(other) == t.slot_of(other),
{
    lemma_push_keeps_first(t.active, k, other);
}

proof fn lemma_push_keeps_first(s: Seq<Entry>, k: ChannelKey, other: ChannelKey)
    requires
        other != k,
    ensures
        forall|x: usize|
            crate::slot::holds(#[trigger] s.push((k, x)), other) == crate::slot::holds(s, other),
        forall|x: usize|
            crate::slot::holds(s, other) ==> (#[trigger] s.push((k, x)))[crate::slot::first_of(
                s.push((k, x)),
                other,
            )] == s[crate::slot::first_of(s, other)],
{
    assert forall|x: usize|
        crate::slot::holds(#[trigger] s.push((k, x)), other) == crate::slot::holds(s, other) && (
        crate::slot::holds(s, other) ==> s.push((k, x))[crate::slot::first_of(
            s.push((k, x)),
            other,
        )] == s[crate::slot::first_of(s, other)]) by {
        let p = s.push((k, x));
        if crate::slot::holds(s, other) {
            crate::slot::lemma_first_exists(s, other);
            let f = crate::slot::first_of(s, other);
            assert(p[f].0 == other);
            assert forall|j: int| 0 <= j < f implies (#[trigger] p[j]).0 != other by {
                assert(p[j] == s[j]);
            }
            assert(crate::slot::is_first(p, other, f));
            crate::slot::lemma_first_is_unique(p, other, f);
        }
        if crate::slot::holds(p, other) {
            let a = choose|a: int| 0 <= a < p.len() && (#[trigger] p[a]).0 == other;
            assert(a < s.len());
            assert(s[a].0 == other);
        }
    }
}

/// A channel that is released and comes back before anyone took its slot gets
/// the slot it had.
pub proof fn law_released_channel_gets_its_slot_back(t: TableState, k: ChannelKey)
    requires
        t.valid(),
        t.slot_of(k) is Some,
    ensures
        t.released(k).slot_of(k) is None,
        t.released(k).assigned_slot(k) == t.slot_of(k),
{
    let t2 = t.released(k);
    crate::slot::lemma_first_exists(t.active, k);
    let i = crate::slot::first_of(t.active, k);
    let e = t.active[i];
    crate::slot::lemma_remove_frees(t.active, i);
    assert forall|j: int| 0 <= j < t2.active.len() implies (#[trigger] t2.active[j]).0 != k by {
        if j < i {
            assert(t2.active[j] == t.active[j]);
        } else {
            assert(t2.active[j] == t.active[j + 1]);
        }
    }
    lemma_reserve_is_first(t.reserved, e);
}

/// A reservation is the only one for its channel, at the end of the list.
proof fn lemma_reserve_is_first(reserved: Seq<Entry>, e: Entry)
    ensures
        ({
            let r = crate::slot::reserve(reserved, e);
            &&& r.len() > 0
            &&& crate::slot::is_first(r, e.0, r.len() - 1)
            &&& crate::slot::first_of(r, e.0) == r.len() - 1
            &&& r.last() == e
            &&& crate::slot::holds(r, e.0)
        }),
{
    let kept = crate::slot::without(reserved, e.0);
    let r = kept.push(e);
    assert forall|j: int| 0 <= j < r.len() - 1 implies (#[trigger] r[j]).0 != e.0 by {
        assert(r[j] == kept[j]);
        reserved.lemma_filter_pred(crate::slot::other_channel(e.0), j);
    }
    assert(crate::slot::is_first(r, e.0, r.len() - 1));
    crate::slot::lemma_first_is_unique(r, e.0, r.len() - 1);
}

/// Every entry of `s` comes from `a` or from `b`.
pub open spec fn comes_from(s: Seq<Entry>, a: Seq<Entry>, b: Seq<Entry>) -> bool {
    forall|i: int| 0 <= i < s.len() ==> a.contains(#[trigger] s[i]) || b.contains(s[i])
}

/// What a list of reservations holds once `es` were reserved.
pub proof fn lemma_reserve_all(reserved: Seq<Entry>, es: Seq<Entry>)
    requires
        crate::slot::distinct_keys(es),
    ensures
        forall|i: int|
            0 <= i < es.len() ==> crate::slot::reserve_all(reserved, es).contains(#[trigger] es[i]),
        comes_from(crate::slot::reserve_all(reserved, es), es, reserved),
        forall|i: int, j: int|
            0 <= i < es.len() && 0 <= j < crate::slot::reserve_all(reserved, es).len() && (
            #[trigger] crate::slot::reserve_all(reserved, es)[j]).0 == (#[trigger] es[i]).0
                ==> crate::slot::reserve_all(reserved, es)[j] == es[i],
        forall|i: int, j1: int, j2: int|
            #![trigger es[i], crate::slot::reserve_all(reserved, es)[j1], crate::slot::reserve_all(
                reserved,
                es,
            )[j2]]
            0 <= i < es.len() && 0 <= j1 < crate::slot::reserve_all(reserved, es).len() && 0 <= j2
                < crate::slot::reserve_all(reserved, es).len() && crate::slot::reserve_all(
                reserved,
                es,
            )[j1].0 == es[i].0 && crate::slot::reserve_all(reserved, es)[j2].0 == es[i].0
                ==> j1 == j2,
    decreases es.len(),
{
    if es.len() > 0 {
        let front = es.drop_last();
        let e = es.last();
        lemma_reserve_all(reserved, front);
        let r0 = crate::slot::reserve_all(reserved, front);
        let kept = crate::slot::without(r0, e.0);
        let r = kept.push(e);
        assert(r == crate::slot::reserve_all(reserved, es));
        let pred = crate::slot::other_channel(e.0);
        assert forall|i: int| 0 <= i < es.len() implies r.contains(#[trigger] es[i]) by {
            if i < front.len() {
                assert(front[i] == es[i]);
                assert(r0.contains(front[i]));
                let j = choose|j: int| 0 <= j < r0.len() && r0[j] == front[i];
                assert(es[i].0 != es[es.len() - 1].0);
                r0.lemma_filter_contains(pred, j);
                let m = choose|m: int| 0 <= m < kept.len() && kept[m] == es[i];
                assert(r[m] == es[i]);
            } else {
                assert(r[kept.len() as int] == e);
            }
        }
        assert forall|i: int| 0 <= i < r.len() implies es.contains(#[trigger] r[i])
            || reserved.contains(r[i]) by {
            if i < kept.len() {
                assert(r[i] == kept[i]);
                assert(kept.contains(kept[i]));
                r0.lemma_filter_contains_rev(pred, kept[i]);
                let j = choose|j: int| 0 <= j < r0.len() && r0[j] == kept[i];
                assert(front.contains(r0[j]) || reserved.contains(r0[j]));
                if front.contains(r0[j]) {
                    let m = choose|m: int| 0 <= m < front.len() && front[m] == r0[j];
                    assert(es[m] == r[i]);
                }
            } else {
                assert(es[es.len() - 1] == r[i]);
            }
        }
        assert forall|i: int, j: int|
            0 <= i < es.len() && 0 <= j < r.len() && (#[trigger] r[j]).0 == (
            #[trigger] es[i]).0 implies r[j] == es[i] by {
            if j < kept.len() {
                r0.lemma_filter_pred(pred, j);
                assert(kept[j].0 != e.0);
                assert(i < front.len());
                assert(front[i] == es[i]);
                assert(kept.contains(kept[j]));
                r0.lemma_filter_contains_rev(pred, kept[j]);
                let m = choose|m: int| 0 <= m < r0.len() && r0[m] == kept[j];
                assert(r0[m].0 == front[i].0);
            } else if i < front.len() {
                assert(es[i].0 != es[es.len() - 1].0);
            }
        }
        assert forall|i: int, j1: int, j2: int|
            #![trigger es[i], r[j1], r[j2]]
            0 <= i < es.len() && 0 <= j1 < r.len() && 0 <= j2 < r.len() && r[j1].0 == es[i].0
                && r[j2].0 == es[i].0 implies j1 == j2 by {
            if i == es.len() - 1 {
                if j1 < kept.len() {
                    r0.lemma_filter_pred(pred, j1);
                }
                if j2 < kept.len() {
                    r0.lemma_filter_pred(pred, j2);
                }
            } else {
                assert(es[i].0 != es[es.len() - 1].0);
                assert(front[i] == es[i]);
                assert(kept[j1] == r[j1] && kept[j2] == r[j2]);
                if j1 != j2 {
                    let (a, b) = if j1 < j2 { (j1, j2) } else { (j2, j1) };
                    lemma_filter_order(r0, pred, a, b);
                    let (m1, m2) = choose|m1: int, m2: int|
                        0 <= m1 < m2 < r0.len() && #[trigger] r0[m1] == kept[a]
                            && #[trigger] r0[m2] == kept[b];
                    assert(r0[m1].0 == front[i].0 && r0[m2].0 == front[i].0);
                }
            }
        }
    }
}

/// Two entries that survive a filter stood in the same order before it.
proof fn lemma_filter_order(s: Seq<Entry>, pred: spec_fn(Entry) -> bool, a: int, b: int)
    requires
        0 <= a < b < s.filter(pred).len(),
    ensures
        exists|m1: int, m2: int|
            0 <= m1 < m2 < s.len() && #[trigger] s[m1] == s.filter(pred)[a] && #[trigger] s[m2]
                == s.filter(pred)[b],
    decreases s.len(),
{
    reveal(Seq::filter);
    if s.len() > 0 {
        let p = s.drop_last();
        let f = p.filter(pred);
        if b < f.len() {
            lemma_filter_order(p, pred, a, b);
            let (m1, m2) = choose|m1: int, m2: int|
                0 <= m1 < m2 < p.len() && #[trigger] p[m1] == f[a] && #[trigger] p[m2] == f[b];
            assert(s[m1] == s.filter(pred)[a] && s[m2] == s.filter(pred)[b]);
        } else {
            assert(s.filter(pred) == f.push(s.last()));
            assert(f.contains(f[a]));
            p.lemma_filter_contains_rev(pred, f[a]);
            let m1 = choose|m1: int| 0 <= m1 < p.len() && p[m1] == f[a];
            assert(s[m1] == s.filter(pred)[a] && s[s.len() - 1] == s.filter(pred)[b]);
        }
    }
}

/// When every channel is turned into a reservation, each one that comes back
/// first gets the slot it had.
pub proof fn law_reservations_keep_affinity(t: TableState, k: ChannelKey)
    requires
        t.valid(),
        t.slot_of(k) is Some,
    ensures
        t.all_reserved().assigned_slot(k) == t.slot_of(k),
{
    crate::slot::lemma_first_exists(t.active, k);
    let i = crate::slot::first_of(t.active, k);
    lemma_reserve_all(t.reserved, t.active);
    let r = t.all_reserved().reserved;
    assert(r.contains(t.active[i]));
    let j = choose|j: int| 0 <= j < r.len() && r[j] == t.active[i];
    assert(r[j].0 == k);
    assert(crate::slot::holds(r, k));
    crate::slot::lemma_first_exists(r, k);
    let f = crate::slot::first_of(r, k);
    assert(r[f].0 == t.active[i].0);
}

/// An entry whose channel holds no slot, whose slot is free and that no other listed
/// entry wants is accepted.
pub proof fn lemma_uncontested_is_accepted(active: Seq<Entry>, es: Seq<Entry>, i: int)
    requires
        0 <= i < es.len(),
        !crate::slot::takes(active, es[i].1),
        !crate::slot::holds(active, es[i].0),
        forall|j: int|
            0 <= j < es.len() && j != i ==> (#[trigger] es[j]).1 != es[i].1 && es[j].0 != es[i].0,
    ensures
        crate::slot::accepted(active, es).contains(es[i]),
    decreases es.len(),
{
    let front = es.drop_last();
    let before = crate::slot::accepted(active, front);
    if i < es.len() - 1 {
        assert(front[i] == es[i]);
        assert forall|j: int| 0 <= j < front.len() && j != i implies (#[trigger] front[j]).1
            != front[i].1 && front[j].0 != front[i].0 by {
            assert(front[j] == es[j]);
        }
        lemma_uncontested_is_accepted(active, front, i);
        let m = choose|m: int| 0 <= m < before.len() && before[m] == es[i];
        assert(before.push(es.last())[m] == es[i]);
    } else {
        lemma_accepted_comes_from(active, front);
        let e = es.last();
        if crate::slot::takes(active + before, e.1) {
            let all = active + before;
            let a = choose|a: int| 0 <= a < all.len() && (#[trigger] all[a]).1 == e.1;
            if a < active.len() {
                assert(active[a].1 == e.1);
            } else {
                let x = before[a - active.len()];
                assert(front.contains(x));
                let m = choose|m: int| 0 <= m < front.len() && front[m] == x;
                assert(es[m].1 == e.1);
            }
        }
        if crate::slot::holds(active + before, e.0) {
            let all = active + before;
            let a = choose|a: int| 0 <= a < all.len() && (#[trigger] all[a]).0 == e.0;
            if a < active.len() {
                assert(active[a].0 == e.0);
            } else {
                let x = before[a - active.len()];
                assert(front.contains(x));
                let m = choose|m: int| 0 <= m < front.len() && front[m] == x;
                assert(es[m].0 == e.0);
            }
        }
        assert(before.push(e)[before.len() as int] == e);
    }
}

proof fn lemma_accepted_comes_from(active: Seq<Entry>, es: Seq<Entry>)
    ensures
        forall|i: int|
            0 <= i < crate::slot::accepted(active, es).len() ==> es.contains(
                #[trigger] crate::slot::accepted(active, es)[i],
            ),
    decreases es.len(),
{
    if es.len() > 0 {
        let front = es.drop_last();
        let before = crate::slot::accepted(active, front);
        let acc = crate::slot::accepted(active, es);
        lemma_accepted_comes_from(active, front);
        assert forall|i: int| 0 <= i < acc.len() implies es.contains(#[trigger] acc[i]) by {
            if i < before.len() {
                assert(acc[i] == before[i]);
                let m = choose|m: int| 0 <= m < front.len() && front[m] == before[i];
                assert(es[m] == acc[i]);
            } else {
                assert(es[es.len() - 1] == acc[i]);
            }
        }
    }
}

/// The reservation of a channel whose client left is wanted by none of the client's other
/// reservations, and its slot is free, as long as none of the client's older reservations
/// asks for one of the slots that the client held.
pub proof fn lemma_released_is_uncontested(t: TableState, c: Seq<char>, k: ChannelKey) -> (i: int)
    requires
        t.valid(),
        k.client == c,
        t.slot_of(k) is Some,
        forall|i: int, j: int|
            0 <= i < t.reserved.len() && 0 <= j < t.active.len() && (
            #[trigger] t.reserved[i]).0.client == c && (#[trigger] t.active[j]).0.client == c
                && t.reserved[i].0 != t.active[j].0 ==> t.reserved[i].1 != t.active[j].1,
    ensures
        ({
            let t2 = t.client_released(c);
            let es = crate::slot::of_client(t2.reserved, c);
            let e = (k, t.slot_of(k)->0);
            &&& 0 <= i < es.len()
            &&& es[i] == e
            &&& !crate::slot::takes(t2.active, e.1)
            &&& !crate::slot::holds(t2.active, k)
            &&& forall|j: int|
                0 <= j < es.len() && j != i ==> (#[trigger] es[j]).1 != e.1 && es[j].0 != e.0
        }),
{
    crate::slot::lemma_first_exists(t.active, k);
    let i0 = crate::slot::first_of(t.active, k);
    let e = t.active[i0];
    let mine = crate::slot::of_client(t.active, c);
    let pm = crate::slot::same_client(c);
    t.active.lemma_filter_contains(pm, i0);
    assert forall|a: int, b: int| 0 <= a < b < mine.len() implies (#[trigger] mine[a]).0 != (
    #[trigger] mine[b]).0 && mine[a].1 != mine[b].1 by {
        lemma_filter_order(t.active, pm, a, b);
        let (m1, m2) = choose|m1: int, m2: int|
            0 <= m1 < m2 < t.active.len() && #[trigger] t.active[m1] == mine[a]
                && #[trigger] t.active[m2] == mine[b];
    }
    lemma_reserve_all(t.reserved, mine);
    let i1 = choose|i1: int| 0 <= i1 < mine.len() && mine[i1] == e;
    let t2 = t.client_released(c);
    let r = t2.reserved;
    assert(r.contains(mine[i1]));
    let j0 = choose|j0: int| 0 <= j0 < r.len() && r[j0] == e;
    let es = crate::slot::of_client(r, c);
    r.lemma_filter_contains(pm, j0);
    let i = choose|i: int| 0 <= i < es.len() && es[i] == e;
    let po = crate::slot::other_client(c);
    if crate::slot::takes(t2.active, e.1) {
        let a = choose|a: int| 0 <= a < t2.active.len() && (#[trigger] t2.active[a]).1 == e.1;
        t.active.lemma_filter_pred(po, a);
        assert(t2.active.contains(t2.active[a]));
        t.active.lemma_filter_contains_rev(po, t2.active[a]);
        let m = choose|m: int| 0 <= m < t.active.len() && t.active[m] == t2.active[a];
        if m < i0 {
            assert(t.active[m].1 != t.active[i0].1);
        } else {
            assert(t.active[i0].1 != t.active[m].1);
        }
    }
    if crate::slot::holds(t2.active, k) {
        let a = choose|a: int| 0 <= a < t2.active.len() && (#[trigger] t2.active[a]).0 == k;
        t.active.lemma_filter_pred(po, a);
    }
    assert forall|j: int| 0 <= j < es.len() && j != i implies (#[trigger] es[j]).1 != e.1
        && es[j].0 != e.0 by {
        let x = es[j];
        let (a, b) = if i < j { (i, j) } else { (j, i) };
        lemma_filter_order(r, pm, a, b);
        let (m1, m2) = choose|m1: int, m2: int|
            0 <= m1 < m2 < r.len() && #[trigger] r[m1] == es[a] && #[trigger] r[m2] == es[b];
        r.lemma_filter_pred(pm, j);
        assert(x.0 != e.0) by {
            if x.0 == e.0 {
                assert(r[m1].0 == mine[i1].0 && r[m2].0 == mine[i1].0);
            }
        }
        let m = if i < j { m2 } else { m1 };
        assert(r[m] == x);
        assert(mine.contains(r[m]) || t.reserved.contains(r[m]));
        if mine.contains(x) {
            let q = choose|q: int| 0 <= q < mine.len() && mine[q] == x;
            if q < i1 {
                assert(mine[q].1 != mine[i1].1);
            } else {
                assert(mine[i1].1 != mine[q].1);
            }
        } else {
            let q = choose|q: int| 0 <= q < t.reserved.len() && t.reserved[q] == x;
            assert(t.reserved[q].0 != t.active[i0].0);
        }
    }
    i
}

/// A client that leaves and comes back gets every one of its slots back, as long
/// as none of its older reservations asks for one of those slots.
pub proof fn law_client_reclaims_its_slots(t: TableState, c: Seq<char>, k: ChannelKey)
    requires
        t.valid(),
        k.client == c,
        t.slot_of(k) is Some,
        forall|i: int, j: int|
            0 <= i < t.reserved.len() && 0 <= j < t.active.len() && (
            #[trigger] t.reserved[i]).0.client == c && (#[trigger] t.active[j]).0.client == c
                && t.reserved[i].0 != t.active[j].0 ==> t.reserved[i].1 != t.active[j].1,
    ensures
        t.client_released(c).reclaimed(c).active.contains((k, t.slot_of(k)->0)),
        t.client_released(c).slot_of(k) is None,
{
    let t2 = t.client_released(c);
    let es = crate::slot::of_client(t2.reserved, c);
    let i = lemma_released_is_uncontested(t, c, k);
    let e = es[i];
    lemma_uncontested_is_accepted(t2.active, es, i);
    let acc = t2.reclaimable(c);
    let m = choose|m: int| 0 <= m < acc.len() && acc[m] == e;
    assert(t2.reclaimed(c).active[t2.active.len() + m] == e);
}

/// What survives a filter keeps channels and slots apart and slots in range.
pub proof fn lemma_filter_keeps_valid(s: Seq<Entry>, pred: spec_fn(Entry) -> bool)
    requires
        crate::slot::distinct_keys(s),
        forall|i: int| 0 <= i < s.len() ==> (#[trigger] s[i]).1 < MAX_SLOTS,
        forall|i: int, j: int|
            0 <= i < j < s.len() ==> (#[trigger] s[i]).1 != (#[trigger] s[j]).1,
    ensures
        crate::slot::distinct_keys(s.filter(pred)),
        forall|i: int|
            0 <= i < s.filter(pred).len() ==> (#[trigger] s.filter(pred)[i]).1 < MAX_SLOTS,
        forall|i: int, j: int|
            0 <= i < j < s.filter(pred).len() ==> (#[trigger] s.filter(pred)[i]).1 != (
            #[trigger] s.filter(pred)[j]).1,
{
    let f = s.filter(pred);
    assert forall|i: int| 0 <= i < f.len() implies (#[trigger] f[i]).1 < MAX_SLOTS by {
        assert(f.contains(f[i]));
        s.lemma_filter_contains_rev(pred, f[i]);
    }
    assert forall|i: int, j: int| 0 <= i < j < f.len() implies (#[trigger] f[i]).0 != (
    #[trigger] f[j]).0 && f[i].1 != f[j].1 by {
        lemma_filter_order(s, pred, i, j);
        let (m1, m2) = choose|m1: int, m2: int|
            0 <= m1 < m2 < s.len() && #[trigger] s[m1] == f[i] && #[trigger] s[m2] == f[j];
        assert(s[m1].0 != s[m2].0);
    }
}

/// In a valid table a channel holds exactly the slot that it is listed with.
pub proof fn lemma_slot_is_listed(t: TableState, k: ChannelKey, slot: usize)
    requires
        crate::slot::distinct_keys(t.active),
    ensures
        (t.slot_of(k) == Some(slot)) == t.active.contains((k, slot)),
{
    if crate::slot::holds(t.active, k) {
        crate::slot::lemma_first_exists(t.active, k);
        let f = crate::slot::first_of(t.active, k);
        if t.active.contains((k, slot)) {
            let i = choose|i: int| 0 <= i < t.active.len() && t.active[i] == (k, slot);
            if f < i {
                assert(t.active[f].0 != t.active[i].0);
            } else if i < f {
                assert(t.active[i].0 != t.active[f].0);
            }
        }
        if t.slot_of(k) == Some(slot) {
            assert(t.active[f] == (k, slot));
        }
    } else if t.active.contains((k, slot)) {
        let i = choose|i: int| 0 <= i < t.active.len() && t.active[i] == (k, slot);
        assert(t.active[i].0 == k);
    }
}

/// Renaming keeps the table valid, and a channel resolves to its first entry among the
/// renamed ones.
pub proof fn lemma_rekeyed(t: TableState, from: Seq<char>, to: Seq<char>)
    requires
        t.valid(),
    ensures
        t.rekeyed(from, to).valid(),
        forall|k: ChannelKey| #[trigger]
            t.rekeyed(from, to).slot_of(k) == (TableState {
                active: crate::slot::all_renamed(t.active, from, to),
                ..t
            }).slot_of(k),
{
    let s = crate::slot::all_renamed(t.active, from, to);
    let t2 = t.rekeyed(from, to);
    let r = t2.active;
    crate::slot::lemma_firsts(s);
    crate::slot::lemma_firsts_keep_apart(s);
    assert forall|i: int| 0 <= i < s.len() implies (#[trigger] s[i]).1 == t.active[i].1 by {}
    let q = t2.reserved;
    assert forall|i: int| 0 <= i < q.len() implies (#[trigger] q[i]).1 < MAX_SLOTS by {
        assert(t.reserved[i].1 < MAX_SLOTS);
    }
    assert forall|k: ChannelKey| #[trigger] t2.slot_of(k) == (TableState { active: s, ..t }).slot_of(
        k,
    ) by {
        assert(crate::slot::holds(r, k) == crate::slot::holds(s, k));
        if crate::slot::holds(s, k) {
            crate::slot::lemma_first_exists(s, k);
            let e = s[crate::slot::first_of(s, k)];
            assert(r.contains(e));
            lemma_slot_is_listed(t2, k, e.1);
        }
    }
}

/// Where an entry of a renamed table comes from.
pub proof fn lemma_rekeyed_source(t: TableState, from: Seq<char>, to: Seq<char>, i: int) -> (e:
    Entry)
    requires
        0 <= i < t.rekeyed(from, to).active.len(),
    ensures
        t.active.contains(e),
        t.rekeyed(from, to).active[i] == crate::slot::renamed(e, from, to),
{
    let s = crate::slot::all_renamed(t.active, from, to);
    crate::slot::lemma_firsts(s);
    let r = crate::slot::firsts(s);
    assert(s.contains(r[i]));
    let m = choose|m: int| 0 <= m < s.len() && s[m] == r[i];
    assert(t.active.contains(t.active[m]));
    t.active[m]
}

/// Renaming a client keeps the slot of each of its channels, the new name keeps the
/// slots that it held, and no other client is touched. Where both held a slot for the
/// same channel, it resolves to the one that stands first, and the other is free.
pub proof fn law_rekey_keeps_slots(t: TableState, from: Seq<char>, to: Seq<char>, k: ChannelKey)
    requires
        t.valid(),
        k.client == to || k.client != from,
    ensures
        ({
            let a = ChannelKey { client: from, channel: k.channel };
            let before = crate::slot::first_of(t.active, a) < crate::slot::first_of(t.active, k);
            let t2 = t.rekeyed(from, to);
            if k.client != to || t.slot_of(a) is None {
                t2.slot_of(k) == t.slot_of(k)
            } else if t.slot_of(k) is None {
                t2.slot_of(k) == t.slot_of(a)
            } else if before {
                t2.slot_of(k) == t.slot_of(a) && !crate::slot::takes(t2.active, t.slot_of(k)->0)
            } else {
                t2.slot_of(k) == t.slot_of(k) && (from != to ==> !crate::slot::takes(
                    t2.active,
                    t.slot_of(a)->0,
                ))
            }
        }),
{
    let a = ChannelKey { client: from, channel: k.channel };
    let t2 = t.rekeyed(from, to);
    let s = crate::slot::all_renamed(t.active, from, to);
    lemma_rekeyed(t, from, to);
    assert forall|j: int| 0 <= j < s.len() implies ((#[trigger] s[j]).0 == k) == (t.active[j].0 == k
        || k.client == to && t.active[j].0 == a) by {
        if s[j].0 == k && t.active[j].0.client == from {
            assert(t.active[j].0 =~= a);
        }
        if t.active[j].0 == a && k.client == to {
            assert(s[j].0 =~= k);
        }
    }
    if crate::slot::holds(t.active, a) {
        crate::slot::lemma_first_exists(t.active, a);
    }
    if crate::slot::holds(t.active, k) {
        crate::slot::lemma_first_exists(t.active, k);
    }
    let fa = crate::slot::first_of(t.active, a);
    let fk = crate::slot::first_of(t.active, k);
    let moved = k.client == to && crate::slot::holds(t.active, a);
    if moved || crate::slot::holds(t.active, k) {
        let x = if moved && (!crate::slot::holds(t.active, k) || fa < fk) {
            fa
        } else {
            fk
        };
        assert(s[x].0 == k);
        assert(crate::slot::is_first(s, k, x));
        crate::slot::lemma_first_is_unique(s, k, x);
        assert(t2.slot_of(k) == Some(t.active[x].1));
        if moved && crate::slot::holds(t.active, k) && from != to {
            let y = if x == fa {
                fk
            } else {
                fa
            };
            lemma_taken_once(t, from, to, k, x, y);
        }
    } else if crate::slot::holds(s, k) {
        let j = choose|j: int| 0 <= j < s.len() && (#[trigger] s[j]).0 == k;
        assert(t.active[j].0 == k || t.active[j].0 == a);
    }
}

/// Of two entries that a renaming gives the same name, only the one that the name
/// resolves to keeps its slot.
proof fn lemma_taken_once(
    t: TableState,
    from: Seq<char>,
    to: Seq<char>,
    k: ChannelKey,
    x: int,
    y: int,
)
    requires
        t.valid(),
        0 <= x < t.active.len(),
        0 <= y < t.active.len(),
        x != y,
        crate::slot::renamed(t.active[y], from, to).0 == k,
        t.rekeyed(from, to).slot_of(k) == Some(t.active[x].1),
    ensures
        !crate::slot::takes(t.rekeyed(from, to).active, t.active[y].1),
{
    let t2 = t.rekeyed(from, to);
    lemma_rekeyed(t, from, to);
    if crate::slot::takes(t2.active, t.active[y].1) {
        let i = choose|i: int|
            0 <= i < t2.active.len() && (#[trigger] t2.active[i]).1 == t.active[y].1;
        let e = lemma_rekeyed_source(t, from, to, i);
        let m = choose|m: int| 0 <= m < t.active.len() && t.active[m] == e;
        if m < y {
            assert(t.active[m].1 != t.active[y].1);
        } else if y < m {
            assert(t.active[y].1 != t.active[m].1);
        }
        assert(t2.active[i] == (k, t.active[y].1));
        lemma_slot_is_listed(t2, k, t.active[y].1);
        if x < y {
            assert(t.active[x].1 != t.active[y].1);
        } else {
            assert(t.active[y].1 != t.active[x].1);
        }
    }
}

/// With as many channels as slots the table is full, and a new channel without a
/// slot of its own gets none.
pub proof fn law_full_table_refuses(t: TableState, k: ChannelKey)
    requires
        t.valid(),
        t.active.len() == MAX_SLOTS,
        t.slot_of(k) is None,
    ensures
        t.assigned_slot(k) is None,
{
    let slots = Seq::new(t.active.len(), |i: int| t.active[i].1 as int);
    assert(slots.no_duplicates());
    slots.unique_seq_to_set();
    let all = vstd::set_lib::set_int_range(0, MAX_SLOTS as int);
    vstd::set_lib::lemma_int_range(0, MAX_SLOTS as int);
    assert(slots.to_set().subset_of(all));
    vstd::set_lib::lemma_subset_equality(slots.to_set(), all);
    assert forall|s: usize| s < MAX_SLOTS implies crate::slot::takes(t.active, s) by {
        assert(all.contains(s as int));
        assert(slots.contains(s as int));
        let i = choose|i: int| 0 <= i < slots.len() && slots[i] == s as int;
        assert(t.active[i].1 == s);
    }
    if crate::slot::holds(t.reserved, k) {
        crate::slot::lemma_first_exists(t.reserved, k);
        assert(t.reserved[crate::slot::first_of(t.reserved, k)].1 < MAX_SLOTS);
    }
}

/// Whether some channel holds a slot.
pub open spec fn has_holder(active: Seq<Entry>, slot: usize) -> bool {
    exists|i: int| 0 <= i < active.len() && (#[trigger] active[i]).1 == slot
}

/// Whether entry `i` is the first reservation of a channel.
pub open spec fn is_first_reserved(reserved: Seq<Entry>, k: ChannelKey, i: int) -> bool {
    &&& 0 <= i < reserved.len()
    &&& reserved[i].0 == k
    &&& forall|j: int| 0 <= j < i ==> (#[trigger] reserved[j]).0 != k
}

/// A channel without a slot gets the one that is reserved for it first, if nobody has that
/// one, and otherwise the lowest that nobody has. It gets none exactly when all 31 are
/// taken. It holds the slot from then on.
pub proof fn law_new_channel_gets_a_free_slot(t: TableState, k: ChannelKey)
    requires
        t.valid(),
        forall|i: int| 0 <= i < t.active.len() ==> (#[trigger] t.active[i]).0 != k,
    ensures
        match t.assigned_slot(k) {
            Some(s) => {
                &&& s < 31
                &&& forall|i: int| 0 <= i < t.active.len() ==> (#[trigger] t.active[i]).1 != s
                &&& t.assigned(k).active == t.active.push((k, s))
                &&& (forall|i: int|
                    is_first_reserved(t.reserved, k, i) ==> has_holder(
                        t.active,
                        (#[trigger] t.reserved[i]).1,
                    )) ==> forall|l: usize| l < s ==> #[trigger] has_holder(t.active, l)
            },
            None => {
                &&& forall|l: usize| l < 31 ==> #[trigger] has_holder(t.active, l)
                &&& t.assigned(k).active == t.active
            },
        },
        forall|i: int|
            is_first_reserved(t.reserved, k, i) && !has_holder(
                t.active,
                (#[trigger] t.reserved[i]).1,
            ) ==> t.assigned_slot(k) == Some(t.reserved[i].1),
{
    law_assign_keeps_table_valid(t, k);
    assert(!crate::slot::holds(t.active, k));
    if !crate::slot::is_full(t.active) {
        let s = choose|s: usize| s < MAX_SLOTS && !crate::slot::takes(t.active, s);
        lemma_lowest_free_exists(t.active, s);
        let c = choose|c: usize| crate::slot::is_lowest_free(t.active, c);
        assert(crate::slot::is_lowest_free(t.active, c));
    }
    if crate::slot::holds(t.reserved, k) {
        crate::slot::lemma_first_exists(t.reserved, k);
    }
    if let Some(s) = t.assigned_slot(k) {
        assert(!crate::slot::takes(t.active, s));
        if forall|i: int|
            is_first_reserved(t.reserved, k, i) ==> has_holder(
                t.active,
                (#[trigger] t.reserved[i]).1,
            ) {
            if crate::slot::holds(t.reserved, k) {
                let f = crate::slot::first_of(t.reserved, k);
                assert(is_first_reserved(t.reserved, k, f));
                assert(has_holder(t.active, t.reserved[f].1));
                assert(crate::slot::takes(t.active, t.reserved[f].1));
            }
            assert(crate::slot::is_lowest_free(t.active, s));
            assert forall|l: usize| l < s implies #[trigger] has_holder(t.active, l) by {
                assert(crate::slot::takes(t.active, l));
            }
        }
    } else {
        if crate::slot::holds(t.reserved, k) {
            assert(crate::slot::is_full(t.active));
        }
        assert forall|l: usize| l < 31 implies #[trigger] has_holder(t.active, l) by {
            assert(crate::slot::takes(t.active, l));
        }
    }
    assert forall|i: int|
        is_first_reserved(t.reserved, k, i) && !has_holder(
            t.active,
            (#[trigger] t.reserved[i]).1,
        ) implies t.assigned_slot(k) == Some(t.reserved[i].1) by {
        assert(crate::slot::holds(t.reserved, k));
        let f = crate::slot::first_of(t.reserved, k);
        assert(crate::slot::is_first(t.reserved, k, f));
        assert(f == i);
        assert(!crate::slot::takes(t.active, t.reserved[i].1));
    }
}

/// The short id of a channel is the beginning of the client's id, of at most six
/// characters, a colon, and the number of the channel.
pub proof fn law_short_id_names_client_and_channel(k: ChannelKey)
    ensures
        ({
            let s = crate::slot::short_id_text(k);
            let n = if k.client.len() <= 6 {
                k.client.len() as int
            } else {
                6
            };
            &&& s.take(n) == k.client.take(n)
            &&& s[n] == ':'
            &&& s.skip(n + 1) == crate::text::decimal(k.channel as nat)
        }),
{
    let s = crate::slot::short_id_text(k);
    let n = if k.client.len() <= 6 {
        k.client.len() as int
    } else {
        6
    };
    assert(s.take(n) =~= k.client.take(n));
    assert(s.skip(n + 1) =~= crate::text::decimal(k.channel as nat));
}

/// When a client is known by another name, its reservations stand under that name, in the
/// same order and for the same channels and slots; those of others stay as they are. The
/// channels that are active are known by the new name as well.
pub proof fn law_rekey_renames_reservations(t: TableState, from: Seq<char>, to: Seq<char>, i: int)
    requires
        0 <= i < t.reserved.len(),
    ensures
        ({
            let r = t.rekeyed(from, to).reserved;
            let e = t.reserved[i];
            &&& r.len() == t.reserved.len()
            &&& r[i].1 == e.1
            &&& r[i].0.channel == e.0.channel
            &&& e.0.client == from ==> r[i].0.client == to
            &&& e.0.client != from ==> r[i].0.client == e.0.client
        }),
{
}

} // verus!
