//! Laws of the slot table over several calls: what every reachable table keeps, and
//! how clients get all their slots back.

use vstd::prelude::*;

use crate::slot::{ChannelKey, Entry, TableState, MAX_SLOTS};

verus! {

/// A call that changes a slot table.
pub enum TableCall {
    Assign(ChannelKey),
    Release(ChannelKey),
    ReleaseAllForClient(Seq<char>),
    ClearActiveToReserved,
    ReclaimReservedForClient(Seq<char>),
    RekeyClient(Seq<char>, Seq<char>),
    Clear,
}

/// The table that `SlotTable::new` gives.
pub open spec fn empty_table() -> TableState {
    TableState { active: Seq::empty(), reserved: Seq::empty() }
}

impl TableState {
    /// The table after a call.
    pub open spec fn after(self, call: TableCall) -> TableState {
        match call {
            TableCall::Assign(k) => self.assigned(k),
            TableCall::Release(k) => self.released(k),
            TableCall::ReleaseAllForClient(c) => self.client_released(c),
            TableCall::ClearActiveToReserved => self.all_reserved(),
            TableCall::ReclaimReservedForClient(c) => self.reclaimed(c),
            TableCall::RekeyClient(from, to) => self.rekeyed(from, to),
            TableCall::Clear => empty_table(),
        }
    }

    /// The table after a number of calls, one after the other.
    pub open spec fn after_all(self, calls: Seq<TableCall>) -> TableState
        decreases calls.len(),
    {
        if calls.len() == 0 {
            self
        } else {
            self.after_all(calls.drop_last()).after(calls.last())
        }
    }

    /// The table after channels were assigned, one after the other.
    pub open spec fn all_assigned(self, ks: Seq<ChannelKey>) -> TableState
        decreases ks.len(),
    {
        if ks.len() == 0 {
            self
        } else {
            self.all_assigned(ks.drop_last()).assigned(ks.last())
        }
    }

    /// Whether channel `k` holds no slot, and `slot` is free and reserved for it.
    pub open spec fn keeps_for(self, k: ChannelKey, slot: usize) -> bool {
        &&& !crate::slot::holds(self.active, k)
        &&& crate::slot::holds(self.reserved, k)
        &&& self.reserved[crate::slot::first_of(self.reserved, k)].1 == slot
        &&& !crate::slot::takes(self.active, slot)
    }
}

/// Reserving keeps slots in range.
pub proof fn lemma_reserve_all_in_range(reserved: Seq<Entry>, es: Seq<Entry>)
    requires
        forall|i: int| 0 <= i < reserved.len() ==> (#[trigger] reserved[i]).1 < MAX_SLOTS,
        forall|i: int| 0 <= i < es.len() ==> (#[trigger] es[i]).1 < MAX_SLOTS,
    ensures
        forall|i: int|
            0 <= i < crate::slot::reserve_all(reserved, es).len() ==> (
            #[trigger] crate::slot::reserve_all(reserved, es)[i]).1 < MAX_SLOTS,
    decreases es.len(),
{
    if es.len() > 0 {
        let front = es.drop_last();
        assert forall|i: int| 0 <= i < front.len() implies (#[trigger] front[i]).1 < MAX_SLOTS by {
            assert(front[i] == es[i]);
        }
        lemma_reserve_all_in_range(reserved, front);
        let r0 = crate::slot::reserve_all(reserved, front);
        crate::slot::lemma_filtered_slots(r0, crate::slot::other_channel(es.last().0));
        assert(es[es.len() - 1].1 < MAX_SLOTS);
    }
}

/// Taking reservations back keeps channels and slots apart.
pub proof fn lemma_accepted_keeps_valid(active: Seq<Entry>, es: Seq<Entry>)
    requires
        (TableState { active, reserved: Seq::empty() }).valid(),
        forall|i: int| 0 <= i < es.len() ==> (#[trigger] es[i]).1 < MAX_SLOTS,
    ensures
        (TableState {
            active: active + crate::slot::accepted(active, es),
            reserved: Seq::empty(),
        }).valid(),
    decreases es.len(),
{
    if es.len() == 0 {
        assert(active + Seq::<Entry>::empty() =~= active);
    } else {
        let front = es.drop_last();
        assert forall|i: int| 0 <= i < front.len() implies (#[trigger] front[i]).1 < MAX_SLOTS by {
            assert(front[i] == es[i]);
        }
        lemma_accepted_keeps_valid(active, front);
        let before = crate::slot::accepted(active, front);
        let e = es.last();
        assert(es[es.len() - 1].1 < MAX_SLOTS);
        let all = active + before;
        if !crate::slot::takes(all, e.1) && !crate::slot::holds(all, e.0) {
            let a = active + before.push(e);
            assert(a =~= all.push(e));
            assert forall|i: int, j: int| 0 <= i < j < a.len() implies (#[trigger] a[i]).0 != (
            #[trigger] a[j]).0 && a[i].1 != a[j].1 by {
                if j == all.len() {
                    assert(all[i] == a[i]);
                } else {
                    assert(all[i] == a[i] && all[j] == a[j]);
                }
            }
            assert forall|i: int| 0 <= i < a.len() implies (#[trigger] a[i]).1 < MAX_SLOTS by {
                if i < all.len() {
                    assert(all[i] == a[i]);
                }
            }
        }
    }
}

/// Every call keeps the table valid: slots in range, no slot held twice, no channel
/// with two slots.
pub proof fn law_calls_keep_table_valid(t: TableState, call: TableCall)
    requires
        t.valid(),
    ensures
        t.after(call).valid(),
{
    match call {
        TableCall::Assign(k) => crate::slot_laws::law_assign_keeps_table_valid(t, k),
        TableCall::Release(k) => {
            if crate::slot::holds(t.active, k) {
                crate::slot::lemma_first_exists(t.active, k);
                let i = crate::slot::first_of(t.active, k);
                crate::slot::lemma_remove_frees(t.active, i);
                let r = t.released(k).active;
                assert forall|a: int, b: int| 0 <= a < b < r.len() implies (#[trigger] r[a]).0 != (
                #[trigger] r[b]).0 by {
                    let x = if a < i { a } else { a + 1 };
                    let y = if b < i { b } else { b + 1 };
                    assert(t.active[x].0 != t.active[y].0);
                }
                assert forall|a: int| 0 <= a < r.len() implies (#[trigger] r[a]).1 < MAX_SLOTS by {
                    let x = if a < i { a } else { a + 1 };
                    assert(t.active[x].1 < MAX_SLOTS);
                }
                crate::slot::lemma_filtered_slots(t.reserved, crate::slot::other_channel(k));
            }
        },
        TableCall::ReleaseAllForClient(c) => {
            crate::slot_laws::lemma_filter_keeps_valid(t.active, crate::slot::other_client(c));
            crate::slot::lemma_filtered_slots(t.active, crate::slot::same_client(c));
            lemma_reserve_all_in_range(t.reserved, crate::slot::of_client(t.active, c));
        },
        TableCall::ClearActiveToReserved => {
            lemma_reserve_all_in_range(t.reserved, t.active);
        },
        TableCall::ReclaimReservedForClient(c) => {
            crate::slot::lemma_filtered_slots(t.reserved, crate::slot::same_client(c));
            crate::slot::lemma_filtered_slots(t.reserved, crate::slot::other_client(c));
            lemma_accepted_keeps_valid(t.active, crate::slot::of_client(t.reserved, c));
        },
        TableCall::RekeyClient(from, to) => crate::slot_laws::lemma_rekeyed(t, from, to),
        TableCall::Clear => {},
    }
}

/// A table reached from the empty one by any calls lists no channel twice and no slot
/// twice, all slots are in range, and so no more channels hold slots than there are.
pub proof fn law_reachable_tables_are_valid(calls: Seq<TableCall>)
    ensures
        ({
            let t = empty_table().after_all(calls);
            &&& t.valid()
            &&& t.active.len() <= MAX_SLOTS
        }),
    decreases calls.len(),
{
    if calls.len() > 0 {
        law_reachable_tables_are_valid(calls.drop_last());
        law_calls_keep_table_valid(empty_table().after_all(calls.drop_last()), calls.last());
    }
    lemma_valid_fits(empty_table().after_all(calls));
}

/// A valid table has no more entries than there are slots.
pub proof fn lemma_valid_fits(t: TableState)
    requires
        t.valid(),
    ensures
        t.active.len() <= MAX_SLOTS,
{
    let slots = Seq::new(t.active.len(), |i: int| t.active[i].1 as int);
    assert(slots.no_duplicates());
    slots.unique_seq_to_set();
    let all = vstd::set_lib::set_int_range(0, MAX_SLOTS as int);
    vstd::set_lib::lemma_int_range(0, MAX_SLOTS as int);
    assert(slots.to_set().subset_of(all));
    vstd::set_lib::lemma_len_subset(slots.to_set(), all);
}

/// A reserved slot is given to its channel, and the others' go on being kept.
proof fn lemma_kept_slot_is_given(t: TableState, k: ChannelKey, slot: usize)
    requires
        t.keeps_for(k, slot),
    ensures
        t.assigned_slot(k) == Some(slot),
        t.assigned(k).active == t.active.push((k, slot)),
        forall|q: ChannelKey, s: usize|
            q != k && s != slot && #[trigger] t.keeps_for(q, s) ==> t.assigned(k).keeps_for(q, s),
{
    let t2 = t.assigned(k);
    assert forall|q: ChannelKey, s: usize|
        q != k && s != slot && #[trigger] t.keeps_for(q, s) implies t2.keeps_for(q, s) by {
        crate::slot::lemma_push_takes(t.active, (k, slot));
        if crate::slot::holds(t2.active, q) {
            let i = choose|i: int| 0 <= i < t2.active.len() && (#[trigger] t2.active[i]).0 == q;
            assert(t.active[i].0 == q);
        }
        crate::slot::lemma_first_exists(t.reserved, k);
        crate::slot::lemma_first_exists(t.reserved, q);
        let f = crate::slot::first_of(t.reserved, k);
        let g = crate::slot::first_of(t.reserved, q);
        let h = if g < f { g } else { g - 1 };
        let r = t2.reserved;
        assert(r == t.reserved.remove(f));
        assert(r[h] == t.reserved[g]);
        assert forall|j: int| 0 <= j < h implies (#[trigger] r[j]).0 != q by {
            if j < f {
                assert(r[j] == t.reserved[j]);
            } else {
                assert(r[j] == t.reserved[j + 1]);
            }
        }
        assert(crate::slot::is_first(r, q, h));
        crate::slot::lemma_first_is_unique(r, q, h);
    }
}

/// Channels for which different free slots are kept get them, in whatever order they
/// come.
#[verifier::spinoff_prover]
#[verifier::rlimit(40)]
proof fn lemma_any_order(t: TableState, ks: Seq<ChannelKey>, slots: Seq<usize>)
    requires
        ks.len() == slots.len(),
        ks.no_duplicates(),
        slots.no_duplicates(),
        forall|i: int| 0 <= i < ks.len() ==> t.keeps_for(#[trigger] ks[i], slots[i]),
    ensures
        t.all_assigned(ks).active == t.active + Seq::new(ks.len(), |i: int| (ks[i], slots[i])),
        forall|i: int|
            0 <= i < ks.len() ==> t.all_assigned(ks.take(i)).assigned_slot(#[trigger] ks[i])
                == Some(slots[i]),
        forall|q: ChannelKey, s: usize|
            !ks.contains(q) && !slots.contains(s) && #[trigger] t.keeps_for(q, s)
                ==> t.all_assigned(ks).keeps_for(q, s),
    decreases ks.len(),
{
    if ks.len() == 0 {
        assert(t.active + Seq::new(0, |i: int| (ks[i], slots[i])) =~= t.active);
    } else {
        let n = ks.len() - 1;
        let front = ks.drop_last();
        let fs = slots.drop_last();
        assert(front =~= ks.take(n));
        assert forall|i: int| 0 <= i < front.len() implies t.keeps_for(#[trigger] front[i], fs[i]) by {
            assert(front[i] == ks[i]);
        }
        lemma_any_order(t, front, fs);
        let m = t.all_assigned(front);
        assert(t.keeps_for(ks[n], slots[n]));
        assert(!front.contains(ks[n])) by {
            if front.contains(ks[n]) {
                let j = choose|j: int| 0 <= j < front.len() && front[j] == ks[n];
                assert(ks[j] == ks[n]);
            }
        }
        assert(!fs.contains(slots[n])) by {
            if fs.contains(slots[n]) {
                let j = choose|j: int| 0 <= j < fs.len() && fs[j] == slots[n];
                assert(slots[j] == slots[n]);
            }
        }
        assert(m.keeps_for(ks[n], slots[n]));
        lemma_kept_slot_is_given(m, ks[n], slots[n]);
        assert(t.all_assigned(ks).active =~= t.active + Seq::new(
            ks.len(),
            |i: int| (ks[i], slots[i]),
        ));
        assert forall|i: int| 0 <= i < ks.len() implies t.all_assigned(ks.take(i)).assigned_slot(
            #[trigger] ks[i],
        ) == Some(slots[i]) by {
            if i < n {
                assert(front[i] == ks[i]);
                assert(front.take(i) =~= ks.take(i));
            }
        }
        assert forall|q: ChannelKey, s: usize|
            !ks.contains(q) && !slots.contains(s) && #[trigger] t.keeps_for(
                q,
                s,
            ) implies t.all_assigned(ks).keeps_for(q, s) by {
            if front.contains(q) {
                let j = choose|j: int| 0 <= j < front.len() && front[j] == q;
                assert(ks[j] == q);
            }
            if fs.contains(s) {
                let j = choose|j: int| 0 <= j < fs.len() && fs[j] == s;
                assert(slots[j] == s);
            }
            assert(ks[n] != q && slots[n] != s);
            assert(m.keeps_for(q, s));
        }
    }
}

/// The slots that channels hold.
pub open spec fn slots_of(t: TableState, ks: Seq<ChannelKey>) -> Seq<usize> {
    Seq::new(ks.len(), |i: int| t.slot_of(ks[i])->0)
}

/// The channels with the slots that they hold, as entries.
pub open spec fn entries_of(t: TableState, ks: Seq<ChannelKey>) -> Seq<Entry> {
    Seq::new(ks.len(), |i: int| (ks[i], t.slot_of(ks[i])->0))
}

/// Channels whose entries were reserved get their slots back in whatever order they
/// come.
proof fn lemma_reserved_come_back(t: TableState, t2: TableState, es: Seq<Entry>, ks: Seq<ChannelKey>)
    requires
        t.valid(),
        crate::slot::distinct_keys(es),
        forall|i: int| 0 <= i < es.len() ==> t.active.contains(#[trigger] es[i]),
        t2.reserved == crate::slot::reserve_all(t.reserved, es),
        forall|i: int, j: int|
            0 <= i < es.len() && 0 <= j < t2.active.len() ==> (#[trigger] t2.active[j]).0 != (
            #[trigger] es[i]).0 && t2.active[j].1 != es[i].1,
        ks.no_duplicates(),
        forall|i: int| 0 <= i < ks.len() ==> crate::slot::holds(es, #[trigger] ks[i]),
    ensures
        forall|i: int|
            0 <= i < ks.len() ==> t2.all_assigned(ks.take(i)).assigned_slot(#[trigger] ks[i])
                == t.slot_of(ks[i]) && t.slot_of(ks[i]) is Some,
        t2.all_assigned(ks).active == t2.active + entries_of(t, ks),
{
    let slots = slots_of(t, ks);
    crate::slot_laws::lemma_reserve_all(t.reserved, es);
    let r = t2.reserved;
    assert forall|i: int| 0 <= i < ks.len() implies t2.keeps_for(#[trigger] ks[i], slots[i])
        && t.slot_of(ks[i]) == Some(slots[i]) by {
        let k = ks[i];
        let e = choose|e: int| 0 <= e < es.len() && (#[trigger] es[e]).0 == k;
        assert(t.active.contains(es[e]));
        crate::slot_laws::lemma_slot_is_listed(t, k, es[e].1);
        assert(r.contains(es[e]));
        let j = choose|j: int| 0 <= j < r.len() && r[j] == es[e];
        assert(r[j].0 == k);
        crate::slot::lemma_first_exists(r, k);
        let f = crate::slot::first_of(r, k);
        assert(r[f].0 == es[e].0);
        if crate::slot::holds(t2.active, k) {
            let a = choose|a: int| 0 <= a < t2.active.len() && (#[trigger] t2.active[a]).0 == k;
            assert(t2.active[a].0 != es[e].0);
        }
        if crate::slot::takes(t2.active, slots[i]) {
            let a = choose|a: int|
                0 <= a < t2.active.len() && (#[trigger] t2.active[a]).1 == slots[i];
            assert(t2.active[a].1 != es[e].1);
        }
    }
    assert(slots.no_duplicates()) by {
        assert forall|i: int, j: int| 0 <= i < slots.len() && 0 <= j < slots.len() && i
            != j implies slots[i] != slots[j] by {
            assert(t.slot_of(ks[i]) == Some(slots[i]));
            assert(t.slot_of(ks[j]) == Some(slots[j]));
            assert(ks[i] != ks[j]);
            crate::slot_laws::law_channels_hold_different_slots(t, ks[i], ks[j]);
        }
    }
    lemma_any_order(t2, ks, slots);
    assert(entries_of(t, ks) =~= Seq::new(ks.len(), |i: int| (ks[i], slots[i])));
}

/// When a client's channels are released, exactly its entries go, and their slots are
/// free; assigning its channels directly afterwards, in any order, gives each the slot
/// it had.
pub proof fn law_released_client_comes_back(t: TableState, c: Seq<char>, ks: Seq<ChannelKey>)
    requires
        t.valid(),
        ks.no_duplicates(),
        forall|i: int|
            0 <= i < ks.len() ==> (#[trigger] ks[i]).client == c && t.slot_of(ks[i]) is Some,
    ensures
        t.client_released(c).active == crate::slot::not_of_client(t.active, c),
        forall|s: usize|
            #[trigger] crate::slot::takes(t.client_released(c).active, s) == (crate::slot::takes(
                t.active,
                s,
            ) && !crate::slot::takes(crate::slot::of_client(t.active, c), s)),
        forall|i: int|
            0 <= i < ks.len() ==> t.client_released(c).all_assigned(ks.take(i)).assigned_slot(
                #[trigger] ks[i],
            ) == t.slot_of(ks[i]),
        t.client_released(c).all_assigned(ks).active == crate::slot::not_of_client(t.active, c)
            + entries_of(t, ks),
{
    let t2 = t.client_released(c);
    let pm = crate::slot::same_client(c);
    let po = crate::slot::other_client(c);
    let es = crate::slot::of_client(t.active, c);
    crate::slot_laws::lemma_filter_keeps_valid(t.active, pm);
    assert forall|i: int| 0 <= i < es.len() implies t.active.contains(#[trigger] es[i])
        && es[i].0.client == c by {
        assert(es.contains(es[i]));
        t.active.lemma_filter_contains_rev(pm, es[i]);
        t.active.lemma_filter_pred(pm, i);
    }
    assert forall|j: int| 0 <= j < t2.active.len() implies t.active.contains(
        #[trigger] t2.active[j],
    ) && t2.active[j].0.client != c by {
        assert(t2.active.contains(t2.active[j]));
        t.active.lemma_filter_contains_rev(po, t2.active[j]);
        t.active.lemma_filter_pred(po, j);
    }
    assert forall|i: int, j: int|
        0 <= i < es.len() && 0 <= j < t2.active.len() implies (#[trigger] t2.active[j]).0 != (
    #[trigger] es[i]).0 && t2.active[j].1 != es[i].1 by {
        lemma_entries_differ(t, es[i], t2.active[j]);
    }
    assert forall|s: usize| #[trigger] crate::slot::takes(t2.active, s) == (crate::slot::takes(
        t.active,
        s,
    ) && !crate::slot::takes(es, s)) by {
        if crate::slot::takes(t2.active, s) {
            let j = choose|j: int| 0 <= j < t2.active.len() && (#[trigger] t2.active[j]).1 == s;
            let m = choose|m: int| 0 <= m < t.active.len() && t.active[m] == t2.active[j];
            assert(t.active[m].1 == s);
            if crate::slot::takes(es, s) {
                let i = choose|i: int| 0 <= i < es.len() && (#[trigger] es[i]).1 == s;
                assert(t2.active[j].1 != es[i].1);
            }
        } else if crate::slot::takes(t.active, s) {
            let m = choose|m: int| 0 <= m < t.active.len() && (#[trigger] t.active[m]).1 == s;
            if t.active[m].0.client == c {
                t.active.lemma_filter_contains(pm, m);
                let i = choose|i: int| 0 <= i < es.len() && es[i] == t.active[m];
                assert(es[i].1 == s);
            } else {
                t.active.lemma_filter_contains(po, m);
                let j = choose|j: int| 0 <= j < t2.active.len() && t2.active[j] == t.active[m];
                assert(t2.active[j].1 == s);
            }
        }
    }
    assert forall|i: int| 0 <= i < ks.len() implies crate::slot::holds(es, #[trigger] ks[i]) by {
        crate::slot::lemma_first_exists(t.active, ks[i]);
        let f = crate::slot::first_of(t.active, ks[i]);
        t.active.lemma_filter_contains(pm, f);
        let e = choose|e: int| 0 <= e < es.len() && es[e] == t.active[f];
        assert(es[e].0 == ks[i]);
    }
    lemma_reserved_come_back(t, t2, es, ks);
}

/// Entries of different clients differ in channel and slot.
proof fn lemma_entries_differ(t: TableState, a: Entry, b: Entry)
    requires
        t.valid(),
        t.active.contains(a),
        t.active.contains(b),
        a.0.client != b.0.client,
    ensures
        a.0 != b.0,
        a.1 != b.1,
{
    let i = choose|i: int| 0 <= i < t.active.len() && t.active[i] == a;
    let j = choose|j: int| 0 <= j < t.active.len() && t.active[j] == b;
    if i < j {
        assert(t.active[i].1 != t.active[j].1);
    } else {
        assert(t.active[j].1 != t.active[i].1);
    }
}

/// When all held slots are turned into reservations, none is held; assigning the
/// channels afterwards, in any order, gives each the slot it had.
pub proof fn law_reserved_channels_come_back(t: TableState, ks: Seq<ChannelKey>)
    requires
        t.valid(),
        ks.no_duplicates(),
        forall|i: int| 0 <= i < ks.len() ==> t.slot_of(#[trigger] ks[i]) is Some,
    ensures
        forall|s: usize| !#[trigger] crate::slot::takes(t.all_reserved().active, s),
        forall|i: int|
            0 <= i < ks.len() ==> t.all_reserved().all_assigned(ks.take(i)).assigned_slot(
                #[trigger] ks[i],
            ) == t.slot_of(ks[i]),
        t.all_reserved().all_assigned(ks).active == entries_of(t, ks),
{
    let t2 = t.all_reserved();
    assert forall|i: int| 0 <= i < t.active.len() implies t.active.contains(
        #[trigger] t.active[i],
    ) by {}
    lemma_reserved_come_back(t, t2, t.active, ks);
    assert(Seq::<Entry>::empty() + entries_of(t, ks) =~= entries_of(t, ks));
}

/// Dropping a channel that none of a client's entries is for keeps the client's
/// entries.
pub proof fn lemma_without_keeps_client(s: Seq<Entry>, c: Seq<char>, k: ChannelKey)
    requires
        !crate::slot::holds(crate::slot::of_client(s, c), k),
    ensures
        crate::slot::of_client(crate::slot::without(s, k), c) == crate::slot::of_client(s, c),
    decreases s.len(),
{
    reveal(Seq::filter);
    if s.len() > 0 {
        let front = s.drop_last();
        let e = s.last();
        let pm = crate::slot::same_client(c);
        let pk = crate::slot::other_channel(k);
        let f0 = crate::slot::of_client(front, c);
        let f = crate::slot::of_client(s, c);
        front.lemma_filter_push(e, pm);
        front.lemma_filter_push(e, pk);
        assert(front.push(e) =~= s);
        if crate::slot::holds(f0, k) {
            let i = choose|i: int| 0 <= i < f0.len() && (#[trigger] f0[i]).0 == k;
            assert(f[i].0 == k);
        }
        lemma_without_keeps_client(front, c, k);
        if pm(e) {
            assert(f[f.len() - 1] == e);
            crate::slot::without(front, k).lemma_filter_push(e, pm);
        } else if pk(e) {
            crate::slot::without(front, k).lemma_filter_push(e, pm);
        }
    }
}

/// The reservations of a client that had none are those made for it, in order.
proof fn lemma_reserved_in_order(reserved: Seq<Entry>, es: Seq<Entry>, c: Seq<char>)
    requires
        crate::slot::distinct_keys(es),
        forall|i: int| 0 <= i < es.len() ==> (#[trigger] es[i]).0.client == c,
        crate::slot::of_client(reserved, c).len() == 0,
    ensures
        crate::slot::of_client(crate::slot::reserve_all(reserved, es), c) == es,
    decreases es.len(),
{
    if es.len() == 0 {
        assert(crate::slot::of_client(reserved, c) =~= es);
    } else {
        let front = es.drop_last();
        let e = es.last();
        assert forall|i: int| 0 <= i < front.len() implies (#[trigger] front[i]).0.client == c by {
            assert(front[i] == es[i]);
        }
        lemma_reserved_in_order(reserved, front, c);
        let r0 = crate::slot::reserve_all(reserved, front);
        if crate::slot::holds(front, e.0) {
            let i = choose|i: int| 0 <= i < front.len() && (#[trigger] front[i]).0 == e.0;
            assert(es[i].0 != es[es.len() - 1].0);
        }
        lemma_without_keeps_client(r0, c, e.0);
        assert(es[es.len() - 1].0.client == c);
        crate::slot::without(r0, e.0).lemma_filter_push(e, crate::slot::same_client(c));
        assert(front.push(e) =~= es);
    }
}

/// Entries of which none is in another's way are all accepted.
proof fn lemma_all_accepted(active: Seq<Entry>, es: Seq<Entry>)
    requires
        (TableState { active: active + es, reserved: Seq::empty() }).valid(),
    ensures
        crate::slot::accepted(active, es) == es,
    decreases es.len(),
{
    if es.len() == 0 {
        assert(crate::slot::accepted(active, es) =~= es);
    } else {
        let front = es.drop_last();
        let e = es.last();
        let all = active + es;
        let less = active + front;
        assert forall|i: int| 0 <= i < less.len() implies #[trigger] less[i] == all[i] by {}
        assert forall|i: int, j: int| 0 <= i < j < less.len() implies (#[trigger] less[i]).0 != (
        #[trigger] less[j]).0 && less[i].1 != less[j].1 by {
            assert(all[i].0 != all[j].0 && all[i].1 != all[j].1);
        }
        assert forall|i: int| 0 <= i < less.len() implies (#[trigger] less[i]).1 < MAX_SLOTS by {
            assert(all[i].1 < MAX_SLOTS);
        }
        lemma_all_accepted(active, front);
        let n = all.len() - 1;
        assert(all[n] == e);
        if crate::slot::takes(less, e.1) {
            let i = choose|i: int| 0 <= i < less.len() && (#[trigger] less[i]).1 == e.1;
            assert(all[i].1 != all[n].1);
        }
        if crate::slot::holds(less, e.0) {
            let i = choose|i: int| 0 <= i < less.len() && (#[trigger] less[i]).0 == e.0;
            assert(all[i].0 != all[n].0);
        }
        assert(front.push(e) =~= es);
    }
}

/// A client without older reservations that leaves and takes its slots back gets all
/// of them, in their order; no other client's entry changes, and a second attempt
/// gets nothing.
pub proof fn law_client_reclaims_in_order(t: TableState, c: Seq<char>)
    requires
        t.valid(),
        crate::slot::of_client(t.reserved, c).len() == 0,
    ensures
        t.client_released(c).reclaimable(c) == crate::slot::of_client(t.active, c),
        t.client_released(c).reclaimed(c).active == crate::slot::not_of_client(t.active, c)
            + crate::slot::of_client(t.active, c),
        forall|k: ChannelKey|
            #[trigger] t.client_released(c).reclaimed(c).slot_of(k) == t.slot_of(k),
        t.client_released(c).reclaimed(c).reclaimable(c).len() == 0,
{
    let pm = crate::slot::same_client(c);
    let po = crate::slot::other_client(c);
    let mine = crate::slot::of_client(t.active, c);
    let rest = crate::slot::not_of_client(t.active, c);
    let t2 = t.client_released(c);
    let t3 = t2.reclaimed(c);
    crate::slot_laws::lemma_filter_keeps_valid(t.active, pm);
    crate::slot_laws::lemma_filter_keeps_valid(t.active, po);
    assert forall|i: int| 0 <= i < mine.len() implies t.active.contains(#[trigger] mine[i])
        && mine[i].0.client == c by {
        assert(mine.contains(mine[i]));
        t.active.lemma_filter_contains_rev(pm, mine[i]);
        t.active.lemma_filter_pred(pm, i);
    }
    assert forall|i: int| 0 <= i < rest.len() implies t.active.contains(#[trigger] rest[i])
        && rest[i].0.client != c by {
        assert(rest.contains(rest[i]));
        t.active.lemma_filter_contains_rev(po, rest[i]);
        t.active.lemma_filter_pred(po, i);
    }
    lemma_reserved_in_order(t.reserved, mine, c);
    let all = rest + mine;
    assert forall|i: int, j: int| 0 <= i < j < all.len() implies (#[trigger] all[i]).0 != (
    #[trigger] all[j]).0 && all[i].1 != all[j].1 by {
        if j < rest.len() {
            assert(rest[i].0 != rest[j].0 && rest[i].1 != rest[j].1);
        } else if i >= rest.len() {
            let a = i - rest.len();
            let b = j - rest.len();
            assert(mine[a].0 != mine[b].0 && mine[a].1 != mine[b].1);
        } else {
            lemma_entries_differ(t, rest[i], mine[j - rest.len()]);
        }
    }
    lemma_all_accepted(rest, mine);
    assert forall|k: ChannelKey| #[trigger] t3.slot_of(k) == t.slot_of(k) by {
        if let Some(s) = t.slot_of(k) {
            crate::slot_laws::lemma_slot_is_listed(t, k, s);
            let m = choose|m: int| 0 <= m < t.active.len() && t.active[m] == (k, s);
            if k.client == c {
                t.active.lemma_filter_contains(pm, m);
                let i = choose|i: int| 0 <= i < mine.len() && mine[i] == (k, s);
                assert(all[rest.len() + i] == (k, s));
            } else {
                t.active.lemma_filter_contains(po, m);
                let i = choose|i: int| 0 <= i < rest.len() && rest[i] == (k, s);
                assert(all[i] == (k, s));
            }
            crate::slot_laws::lemma_slot_is_listed(t3, k, s);
        } else if let Some(s) = t3.slot_of(k) {
            crate::slot_laws::lemma_slot_is_listed(t3, k, s);
            let i = choose|i: int| 0 <= i < all.len() && all[i] == (k, s);
            assert(t.active.contains(all[i])) by {
                if i < rest.len() {
                    assert(all[i] == rest[i]);
                } else {
                    assert(all[i] == mine[i - rest.len()]);
                }
            }
            crate::slot_laws::lemma_slot_is_listed(t, k, s);
        }
    }
    let left = crate::slot::of_client(t3.reserved, c);
    if left.len() > 0 {
        t3.reserved.lemma_filter_pred(pm, 0);
        assert(left.contains(left[0]));
        t3.reserved.lemma_filter_contains_rev(pm, left[0]);
        let j = choose|j: int| 0 <= j < t3.reserved.len() && t3.reserved[j] == left[0];
        t2.reserved.lemma_filter_pred(po, j);
    }
}

} // verus!
