//! Stable assignment of remote audio channels to playback slots.

use vstd::prelude::*;

use crate::text::{push_decimal, same_text, take_chars};

verus! {

/// Maximum number of remote peer-channel slots with independent audio channels.
pub const MAX_SLOTS: usize = 31;

/// The mathematical identity of one audio channel of one client.
#[verifier::ext_equal]
pub struct ChannelKey {
    pub client: Seq<char>,
    pub channel: u16,
}

/// A channel together with the slot it holds (or has reserved).
pub type Entry = (ChannelKey, usize);

/// Uniquely identifies a single audio channel from a specific client.
///
/// Combines the client's persistent identity (which survives reconnects and
/// restarts) with the channel index of the sending plugin. Used as the key for
/// stable slot assignment on the receiving side.
#[derive(Debug, PartialEq, Eq, Hash)]
pub struct ClientChannelMapping {
    /// Persistent client identity.
    pub client_id: String,
    /// Channel index within the client.
    pub channel_index: u16,
}

impl View for ClientChannelMapping {
    type V = ChannelKey;

    open spec fn view(&self) -> ChannelKey {
        ChannelKey { client: self.client_id@, channel: self.channel_index }
    }
}

impl Clone for ClientChannelMapping {
    fn clone(&self) -> (r: Self)
        ensures
            r@ == self@,
    {
        ClientChannelMapping { client_id: self.client_id.clone(), channel_index: self.channel_index }
    }
}

/// The short display form of a channel: six characters of the client identity,
/// a colon, and the channel index.
pub open spec fn short_id_text(key: ChannelKey) -> Seq<char> {
    crate::text::prefix(key.client, 6).push(':') + crate::text::decimal(key.channel as nat)
}

impl ClientChannelMapping {
    pub fn new(client_id: &str, channel_index: u16) -> (r: Self)
        ensures
            r@ == (ChannelKey { client: client_id@, channel: channel_index }),
    {
        ClientChannelMapping { client_id: client_id.to_string(), channel_index }
    }

    /// Whether two mappings name the same channel of the same client.
    pub fn same(&self, other: &ClientChannelMapping) -> (r: bool)
        ensures
            r == (self@ == other@),
    {
        self.channel_index == other.channel_index && same_text(
            self.client_id.as_str(),
            other.client_id.as_str(),
        )
    }

    /// Short display ID for logging/UI, e.g. "a1b2c3:0".
    pub fn short_id(&self) -> (r: String)
        ensures
            r@ == short_id_text(self@),
    {
        let mut out: String = take_chars(self.client_id.as_str(), 6);
        proof {
            reveal_strlit(":");
        }
        out.append(":");
        assert(out@ =~= crate::text::prefix(self@.client, 6).push(':'));
        push_decimal(&mut out, self.channel_index as u64);
        out
    }
}

/// The contents of a slot table: who holds which slot, and which slots are
/// kept for channels that left.
#[verifier::ext_equal]
pub struct TableState {
    pub active: Seq<Entry>,
    pub reserved: Seq<Entry>,
}

/// Whether some entry of `s` is for channel `k`.
pub open spec fn holds(s: Seq<Entry>, k: ChannelKey) -> bool {
    exists|i: int| 0 <= i < s.len() && (#[trigger] s[i]).0 == k
}

/// Whether `i` is the first entry of `s` for channel `k`.
pub open spec fn is_first(s: Seq<Entry>, k: ChannelKey, i: int) -> bool {
    &&& 0 <= i < s.len()
    &&& s[i].0 == k
    &&& forall|j: int| 0 <= j < i ==> (#[trigger] s[j]).0 != k
}

/// The first entry of `s` for channel `k`.
pub open spec fn first_of(s: Seq<Entry>, k: ChannelKey) -> int {
    choose|i: int| is_first(s, k, i)
}

/// Whether some entry of `s` has slot `slot`.
pub open spec fn takes(s: Seq<Entry>, slot: usize) -> bool {
    exists|i: int| 0 <= i < s.len() && (#[trigger] s[i]).1 == slot
}

/// Says of an entry that it is not for channel `k`.
pub open spec fn other_channel(k: ChannelKey) -> spec_fn(Entry) -> bool {
    |e: Entry| e.0 != k
}

/// Says of an entry that it belongs to client `c`.
pub open spec fn same_client(c: Seq<char>) -> spec_fn(Entry) -> bool {
    |e: Entry| e.0.client == c
}

/// Says of an entry that it does not belong to client `c`.
pub open spec fn other_client(c: Seq<char>) -> spec_fn(Entry) -> bool {
    |e: Entry| e.0.client != c
}

/// The entries of `s` that are not for channel `k`.
pub open spec fn without(s: Seq<Entry>, k: ChannelKey) -> Seq<Entry> {
    s.filter(other_channel(k))
}

/// The entries of `s` that belong to client `c`.
pub open spec fn of_client(s: Seq<Entry>, c: Seq<char>) -> Seq<Entry> {
    s.filter(same_client(c))
}

/// The entries of `s` that belong to other clients than `c`.
pub open spec fn not_of_client(s: Seq<Entry>, c: Seq<char>) -> Seq<Entry> {
    s.filter(other_client(c))
}

/// Reserving `e` replaces every earlier reservation of its channel.
pub open spec fn reserve(reserved: Seq<Entry>, e: Entry) -> Seq<Entry> {
    without(reserved, e.0).push(e)
}

/// Reserving all entries of `es`, in order.
pub open spec fn reserve_all(reserved: Seq<Entry>, es: Seq<Entry>) -> Seq<Entry>
    decreases es.len(),
{
    if es.len() == 0 {
        reserved
    } else {
        reserve(reserve_all(reserved, es.drop_last()), es.last())
    }
}

/// The entries of `es` whose channel holds no slot and whose slot is free when its
/// turn comes, given that the entries of `active` hold their slots and each accepted
/// entry takes its own.
pub open spec fn accepted(active: Seq<Entry>, es: Seq<Entry>) -> Seq<Entry>
    decreases es.len(),
{
    if es.len() == 0 {
        Seq::empty()
    } else {
        let before = accepted(active, es.drop_last());
        if takes(active + before, es.last().1) || holds(active + before, es.last().0) {
            before
        } else {
            before.push(es.last())
        }
    }
}

/// An entry whose client is renamed when it is `from`.
pub open spec fn renamed(e: Entry, from: Seq<char>, to: Seq<char>) -> Entry {
    if e.0.client == from {
        (ChannelKey { client: to, channel: e.0.channel }, e.1)
    } else {
        e
    }
}

/// The entries of `s` with client `from` renamed to `to`.
pub open spec fn all_renamed(s: Seq<Entry>, from: Seq<char>, to: Seq<char>) -> Seq<Entry> {
    s.map_values(|e: Entry| renamed(e, from, to))
}

/// The first entry of `s` for each channel, in order.
pub open spec fn firsts(s: Seq<Entry>) -> Seq<Entry>
    decreases s.len(),
{
    if s.len() == 0 {
        s
    } else {
        let before = firsts(s.drop_last());
        if holds(before, s.last().0) {
            before
        } else {
            before.push(s.last())
        }
    }
}

/// Whether `slot` is the lowest slot that no entry of `active` takes.
pub open spec fn is_lowest_free(active: Seq<Entry>, slot: usize) -> bool {
    &&& slot < MAX_SLOTS
    &&& !takes(active, slot)
    &&& forall|s: usize| s < slot ==> takes(active, s)
}

/// Whether every slot is taken.
pub open spec fn is_full(active: Seq<Entry>) -> bool {
    forall|s: usize| s < MAX_SLOTS ==> takes(active, s)
}

/// The lowest slot that no entry of `active` takes.
pub open spec fn lowest_free(active: Seq<Entry>) -> Option<usize> {
    if is_full(active) {
        None
    } else {
        Some(choose|s: usize| is_lowest_free(active, s))
    }
}

/// No channel occurs twice among the entries.
pub open spec fn distinct_keys(s: Seq<Entry>) -> bool {
    forall|i: int, j: int|
        0 <= i < j < s.len() ==> (#[trigger] s[i]).0 != (#[trigger] s[j]).0
}

/// Slots are in range, and none is held twice.
pub open spec fn apart(s: Seq<Entry>) -> bool {
    &&& forall|i: int| 0 <= i < s.len() ==> (#[trigger] s[i]).1 < MAX_SLOTS
    &&& forall|i: int, j: int| 0 <= i < j < s.len() ==> (#[trigger] s[i]).1 != (#[trigger] s[j]).1
}

impl TableState {
    /// Slots are in range, no slot is held twice, and no channel holds two.
    pub open spec fn valid(self) -> bool {
        &&& distinct_keys(self.active)
        &&& apart(self.active)
        &&& forall|i: int|
            0 <= i < self.reserved.len() ==> (#[trigger] self.reserved[i]).1 < MAX_SLOTS
    }

    /// The slot that channel `k` holds.
    pub open spec fn slot_of(self, k: ChannelKey) -> Option<usize> {
        if holds(self.active, k) {
            Some(self.active[first_of(self.active, k)].1)
        } else {
            None
        }
    }

    /// The reservations left once the first one for `k` is used up.
    pub open spec fn reserved_without_first(self, k: ChannelKey) -> Seq<Entry> {
        if holds(self.reserved, k) {
            self.reserved.remove(first_of(self.reserved, k))
        } else {
            self.reserved
        }
    }

    /// The slot that channel `k` gets when it is assigned: the one it holds, else
    /// its reserved slot if that is free, else the lowest free slot.
    pub open spec fn assigned_slot(self, k: ChannelKey) -> Option<usize> {
        if holds(self.active, k) {
            self.slot_of(k)
        } else if holds(self.reserved, k) && !takes(
            self.active,
            self.reserved[first_of(self.reserved, k)].1,
        ) {
            Some(self.reserved[first_of(self.reserved, k)].1)
        } else {
            lowest_free(self.active)
        }
    }

    /// The table after channel `k` was assigned. A channel that holds no slot
    /// loses its first reservation, whether or not it gets that slot.
    pub open spec fn assigned(self, k: ChannelKey) -> TableState {
        if holds(self.active, k) {
            self
        } else {
            TableState {
                active: match self.assigned_slot(k) {
                    Some(s) => self.active.push((k, s)),
                    None => self.active,
                },
                reserved: self.reserved_without_first(k),
            }
        }
    }

    /// The table after channel `k` was released.
    pub open spec fn released(self, k: ChannelKey) -> TableState {
        if holds(self.active, k) {
            let i = first_of(self.active, k);
            TableState {
                active: self.active.remove(i),
                reserved: reserve(self.reserved, self.active[i]),
            }
        } else {
            self
        }
    }

    /// The table after every channel of client `c` was released.
    pub open spec fn client_released(self, c: Seq<char>) -> TableState {
        TableState {
            active: not_of_client(self.active, c),
            reserved: reserve_all(self.reserved, of_client(self.active, c)),
        }
    }

    /// The table after every held slot was turned into a reservation.
    pub open spec fn all_reserved(self) -> TableState {
        TableState { active: Seq::empty(), reserved: reserve_all(self.reserved, self.active) }
    }

    /// The reservations of client `c` whose slots are still free and whose channels
    /// hold none.
    pub open spec fn reclaimable(self, c: Seq<char>) -> Seq<Entry> {
        accepted(self.active, of_client(self.reserved, c))
    }

    /// The table after client `c` took its free reserved slots back.
    pub open spec fn reclaimed(self, c: Seq<char>) -> TableState {
        TableState {
            active: self.active + self.reclaimable(c),
            reserved: not_of_client(self.reserved, c),
        }
    }

    /// The table after client `from` was renamed to `to`. Where both held a slot for
    /// the same channel, the one that stands first is kept, and the other is free.
    pub open spec fn rekeyed(self, from: Seq<char>, to: Seq<char>) -> TableState {
        TableState {
            active: firsts(all_renamed(self.active, from, to)),
            reserved: all_renamed(self.reserved, from, to),
        }
    }
}


/// The entries that a list of mappings with slots stands for.
pub open spec fn entries(s: Seq<(ClientChannelMapping, usize)>) -> Seq<Entry> {
    s.map_values(|e: (ClientChannelMapping, usize)| (e.0@, e.1))
}

/// A channel has one first occurrence.
pub proof fn lemma_first_is_unique(s: Seq<Entry>, k: ChannelKey, i: int)
    requires
        is_first(s, k, i),
    ensures
        first_of(s, k) == i,
        holds(s, k),
{
    let f = first_of(s, k);
    assert(is_first(s, k, f));
    assert(s[f].0 == k && s[i].0 == k);
}

/// Where a channel occurs, it has a first occurrence.
pub proof fn lemma_first_exists(s: Seq<Entry>, k: ChannelKey)
    requires
        holds(s, k),
    ensures
        is_first(s, k, first_of(s, k)),
    decreases s.len(),
{
    let i = choose|i: int| 0 <= i < s.len() && (#[trigger] s[i]).0 == k;
    let p = s.drop_last();
    if holds(p, k) {
        lemma_first_exists(p, k);
        let f = first_of(p, k);
        assert(is_first(p, k, f));
        assert forall|j: int| 0 <= j < f implies (#[trigger] s[j]).0 != k by {
            assert(p[j] == s[j]);
        }
        assert(is_first(s, k, f));
    } else {
        assert forall|j: int| 0 <= j < s.len() - 1 implies (#[trigger] s[j]).0 != k by {
            assert(p[j] == s[j]);
        }
        assert(i == s.len() - 1);
        assert(is_first(s, k, i));
    }
}

/// A filtered list holds only entries of the list.
pub proof fn lemma_filtered_slots(s: Seq<Entry>, pred: spec_fn(Entry) -> bool)
    requires
        forall|i: int| 0 <= i < s.len() ==> (#[trigger] s[i]).1 < MAX_SLOTS,
    ensures
        forall|i: int|
            0 <= i < s.filter(pred).len() ==> (#[trigger] s.filter(pred)[i]).1 < MAX_SLOTS,
{
    let f = s.filter(pred);
    assert forall|i: int| 0 <= i < f.len() implies (#[trigger] f[i]).1 < MAX_SLOTS by {
        assert(f.contains(f[i]));
        s.lemma_filter_contains_rev(pred, f[i]);
    }
}

/// Removing an entry frees exactly its slot.
pub proof fn lemma_remove_frees(s: Seq<Entry>, i: int)
    requires
        0 <= i < s.len(),
        forall|a: int, b: int|
            0 <= a < b < s.len() ==> (#[trigger] s[a]).1 != (#[trigger] s[b]).1,
    ensures
        forall|x: usize| #[trigger] takes(s.remove(i), x) == (takes(s, x) && x != s[i].1),
        forall|a: int, b: int|
            0 <= a < b < s.remove(i).len() ==> (#[trigger] s.remove(i)[a]).1 != (
            #[trigger] s.remove(i)[b]).1,
{
    let r = s.remove(i);
    assert forall|x: usize| #[trigger] takes(r, x) == (takes(s, x) && x != s[i].1) by {
        if takes(r, x) {
            let a = choose|a: int| 0 <= a < r.len() && (#[trigger] r[a]).1 == x;
            if a < i {
                assert(s[a].1 == x);
            } else {
                assert(s[a + 1].1 == x);
            }
        }
        if takes(s, x) && x != s[i].1 {
            let a = choose|a: int| 0 <= a < s.len() && (#[trigger] s[a]).1 == x;
            if a < i {
                assert(r[a].1 == x);
            } else {
                assert(r[a - 1].1 == x);
            }
        }
    }
}

/// Appending an entry takes its slot besides those taken before.
pub proof fn lemma_push_takes(s: Seq<Entry>, e: Entry)
    ensures
        forall|x: usize| #[trigger] takes(s.push(e), x) == (takes(s, x) || x == e.1),
{
    let p = s.push(e);
    assert forall|x: usize| #[trigger] takes(p, x) == (takes(s, x) || x == e.1) by {
        if takes(s, x) {
            let a = choose|a: int| 0 <= a < s.len() && (#[trigger] s[a]).1 == x;
            assert(p[a].1 == x);
        }
        if x == e.1 {
            assert(p[s.len() as int].1 == x);
        }
        if takes(p, x) {
            let a = choose|a: int| 0 <= a < p.len() && (#[trigger] p[a]).1 == x;
            if a < s.len() {
                assert(s[a].1 == x);
            }
        }
    }
}

/// There is one lowest free slot.
pub proof fn lemma_lowest_free_is_unique(active: Seq<Entry>, s: usize)
    requires
        is_lowest_free(active, s),
    ensures
        lowest_free(active) == Some(s),
{
    assert(!is_full(active));
    let c = choose|c: usize| is_lowest_free(active, c);
    assert(is_lowest_free(active, c));
    assert(c == s);
}

/// Renaming clients moves no slot.
proof fn lemma_rename_keeps_slots(s: Seq<Entry>, from: Seq<char>, to: Seq<char>)
    ensures
        forall|x: usize| #[trigger] takes(all_renamed(s, from, to), x) == takes(s, x),
{
    let r = all_renamed(s, from, to);
    assert forall|x: usize| #[trigger] takes(r, x) == takes(s, x) by {
        if takes(s, x) {
            let a = choose|a: int| 0 <= a < s.len() && (#[trigger] s[a]).1 == x;
            assert(r[a].1 == x);
        }
        if takes(r, x) {
            let a = choose|a: int| 0 <= a < r.len() && (#[trigger] r[a]).1 == x;
            assert(s[a].1 == x);
        }
    }
}

/// The first entries are for different channels, come from the list, keep its order
/// and are for all its channels.
pub proof fn lemma_firsts(s: Seq<Entry>)
    ensures
        distinct_keys(firsts(s)),
        forall|k: ChannelKey| #[trigger] holds(firsts(s), k) == holds(s, k),
        forall|i: int| 0 <= i < firsts(s).len() ==> s.contains(#[trigger] firsts(s)[i]),
        forall|k: ChannelKey|
            holds(s, k) ==> firsts(s).contains(#[trigger] s[first_of(s, k)]),
    decreases s.len(),
{
    if s.len() > 0 {
        let front = s.drop_last();
        let e = s.last();
        let before = firsts(front);
        let f = firsts(s);
        lemma_firsts(front);
        assert forall|k: ChannelKey| holds(front, k) implies #[trigger] holds(s, k) by {
            let i = choose|i: int| 0 <= i < front.len() && (#[trigger] front[i]).0 == k;
            assert(s[i].0 == k);
        }
        assert forall|k: ChannelKey| #[trigger] holds(f, k) == holds(s, k) by {
            assert(holds(before, k) == holds(front, k));
            if holds(before, k) {
                let i = choose|i: int| 0 <= i < before.len() && (#[trigger] before[i]).0 == k;
                assert(f[i].0 == k);
            }
            if k == e.0 {
                assert(s[s.len() - 1].0 == k);
                if !holds(before, k) {
                    assert(f[before.len() as int].0 == k);
                }
            }
            if holds(s, k) && k != e.0 {
                let i = choose|i: int| 0 <= i < s.len() && (#[trigger] s[i]).0 == k;
                assert(front[i].0 == k);
            }
            if holds(f, k) && !holds(before, k) {
                let i = choose|i: int| 0 <= i < f.len() && (#[trigger] f[i]).0 == k;
                if i < before.len() {
                    assert(before[i].0 == k);
                }
            }
        }
        assert forall|i: int| 0 <= i < f.len() implies s.contains(#[trigger] f[i]) by {
            if i < before.len() {
                assert(f[i] == before[i]);
                assert(front.contains(before[i]));
                let m = choose|m: int| 0 <= m < front.len() && front[m] == before[i];
                assert(s[m] == f[i]);
            } else {
                assert(s[s.len() - 1] == f[i]);
            }
        }
        assert forall|i: int, j: int| 0 <= i < j < f.len() implies (#[trigger] f[i]).0 != (
        #[trigger] f[j]).0 by {
            if j < before.len() {
                assert(before[i].0 != before[j].0);
            } else {
                assert(before[i].0 == f[i].0);
            }
        }
        assert forall|k: ChannelKey| holds(s, k) implies f.contains(
            #[trigger] s[first_of(s, k)],
        ) by {
            lemma_first_exists(s, k);
            let x = first_of(s, k);
            if holds(front, k) {
                lemma_first_exists(front, k);
                let y = first_of(front, k);
                assert forall|j: int| 0 <= j < y implies (#[trigger] s[j]).0 != k by {
                    assert(front[j] == s[j]);
                }
                assert(s[y].0 == k);
                assert(is_first(s, k, y));
                lemma_first_is_unique(s, k, y);
                assert(before.contains(front[y]));
                let m = choose|m: int| 0 <= m < before.len() && before[m] == front[y];
                assert(f[m] == s[x]);
            } else {
                if x < front.len() {
                    assert(front[x].0 == k);
                }
                assert(s[x] == e);
                assert(!holds(before, k));
                assert(f[before.len() as int] == e);
            }
        }
    }
}

/// First entries are in range and for different slots where all entries are.
pub proof fn lemma_firsts_keep_apart(s: Seq<Entry>)
    requires
        apart(s),
    ensures
        apart(firsts(s)),
    decreases s.len(),
{
    if s.len() > 0 {
        let front = s.drop_last();
        let before = firsts(front);
        let f = firsts(s);
        assert forall|i: int, j: int| 0 <= i < j < front.len() implies (#[trigger] front[i]).1 != (
        #[trigger] front[j]).1 by {
            assert(front[i] == s[i] && front[j] == s[j]);
        }
        lemma_firsts_keep_apart(front);
        lemma_firsts(front);
        assert forall|i: int| 0 <= i < before.len() implies (#[trigger] before[i]).1
            != s.last().1 by {
            assert(front.contains(before[i]));
            let m = choose|m: int| 0 <= m < front.len() && front[m] == before[i];
            assert(s[m].1 != s[s.len() - 1].1);
        }
    }
}

/// A list without repeated channels consists of first entries.
pub proof fn lemma_firsts_of_distinct(s: Seq<Entry>)
    requires
        distinct_keys(s),
    ensures
        firsts(s) == s,
    decreases s.len(),
{
    if s.len() > 0 {
        let front = s.drop_last();
        assert forall|i: int, j: int| 0 <= i < j < front.len() implies (#[trigger] front[i]).0 != (
        #[trigger] front[j]).0 by {
            assert(front[i] == s[i] && front[j] == s[j]);
        }
        lemma_firsts_of_distinct(front);
        if holds(front, s.last().0) {
            let i = choose|i: int| 0 <= i < front.len() && (#[trigger] front[i]).0 == s.last().0;
            assert(s[i].0 != s[s.len() - 1].0);
        }
        assert(front.push(s.last()) =~= s);
    }
}

/// Rename the client of every entry that belongs to `from`.
fn rename_client(list: &mut Vec<(ClientChannelMapping, usize)>, from: &str, to: &str)
    ensures
        entries(final(list)@) == all_renamed(entries(old(list)@), from@, to@),
{
    let mut i: usize = 0;
    while i < list.len()
        invariant
            i <= list@.len(),
            list@.len() == old(list)@.len(),
            forall|j: int|
                0 <= j < i ==> #[trigger] entries(list@)[j] == renamed(
                    entries(old(list)@)[j],
                    from@,
                    to@,
                ),
            forall|j: int| i <= j < list@.len() ==> #[trigger] list@[j] == old(list)@[j],
        decreases list@.len() - i,
    {
        let ghost before = list@;
        if same_text(list[i].0.client_id.as_str(), from) {
            list[i].0.client_id = to.to_string();
        }
        assert(entries(list@)[i as int] == renamed(entries(old(list)@)[i as int], from@, to@));
        assert forall|j: int| 0 <= j < i implies #[trigger] entries(list@)[j] == renamed(
            entries(old(list)@)[j],
            from@,
            to@,
        ) by {
            assert(entries(list@)[j] == entries(before)[j]);
        }
        i += 1;
    }
    assert(entries(list@) =~= all_renamed(entries(old(list)@), from@, to@));
}

/// The position of the first entry for `mapping`.
fn find_mapping(list: &Vec<(ClientChannelMapping, usize)>, mapping: &ClientChannelMapping) -> (r:
    Option<usize>)
    ensures
        match r {
            Some(i) => is_first(entries(list@), mapping@, i as int) && first_of(
                entries(list@),
                mapping@,
            ) == i,
            None => !holds(entries(list@), mapping@),
        },
        r.is_some() == holds(entries(list@), mapping@),
{
    let mut i: usize = 0;
    while i < list.len()
        invariant
            i <= list@.len(),
            forall|j: int| 0 <= j < i ==> (#[trigger] entries(list@)[j]).0 != mapping@,
        decreases list@.len() - i,
    {
        if list[i].0.same(mapping) {
            proof {
                assert(is_first(entries(list@), mapping@, i as int));
                lemma_first_is_unique(entries(list@), mapping@, i as int);
            }
            return Some(i);
        }
        assert(entries(list@)[i as int].0 == list@[i as int].0@);
        i += 1;
    }
    None
}

/// Drop every entry for `mapping`, keeping the order of the others.
fn drop_mapping(list: &mut Vec<(ClientChannelMapping, usize)>, mapping: &ClientChannelMapping)
    ensures
        entries(final(list)@) == without(entries(old(list)@), mapping@),
{
    let ghost orig = entries(list@);
    let ghost k = mapping@;
    let ghost mut done: int = 0;
    let mut i: usize = 0;
    proof {
        reveal(Seq::filter);
        assert(orig.take(0) =~= Seq::empty());
        assert(entries(list@) =~= without(orig.take(0), k) + orig.skip(0));
    }
    while i < list.len()
        invariant
            0 <= done <= orig.len(),
            k == mapping@,
            i == without(orig.take(done), k).len(),
            i <= list@.len(),
            entries(list@) == without(orig.take(done), k) + orig.skip(done),
        decreases orig.len() - done,
    {
        let ghost kept = without(orig.take(done), k);
        proof {
            let l = entries(list@);
            assert(l.len() == kept.len() + orig.skip(done).len());
            assert(l[i as int] == orig[done]);
            assert(orig.take(done + 1) =~= orig.take(done).push(orig[done]));
            orig.take(done).lemma_filter_push(orig[done], other_channel(k));
            assert(orig.skip(done).skip(1) =~= orig.skip(done + 1));
        }
        let ghost before = list@;
        if list[i].0.same(mapping) {
            list.remove(i);
            proof {
                assert(entries(list@) =~= entries(before).remove(i as int));
                assert(entries(list@) =~= kept + orig.skip(done + 1));
                done = done + 1;
            }
        } else {
            i += 1;
            proof {
                assert(entries(list@) =~= kept.push(orig[done]) + orig.skip(done + 1));
                done = done + 1;
            }
        }
    }
    proof {
        assert(entries(list@).len() == i);
        assert(orig.skip(done).len() == 0);
        assert(orig.take(done) =~= orig);
        assert(entries(list@) =~= without(orig, k));
    }
}

/// Stable slot assignment table for `ClientChannelMapping`s.
///
/// Guarantees that the same mapping always resolves to the same slot index
/// within a session. When a mapping disconnects, its slot is reserved
/// (affinity). When it reconnects, it reclaims the reserved slot.
pub struct SlotTable {
    occupied: [bool; MAX_SLOTS],
    /// Currently assigned: (mapping, slot_index)
    active: Vec<(ClientChannelMapping, usize)>,
    /// Reserved for disconnected mappings: (mapping, slot_index)
    reserved: Vec<(ClientChannelMapping, usize)>,
}

impl View for SlotTable {
    type V = TableState;

    closed spec fn view(&self) -> TableState {
        TableState { active: entries(self.active@), reserved: entries(self.reserved@) }
    }
}

impl SlotTable {
    /// The table's bookkeeping is consistent: slots are in range, none is held
    /// twice, no channel holds two, and a slot is marked occupied exactly when a channel holds it.
    pub closed spec fn wf(&self) -> bool {
        &&& self@.valid()
        &&& self.is_marked()
    }

    /// Slots are in range, none is held twice, and a slot is marked occupied exactly
    /// when a channel holds it.
    spec fn is_marked(&self) -> bool {
        &&& apart(self@.active)
        &&& forall|i: int|
            0 <= i < self@.reserved.len() ==> (#[trigger] self@.reserved[i]).1 < MAX_SLOTS
        &&& self.occupied@.len() == MAX_SLOTS
        &&& forall|s: usize|
            s < MAX_SLOTS ==> self.occupied@[s as int] == #[trigger] takes(self@.active, s)
    }

    /// A consistent table has valid contents.
    pub proof fn lemma_wf_is_valid(&self)
        requires
            self.wf(),
        ensures
            self@.valid(),
    {
    }

    pub fn new() -> (r: Self)
        ensures
            r.wf(),
            r@ == (TableState { active: Seq::empty(), reserved: Seq::empty() }),
    {
        let r = SlotTable {
            occupied: [false; MAX_SLOTS],
            active: Vec::with_capacity(MAX_SLOTS),
            reserved: Vec::with_capacity(MAX_SLOTS),
        };
        assert(r@.active =~= Seq::empty());
        assert(r@.reserved =~= Seq::empty());
        r
    }

    /// The lowest slot that nobody holds.
    fn find_free(&self) -> (r: Option<usize>)
        requires
            self.wf(),
        ensures
            r == lowest_free(self@.active),
            r is Some ==> r->0 < MAX_SLOTS && !takes(self@.active, r->0),
    {
        let mut s: usize = 0;
        while s < MAX_SLOTS
            invariant
                self.wf(),
                s <= MAX_SLOTS,
                forall|x: usize| x < s ==> takes(self@.active, x),
            decreases MAX_SLOTS - s,
        {
            if !self.occupied[s] {
                proof {
                    assert(is_lowest_free(self@.active, s));
                    lemma_lowest_free_is_unique(self@.active, s);
                }
                return Some(s);
            }
            assert(takes(self@.active, s));
            s += 1;
        }
        None
    }

    /// Give `slot`, which is free, to `mapping`.
    fn take_slot(&mut self, mapping: &ClientChannelMapping, slot: usize)
        requires
            old(self).wf(),
            slot < MAX_SLOTS,
            !takes(old(self)@.active, slot),
            !holds(old(self)@.active, mapping@),
        ensures
            final(self).wf(),
            final(self)@ == (TableState {
                active: old(self)@.active.push((mapping@, slot)),
                reserved: old(self)@.reserved,
            }),
    {
        self.occupied[slot] = true;
        self.active.push((mapping.clone(), slot));
        proof {
            lemma_push_takes(old(self)@.active, (mapping@, slot));
            assert(self@.active =~= old(self)@.active.push((mapping@, slot)));
            assert(self@.reserved =~= old(self)@.reserved);
            let a = old(self)@.active;
            assert forall|i: int, j: int| 0 <= i < j < self@.active.len() implies (
            #[trigger] self@.active[i]).1 != (#[trigger] self@.active[j]).1 by {
                if j == a.len() {
                    assert(a[i].1 != slot);
                }
            }
            assert forall|i: int, j: int| 0 <= i < j < self@.active.len() implies (
            #[trigger] self@.active[i]).0 != (#[trigger] self@.active[j]).0 by {
                if j == a.len() {
                    assert(a[i].0 != mapping@);
                }
            }
        }
    }

    /// Take the active entry at `pos` out; its slot is free then.
    fn free_at(&mut self, pos: usize) -> (r: (ClientChannelMapping, usize))
        requires
            old(self).is_marked(),
            pos < old(self)@.active.len(),
        ensures
            final(self).is_marked(),
            distinct_keys(old(self)@.active) ==> distinct_keys(final(self)@.active),
            (r.0@, r.1) == old(self)@.active[pos as int],
            final(self)@ == (TableState {
                active: old(self)@.active.remove(pos as int),
                ..old(self)@
            }),
    {
        let ghost pre = self@;
        let entry = self.active.remove(pos);
        let slot: usize = entry.1;
        assert(pre.active[pos as int] == (entry.0@, slot));
        self.occupied[slot] = false;
        proof {
            lemma_remove_frees(pre.active, pos as int);
            assert(self@.active =~= pre.active.remove(pos as int));
        }
        entry
    }

    /// Turn the active entry at `pos` into a reservation.
    fn reserve_at(&mut self, pos: usize)
        requires
            old(self).wf(),
            pos < old(self)@.active.len(),
        ensures
            final(self).wf(),
            final(self)@ == (TableState {
                active: old(self)@.active.remove(pos as int),
                reserved: reserve(old(self)@.reserved, old(self)@.active[pos as int]),
            }),
    {
        let ghost pre = self@;
        let entry = self.free_at(pos);
        drop_mapping(&mut self.reserved, &entry.0);
        self.reserved.push(entry);
        proof {
            lemma_filtered_slots(pre.reserved, other_channel(entry.0@));
            assert(self@.active =~= pre.active.remove(pos as int));
            assert(self@.reserved =~= reserve(pre.reserved, pre.active[pos as int]));
        }
    }

    /// Assign a slot for the given mapping. Idempotent — returns existing slot
    /// if already assigned. Checks reserved affinity before allocating a new slot.
    /// Returns `None` if all slots are full.
    pub fn assign(&mut self, mapping: &ClientChannelMapping) -> (r: Option<usize>)
        requires
            old(self).wf(),
        ensures
            final(self).wf(),
            final(self)@ == old(self)@.assigned(mapping@),
            r == old(self)@.assigned_slot(mapping@),
            r is Some ==> r->0 < MAX_SLOTS,
    {
        // 1. Already active — return existing
        let existing = self.lookup_active(mapping);
        if existing.is_some() {
            proof {
                lemma_first_exists(self@.active, mapping@);
            }
            return existing;
        }
        // 2. Check reserved affinity

        let ghost pre = self@;
        if let Some(pos) = find_mapping(&self.reserved, mapping) {
            let (_, slot) = self.reserved.remove(pos);
            assert(pre.reserved[pos as int].1 == slot);
            assert(self@.reserved =~= pre.reserved.remove(pos as int));
            assert(self@.active =~= pre.active);
            if slot < MAX_SLOTS && !self.occupied[slot] {
                assert(!takes(self@.active, slot));
                self.take_slot(mapping, slot);
                return Some(slot);
            }
            // Slot was taken by someone else — fall through to find a new one
        }
        assert(self@.reserved == pre.reserved_without_first(mapping@));
        assert(self.wf());
        // 3. Find lowest free slot
        match self.find_free() {
            Some(slot) => {
                self.take_slot(mapping, slot);
                Some(slot)
            },
            None => None,
        }
    }

    /// Release a mapping, moving it from active to reserved (affinity).
    pub fn release(&mut self, mapping: &ClientChannelMapping)
        requires
            old(self).wf(),
        ensures
            final(self).wf(),
            final(self)@ == old(self)@.released(mapping@),
    {
        if let Some(pos) = find_mapping(&self.active, mapping) {
            self.reserve_at(pos);
        }
    }

    /// Read-only slot lookup for a mapping.
    pub fn slot_for(&self, mapping: &ClientChannelMapping) -> (r: Option<usize>)
        requires
            self.wf(),
        ensures
            r == self@.slot_of(mapping@),
            r is Some ==> r->0 < MAX_SLOTS,
    {
        self.lookup_active(mapping)
    }

    /// The slot of the first active entry for `mapping`.
    fn lookup_active(&self, mapping: &ClientChannelMapping) -> (r: Option<usize>)
        requires
            self.wf(),
        ensures
            r == self@.slot_of(mapping@),
            r is Some ==> r->0 < MAX_SLOTS,
    {
        match find_mapping(&self.active, mapping) {
            Some(pos) => {
                assert(self@.active[pos as int].1 == self.active@[pos as int].1);
                Some(self.active[pos].1)
            },
            None => None,
        }
    }

    /// The active (mapping, slot_index) pairs.
    pub fn active_mappings(&self) -> (r: &[(ClientChannelMapping, usize)])
        ensures
            entries(r@) == self@.active,
    {
        self.active.as_slice()
    }

    /// Check if a slot is occupied.
    pub fn is_occupied(&self, slot: usize) -> (r: bool)
        requires
            self.wf(),
        ensures
            r == takes(self@.active, slot),
    {
        proof {
            if slot >= MAX_SLOTS && takes(self@.active, slot) {
                let i = choose|i: int|
                    0 <= i < self@.active.len() && (#[trigger] self@.active[i]).1 == slot;
                assert(self@.active[i].1 < MAX_SLOTS);
            }
        }
        slot < MAX_SLOTS && self.occupied[slot]
    }

    /// Full reset — clears active, reserved, and occupied.
    pub fn clear(&mut self)
        ensures
            final(self).wf(),
            final(self)@ == (TableState { active: Seq::empty(), reserved: Seq::empty() }),
    {
        self.active.clear();
        self.reserved.clear();
        self.occupied = [false; MAX_SLOTS];
        assert(self@.active =~= Seq::empty());
        assert(self@.reserved =~= Seq::empty());
    }

    /// Release all channels for a given client, creating reservations for each.
    pub fn release_all_for_client(&mut self, client_id: &str)
        requires
            old(self).wf(),
        ensures
            final(self).wf(),
            final(self)@ == old(self)@.client_released(client_id@),
    {
        let ghost pre = self@;
        let ghost c = client_id@;
        let ghost mut done: int = 0;
        let mut i: usize = 0;
        proof {
            reveal(Seq::filter);
            assert(pre.active.take(0) =~= Seq::empty());
            assert(pre.active =~= not_of_client(pre.active.take(0), c) + pre.active.skip(0));
        }
        while i < self.active.len()
            invariant
                self.wf(),
                c == client_id@,
                0 <= done <= pre.active.len(),
                i == not_of_client(pre.active.take(done), c).len(),
                i <= self@.active.len(),
                self@.active == not_of_client(pre.active.take(done), c) + pre.active.skip(done),
                self@.reserved == reserve_all(
                    pre.reserved,
                    of_client(pre.active.take(done), c),
                ),
            decreases pre.active.len() - done,
        {
            let ghost kept = not_of_client(pre.active.take(done), c);
            let ghost moved = of_client(pre.active.take(done), c);
            let ghost e = pre.active[done];
            proof {
                assert(self@.active[i as int] == e);
                assert(pre.active.take(done + 1) =~= pre.active.take(done).push(e));
                pre.active.take(done).lemma_filter_push(e, other_client(c));
                pre.active.take(done).lemma_filter_push(e, same_client(c));
                assert(pre.active.skip(done).skip(1) =~= pre.active.skip(done + 1));
                assert(self.active@[i as int].0@.client == e.0.client);
            }
            if same_text(self.active[i].0.client_id.as_str(), client_id) {
                self.reserve_at(i);
                proof {
                    assert(moved.push(e).drop_last() =~= moved);
                    assert(self@.active =~= kept + pre.active.skip(done + 1));
                    done = done + 1;
                }
            } else {
                i += 1;
                proof {
                    assert(self@.active =~= kept.push(e) + pre.active.skip(done + 1));
                    done = done + 1;
                }
            }
        }
        proof {
            assert(pre.active.take(done) =~= pre.active);
            assert(self@.active =~= not_of_client(pre.active, c));
        }
    }

    /// Move all active mappings to reserved (preserve affinity).
    /// Used during signaling reconnection.
    pub fn clear_active_to_reserved(&mut self)
        requires
            old(self).wf(),
        ensures
            final(self).wf(),
            final(self)@ == old(self)@.all_reserved(),
    {
        let ghost pre = self@;
        let ghost mut done: int = 0;
        proof {
            assert(pre.active.take(0) =~= Seq::empty());
            assert(pre.active.skip(0) =~= pre.active);
        }
        while self.active.len() > 0
            invariant
                self.wf(),
                0 <= done <= pre.active.len(),
                self@.active == pre.active.skip(done),
                self@.reserved == reserve_all(pre.reserved, pre.active.take(done)),
            decreases pre.active.len() - done,
        {
            proof {
                assert(self@.active.len() == self.active@.len());
                assert(self@.active[0] == pre.active[done]);
                assert(pre.active.take(done + 1).drop_last() =~= pre.active.take(done));
            }
            self.reserve_at(0);
            proof {
                assert(self@.active =~= pre.active.skip(done + 1));
                done = done + 1;
            }
        }
        proof {
            assert(self@.active.len() == 0);
            assert(self@.active =~= Seq::empty());
            assert(pre.active.take(done) =~= pre.active);
        }
    }

    /// Reclaim all reserved slots for a given client_id, moving them to active.
    /// Returns the list of (channel_index, slot_index) that were reclaimed. A
    /// reservation whose slot someone else took, or whose channel holds a slot
    /// already, is dropped.
    pub fn reclaim_reserved_for_client(&mut self, client_id: &str) -> (r: Vec<(u16, usize)>)
        requires
            old(self).wf(),
        ensures
            final(self).wf(),
            final(self)@ == old(self)@.reclaimed(client_id@),
            r@ == old(self)@.reclaimable(client_id@).map_values(|e: Entry| (e.0.channel, e.1)),
            forall|i: int| 0 <= i < r@.len() ==> (#[trigger] r@[i]).1 < MAX_SLOTS,
    {
        let ghost pre = self@;
        let ghost c = client_id@;
        let ghost mut done: int = 0;
        let mut out: Vec<(u16, usize)> = Vec::new();
        let mut i: usize = 0;
        proof {
            reveal(Seq::filter);
            assert(pre.reserved.take(0) =~= Seq::empty());
            assert(pre.reserved =~= not_of_client(pre.reserved.take(0), c) + pre.reserved.skip(0));
            assert(pre.active =~= pre.active + Seq::<Entry>::empty());
        }
        while i < self.reserved.len()
            invariant
                self.wf(),
                c == client_id@,
                0 <= done <= pre.reserved.len(),
                i == not_of_client(pre.reserved.take(done), c).len(),
                i <= self@.reserved.len(),
                self@.reserved == not_of_client(pre.reserved.take(done), c) + pre.reserved.skip(
                    done,
                ),
                self@.active == pre.active + accepted(
                    pre.active,
                    of_client(pre.reserved.take(done), c),
                ),
                out@ == accepted(pre.active, of_client(pre.reserved.take(done), c)).map_values(
                    |e: Entry| (e.0.channel, e.1),
                ),
                forall|j: int| 0 <= j < out@.len() ==> (#[trigger] out@[j]).1 < MAX_SLOTS,
            decreases pre.reserved.len() - done,
        {
            let ghost kept = not_of_client(pre.reserved.take(done), c);
            let ghost seen = of_client(pre.reserved.take(done), c);
            let ghost acc = accepted(pre.active, seen);
            let ghost e = pre.reserved[done];
            proof {
                assert(self@.reserved[i as int] == e);
                assert(pre.reserved.take(done + 1) =~= pre.reserved.take(done).push(e));
                pre.reserved.take(done).lemma_filter_push(e, other_client(c));
                pre.reserved.take(done).lemma_filter_push(e, same_client(c));
                assert(pre.reserved.skip(done).skip(1) =~= pre.reserved.skip(done + 1));
                assert(self.reserved@[i as int].0@.client == e.0.client);
                assert(seen.push(e).drop_last() =~= seen);
            }
            if same_text(self.reserved[i].0.client_id.as_str(), client_id) {
                let ghost mid = self@;
                let (mapping, slot) = self.reserved.remove(i);
                assert(self@.reserved =~= mid.reserved.remove(i as int));
                assert(self@.active =~= mid.active);
                assert(e == (mapping@, slot));
                let held = self.lookup_active(&mapping).is_some();
                if slot < MAX_SLOTS && !self.occupied[slot] && !held {
                    assert(!takes(self@.active, slot));
                    self.take_slot(&mapping, slot);
                    out.push((mapping.channel_index, slot));
                    proof {
                        assert(self@.active =~= pre.active + acc.push(e));
                        assert(out@ =~= acc.push(e).map_values(|e: Entry| (e.0.channel, e.1)));
                    }
                } else {
                    assert(takes(self@.active, slot) || holds(self@.active, e.0));
                }
                proof {
                    assert(self@.reserved =~= kept + pre.reserved.skip(done + 1));
                    done = done + 1;
                }
            } else {
                i += 1;
                proof {
                    assert(self@.reserved =~= kept.push(e) + pre.reserved.skip(done + 1));
                    done = done + 1;
                }
            }
        }
        proof {
            assert(pre.reserved.take(done) =~= pre.reserved);
            assert(self@.reserved =~= not_of_client(pre.reserved, c));
        }
        out
    }

    /// Re-key all active and reserved mappings from `old_client_id` to
    /// `new_client_id`, preserving slot assignments. Used when a peer's
    /// persistent identity becomes known after slots were already assigned
    /// under a fallback key. Where both held a slot for the same channel, the mapping
    /// that stands first keeps resolving to its slot, and the other slot is freed.
    pub fn rekey_client(&mut self, old_client_id: &str, new_client_id: &str)
        requires
            old(self).wf(),
        ensures
            final(self).wf(),
            final(self)@ == old(self)@.rekeyed(old_client_id@, new_client_id@),
    {
        let ghost pre = self@;
        let ghost from = old_client_id@;
        let ghost to = new_client_id@;
        rename_client(&mut self.active, old_client_id, new_client_id);
        rename_client(&mut self.reserved, old_client_id, new_client_id);
        proof {
            lemma_rename_keeps_slots(pre.active, from, to);
            assert forall|i: int| 0 <= i < self@.active.len() implies (
            #[trigger] self@.active[i]).1 == pre.active[i].1 by {}
            assert forall|i: int| 0 <= i < self@.reserved.len() implies (
            #[trigger] self@.reserved[i]).1 == pre.reserved[i].1 by {}
            assert(self.is_marked());
        }
        self.free_repeats();
    }

    /// Free the slots of all entries for which another one for the same channel stands
    /// before them.
    fn free_repeats(&mut self)
        requires
            old(self).is_marked(),
        ensures
            final(self).wf(),
            final(self)@ == (TableState { active: firsts(old(self)@.active), ..old(self)@ }),
    {
        let ghost pre = self@;
        let ghost mut done: int = 0;
        let mut i: usize = 0;
        proof {
            assert(pre.active.take(0) =~= Seq::empty());
            assert(pre.active =~= firsts(pre.active.take(0)) + pre.active.skip(0));
        }
        while i < self.active.len()
            invariant
                self.is_marked(),
                0 <= done <= pre.active.len(),
                i == firsts(pre.active.take(done)).len(),
                i <= self@.active.len(),
                self@.active == firsts(pre.active.take(done)) + pre.active.skip(done),
                self@.reserved == pre.reserved,
            decreases pre.active.len() - done,
        {
            let ghost kept = firsts(pre.active.take(done));
            let ghost e = pre.active[done];
            let ghost now = self@.active;
            proof {
                assert(now[i as int] == e);
                assert(pre.active.take(done + 1).drop_last() =~= pre.active.take(done));
                assert(pre.active.skip(done).skip(1) =~= pre.active.skip(done + 1));
            }
            let repeated = match find_mapping(&self.active, &self.active[i].0) {
                Some(first) => first < i,
                None => false,
            };
            proof {
                assert(self.active@[i as int].0@ == e.0);
                assert(holds(now, e.0));
                let f = first_of(now, e.0);
                assert(is_first(now, e.0, f));
                assert(f <= i);
                if f < i {
                    assert(kept[f].0 == e.0);
                }
                if holds(kept, e.0) {
                    let j = choose|j: int| 0 <= j < kept.len() && (#[trigger] kept[j]).0 == e.0;
                    assert(now[j].0 == e.0);
                }
                assert(repeated == holds(kept, e.0));
            }
            if repeated {
                let _freed = self.free_at(i);
                proof {
                    assert(self@.active =~= kept + pre.active.skip(done + 1));
                    done = done + 1;
                }
            } else {
                i += 1;
                proof {
                    assert(self@.active =~= kept.push(e) + pre.active.skip(done + 1));
                    done = done + 1;
                }
            }
        }
        proof {
            assert(pre.active.take(done) =~= pre.active);
            assert(self@.active =~= firsts(pre.active));
            lemma_firsts(pre.active);
        }
    }
}

} // verus!
