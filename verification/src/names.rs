//! Display names by peer.

use vstd::prelude::*;

use crate::text::same_text;

verus! {

/// What a list of peers and names says; a later entry wins.
spec fn names_of(s: Seq<(String, String)>) -> Map<Seq<char>, Seq<char>>
    decreases s.len(),
{
    if s.len() == 0 {
        Map::empty()
    } else {
        names_of(s.drop_last()).insert(s.last().0@, s.last().1@)
    }
}

/// An entry makes no difference to a list to which the same peer is added again.
proof fn lemma_overwritten(s: Seq<(String, String)>, i: int, name: Seq<char>)
    requires
        0 <= i < s.len(),
    ensures
        names_of(s.remove(i)).insert(s[i].0@, name) == names_of(s).insert(s[i].0@, name),
    decreases s.len(),
{
    let peer = s[i].0@;
    if i == s.len() - 1 {
        assert(s.remove(i) =~= s.drop_last());
        assert(names_of(s).insert(peer, name) =~= names_of(s.drop_last()).insert(peer, name));
    } else {
        lemma_overwritten(s.drop_last(), i, name);
        assert(s.remove(i).drop_last() =~= s.drop_last().remove(i));
        assert(s.remove(i).last() == s.last());
        let a = names_of(s.drop_last().remove(i));
        let b = names_of(s.drop_last());
        let p = s.last().0@;
        let n = s.last().1@;
        assert(a.insert(p, n).insert(peer, name) =~= a.insert(peer, name).insert(p, n).insert(
            peer,
            name,
        ));
        assert(b.insert(p, n).insert(peer, name) =~= b.insert(peer, name).insert(p, n).insert(
            peer,
            name,
        ));
    }
}

/// Display names by peer.
pub struct NameTable {
    entries: Vec<(String, String)>,
}

impl View for NameTable {
    type V = Map<Seq<char>, Seq<char>>;

    closed spec fn view(&self) -> Map<Seq<char>, Seq<char>> {
        names_of(self.entries@)
    }
}

impl NameTable {
    pub fn new() -> (r: Self)
        ensures
            r@ == Map::<Seq<char>, Seq<char>>::empty(),
    {
        NameTable { entries: Vec::new() }
    }

    /// Forget all names.
    pub fn clear(&mut self)
        ensures
            final(self)@ == Map::<Seq<char>, Seq<char>>::empty(),
    {
        self.entries = Vec::new();
    }

    /// Position of the last entry of a peer.
    fn find(&self, peer_id: &str) -> (r: Option<usize>)
        ensures
            match r {
                Some(i) => i < self.entries@.len() && self.entries@[i as int].0@ == peer_id@
                    && self@.dom().contains(peer_id@) && self@[peer_id@]
                    == self.entries@[i as int].1@,
                None => !self@.dom().contains(peer_id@),
            },
    {
        let ghost s = self.entries@;
        let ghost all = names_of(s);
        let mut i: usize = self.entries.len();
        assert(s.take(i as int) =~= s);
        while i > 0
            invariant
                s == self.entries@,
                all == names_of(s),
                i <= s.len(),
                all.dom().contains(peer_id@) == names_of(s.take(i as int)).dom().contains(peer_id@),
                all[peer_id@] == names_of(s.take(i as int))[peer_id@],
            decreases i,
        {
            assert(s.take(i as int).drop_last() =~= s.take(i - 1));
            assert(s.take(i as int).last() == s[i - 1]);
            if same_text(self.entries[i - 1].0.as_str(), peer_id) {
                return Some(i - 1);
            }
            i -= 1;
        }
        assert(s.take(0).len() == 0);
        None
    }

    /// Set the name of a peer.
    pub fn insert(&mut self, peer_id: String, name: String)
        ensures
            final(self)@ == old(self)@.insert(peer_id@, name@),
    {
        let ghost before = self.entries@;
        let ghost n = name@;
        if let Some(i) = self.find(peer_id.as_str()) {
            self.entries.remove(i);
            proof {
                lemma_overwritten(before, i as int, n);
            }
        }
        let ghost mid = self.entries@;
        self.entries.push((peer_id, name));
        assert(self.entries@.drop_last() =~= mid);
    }

    /// The name of a peer, if it has one.
    pub fn get(&self, peer_id: &str) -> (r: Option<&str>)
        ensures
            match r {
                Some(n) => self@.dom().contains(peer_id@) && n@ == self@[peer_id@],
                None => !self@.dom().contains(peer_id@),
            },
    {
        match self.find(peer_id) {
            Some(i) => Some(self.entries[i].1.as_str()),
            None => None,
        }
    }
}

} // verus!
