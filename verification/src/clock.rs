//! Round-trip time estimation by ping and pong.

use std::time::{Duration, Instant};
use vstd::prelude::*;

use crate::protocol::SyncMessage;
use crate::text::same_text;

verus! {

/// How many samples the estimate of a peer rests on.
pub const WINDOW_SIZE: usize = 8;

const PING_INTERVAL_MS: u64 = 2000;

/// A point in time of the machine's monotonic clock.
#[verifier::external_type_specification]
#[verifier::external_body]
pub struct ExInstant(Instant);

/// `std::time::Instant::now`: reads the machine's clock, so nothing is claimed.
pub assume_specification[ Instant::now ]() -> Instant
;

/// `std::time::Instant::elapsed`: reads the machine's clock, so nothing is claimed.
pub assume_specification[ Instant::elapsed ](this: &Instant) -> Duration
;

/// `std::time::Duration::as_micros`: the microseconds of a span. A span is opaque
/// here, so nothing is claimed.
pub assume_specification[ Duration::as_micros ](this: &Duration) -> u128
;

/// Whether a list is in ascending order.
pub open spec fn is_sorted(s: Seq<i64>) -> bool {
    forall|i: int, j: int| 0 <= i <= j < s.len() ==> s[i] <= s[j]
}

/// Whether `t` holds the elements of `s` in ascending order.
pub open spec fn sorts(s: Seq<i64>, t: Seq<i64>) -> bool {
    is_sorted(t) && t.to_multiset() == s.to_multiset()
}

/// Whether `m` is the (upper) median of `s`: the middle element once sorted. The
/// median of nothing is 0.
pub open spec fn is_median(s: Seq<i64>, m: i64) -> bool {
    if s.len() == 0 {
        m == 0
    } else {
        exists|t: Seq<i64>| #[trigger] sorts(s, t) && m == t[s.len() as int / 2]
    }
}

/// The window with a sample added: only the latest samples stay.
pub open spec fn windowed(w: Seq<i64>, sample: i64) -> Seq<i64> {
    let p = w.push(sample);
    if p.len() > WINDOW_SIZE {
        p.skip(1)
    } else {
        p
    }
}

/// What a clock knows: the latest samples of each peer, and the next ping id.
#[verifier::ext_equal]
pub struct ClockState {
    pub windows: Map<Seq<char>, Seq<i64>>,
    pub next_ping_id: u64,
}

impl ClockState {
    /// The samples of a peer.
    pub open spec fn window(self, peer: Seq<char>) -> Seq<i64> {
        if self.windows.dom().contains(peer) {
            self.windows[peer]
        } else {
            Seq::empty()
        }
    }

    /// The clock after a pong came in at `now` for a ping sent at `sent`. A negative
    /// round trip, or one that no 64-bit number holds, is discarded.
    pub open spec fn ponged(self, peer: Seq<char>, sent: i64, now: i64) -> ClockState {
        if 0 <= now - sent <= i64::MAX {
            ClockState {
                windows: self.windows.insert(
                    peer,
                    windowed(self.window(peer), (now - sent) as i64),
                ),
                ..self
            }
        } else {
            self
        }
    }
}

struct PeerClock {
    peer_id: String,
    /// RTT samples in microseconds
    samples: Vec<i64>,
    /// Median RTT in microseconds
    rtt_us: i64,
}

/// Whether entry `i` is that of a peer.
spec fn is_entry(s: Seq<PeerClock>, peer: Seq<char>, i: int) -> bool {
    0 <= i < s.len() && s[i].peer_id@ == peer
}

spec fn windows_of(s: Seq<PeerClock>) -> Map<Seq<char>, Seq<i64>> {
    Map::new(
        |p: Seq<char>| exists|i: int| is_entry(s, p, i),
        |p: Seq<char>| s[choose|i: int| is_entry(s, p, i)].samples@,
    )
}

spec fn distinct_peers(s: Seq<PeerClock>) -> bool {
    forall|i: int, j: int|
        0 <= i < j < s.len() ==> (#[trigger] s[i]).peer_id@ != (#[trigger] s[j]).peer_id@
}

/// The window of a listed peer is that of its entry.
proof fn lemma_entry(s: Seq<PeerClock>, i: int)
    requires
        distinct_peers(s),
        0 <= i < s.len(),
    ensures
        windows_of(s).dom().contains(s[i].peer_id@),
        windows_of(s)[s[i].peer_id@] == s[i].samples@,
{
    let p = s[i].peer_id@;
    assert(is_entry(s, p, i));
    let c = choose|c: int| is_entry(s, p, c);
    assert(is_entry(s, p, c));
    if c < i {
        assert(s[c].peer_id@ != s[i].peer_id@);
    } else if i < c {
        assert(s[i].peer_id@ != s[c].peer_id@);
    }
}

/// Lists that agree on their names, and on the windows but for one peer, stand for
/// windows that differ for that peer alone.
proof fn lemma_update(s: Seq<PeerClock>, t: Seq<PeerClock>, i: int)
    requires
        distinct_peers(s),
        0 <= i < t.len(),
        s.len() == t.len() || (i == s.len() && t.len() == s.len() + 1 && forall|j: int|
            0 <= j < s.len() ==> (#[trigger] s[j]).peer_id@ != t[i].peer_id@),
        forall|j: int|
            0 <= j < s.len() && j != i ==> #[trigger] t[j] == s[j],
        i < s.len() ==> t[i].peer_id@ == s[i].peer_id@,
    ensures
        distinct_peers(t),
        windows_of(t) == windows_of(s).insert(t[i].peer_id@, t[i].samples@),
{
    assert forall|a: int, b: int| 0 <= a < b < t.len() implies (#[trigger] t[a]).peer_id@ != (
    #[trigger] t[b]).peer_id@ by {
        if a < s.len() && b < s.len() {
            assert(s[a].peer_id@ != s[b].peer_id@);
        } else {
            assert(s[a].peer_id@ != t[i].peer_id@);
        }
    }
    let m = windows_of(t);
    let n = windows_of(s).insert(t[i].peer_id@, t[i].samples@);
    assert forall|p: Seq<char>| m.dom().contains(p) == #[trigger] n.dom().contains(p) by {
        if m.dom().contains(p) {
            let j = choose|j: int| is_entry(t, p, j);
            assert(is_entry(t, p, j));
            if j != i {
                assert(t[j] == s[j]);
                assert(is_entry(s, p, j));
            }
        }
        if n.dom().contains(p) {
            if p == t[i].peer_id@ {
                assert(is_entry(t, p, i));
            } else {
                let j = choose|j: int| is_entry(s, p, j);
                assert(is_entry(s, p, j));
                assert(t[j] == s[j]);
                assert(is_entry(t, p, j));
            }
        }
    }
    assert forall|p: Seq<char>| m.dom().contains(p) implies #[trigger] m[p] == n[p] by {
        let j = choose|j: int| is_entry(t, p, j);
        assert(is_entry(t, p, j));
        lemma_entry(t, j);
        if j != i {
            assert(t[j] == s[j]);
            lemma_entry(s, j);
            if j < i {
                assert(t[j].peer_id@ != t[i].peer_id@);
            } else {
                assert(t[i].peer_id@ != t[j].peer_id@);
            }
        }
    }
    assert(m =~= n);
}

/// A sorted copy.
fn sorted_copy(samples: &[i64]) -> (r: Vec<i64>)
    ensures
        sorts(samples@, r@),
        r@.len() == samples@.len(),
{
    broadcast use vstd::seq_lib::group_to_multiset_ensures;

    let mut out: Vec<i64> = Vec::new();
    let mut i: usize = 0;
    assert(samples@.take(0) =~= out@);
    while i < samples.len()
        invariant
            i <= samples@.len(),
            out@.len() == i,
            sorts(samples@.take(i as int), out@),
        decreases samples@.len() - i,
    {
        let x: i64 = samples[i];
        let mut at: usize = out.len();
        let ghost before = out@;
        while at > 0 && out[at - 1] > x
            invariant
                at <= out@.len(),
                out@ == before,
                is_sorted(before),
                forall|j: int| at <= j < before.len() ==> before[j] > x,
            decreases at,
        {
            at -= 1;
        }
        out.insert(at, x);
        proof {
            assert(samples@.take(i + 1) =~= samples@.take(i as int).push(x));
            assert(out@ =~= before.insert(at as int, x));
            vstd::seq_lib::to_multiset_insert(before, at as int, x);
            vstd::seq_lib::to_multiset_build(samples@.take(i as int), x);
        }
        i += 1;
    }
    assert(samples@.take(i as int) =~= samples@);
    out
}

/// Tracks round-trip time to each remote peer by ping and pong.
pub struct ClockSync {
    epoch: Instant,
    per_peer: Vec<PeerClock>,
    next_ping_id: u64,
}

impl View for ClockSync {
    type V = ClockState;

    closed spec fn view(&self) -> ClockState {
        ClockState { windows: windows_of(self.per_peer@), next_ping_id: self.next_ping_id }
    }
}

impl ClockSync {
    /// Each peer is listed once, has at most a window of samples, and its estimate
    /// is the median of them.
    pub closed spec fn wf(&self) -> bool {
        &&& distinct_peers(self.per_peer@)
        &&& forall|i: int|
            0 <= i < self.per_peer@.len() ==> {
                &&& (#[trigger] self.per_peer@[i]).samples@.len() <= WINDOW_SIZE
                &&& is_median(self.per_peer@[i].samples@, self.per_peer@[i].rtt_us)
            }
    }

    pub fn new() -> (r: Self)
        ensures
            r.wf(),
            r@ == (ClockState { windows: Map::empty(), next_ping_id: 0 }),
    {
        let r = ClockSync { epoch: Instant::now(), per_peer: Vec::new(), next_ping_id: 0 };
        assert(r@.windows =~= Map::empty());
        r
    }

    /// Current local time in microseconds since the clock was made. What it is
    /// depends on the machine's clock alone.
    pub fn now_us(&self) -> i64 {
        self.epoch.elapsed().as_micros() as i64
    }

    /// Generate a Ping message to send to a peer.
    pub fn make_ping(&mut self) -> (r: SyncMessage)
        requires
            old(self).wf(),
            old(self)@.next_ping_id < u64::MAX,
        ensures
            final(self).wf(),
            final(self)@ == (ClockState {
                next_ping_id: (old(self)@.next_ping_id + 1) as u64,
                ..old(self)@
            }),
            r matches SyncMessage::Ping { id, .. } && id == old(self)@.next_ping_id,
    {
        let now: i64 = self.now_us();
        self.make_ping_at(now)
    }

    /// Generate a Ping message that is sent at `now`.
    pub fn make_ping_at(&mut self, now: i64) -> (r: SyncMessage)
        requires
            old(self).wf(),
            old(self)@.next_ping_id < u64::MAX,
        ensures
            final(self).wf(),
            final(self)@ == (ClockState {
                next_ping_id: (old(self)@.next_ping_id + 1) as u64,
                ..old(self)@
            }),
            r == (SyncMessage::Ping { id: old(self)@.next_ping_id, sent_at_us: now }),
    {
        let id: u64 = self.next_ping_id;
        self.next_ping_id = id + 1;
        SyncMessage::Ping { id, sent_at_us: now }
    }

    /// Handle an incoming Ping — return a Pong to send back.
    pub fn handle_ping(&self, id: u64, sent_at_us: i64) -> (r: SyncMessage)
        ensures
            r matches SyncMessage::Pong { id: i, ping_sent_at_us, .. } && i == id
                && ping_sent_at_us == sent_at_us,
    {
        SyncMessage::Pong { id, ping_sent_at_us: sent_at_us, pong_sent_at_us: self.now_us() }
    }

    /// Handle an incoming Pong — update RTT estimate for the peer. The pong counts
    /// as having arrived at the time that the machine's clock shows.
    pub fn handle_pong(&mut self, peer_id: &str, ping_sent_at_us: i64, _pong_sent_at_us: i64)
        requires
            old(self).wf(),
        ensures
            final(self).wf(),
            exists|now: i64|
                final(self)@ == #[trigger] old(self)@.ponged(peer_id@, ping_sent_at_us, now),
    {
        let now: i64 = self.now_us();
        self.handle_pong_at(peer_id, ping_sent_at_us, now);
    }

    /// Handle a Pong that arrives at `now`.
    pub fn handle_pong_at(&mut self, peer_id: &str, ping_sent_at_us: i64, now: i64)
        requires
            old(self).wf(),
        ensures
            final(self).wf(),
            final(self)@ == old(self)@.ponged(peer_id@, ping_sent_at_us, now),
    {
        let rtt: i64 = match now.checked_sub(ping_sent_at_us) {
            Some(d) => d,
            None => return ,
        };
        // Discard samples with negative RTT (clock anomaly)
        if rtt < 0 {
            return;
        }
        let ghost pre = self.per_peer@;
        let ghost p = peer_id@;
        let mut i: usize = 0;
        while i < self.per_peer.len() && !same_text(self.per_peer[i].peer_id.as_str(), peer_id)
            invariant
                self.per_peer@ == pre,
                p == peer_id@,
                i <= pre.len(),
                forall|j: int| 0 <= j < i ==> (#[trigger] pre[j]).peer_id@ != p,
            decreases pre.len() - i,
        {
            i += 1;
        }
        let mut samples: Vec<i64> = Vec::new();
        if i < self.per_peer.len() {
            proof {
                lemma_entry(pre, i as int);
            }
            samples = self.per_peer[i].samples.clone();
            assert(samples@ =~= pre[i as int].samples@);
        } else {
            assert(!windows_of(pre).dom().contains(p)) by {
                if windows_of(pre).dom().contains(p) {
                    let j = choose|j: int| is_entry(pre, p, j);
                    assert(is_entry(pre, p, j));
                }
            }
            assert(samples@ =~= Seq::empty());
        }
        let ghost w = old(self)@.window(p);
        assert(samples@ == w);
        samples.push(rtt);
        if samples.len() > WINDOW_SIZE {
            samples.remove(0);
        }
        assert(samples@ =~= windowed(w, rtt));
        // Use median RTT (robust to outliers)
        let rtt_us: i64 = ClockSync::median_of(samples.as_slice());
        let entry = PeerClock { peer_id: peer_id.to_string(), samples, rtt_us };
        if i < self.per_peer.len() {
            self.per_peer[i] = entry;
        } else {
            self.per_peer.push(entry);
        }
        proof {
            let t = self.per_peer@;
            lemma_update(pre, t, i as int);
            assert(t[i as int].samples@ == windowed(w, rtt));
            assert forall|j: int| 0 <= j < t.len() implies (#[trigger] t[j]).samples@.len()
                <= WINDOW_SIZE && is_median(t[j].samples@, t[j].rtt_us) by {
                if j != i {
                    assert(t[j] == pre[j]);
                }
            }
        }
    }

    /// Compute the median of a slice of RTT samples; 0 if there are none.
    pub fn median_of(samples: &[i64]) -> (r: i64)
        ensures
            is_median(samples@, r),
    {
        if samples.len() == 0 {
            return 0;
        }
        let sorted = sorted_copy(samples);
        sorted[sorted.len() / 2]
    }

    /// Get the estimated RTT for a peer in microseconds.
    pub fn rtt_us(&self, peer_id: &str) -> (r: Option<i64>)
        requires
            self.wf(),
        ensures
            match r {
                Some(m) => self@.windows.dom().contains(peer_id@) && is_median(
                    self@.windows[peer_id@],
                    m,
                ),
                None => !self@.windows.dom().contains(peer_id@),
            },
    {
        let mut i: usize = 0;
        while i < self.per_peer.len()
            invariant
                self.wf(),
                i <= self.per_peer@.len(),
                forall|j: int| 0 <= j < i ==> (#[trigger] self.per_peer@[j]).peer_id@ != peer_id@,
            decreases self.per_peer@.len() - i,
        {
            if same_text(self.per_peer[i].peer_id.as_str(), peer_id) {
                proof {
                    lemma_entry(self.per_peer@, i as int);
                }
                return Some(self.per_peer[i].rtt_us);
            }
            i += 1;
        }
        assert(!self@.windows.dom().contains(peer_id@)) by {
            if self@.windows.dom().contains(peer_id@) {
                let j = choose|j: int| is_entry(self.per_peer@, peer_id@, j);
                assert(is_entry(self.per_peer@, peer_id@, j));
            }
        }
        None
    }

    /// Ping interval in milliseconds.
    pub fn ping_interval_ms() -> (r: u64)
        ensures
            r == 2000,
    {
        PING_INTERVAL_MS
    }
}

impl Default for ClockSync {
    fn default() -> (r: Self)
        ensures
            r.wf(),
            r@ == (ClockState { windows: Map::empty(), next_ping_id: 0 }),
    {
        ClockSync::new()
    }
}


/// There is one median.
pub proof fn law_median_is_unique(s: Seq<i64>, a: i64, b: i64)
    requires
        is_median(s, a),
        is_median(s, b),
    ensures
        a == b,
{
    if s.len() > 0 {
        let t = choose|t: Seq<i64>| #[trigger] sorts(s, t) && a == t[s.len() as int / 2];
        let u = choose|u: Seq<i64>| #[trigger] sorts(s, u) && b == u[s.len() as int / 2];
        let leq = |x: i64, y: i64| x <= y;
        vstd::seq_lib::lemma_sorted_unique(t, u, leq);
    }
}

/// The median of samples is one of them.
pub proof fn law_median_is_a_sample(s: Seq<i64>, m: i64)
    requires
        s.len() > 0,
        is_median(s, m),
    ensures
        s.contains(m),
{
    broadcast use vstd::seq_lib::group_to_multiset_ensures;

    let t = choose|t: Seq<i64>| #[trigger] sorts(s, t) && m == t[s.len() as int / 2];
    vstd::seq_lib::to_multiset_len(t);
    vstd::seq_lib::to_multiset_len(s);
    assert(t.len() == s.len());
    assert(t.contains(t[s.len() as int / 2]));
    assert(t.to_multiset().count(m) > 0);
    assert(s.to_multiset().count(m) > 0);
}

/// How many elements of `s` are at most `b`.
pub open spec fn count_up_to(s: Seq<i64>, b: i64) -> nat
    decreases s.len(),
{
    if s.len() == 0 {
        0
    } else {
        count_up_to(s.drop_last(), b) + if s.last() <= b {
            1nat
        } else {
            0nat
        }
    }
}

proof fn lemma_count_is_filter(s: Seq<i64>, b: i64)
    ensures
        count_up_to(s, b) == s.to_multiset().filter(|x: i64| x <= b).len(),
    decreases s.len(),
{
    broadcast use vstd::multiset::group_multiset_axioms;
    broadcast use vstd::seq_lib::group_to_multiset_ensures;

    let p = |x: i64| x <= b;
    if s.len() == 0 {
        assert(s.to_multiset().filter(p) =~= vstd::multiset::Multiset::empty());
    } else {
        let d = s.drop_last();
        let x = s.last();
        lemma_count_is_filter(d, b);
        assert(s =~= d.push(x));
        assert(s.to_multiset() =~= d.to_multiset().insert(x));
        if p(x) {
            assert(s.to_multiset().filter(p) =~= d.to_multiset().filter(p).insert(x));
        } else {
            assert(s.to_multiset().filter(p) =~= d.to_multiset().filter(p));
        }
    }
}

proof fn lemma_count_sorted(t: Seq<i64>, b: i64, k: int)
    requires
        is_sorted(t),
        0 <= k < t.len(),
        t[k] > b,
    ensures
        count_up_to(t, b) <= k,
    decreases t.len(),
{
    let d = t.drop_last();
    assert(t[k] <= t[t.len() - 1]);
    if k < t.len() - 1 {
        lemma_count_sorted(d, b, k);
    } else {
        lemma_count_at_most(d, b);
    }
}

proof fn lemma_count_at_most(t: Seq<i64>, b: i64)
    ensures
        count_up_to(t, b) <= t.len(),
    decreases t.len(),
{
    if t.len() > 0 {
        lemma_count_at_most(t.drop_last(), b);
    }
}

/// A minority of outliers does not dominate the median: where more than half of
/// the samples are at most `b`, so is the median.
pub proof fn law_median_resists_outliers(s: Seq<i64>, m: i64, b: i64)
    requires
        is_median(s, m),
        2 * count_up_to(s, b) > s.len(),
    ensures
        m <= b,
{
    broadcast use vstd::seq_lib::group_to_multiset_ensures;

    lemma_count_at_most(s, b);
    let t = choose|t: Seq<i64>| #[trigger] sorts(s, t) && m == t[s.len() as int / 2];
    vstd::seq_lib::to_multiset_len(t);
    vstd::seq_lib::to_multiset_len(s);
    assert(t.len() == s.len());
    lemma_count_is_filter(s, b);
    lemma_count_is_filter(t, b);
    if m > b {
        lemma_count_sorted(t, b, s.len() as int / 2);
    }
}

/// The window after several samples.
pub open spec fn windowed_all(w: Seq<i64>, samples: Seq<i64>) -> Seq<i64>
    decreases samples.len(),
{
    if samples.len() == 0 {
        w
    } else {
        windowed(windowed_all(w, samples.drop_last()), samples.last())
    }
}

/// Only the latest samples count: the window holds the last eight of all samples,
/// or all of them while there are fewer.
pub proof fn law_window_holds_latest(w: Seq<i64>, samples: Seq<i64>)
    requires
        w.len() <= WINDOW_SIZE,
    ensures
        ({
            let all = w + samples;
            windowed_all(w, samples) == if all.len() <= WINDOW_SIZE {
                all
            } else {
                all.skip(all.len() - WINDOW_SIZE)
            }
        }),
    decreases samples.len(),
{
    let all = w + samples;
    if samples.len() == 0 {
        assert(all =~= w);
    } else {
        let front = samples.drop_last();
        law_window_holds_latest(w, front);
        let before = w + front;
        assert(all =~= before.push(samples.last()));
        let win = windowed_all(w, front);
        if before.len() < WINDOW_SIZE {
            assert(windowed(win, samples.last()) =~= all);
        } else if before.len() == WINDOW_SIZE {
            assert(windowed(win, samples.last()) =~= all.skip(1));
        } else {
            assert(windowed(win, samples.last()) =~= all.skip(all.len() - WINDOW_SIZE));
        }
    }
}

/// A pong of one peer leaves the samples of all others as they were.
pub proof fn law_peers_are_independent(
    s: ClockState,
    peer: Seq<char>,
    other: Seq<char>,
    sent: i64,
    now: i64,
)
    requires
        peer != other,
    ensures
        s.ponged(peer, sent, now).window(other) == s.window(other),
        s.ponged(peer, sent, now).windows.dom().contains(other) == s.windows.dom().contains(other),
{
}

/// How many elements of `s` are below `b`.
pub open spec fn count_below(s: Seq<i64>, b: i64) -> nat
    decreases s.len(),
{
    if s.len() == 0 {
        0
    } else {
        count_below(s.drop_last(), b) + if s.last() < b {
            1nat
        } else {
            0nat
        }
    }
}

/// The median stands in the middle: at most half of the samples are below it, and more
/// than half are no greater.
pub proof fn law_median_stands_in_the_middle(s: Seq<i64>, m: i64)
    requires
        s.len() > 0,
        is_median(s, m),
    ensures
        2 * count_below(s, m) <= s.len(),
        2 * count_up_to(s, m) > s.len(),
{
    broadcast use vstd::seq_lib::group_to_multiset_ensures;

    let t = choose|t: Seq<i64>| #[trigger] sorts(s, t) && m == t[s.len() as int / 2];
    vstd::seq_lib::to_multiset_len(t);
    vstd::seq_lib::to_multiset_len(s);
    assert(t.len() == s.len());
    lemma_count_is_filter(s, m);
    lemma_count_is_filter(t, m);
    lemma_count_reaches(t, m, s.len() as int / 2);
    if m > i64::MIN {
        let b = (m - 1) as i64;
        lemma_count_below_is_up_to(s, m);
        lemma_count_is_filter(s, b);
        lemma_count_is_filter(t, b);
        lemma_count_sorted(t, b, s.len() as int / 2);
    } else {
        lemma_nothing_below(s);
    }
}

proof fn lemma_nothing_below(s: Seq<i64>)
    ensures
        count_below(s, i64::MIN) == 0,
    decreases s.len(),
{
    if s.len() > 0 {
        lemma_nothing_below(s.drop_last());
    }
}

proof fn lemma_count_below_is_up_to(s: Seq<i64>, m: i64)
    requires
        m > i64::MIN,
    ensures
        count_below(s, m) == count_up_to(s, (m - 1) as i64),
    decreases s.len(),
{
    if s.len() > 0 {
        lemma_count_below_is_up_to(s.drop_last(), m);
    }
}

proof fn lemma_count_reaches(t: Seq<i64>, b: i64, k: int)
    requires
        is_sorted(t),
        0 <= k < t.len(),
        t[k] <= b,
    ensures
        count_up_to(t, b) > k,
    decreases t.len(),
{
    let d = t.drop_last();
    if k < t.len() - 1 {
        assert(d[k] == t[k]);
        lemma_count_reaches(d, b, k);
    } else if k > 0 {
        assert(t[k - 1] <= t[k]);
        lemma_count_reaches(d, b, k - 1);
    }
}

} // verus!
