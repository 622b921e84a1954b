//! Decisions of the two-machine end-to-end test.

use std::time::Duration;

use vstd::prelude::*;
use vstd::utf8::*;

use crate::mesh::MeshEvent;
use crate::protocol::SyncMessage;
use crate::test_tone::{validate_audio, AudioError};
use crate::text::same_text;

verus! {

/// The outcome of a phase.
pub struct TestResult {
    pub phase: &'static str,
    pub passed: bool,
    pub message: String,
    pub duration: Duration,
}

impl TestResult {
    pub fn pass(phase: &'static str, message: String, duration: Duration) -> (r: Self)
        ensures
            r == (TestResult { phase, passed: true, message, duration }),
    {
        TestResult { phase, passed: true, message, duration }
    }

    pub fn fail(phase: &'static str, message: String, duration: Duration) -> (r: Self)
        ensures
            r == (TestResult { phase, passed: false, message, duration }),
    {
        TestResult { phase, passed: false, message, duration }
    }

    /// How the outcome is printed.
    pub fn tag(&self) -> (r: &'static str)
        ensures
            r@ == if self.passed {
                "PASS"@
            } else {
                "FAIL"@
            },
    {
        if self.passed {
            "PASS"
        } else {
            "FAIL"
        }
    }
}

/// Whether all phases passed.
pub fn all_passed(results: &Vec<TestResult>) -> (r: bool)
    ensures
        r == (forall|i: int| 0 <= i < results@.len() ==> (#[trigger] results@[i]).passed),
{
    let mut i: usize = 0;
    while i < results.len()
        invariant
            i <= results@.len(),
            forall|j: int| 0 <= j < i ==> (#[trigger] results@[j]).passed,
        decreases results@.len() - i,
    {
        if !results[i].passed {
            return false;
        }
        i += 1;
    }
    true
}

/// Validate received audio and describe it.
pub fn validate_audio_str(data: &[u8]) -> (r: Result<String, AudioError>)
    ensures
        match r {
            Ok(detail) => {
                &&& crate::test_tone::validated(data@) is Ok
                &&& detail@ == crate::test_tone::frame_detail(
                    data@.len(),
                    crate::test_tone::validated(data@)->Ok_0,
                )
            },
            Err(e) => crate::test_tone::validated(data@) == Err::<
                crate::wire::FrameState,
                AudioError,
            >(e),
        },
{
    match validate_audio(data) {
        Ok(v) => Ok(v.detail),
        Err(e) => Err(e),
    }
}

/// Whether one byte string comes before another.
pub open spec fn bytes_before(a: Seq<u8>, b: Seq<u8>) -> bool
    decreases a.len(),
{
    if b.len() == 0 {
        false
    } else if a.len() == 0 {
        true
    } else {
        a[0] < b[0] || (a[0] == b[0] && bytes_before(a.skip(1), b.skip(1)))
    }
}

/// Whether this peer is the one that reconnects: the one whose id comes first.
pub fn is_reconnector(peer_id: &str, remote_peer_id: &str) -> (r: bool)
    ensures
        r == bytes_before(encode_utf8(peer_id@), encode_utf8(remote_peer_id@)),
{
    let a = peer_id.as_bytes();
    let b = remote_peer_id.as_bytes();
    let mut i: usize = 0;
    assert(a@.skip(0) =~= a@);
    assert(b@.skip(0) =~= b@);
    while i < a.len() && i < b.len()
        invariant
            i <= a@.len(),
            i <= b@.len(),
            a@ == encode_utf8(peer_id@),
            b@ == encode_utf8(remote_peer_id@),
            bytes_before(a@, b@) == bytes_before(a@.skip(i as int), b@.skip(i as int)),
        decreases a@.len() - i,
    {
        assert(a@.skip(i as int)[0] == a@[i as int]);
        assert(b@.skip(i as int)[0] == b@[i as int]);
        assert(a@.skip(i as int).skip(1) =~= a@.skip(i + 1));
        assert(b@.skip(i as int).skip(1) =~= b@.skip(i + 1));
        if a[i] != b[i] {
            return a[i] < b[i];
        }
        i += 1;
    }
    i < b.len()
}

/// Exactly one of two different peers reconnects.
pub proof fn law_one_peer_reconnects(a: Seq<char>, b: Seq<char>)
    requires
        a != b,
    ensures
        bytes_before(encode_utf8(a), encode_utf8(b)) != bytes_before(
            encode_utf8(b),
            encode_utf8(a),
        ),
{
    crate::text::lemma_encoding_is_injective(a, b);
    lemma_bytes_before_is_total(encode_utf8(a), encode_utf8(b));
}

proof fn lemma_bytes_before_is_total(a: Seq<u8>, b: Seq<u8>)
    requires
        a != b,
    ensures
        bytes_before(a, b) != bytes_before(b, a),
    decreases a.len(),
{
    if a.len() == 0 {
        if b.len() == 0 {
            assert(a =~= b);
        }
    } else if b.len() > 0 && a[0] == b[0] {
        if a.skip(1) == b.skip(1) {
            assert(a =~= seq![a[0]] + a.skip(1));
            assert(b =~= seq![b[0]] + b.skip(1));
        }
        lemma_bytes_before_is_total(a.skip(1), b.skip(1));
    }
}

/// What is known of the exchange of greetings and pings.
pub struct SyncExchange {
    pub got_hello: bool,
    pub hello_had_identity: bool,
    pub rtt_us: Option<i64>,
}

impl SyncExchange {
    pub fn new() -> (r: Self)
        ensures
            r == (SyncExchange { got_hello: false, hello_had_identity: false, rtt_us: None }),
    {
        SyncExchange { got_hello: false, hello_had_identity: false, rtt_us: None }
    }

    /// The exchange after a message that was read at `now_us`.
    pub open spec fn after(self, msg: SyncMessage, now_us: i64) -> SyncExchange {
        match msg {
            SyncMessage::Hello { identity, .. } => SyncExchange {
                got_hello: true,
                hello_had_identity: identity is Some,
                ..self
            },
            SyncMessage::Pong { ping_sent_at_us, .. } => SyncExchange {
                rtt_us: Some((now_us - ping_sent_at_us) as i64),
                ..self
            },
            _ => self,
        }
    }

    /// Note a message that was read at `now_us`. Returns the reply, if it asks for one.
    pub fn on_message(&mut self, msg: &SyncMessage, now_us: i64) -> (r: Option<SyncMessage>)
        requires
            *msg matches SyncMessage::Pong { ping_sent_at_us, .. } ==> i64::MIN <= now_us
                - ping_sent_at_us <= i64::MAX,
        ensures
            *final(self) == old(self).after(*msg, now_us),
            r == pong_for(*msg, now_us),
    {
        match msg {
            SyncMessage::Hello { identity, .. } => {
                self.got_hello = true;
                self.hello_had_identity = identity.is_some();
            },
            SyncMessage::Pong { ping_sent_at_us, .. } => {
                self.rtt_us = Some(now_us - *ping_sent_at_us);
            },
            _ => {},
        }
        reply_to_ping(msg, now_us)
    }

    /// Whether a greeting and a pong came in.
    pub fn is_done(&self) -> (r: bool)
        ensures
            r == (self.got_hello && self.rtt_us is Some),
    {
        self.got_hello && self.rtt_us.is_some()
    }

    /// What was missing when time ran out.
    pub fn missing(&self) -> (r: &'static str)
        ensures
            r@ == if !self.got_hello {
                "no Hello received"@
            } else {
                "Hello OK but no Pong"@
            },
    {
        if !self.got_hello {
            "no Hello received"
        } else {
            "Hello OK but no Pong"
        }
    }
}

/// The reply to a message at `now_us`: only pings are replied to.
pub open spec fn pong_for(msg: SyncMessage, now_us: i64) -> Option<SyncMessage> {
    match msg {
        SyncMessage::Ping { id, sent_at_us } => Some(
            SyncMessage::Pong { id, ping_sent_at_us: sent_at_us, pong_sent_at_us: now_us },
        ),
        _ => None,
    }
}

/// The reply to a message at `now_us`: only pings are replied to.
pub fn reply_to_ping(msg: &SyncMessage, now_us: i64) -> (r: Option<SyncMessage>)
    ensures
        r == pong_for(*msg, now_us),
{
    match msg {
        SyncMessage::Ping { id, sent_at_us } => Some(
            SyncMessage::Pong {
                id: *id,
                ping_sent_at_us: *sent_at_us,
                pong_sent_at_us: now_us,
            },
        ),
        _ => None,
    }
}

/// Whether an event says that a peer left.
pub fn has_left(event: &MeshEvent, peer_id: &str) -> (r: bool)
    ensures
        r == (*event matches MeshEvent::PeerLeft(p) && p@ == peer_id@),
{
    match event {
        MeshEvent::PeerLeft(p) => same_text(p.as_str(), peer_id),
        _ => false,
    }
}

/// Whether an event says that a peer joined.
pub fn has_joined(event: &MeshEvent, peer_id: &str) -> (r: bool)
    ensures
        r == (*event matches MeshEvent::PeerJoined { peer_id: p, .. } && p@ == peer_id@),
{
    match event {
        MeshEvent::PeerJoined { peer_id: p, .. } => same_text(p.as_str(), peer_id),
        _ => false,
    }
}

/// The peer that an event brings into the room: one that joined, or after a peer list
/// the first that is known.
pub fn found_peer(event: &MeshEvent, known: &Vec<String>) -> (r: Option<String>)
    ensures
        match *event {
            MeshEvent::PeerJoined { peer_id, .. } => r is Some && r->0@ == peer_id@,
            MeshEvent::PeerListReceived(_) => if known@.len() > 0 {
                r is Some && r->0@ == known@[0]@
            } else {
                r is None
            },
            _ => r is None,
        },
{
    match event {
        MeshEvent::PeerJoined { peer_id, .. } => Some(peer_id.clone()),
        MeshEvent::PeerListReceived(_) => if known.len() > 0 {
            Some(known[0].clone())
        } else {
            None
        },
        _ => None,
    }
}

/// How many intervals came in, and how many bytes.
pub struct ReceiveTally {
    pub expected: u32,
    pub received: u32,
    pub bytes: usize,
}

impl ReceiveTally {
    pub fn new(expected: u32) -> (r: Self)
        ensures
            r == (ReceiveTally { expected, received: 0, bytes: 0 }),
    {
        ReceiveTally { expected, received: 0, bytes: 0 }
    }

    /// Whether all intervals came in.
    pub fn is_done(&self) -> (r: bool)
        ensures
            r == (self.received >= self.expected),
    {
        self.received >= self.expected
    }

    /// Note data of `len` bytes.
    pub fn on_audio(&mut self, len: usize)
        requires
            old(self).received < old(self).expected,
            old(self).bytes + len <= usize::MAX,
        ensures
            *final(self) == (ReceiveTally {
                received: (old(self).received + 1) as u32,
                bytes: (old(self).bytes + len) as usize,
                ..*old(self)
            }),
    {
        self.bytes += len;
        self.received += 1;
    }

    /// Whether progress is reported now: after every fifth interval, and the last.
    pub fn reports_progress(&self) -> (r: bool)
        ensures
            r == (self.received % 5 == 0 || self.received == self.expected),
    {
        self.received % 5 == 0 || self.received == self.expected
    }
}

/// The largest gap between arrival times.
pub open spec fn max_gap(times: Seq<u64>) -> int
    decreases times.len(),
{
    if times.len() < 2 {
        0
    } else {
        let before = max_gap(times.drop_last());
        let gap = times.last() - times[times.len() - 2];
        if gap > before {
            gap
        } else {
            before
        }
    }
}

/// The average and the largest gap between arrival times in nanoseconds, rounded down;
/// both are 0 with fewer than two arrivals.
pub fn gaps(times: &Vec<u64>) -> (r: (u64, u64))
    requires
        forall|i: int, j: int| 0 <= i <= j < times@.len() ==> times@[i] <= times@[j],
    ensures
        r.0 == if times@.len() < 2 {
            0
        } else {
            (times@.last() - times@[0]) / (times@.len() - 1)
        },
        r.1 == max_gap(times@),
{
    let n: usize = times.len();
    if n < 2 {
        return (0, 0);
    }
    let mut largest: u64 = 0;
    let mut i: usize = 1;
    assert(times@.take(1).len() < 2);
    while i < n
        invariant
            n == times@.len(),
            1 <= i <= n,
            forall|i: int, j: int| 0 <= i <= j < times@.len() ==> times@[i] <= times@[j],
            largest == max_gap(times@.take(i as int)),
        decreases n - i,
    {
        assert(times@.take(i + 1).drop_last() =~= times@.take(i as int));
        assert(times@.take(i + 1).last() == times@[i as int]);
        assert(times@.take(i + 1)[i - 1] == times@[i - 1]);
        assert(times@[i - 1] <= times@[i as int]);
        let gap: u64 = times[i] - times[i - 1];
        if gap > largest {
            largest = gap;
        }
        i += 1;
    }
    assert(times@.take(n as int) =~= times@);
    let span: u64 = times[n - 1] - times[0];
    (span / (n - 1) as u64, largest)
}

/// Bytes come before others in the order of dictionaries: by the first byte in which they
/// differ, and where there is none, the shorter first.
pub proof fn law_bytes_are_ordered_as_in_a_dictionary(a: Seq<u8>, b: Seq<u8>, i: int)
    requires
        0 <= i <= a.len(),
        i <= b.len(),
        forall|j: int| 0 <= j < i ==> #[trigger] a[j] == b[j],
    ensures
        i < a.len() && i < b.len() && a[i] != b[i] ==> (bytes_before(a, b) <==> a[i] < b[i]),
        i == a.len() ==> (bytes_before(a, b) <==> a.len() < b.len()),
        i == b.len() ==> !bytes_before(a, b),
    decreases i,
{
    if i > 0 {
        let x = a.skip(1);
        let y = b.skip(1);
        assert(a[0] == b[0]);
        assert forall|j: int| 0 <= j < i - 1 implies #[trigger] x[j] == y[j] by {
            assert(a[j + 1] == b[j + 1]);
        }
        law_bytes_are_ordered_as_in_a_dictionary(x, y, i - 1);
    }
}

/// The largest gap is no smaller than any between neighbours, and is one of them; with
/// fewer than two times there is none.
pub proof fn law_largest_gap_is_one_of_the_gaps(times: Seq<u64>, i: int)
    requires
        0 < i < times.len(),
        forall|a: int, b: int| 0 <= a <= b < times.len() ==> times[a] <= times[b],
    ensures
        max_gap(times) >= times[i] - times[i - 1],
        exists|k: int|
            0 < k < times.len() && max_gap(times) == #[trigger] times[k] - times[k - 1],
    decreases times.len(),
{
    let front = times.drop_last();
    let last = times.len() - 1;
    assert(times[last] >= times[last - 1]);
    if front.len() >= 2 {
        let at = if i < front.len() {
            i
        } else {
            1
        };
        law_largest_gap_is_one_of_the_gaps(front, at);
        let k = choose|k: int|
            0 < k < front.len() && max_gap(front) == #[trigger] front[k] - front[k - 1];
        if max_gap(times) == max_gap(front) {
            assert(max_gap(times) == times[k] - times[k - 1]);
        } else {
            assert(max_gap(times) == times[last] - times[last - 1]);
        }
    } else {
        assert(max_gap(front) == 0);
        assert(max_gap(times) == times[last] - times[last - 1]);
    }
}

/// An exchange notes a greeting, with whether it came with an identity, and the round trip
/// that a reply shows; other messages leave it as it is. Only a ping is answered, with its
/// own number and time and the time of the answer.
pub proof fn law_exchange_notes_greeting_and_round_trip(
    s: SyncExchange,
    peer_id: String,
    display_name: Option<String>,
    identity: Option<String>,
    id: u64,
    sent: i64,
    answered: i64,
    now: i64,
)
    requires
        i64::MIN <= now - sent <= i64::MAX,
    ensures
        ({
            let t = s.after(SyncMessage::Hello { peer_id, display_name, identity }, now);
            &&& t.got_hello
            &&& t.hello_had_identity == (identity is Some)
            &&& t.rtt_us == s.rtt_us
        }),
        ({
            let pong = SyncMessage::Pong { id, ping_sent_at_us: sent, pong_sent_at_us: answered };
            let t = s.after(pong, now);
            &&& t.rtt_us is Some && t.rtt_us->0 == now - sent
            &&& t.got_hello == s.got_hello
            &&& t.hello_had_identity == s.hello_had_identity
            &&& pong_for(pong, now) is None
        }),
        s.after(SyncMessage::Ping { id, sent_at_us: sent }, now) == s,
        pong_for(SyncMessage::Ping { id, sent_at_us: sent }, now) == Some(
            SyncMessage::Pong { id, ping_sent_at_us: sent, pong_sent_at_us: now },
        ),
{
}

} // verus!
