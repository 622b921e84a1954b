//! What the editor window of the receiver shows.

use vstd::prelude::*;
use vstd::utf8::*;

use crate::slot::MAX_SLOTS;
use crate::text::{push_decimal, text_from_utf8};

verus! {

/// Number of level values in the sparkline history.
/// At about 50 updates per second this covers about 4 seconds.
pub const SPARKLINE_LEN: usize = 200;

/// Maximum bytes for a fixed-size peer name (UTF-8).
pub const NAME_BUF_LEN: usize = 64;

/// What a slot shows.
#[verifier::ext_equal]
pub struct VisualState {
    /// The bytes of the display name that are kept.
    pub name: Seq<u8>,
    pub active: bool,
    /// Levels from oldest to newest, each with whether an interval began there.
    pub history: Seq<(u32, bool)>,
    pub peak: u32,
}

/// Per-slot visualization data. Fixed-size to avoid audio-thread allocations.
/// Levels are held as bit patterns.
pub struct SlotVisual {
    name_buf: [u8; NAME_BUF_LEN],
    name_len: usize,
    active: bool,
    rms_history: [u32; SPARKLINE_LEN],
    write_pos: usize,
    peak: u32,
    interval_markers: [bool; SPARKLINE_LEN],
}

/// The bytes of a name that a slot keeps.
pub open spec fn kept_name(name: Seq<char>) -> Seq<u8> {
    let b = encode_utf8(name);
    if b.len() <= NAME_BUF_LEN {
        b
    } else {
        b.take(NAME_BUF_LEN as int)
    }
}

/// The text that kept bytes are shown as.
pub open spec fn shown_name(name: Seq<u8>) -> Seq<char> {
    if valid_utf8(name) {
        decode_utf8(name)
    } else {
        "?"@
    }
}

impl View for SlotVisual {
    type V = VisualState;

    closed spec fn view(&self) -> VisualState {
        VisualState {
            name: self.name_buf@.take(self.name_len as int),
            active: self.active,
            history: Seq::new(
                SPARKLINE_LEN as nat,
                |i: int|
                    (
                        self.rms_history@[(self.write_pos + i) % 200],
                        self.interval_markers@[(self.write_pos + i) % 200],
                    ),
            ),
            peak: self.peak,
        }
    }
}

impl SlotVisual {
    pub closed spec fn wf(&self) -> bool {
        &&& self.name_len <= NAME_BUF_LEN
        &&& self.write_pos < SPARKLINE_LEN
    }

    /// A slot that never played.
    pub fn new() -> (r: Self)
        ensures
            r.wf(),
            r@ == (VisualState {
                name: Seq::empty(),
                active: false,
                history: Seq::new(SPARKLINE_LEN as nat, |i: int| (0u32, false)),
                peak: 0,
            }),
    {
        let r = SlotVisual {
            name_buf: [0u8; 64],
            name_len: 0,
            active: false,
            rms_history: [0u32; 200],
            write_pos: 0,
            peak: 0,
            interval_markers: [false; 200],
        };
        assert(r@.history =~= Seq::new(SPARKLINE_LEN as nat, |i: int| (0u32, false)));
        r
    }

    /// Set the display name (keeps up to `NAME_BUF_LEN` bytes, no allocation).
    pub fn set_name(&mut self, name: &str)
        requires
            old(self).wf(),
        ensures
            final(self).wf(),
            final(self)@ == (VisualState { name: kept_name(name@), ..old(self)@ }),
    {
        let ghost before = self@;
        let bytes = name.as_bytes();
        let n: usize = if bytes.len() <= NAME_BUF_LEN {
            bytes.len()
        } else {
            NAME_BUF_LEN
        };
        let mut i: usize = 0;
        while i < n
            invariant
                n <= bytes@.len(),
                n <= NAME_BUF_LEN,
                i <= n,
                self.wf(),
                self@.active == before.active,
                self@.history == before.history,
                self@.peak == before.peak,
                forall|j: int| 0 <= j < i ==> #[trigger] self.name_buf@[j] == bytes@[j],
            decreases n - i,
        {
            self.name_buf[i] = bytes[i];
            i += 1;
            assert(self@.history =~= before.history);
        }
        self.name_len = n;
        assert(self@.name =~= kept_name(name@));
        assert(self@.history =~= before.history);
    }

    /// Read back the display name.
    pub fn name_str(&self) -> (r: String)
        requires
            self.wf(),
        ensures
            r@ == shown_name(self@.name),
    {
        let mut kept: Vec<u8> = Vec::new();
        let mut i: usize = 0;
        while i < self.name_len
            invariant
                self.wf(),
                i <= self.name_len,
                kept@ == self.name_buf@.take(i as int),
            decreases self.name_len - i,
        {
            kept.push(self.name_buf[i]);
            i += 1;
            assert(kept@ =~= self.name_buf@.take(i as int));
        }
        match text_from_utf8(kept.as_slice()) {
            Some(s) => s,
            None => "?".to_string(),
        }
    }

    /// Note the peak level.
    pub fn set_peak(&mut self, peak: u32)
        requires
            old(self).wf(),
        ensures
            final(self).wf(),
            final(self)@ == (VisualState { peak, ..old(self)@ }),
    {
        self.peak = peak;
        assert(self@.history =~= old(self)@.history);
        assert(self@.name =~= old(self)@.name);
    }

    /// Note whether the slot is active.
    pub fn set_active(&mut self, active: bool)
        requires
            old(self).wf(),
        ensures
            final(self).wf(),
            final(self)@ == (VisualState { active, ..old(self)@ }),
    {
        self.active = active;
        assert(self@.history =~= old(self)@.history);
        assert(self@.name =~= old(self)@.name);
    }

    /// Push a new level into the history; the oldest one leaves it.
    pub fn push_rms(&mut self, rms: u32, is_interval_boundary: bool)
        requires
            old(self).wf(),
        ensures
            final(self).wf(),
            final(self)@ == (VisualState {
                history: old(self)@.history.drop_first().push((rms, is_interval_boundary)),
                ..old(self)@
            }),
    {
        let ghost before = self@;
        let ghost pos = self.write_pos;
        self.rms_history[self.write_pos] = rms;
        self.interval_markers[self.write_pos] = is_interval_boundary;
        self.write_pos = (self.write_pos + 1) % SPARKLINE_LEN;
        proof {
            let want = before.history.drop_first().push((rms, is_interval_boundary));
            assert forall|i: int| 0 <= i < SPARKLINE_LEN implies #[trigger] self@.history[i]
                == want[i] by {
                assert((self.write_pos + i) % 200 == (pos + i + 1) % 200);
                if i == SPARKLINE_LEN - 1 {
                    assert((pos + i + 1) % 200 == pos);
                } else {
                    assert((pos + i + 1) % 200 != pos);
                    assert(want[i] == before.history[i + 1]);
                }
            }
            assert(self@.history =~= want);
            assert(self@.name =~= before.name);
        }
    }

    /// The levels from oldest to newest, each with whether an interval began there.
    pub fn history(&self) -> (r: Vec<(u32, bool)>)
        requires
            self.wf(),
        ensures
            r@ == self@.history,
    {
        let mut out: Vec<(u32, bool)> = Vec::new();
        let mut i: usize = 0;
        while i < SPARKLINE_LEN
            invariant
                self.wf(),
                i <= SPARKLINE_LEN,
                out@.len() == i,
                forall|j: int| 0 <= j < i ==> #[trigger] out@[j] == self@.history[j],
            decreases SPARKLINE_LEN - i,
        {
            let at: usize = (self.write_pos + i) % SPARKLINE_LEN;
            out.push((self.rms_history[at], self.interval_markers[at]));
            i += 1;
        }
        assert(out@ =~= self@.history);
        out
    }
}

impl Default for SlotVisual {
    fn default() -> (r: Self)
        ensures
            r.wf(),
            r@ == (VisualState {
                name: Seq::empty(),
                active: false,
                history: Seq::new(SPARKLINE_LEN as nat, |i: int| (0u32, false)),
                peak: 0,
            }),
    {
        SlotVisual::new()
    }
}

/// A name of at most `NAME_BUF_LEN` bytes is shown as it was set.
pub proof fn law_short_name_is_shown(name: Seq<char>)
    requires
        encode_utf8(name).len() <= NAME_BUF_LEN,
    ensures
        shown_name(kept_name(name)) == name,
{
    encode_utf8_valid_utf8(name);
    encode_utf8_decode_utf8(name);
}

/// Shared state between the audio thread and the window. Tempo and progress are
/// held as bit patterns.
pub struct EditorData {
    pub slots: Vec<SlotVisual>,
    pub bpm_bits: u64,
    pub interval_progress: u32,
    pub current_interval: i64,
    pub ipc_connected: bool,
}

/// What the slots of an editor show.
pub open spec fn visuals(s: Seq<SlotVisual>) -> Seq<VisualState> {
    s.map_values(|v: SlotVisual| v@)
}

/// A slot that never played.
pub open spec fn fresh_visual() -> VisualState {
    VisualState {
        name: Seq::empty(),
        active: false,
        history: Seq::new(SPARKLINE_LEN as nat, |i: int| (0u32, false)),
        peak: 0,
    }
}

/// What the window draws of a slot.
pub struct SlotSnapshot {
    pub name: String,
    pub history: Vec<(u32, bool)>,
    pub peak: u32,
}

/// What the window draws of a slot.
#[verifier::ext_equal]
pub struct SnapshotState {
    pub name: Seq<char>,
    pub history: Seq<(u32, bool)>,
    pub peak: u32,
}

impl View for SlotSnapshot {
    type V = SnapshotState;

    open spec fn view(&self) -> SnapshotState {
        SnapshotState { name: self.name@, history: self.history@, peak: self.peak }
    }
}

/// What snapshots say.
pub open spec fn snapshot_states(s: Seq<SlotSnapshot>) -> Seq<SnapshotState> {
    s.map_values(|v: SlotSnapshot| v@)
}

/// The slots that are drawn: the active ones, in order.
pub open spec fn drawn(s: Seq<VisualState>) -> Seq<SnapshotState>
    decreases s.len(),
{
    if s.len() == 0 {
        Seq::empty()
    } else {
        let v = s.last();
        let before = drawn(s.drop_last());
        if v.active {
            before.push(
                SnapshotState { name: shown_name(v.name), history: v.history, peak: v.peak },
            )
        } else {
            before
        }
    }
}

impl EditorData {
    /// One visual per slot, each consistent.
    pub open spec fn wf(&self) -> bool {
        &&& self.slots@.len() == MAX_SLOTS
        &&& forall|i: int| 0 <= i < self.slots@.len() ==> (#[trigger] self.slots@[i]).wf()
    }

    /// An editor before any audio: 120 beats per minute and idle slots.
    pub fn new() -> (r: Self)
        ensures
            r.wf(),
            visuals(r.slots@) == Seq::new(MAX_SLOTS as nat, |i: int| fresh_visual()),
            r.bpm_bits == crate::bridge::DEFAULT_BPM_BITS,
            r.interval_progress == 0,
            r.current_interval == 0,
            !r.ipc_connected,
    {
        let mut slots: Vec<SlotVisual> = Vec::new();
        while slots.len() < MAX_SLOTS
            invariant
                slots@.len() <= MAX_SLOTS,
                forall|i: int|
                    0 <= i < slots@.len() ==> (#[trigger] slots@[i]).wf() && slots@[i]@
                        == fresh_visual(),
            decreases MAX_SLOTS - slots@.len(),
        {
            let v = SlotVisual::new();
            assert(v@ == fresh_visual());
            slots.push(v);
        }
        assert(visuals(slots@) =~= Seq::new(MAX_SLOTS as nat, |i: int| fresh_visual()));
        EditorData {
            slots,
            bpm_bits: crate::bridge::DEFAULT_BPM_BITS,
            interval_progress: 0,
            current_interval: 0,
            ipc_connected: false,
        }
    }

    /// Snapshot of what is drawn, so that drawing needs no lock.
    pub fn snapshot(&self) -> (r: Vec<SlotSnapshot>)
        requires
            self.wf(),
        ensures
            snapshot_states(r@) == drawn(visuals(self.slots@)),
    {
        let ghost all = visuals(self.slots@);
        let mut out: Vec<SlotSnapshot> = Vec::new();
        let mut i: usize = 0;
        assert(snapshot_states(out@) =~= drawn(all.take(0)));
        while i < self.slots.len()
            invariant
                self.wf(),
                all == visuals(self.slots@),
                i <= self.slots@.len(),
                snapshot_states(out@) == drawn(all.take(i as int)),
            decreases self.slots@.len() - i,
        {
            let ghost before = out@;
            assert(all.take(i + 1).drop_last() =~= all.take(i as int));
            assert(all.take(i + 1).last() == self.slots@[i as int]@);
            let v = &self.slots[i];
            if v.active {
                let s = SlotSnapshot { name: v.name_str(), history: v.history(), peak: v.peak };
                out.push(s);
                assert(snapshot_states(out@) =~= snapshot_states(before).push(s@));
            }
            i += 1;
        }
        assert(all.take(i as int) =~= all);
        out
    }
}

/// The header line on how many peers there are.
pub fn peer_count_label(n: usize) -> (r: String)
    ensures
        r@ == if n == 1 {
            "1 peer"@
        } else {
            crate::text::decimal(n as nat) + " peers"@
        },
{
    if n == 1 {
        "1 peer".to_string()
    } else {
        let mut out = String::new();
        push_decimal(&mut out, n as u64);
        out.append(" peers");
        out
    }
}

/// The label of a slot's row.
pub fn row_label(name: &str) -> (r: String)
    ensures
        r@ == if name@.len() == 0 {
            "???"@
        } else {
            name@
        },
{
    if name.unicode_len() == 0 {
        "???".to_string()
    } else {
        name.to_string()
    }
}

} // verus!
