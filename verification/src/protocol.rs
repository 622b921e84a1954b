//! Messages exchanged between peers and with the signaling server.
//!
//! Tempo, beat, phase and quantum are held as the bit patterns of doubles.

use vstd::prelude::*;

verus! {

/// Messages exchanged between peers.
#[derive(Debug, Clone)]
pub enum SyncMessage {
    /// Clock sync: initiator sends Ping
    Ping { id: u64, sent_at_us: i64 },
    /// Clock sync: responder replies with Pong
    Pong { id: u64, ping_sent_at_us: i64, pong_sent_at_us: i64 },
    /// Tempo change detected on the sender's local session
    TempoChange { bpm_bits: u64, quantum_bits: u64, timestamp_us: i64 },
    /// Full state snapshot (sent periodically and on connect)
    StateSnapshot {
        bpm_bits: u64,
        beat_bits: u64,
        phase_bits: u64,
        quantum_bits: u64,
        timestamp_us: i64,
    },
    /// Interval configuration agreement
    IntervalConfig { bars: u32, quantum_bits: u64 },
    /// Greeting on connect
    Hello {
        peer_id: String,
        /// Human-readable name (e.g. "Ringo"). Old peers omit this field.
        display_name: Option<String>,
        /// Persistent identity that survives reconnects. Old peers omit this field.
        identity: Option<String>,
    },
    /// Announce audio capabilities (sent after Hello)
    AudioCapabilities {
        sample_rates: Vec<u32>,
        channel_counts: Vec<u16>,
        can_send: bool,
        can_receive: bool,
        /// Maximum number of streams this peer will send (None = single-stream)
        max_streams: Option<u16>,
    },
    /// Audio interval metadata (sent right before binary audio)
    AudioIntervalReady { interval_index: i64, wire_size: u32 },
    /// Interval boundary announcement for cross-peer index synchronisation.
    IntervalBoundary { index: i64 },
    /// Periodic audio pipeline health (broadcast every status tick)
    AudioStatus {
        audio_dc_open: bool,
        intervals_sent: u64,
        intervals_received: u64,
        plugin_connected: bool,
        /// Monotonically increasing sequence number. Old peers omit this field.
        seq: u64,
    },
    ChatMessage { sender_name: String, text: String },
    /// Human-readable names for the sender's audio streams, keyed by stream index.
    StreamNames { names: Vec<(String, String)> },
}

/// What a message says.
#[verifier::ext_equal]
pub enum SyncState {
    Ping { id: u64, sent_at_us: i64 },
    Pong { id: u64, ping_sent_at_us: i64, pong_sent_at_us: i64 },
    TempoChange { bpm: u64, quantum: u64, timestamp_us: i64 },
    StateSnapshot { bpm: u64, beat: u64, phase: u64, quantum: u64, timestamp_us: i64 },
    IntervalConfig { bars: u32, quantum: u64 },
    Hello { peer_id: Seq<char>, display_name: Option<Seq<char>>, identity: Option<Seq<char>> },
    AudioCapabilities {
        sample_rates: Seq<u32>,
        channel_counts: Seq<u16>,
        can_send: bool,
        can_receive: bool,
        max_streams: Option<u16>,
    },
    AudioIntervalReady { interval_index: i64, wire_size: u32 },
    IntervalBoundary { index: i64 },
    AudioStatus {
        audio_dc_open: bool,
        intervals_sent: u64,
        intervals_received: u64,
        plugin_connected: bool,
        seq: u64,
    },
    ChatMessage { sender_name: Seq<char>, text: Seq<char> },
    StreamNames { names: Seq<(Seq<char>, Seq<char>)> },
}

/// The text of an optional string.
pub open spec fn opt_text(s: Option<String>) -> Option<Seq<char>> {
    match s {
        Some(t) => Some(t@),
        None => None,
    }
}

impl View for SyncMessage {
    type V = SyncState;

    open spec fn view(&self) -> SyncState {
        match *self {
            SyncMessage::Ping { id, sent_at_us } => SyncState::Ping { id, sent_at_us },
            SyncMessage::Pong { id, ping_sent_at_us, pong_sent_at_us } => SyncState::Pong {
                id,
                ping_sent_at_us,
                pong_sent_at_us,
            },
            SyncMessage::TempoChange {
                bpm_bits,
                quantum_bits,
                timestamp_us,
            } => SyncState::TempoChange { bpm: bpm_bits, quantum: quantum_bits, timestamp_us },
            SyncMessage::StateSnapshot {
                bpm_bits,
                beat_bits,
                phase_bits,
                quantum_bits,
                timestamp_us,
            } => SyncState::StateSnapshot {
                bpm: bpm_bits,
                beat: beat_bits,
                phase: phase_bits,
                quantum: quantum_bits,
                timestamp_us,
            },
            SyncMessage::IntervalConfig { bars, quantum_bits } => SyncState::IntervalConfig {
                bars,
                quantum: quantum_bits,
            },
            SyncMessage::Hello { peer_id, display_name, identity } => SyncState::Hello {
                peer_id: peer_id@,
                display_name: opt_text(display_name),
                identity: opt_text(identity),
            },
            SyncMessage::AudioCapabilities {
                sample_rates,
                channel_counts,
                can_send,
                can_receive,
                max_streams,
            } => SyncState::AudioCapabilities {
                sample_rates: sample_rates@,
                channel_counts: channel_counts@,
                can_send,
                can_receive,
                max_streams,
            },
            SyncMessage::AudioIntervalReady {
                interval_index,
                wire_size,
            } => SyncState::AudioIntervalReady { interval_index, wire_size },
            SyncMessage::IntervalBoundary { index } => SyncState::IntervalBoundary { index },
            SyncMessage::AudioStatus {
                audio_dc_open,
                intervals_sent,
                intervals_received,
                plugin_connected,
                seq,
            } => SyncState::AudioStatus {
                audio_dc_open,
                intervals_sent,
                intervals_received,
                plugin_connected,
                seq,
            },
            SyncMessage::ChatMessage { sender_name, text } => SyncState::ChatMessage {
                sender_name: sender_name@,
                text: text@,
            },
            SyncMessage::StreamNames { names } => SyncState::StreamNames {
                names: names@.map_values(|p: (String, String)| (p.0@, p.1@)),
            },
        }
    }
}

/// Cumulative audio frame counts and network health for one direction (remote → observer).
#[derive(Debug, Clone, Copy, PartialEq, Eq)]
pub struct PeerFrameReport {
    pub frames_expected: u64,
    pub frames_received: u64,
    /// Median RTT to this peer in microseconds (latest value, not cumulative).
    pub rtt_us: Option<i64>,
    /// Jitter of RTT in microseconds.
    pub jitter_us: Option<i64>,
    /// Cumulative backpressure drops (audio receiver channel full).
    pub dc_drops: u64,
    /// Cumulative frames that arrived for already-passed intervals.
    pub late_frames: u64,
    /// Cumulative decode failures reported by the recv plugin.
    pub decode_failures: u64,
}

/// Negotiation payloads relayed through the signaling server.
#[derive(Debug, Clone)]
pub enum SignalPayload {
    Offer { sdp: String },
    Answer { sdp: String },
    IceCandidate { candidate: String, sdp_mid: Option<String>, sdp_mline_index: Option<u16> },
}

/// Messages exchanged over the signaling channel.
#[derive(Debug, Clone)]
pub enum SignalMessage {
    /// Client -> Server: join a room
    Join { room: String, peer_id: String },
    /// Server -> Client: current peer list
    PeerList { peers: Vec<String> },
    /// Server -> Client: a new peer joined
    PeerJoined { peer_id: String, display_name: Option<String> },
    /// Server -> Client: a peer left
    PeerLeft { peer_id: String },
    /// Bidirectional: relay negotiation between peers
    Signal { to: String, from: String, payload: SignalPayload },
    /// Peer log broadcast: structured log entry relayed via the signaling server
    LogBroadcast {
        from: String,
        level: String,
        target: String,
        message: String,
        timestamp_us: u64,
    },
    /// Metrics report sent to the signaling server for session-level aggregation.
    /// Not relayed to other peers — consumed server-side only.
    MetricsReport {
        dc_open: bool,
        plugin_connected: bool,
        /// Per remote peer: cumulative frames expected/received.
        per_peer: Vec<(String, PeerFrameReport)>,
        /// Cumulative IPC channel-full drops (plugin → app direction).
        ipc_drops: u64,
        /// Interval boundary timing drift in microseconds (actual − expected gap).
        boundary_drift_us: Option<i64>,
    },
}

} // verus!
