//! WAN audio interchange for tempo-synchronised jamming.

pub mod bridge;
pub mod buffers;
pub mod clock;
pub mod codec;
pub mod e2e;
pub mod editor;
pub mod interval;
pub mod ipc;
pub mod ipc_laws;
pub mod le;
pub mod link;
pub mod mesh;
pub mod names;
pub mod net_laws;
pub mod peer;
pub mod play_laws;
pub mod plugin_laws;
pub mod protocol;
pub mod recv;
pub mod recv_laws;
pub mod recv_link;
pub mod ring;
pub mod ring_history;
pub mod ring_laws;
pub mod ring_state;
pub mod send;
pub mod send_laws;
pub mod session;
pub mod session_laws;
pub mod signaling;
pub mod slot;
pub mod slot_history;
pub mod slot_laws;
pub mod test_tone;
pub mod text;
pub mod text_laws;
pub mod tracker;
pub mod version;
pub mod wire;
pub mod wire_laws;
