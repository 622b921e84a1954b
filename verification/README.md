# WAIL

WAN Audio Interchange for Link: musicians on different networks share tempo, phase and
interval boundaries, and hear each other one interval late.

`src/` is the library. Every function in it is verified with Verus against its contract;
the contracts speak of mathematical models (`*State` types, sequences, maps).

| Module | What it holds |
|--------|---------------|
| `slot`, `slot_laws`, `slot_history` | which stream holds which output slot, with affinity on reconnect |
| `ring_state`, `ring`, `ring_laws`, `ring_history` | the interval ring: record one interval, play the previous one |
| `bridge`, `interval`, `codec`, `buffers` | the ring with its codec parameters, recording, packet framing, channel layout |
| `wire`, `ipc`, `ipc_laws`, `le` | the bytes of audio frames and of the plugin connection |
| `clock`, `tracker`, `link`, `session` | round-trip times, intervals, tempo changes, and what a running peer decides |
| `protocol`, `signaling`, `mesh`, `peer`, `version` | messages, the signaling server, presence, data channels |
| `recv`, `recv_link`, `names`, `editor`, `send`, `send_laws` | the two plugins |
| `test_tone`, `e2e` | test intervals and the two-machine test |
| `text` | text helpers |

Samples, tempos and beats are held by their bit patterns. Where the logic needs
floating-point arithmetic (adding samples, crossfading, comparing tempos) the caller
passes it as a function, and the contracts say where each result goes.

`app/` holds the programs around the library: `main.rs` is the command-line program,
`plugin_send.rs` and `plugin_recv.rs` are the roots of the two plugin libraries.
`tests/` holds the tests.
