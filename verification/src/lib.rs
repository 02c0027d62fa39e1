//! Health checking of Tor bridges: which bridges of a list answer a
//! handshake, which have failed, and how that changes over time.
//!
//! The engine is two tasks that talk through queues. The recovery prober
//! ([`recovery`]) keeps the bridges believed down and probes them again,
//! round after round, each round a pass of the probe executor ([`probe`]).
//! The liveness watcher ([`liveness`], [`transport`]) keeps the channels of
//! the bridges believed up and polls them. What the tasks wait for and send
//! is the caller's business; what they decide is decided here ([`queue`],
//! [`api`]), and [`invariants`] states what holds of the two together.
//!
//! Beside the engine stand the decisions of some smaller tools: a codec for
//! DNS over TCP ([`dns`]), the plan of a download in chunks ([`download`]),
//! the command line of a connection test ([`test_values`]) and the
//! bookkeeping of a proxy for a pluggable transport ([`pt_proxy`]).

pub mod api;
pub mod bridge_result;
pub mod dns;
pub mod download;
pub mod invariants;
pub mod line_map;
pub mod liveness;
pub mod numerals;
pub mod probe;
pub mod pt_proxy;
pub mod queue;
pub mod recovery;
pub mod test_values;
pub mod text;
pub mod timestamp;
pub mod transport;
pub mod vecs;
