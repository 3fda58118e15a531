//! The protocol's settings.
use vstd::prelude::*;

verus! {

/// The name of the broadcast algorithm in use.
pub const BROADCAST: &'static str = "AB";
/// How long the sender waits for an acknowledgement, in milliseconds.
pub const TIMEOUT_MS: u64 = 5;
/// How many timeouts in a row the sender accepts from a member not known alive.
pub const TIMEOUT_LIMIT: u32 = 10;
/// How long a receive waits for a message, in milliseconds.
pub const MESSAGE_TIMEOUT_MS: u64 = 1000;
/// How long a broadcaster waits for its broadcast to come back, in milliseconds.
pub const BROADCAST_TIMEOUT_MS: u64 = 500;
/// How many friends a message is gossiped to.
pub const GOSSIP_RATE: usize = 3;
/// The size of the go-back-N window.
pub const W_SIZE: usize = 5;
/// How long the failure detector waits between two rounds of heartbeats, in milliseconds.
pub const HEARTBEAT_INTERVAL_MS: u64 = 500;
/// How many rounds without a heartbeat make a member dead rather than suspect.
pub const HEARTBEAT_MISS_LIMIT: i32 = 3;

} // verus!
