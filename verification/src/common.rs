//! Sizes and limits shared by both ends of the protocol.

use crate::message::HEADER_LEN;
use vstd::prelude::*;

verus! {

/// Largest datagram either end sends or accepts, header included.
pub const MESSAGE_SIZE: usize = 400;

/// Largest number of content bytes one response carries.
pub const SLICE_SIZE: usize = MESSAGE_SIZE - HEADER_LEN;

/// Port used when an address names none.
pub const DEFAULT_PORT: u16 = 6677;

/// Seconds a client waits for an answer before it counts a timeout.
pub const RECEIVE_TIMEOUT_SECS: u64 = 2;

/// Seconds a client waits after a failed send before it sends again.
pub const SEND_BACKOFF_SECS: u64 = 3;

/// Number of receive timeouts after which a slice fetch is given up.
pub const MAX_TIMEOUTS: u8 = 3;

} // verus!
