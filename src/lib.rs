//! A versioned bitset replicated to many subscribers as a stream of
//! keyframes (full snapshots) and deltaframes (lists of changed bits).

pub mod bits;
pub mod codec;
pub mod frame;
pub mod hub;
pub mod ingress;
pub mod publisher;
pub mod session;
pub mod state;

use vstd::prelude::*;

verus! {

/// Default number of bits in the published bitset.
pub const STATE_SIZE: usize = 1_000_000;

/// Default keyframe period: every version divisible by it is a keyframe.
pub const I_FRAME_INTERVAL: usize = 100;

/// Default number of frames kept for catch-up.
pub const FRAME_BUFFER_SIZE: usize = 1000;

/// Default upper bound on the length of a catch-up replay.
pub const MAX_CATCHUP_FRAMES: usize = 500;

/// Default bound on the frames queued for one subscriber.
pub const SUBSCRIBER_QUEUE_SIZE: usize = 100;

} // verus!
