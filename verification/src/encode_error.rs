//! Why a location cannot be encoded.
use vstd::prelude::*;

use crate::graph::{NodeId, SegmentId};

verus! {

/// Why a location cannot be encoded.
#[derive(Debug, Clone, Copy, PartialEq, Eq, Structural)]
pub enum EncodeError {
    /// There is nothing to encode.
    EmptyPath,
    /// The path from the segment at `index` on is not connected.
    Disconnected { index: usize },
    UnknownSegment(SegmentId),
    UnknownNode(NodeId),
    /// No route reproduces the path.
    NoRoute,
    /// No leg can be as short as asked for.
    LegTooLong { length_cm: u128, max_leg_cm: i64 },
    /// An offset reaches beyond the leg that it trims.
    OffsetExceedsLeg { offset_cm: i128, leg_cm: i64 },
}

} // verus!
