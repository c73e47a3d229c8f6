//! Questions to a path search, and its answers.
use vstd::prelude::*;

use crate::graph::{NodeId, SegmentId, TileKey};

verus! {

/// The least important road class: a search that allows it allows every class.
pub const ANY_FRC: u8 = 7;

/// Half a turn, in millionths of a degree: a limit that forbids no turn.
pub const ANY_TURN: u32 = 180_000_000;

/// What a shortest-path search is asked.
#[derive(Debug, Clone, Copy, PartialEq, Eq, Structural)]
pub struct PathQuery {
    pub from_node: NodeId,
    /// The segment by which `from_node` was reached: the search does not turn back
    /// into it, and measures the first turn against it.
    pub from_seg: SegmentId,
    pub to_node: NodeId,
    /// The least important road class that the path may use.
    pub lowest_frc: u8,
    /// The sharpest turn that the path may take, in millionths of a degree.
    pub max_turn_microdeg: u32,
    /// How many classes below `lowest_frc` are let through.
    pub frc_tolerance: u8,
    pub zoom: u8,
}

/// The question for a path on roads of every class.
pub open spec fn any_road(
    from_node: NodeId,
    from_seg: SegmentId,
    to_node: NodeId,
    max_turn_microdeg: u32,
    zoom: u8,
) -> PathQuery {
    PathQuery {
        from_node,
        from_seg,
        to_node,
        lowest_frc: ANY_FRC,
        max_turn_microdeg,
        frc_tolerance: 0,
        zoom,
    }
}

/// The question for a path on roads of every class.
pub fn query(
    from_node: NodeId,
    from_seg: SegmentId,
    to_node: NodeId,
    max_turn_microdeg: u32,
    zoom: u8,
) -> (q: PathQuery)
    ensures
        q == any_road(from_node, from_seg, to_node, max_turn_microdeg, zoom),
{
    PathQuery {
        from_node,
        from_seg,
        to_node,
        lowest_frc: ANY_FRC,
        max_turn_microdeg,
        frc_tolerance: 0,
        zoom,
    }
}

/// A path that was found.
#[derive(Debug, Clone)]
pub struct PathResult {
    pub segments: Vec<SegmentId>,
    pub length_cm: i64,
}

/// The answer of a path search.
#[derive(Debug, Clone)]
pub enum PathOutcome {
    Found(PathResult),
    /// The search came to the border of a tile that is not loaded.
    NeedsTile(TileKey),
    NoPath,
}

/// What a `PathOutcome` says.
#[verifier::ext_equal]
pub enum PathModel {
    Found { segments: Seq<SegmentId>, length_cm: i64 },
    NeedsTile(TileKey),
    NoPath,
}

impl View for PathOutcome {
    type V = PathModel;

    open spec fn view(&self) -> PathModel {
        match self {
            PathOutcome::Found(r) => PathModel::Found {
                segments: r.segments@,
                length_cm: r.length_cm,
            },
            PathOutcome::NeedsTile(k) => PathModel::NeedsTile(*k),
            PathOutcome::NoPath => PathModel::NoPath,
        }
    }
}

} // verus!
