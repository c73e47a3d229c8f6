//! The binary tile payload, version 3.
//!
//! All integers are little-endian.
//!
//! | section            | size                       |
//! |--------------------|----------------------------|
//! | header             | 40 bytes                   |
//! | segment records    | segment count x 32 bytes   |
//! | geometry pool      | vertex count x 8 bytes     |
//! | node records       | node count x 28 bytes      |
//! | restrictions       | restriction count x 16     |
//! | cross restrictions | cross count x 16 bytes     |
//! | string pool        | pool length bytes          |
//!
//! Header: `OLRL` at 0, version at 4, then `u32` counts: segments at 8, nodes at
//! 12, restrictions at 16, vertices at 20, cross restrictions at 24, pool length
//! at 28.
//!
//! Segment record: start node `u32` at 0, end node `u32` at 4, geometry offset
//! `u32` at 8, vertex count `u16` at 12, length in centimetres `u32` at 14,
//! attributes at 18 (functional road class in bits 0-2, form of way in bits 3-5,
//! direction in bits 6-7), stable id offset `u32` at 20, its length at 24.
//!
//! Node record: longitude `i32` at 0, latitude `i32` at 4, stable id offset `u32`
//! at 8, its length at 12, flags at 24 (bit 0: the node's home is another tile).
//!
//! Restriction record: from segment `u32` at 0, via node `u32` at 4, to segment
//! `u32` at 8, flags at 12.
//!
//! Cross restriction record: from id offset `u32` at 0, its length at 4, via node
//! `u32` at 5, to id offset `u32` at 9, its length at 13, flags at 14.
use vstd::prelude::*;

use crate::bytes::{i32_at, u16_at, u32_at};
use crate::graph::Direction;
use crate::text::text_of;

verus! {

/// Why a tile payload could not be read.
#[derive(Debug)]
pub enum TileReadError {
    /// The payload does not start with `OLRL` but with these bytes.
    BadMagic([u8; 4]),
    /// The payload is of this version, not of version 3.
    UnsupportedVersion(u8),
    /// The payload holds fewer bytes than its header promises.
    TooShort { need: usize, have: usize },
    /// A segment's vertices reach past the geometry pool.
    GeomOutOfRange { offset: usize, len: usize, pool: usize },
    /// A segment has fewer than two vertices.
    GeomTooShort { index: usize, len: usize },
    /// A record names a node that the tile does not hold.
    NodeIndexOob(usize),
    /// A record names a segment that the tile does not hold.
    SegIndexOob(usize),
    /// A record names text that reaches past the string pool.
    PoolOutOfRange { offset: usize, len: usize, pool: usize },
    /// A record names bytes of the string pool that are not UTF-8.
    InvalidUtf8,
}

/// The counts in a payload's header.
pub struct TileHeader {
    pub segs: int,
    pub nodes: int,
    pub restrs: int,
    pub verts: int,
    pub xrestrs: int,
    pub pool: int,
}

impl TileHeader {
    pub open spec fn seg_off(self) -> int {
        40
    }

    pub open spec fn geom_off(self) -> int {
        self.seg_off() + 32 * self.segs
    }

    pub open spec fn node_off(self) -> int {
        self.geom_off() + 8 * self.verts
    }

    pub open spec fn restr_off(self) -> int {
        self.node_off() + 28 * self.nodes
    }

    pub open spec fn xrestr_off(self) -> int {
        self.restr_off() + 16 * self.restrs
    }

    pub open spec fn pool_off(self) -> int {
        self.xrestr_off() + 16 * self.xrestrs
    }

    /// The least number of bytes that holds every section.
    pub open spec fn min_len(self) -> int {
        self.pool_off() + self.pool
    }
}

/// The counts in the header of `b`.
pub open spec fn header_of(b: Seq<u8>) -> TileHeader {
    TileHeader {
        segs: u32_at(b, 8),
        nodes: u32_at(b, 12),
        restrs: u32_at(b, 16),
        verts: u32_at(b, 20),
        xrestrs: u32_at(b, 24),
        pool: u32_at(b, 28),
    }
}

/// The first four bytes of every payload: `OLRL`.
pub open spec fn magic() -> Seq<u8> {
    seq![0x4fu8, 0x4cu8, 0x52u8, 0x4cu8]
}

/// Whether `r` is what is wrong with `b` as a whole, if anything is.
pub open spec fn header_verdict(b: Seq<u8>, r: Option<TileReadError>) -> bool {
    let have = b.len() as usize;
    let need = header_of(b).min_len();
    if b.len() < 40 {
        r == Some(TileReadError::TooShort { need: 40, have })
    } else if b.take(4) != magic() {
        r matches Some(TileReadError::BadMagic(m)) && m@ == b.take(4)
    } else if b[4] != 3 {
        r == Some(TileReadError::UnsupportedVersion(b[4]))
    } else if need > usize::MAX {
        r == Some(TileReadError::TooShort { need: usize::MAX, have })
    } else if b.len() < need {
        r == Some(TileReadError::TooShort { need: need as usize, have })
    } else {
        r is None
    }
}

/// The text of `len` pool bytes at pool offset `off`.
pub open spec fn pool_text(b: Seq<u8>, h: TileHeader, off: int, len: int) -> Result<
    Seq<char>,
    TileReadError,
> {
    if off + len > h.pool {
        Err(
            TileReadError::PoolOutOfRange {
                offset: off as usize,
                len: len as usize,
                pool: h.pool as usize,
            },
        )
    } else {
        match text_of(b.subrange(h.pool_off() + off, h.pool_off() + off + len)) {
            Some(t) => Ok(t),
            None => Err(TileReadError::InvalidUtf8),
        }
    }
}

/// Vertex `k` of the geometry pool.
pub open spec fn vertex_at(b: Seq<u8>, h: TileHeader, k: int) -> (i32, i32) {
    let o = h.geom_off() + 8 * k;
    (i32_at(b, o) as i32, i32_at(b, o + 4) as i32)
}

/// What a node record says.
#[verifier::ext_equal]
pub struct NodeRec {
    pub lon: i32,
    pub lat: i32,
    pub stable_id: Seq<char>,
    pub is_boundary: bool,
}

/// What node record `i` says.
pub open spec fn node_rec(b: Seq<u8>, h: TileHeader, i: int) -> Result<NodeRec, TileReadError> {
    let o = h.node_off() + 28 * i;
    match pool_text(b, h, u32_at(b, o + 8), b[o + 12] as int) {
        Err(e) => Err(e),
        Ok(t) => Ok(
            NodeRec {
                lon: i32_at(b, o) as i32,
                lat: i32_at(b, o + 4) as i32,
                stable_id: t,
                is_boundary: b[o + 24] % 2 == 1,
            },
        ),
    }
}

/// What a segment record says.
#[verifier::ext_equal]
pub struct SegRec {
    pub start: int,
    pub end: int,
    pub geometry: Seq<(i32, i32)>,
    pub length_cm: u32,
    pub frc: u8,
    pub fow: u8,
    pub direction: Direction,
    pub stable_id: Seq<char>,
}

/// The direction that the two top attribute bits stand for.
pub open spec fn direction_of(bits: int) -> Direction {
    if bits == 1 {
        Direction::Forward
    } else if bits == 2 {
        Direction::Backward
    } else {
        Direction::Both
    }
}

/// What segment record `i` says.
pub open spec fn seg_rec(b: Seq<u8>, h: TileHeader, i: int) -> Result<SegRec, TileReadError> {
    let o = h.seg_off() + 32 * i;
    let start = u32_at(b, o);
    let end = u32_at(b, o + 4);
    let first = u32_at(b, o + 8);
    let len = u16_at(b, o + 12);
    let attrs = b[o + 18] as int;
    if start >= h.nodes {
        Err(TileReadError::NodeIndexOob(start as usize))
    } else if end >= h.nodes {
        Err(TileReadError::NodeIndexOob(end as usize))
    } else if first + len > h.verts {
        Err(
            TileReadError::GeomOutOfRange {
                offset: first as usize,
                len: len as usize,
                pool: h.verts as usize,
            },
        )
    } else if len < 2 {
        Err(TileReadError::GeomTooShort { index: i as usize, len: len as usize })
    } else {
        match pool_text(b, h, u32_at(b, o + 20), b[o + 24] as int) {
            Err(e) => Err(e),
            Ok(t) => Ok(
                SegRec {
                    start,
                    end,
                    geometry: Seq::new(len as nat, |k: int| vertex_at(b, h, first + k)),
                    length_cm: u32_at(b, o + 14) as u32,
                    frc: (attrs % 8) as u8,
                    fow: (attrs / 8 % 8) as u8,
                    direction: direction_of(attrs / 64),
                    stable_id: t,
                },
            ),
        }
    }
}

/// What a restriction record says, in local indices.
pub struct RestrRec {
    pub from: int,
    pub via: int,
    pub to: int,
}

/// What restriction record `i` says.
pub open spec fn restr_rec(b: Seq<u8>, h: TileHeader, i: int) -> Result<
    RestrRec,
    TileReadError,
> {
    let o = h.restr_off() + 16 * i;
    let from = u32_at(b, o);
    let via = u32_at(b, o + 4);
    let to = u32_at(b, o + 8);
    if from >= h.segs {
        Err(TileReadError::SegIndexOob(from as usize))
    } else if to >= h.segs {
        Err(TileReadError::SegIndexOob(to as usize))
    } else if via >= h.nodes {
        Err(TileReadError::NodeIndexOob(via as usize))
    } else {
        Ok(RestrRec { from, via, to })
    }
}

/// What a cross restriction record says.
#[verifier::ext_equal]
pub struct XRestrRec {
    pub from_id: Seq<char>,
    pub via: int,
    pub to_id: Seq<char>,
}

/// What cross restriction record `i` says.
pub open spec fn xrestr_rec(b: Seq<u8>, h: TileHeader, i: int) -> Result<
    XRestrRec,
    TileReadError,
> {
    let o = h.xrestr_off() + 16 * i;
    let via = u32_at(b, o + 5);
    if via >= h.nodes {
        Err(TileReadError::NodeIndexOob(via as usize))
    } else {
        match pool_text(b, h, u32_at(b, o), b[o + 4] as int) {
            Err(e) => Err(e),
            Ok(from_id) => match pool_text(b, h, u32_at(b, o + 9), b[o + 13] as int) {
                Err(e) => Err(e),
                Ok(to_id) => Ok(XRestrRec { from_id, via, to_id }),
            },
        }
    }
}

} // verus!
