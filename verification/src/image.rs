//! What the bytes of an index say: the numbers in them, where each section
//! stands, and what it holds.
use vstd::prelude::*;
use crate::format::{BLOCK, DIMS, MAGIC, VERSION};

verus! {

// ---------------------------------------------------------------------------
// Little-endian numbers
// ---------------------------------------------------------------------------

pub open spec fn le16(s: Seq<u8>, off: int) -> int {
    s[off] + 0x100 * s[off + 1]
}

pub open spec fn le32(s: Seq<u8>, off: int) -> int {
    le16(s, off) + 0x1_0000 * le16(s, off + 2)
}

pub open spec fn le64(s: Seq<u8>, off: int) -> int {
    le32(s, off) + 0x1_0000_0000 * le32(s, off + 4)
}

/// Two's complement reading of the two bytes at `off`.
pub open spec fn i16_at(s: Seq<u8>, off: int) -> int {
    if le16(s, off) < 0x8000 {
        le16(s, off)
    } else {
        le16(s, off) - 0x1_0000
    }
}

// ---------------------------------------------------------------------------
// Sections
// ---------------------------------------------------------------------------

pub open spec fn bbox_min_section(k: int) -> int {
    64 + 28 * k
}

pub open spec fn bbox_max_section(k: int) -> int {
    64 + 56 * k
}

pub open spec fn offsets_section(k: int) -> int {
    64 + 84 * k
}

pub open spec fn counts_section(k: int) -> int {
    68 + 88 * k
}

pub open spec fn labels_section(k: int) -> int {
    68 + 92 * k
}

pub open spec fn blocks_section(k: int, total_blocks: int) -> int {
    68 + 92 * k + 8 * total_blocks
}

/// Length in bytes of an index of `k` clusters and `total_blocks` blocks.
pub open spec fn index_length(k: int, total_blocks: int) -> int {
    68 + 92 * k + 232 * total_blocks
}

/// Place of coordinate `d` of lane `lane` inside a block, in `i16` cells.
pub open spec fn pair_offset(d: int, lane: int) -> int {
    (d / 2) * 16 + lane * 2 + d % 2
}

// ---------------------------------------------------------------------------
// Contents
// ---------------------------------------------------------------------------

/// Number of vectors that the header declares.
pub open spec fn entries(raw: Seq<u8>) -> int {
    le32(raw, 12)
}

/// Number of clusters.
pub open spec fn clusters(raw: Seq<u8>) -> int {
    le32(raw, 16)
}

/// Number of blocks.
pub open spec fn block_total(raw: Seq<u8>) -> int {
    le32(raw, 20)
}

/// The bytes start with the header of an index, and hold all of its sections.
pub open spec fn is_index(raw: Seq<u8>) -> bool {
    &&& raw.len() >= 64
    &&& le64(raw, 0) == MAGIC
    &&& le32(raw, 8) == VERSION
    &&& le32(raw, 24) == BLOCK
    &&& le32(raw, 28) == DIMS
    &&& index_length(clusters(raw), block_total(raw)) <= raw.len()
}

/// Coordinate `d` of the centroid of cluster `c`.
pub open spec fn centroid_at(raw: Seq<u8>, c: int, d: int) -> int {
    i16_at(raw, 64 + (c * 14 + d) * 2)
}

/// Least coordinate `d` in the bounding box of cluster `c`.
pub open spec fn bmin_at(raw: Seq<u8>, c: int, d: int) -> int {
    i16_at(raw, bbox_min_section(clusters(raw)) + (c * 14 + d) * 2)
}

/// Greatest coordinate `d` in the bounding box of cluster `c`.
pub open spec fn bmax_at(raw: Seq<u8>, c: int, d: int) -> int {
    i16_at(raw, bbox_max_section(clusters(raw)) + (c * 14 + d) * 2)
}

/// First block of cluster `c`.
pub open spec fn start_at(raw: Seq<u8>, c: int) -> int {
    le32(raw, offsets_section(clusters(raw)) + c * 4)
}

/// Number of vectors in cluster `c`.
pub open spec fn count_at(raw: Seq<u8>, c: int) -> int {
    le32(raw, counts_section(clusters(raw)) + c * 4)
}

/// Cell `idx` of block `b`.
pub open spec fn cell_at(raw: Seq<u8>, b: int, idx: int) -> int {
    i16_at(raw, blocks_section(clusters(raw), block_total(raw)) + (b * 112 + idx) * 2)
}

/// Label of lane `lane` of block `b`.
pub open spec fn label_at(raw: Seq<u8>, b: int, lane: int) -> int {
    raw[labels_section(clusters(raw)) + b * 8 + lane] as int
}

/// Coordinates of lane `lane` of block `b`.
pub open spec fn lane_vector(raw: Seq<u8>, b: int, lane: int) -> Seq<int> {
    Seq::new(14, |d: int| cell_at(raw, b, pair_offset(d, lane)))
}

/// The vector at position `pos` of cluster `c`.
pub open spec fn stored_vector(raw: Seq<u8>, c: int, pos: int) -> Seq<int> {
    lane_vector(raw, start_at(raw, c) + pos / 8, pos % 8)
}

/// The label of the vector at position `pos` of cluster `c`.
pub open spec fn stored_label(raw: Seq<u8>, c: int, pos: int) -> int {
    label_at(raw, start_at(raw, c) + pos / 8, pos % 8)
}

/// Number of blocks that `count` vectors take.
pub open spec fn blocks_for(count: int) -> int {
    (count + 7) / 8
}

} // verus!
