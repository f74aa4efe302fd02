//! Where things stand in the bytes of an index.
use vstd::prelude::*;
use vstd::string::*;
use crate::format::{HEADER, MAGIC};
use crate::image;
use crate::search;

verus! {

/// The sections follow one another without a gap: behind the header fourteen
/// coordinates of two bytes for each centroid, then as many for each lower and
/// each upper corner of a box, a first block of four bytes for each cluster and
/// one more, a count of four bytes for each cluster, eight labels for each
/// block, and then the blocks, each of eight vectors.
pub proof fn law_sections_adjoin(k: int, blocks: int)
    ensures
        HEADER == 64,
        image::bbox_min_section(k) == HEADER + k * 14 * 2,
        image::bbox_max_section(k) == image::bbox_min_section(k) + k * 14 * 2,
        image::offsets_section(k) == image::bbox_max_section(k) + k * 14 * 2,
        image::counts_section(k) == image::offsets_section(k) + (k + 1) * 4,
        image::labels_section(k) == image::counts_section(k) + k * 4,
        image::blocks_section(k, blocks) == image::labels_section(k) + blocks * 8,
        image::index_length(k, blocks) == image::blocks_section(k, blocks) + blocks * 8 * 14 * 2,
{
}

/// Rows and entries follow one another inside their sections.
pub proof fn law_rows_adjoin(raw: Seq<u8>, c: int, d: int)
    ensures
        ({
            let k = image::clusters(raw);
            &&& image::centroid_at(raw, c, d) == image::i16_at(raw, HEADER + 28 * c + 2 * d)
            &&& image::bmin_at(raw, c, d) == image::i16_at(
                raw,
                image::bbox_min_section(k) + 28 * c + 2 * d,
            )
            &&& image::bmax_at(raw, c, d) == image::i16_at(
                raw,
                image::bbox_max_section(k) + 28 * c + 2 * d,
            )
            &&& image::start_at(raw, c) == image::le32(raw, image::offsets_section(k) + 4 * c)
            &&& image::count_at(raw, c) == image::le32(raw, image::counts_section(k) + 4 * c)
        }),
{
    assert((c * 14 + d) * 2 == 28 * c + 2 * d);
}

/// The vector at position `pos` of a cluster is in lane `pos % 8` of the block
/// that lies `pos / 8` behind the first, and so is its label. In a block the
/// two coordinates of a pair stand side by side, lane by lane.
pub proof fn law_blocks_hold_lanes(raw: Seq<u8>, c: int, block: int, lane: int, d: int)
    requires
        0 <= block,
        0 <= lane < 8,
        0 <= d < 14,
    ensures
        ({
            let (k, all) = (image::clusters(raw), image::block_total(raw));
            let b = image::start_at(raw, c) + block;
            let pos = 8 * block + lane;
            &&& image::stored_label(raw, c, pos) == raw[image::labels_section(k) + 8 * b + lane]
            &&& image::stored_vector(raw, c, pos).len() == 14
            &&& image::stored_vector(raw, c, pos)[d] == image::i16_at(
                raw,
                image::blocks_section(k, all) + 224 * b + 32 * (d / 2) + 4 * lane + 2 * (d % 2),
            )
        }),
{
    let pos = 8 * block + lane;
    assert(pos / 8 == block && pos % 8 == lane);
}

/// The cells of a block are all in use, each by one coordinate of one lane.
pub proof fn law_cells_are_shared_out(cell: int, d: int, lane: int, e: int, other: int)
    requires
        0 <= cell < 112,
        0 <= d < 14,
        0 <= lane < 8,
        0 <= e < 14,
        0 <= other < 8,
    ensures
        0 <= image::pair_offset(d, lane) < 112,
        image::pair_offset(d, lane) == image::pair_offset(e, other) ==> d == e && lane == other,
        image::pair_offset(2 * (cell / 16) + cell % 2, cell % 16 / 2) == cell,
{
    let (x, y) = (image::pair_offset(d, lane), image::pair_offset(e, other));
    assert(x / 16 == d / 2 && x % 2 == d % 2);
    assert(y / 16 == e / 2 && y % 2 == e % 2);
    let f = 2 * (cell / 16) + cell % 2;
    assert(f / 2 == cell / 16 && f % 2 == cell % 2);
}

/// Numbers are written with the low byte first, negative ones as two's
/// complements.
pub proof fn law_numbers_are_little_endian(raw: Seq<u8>, off: int, x: int)
    ensures
        0 <= x < 0x1_0000 && raw[off] == x % 0x100 && raw[off + 1] == x / 0x100 ==> image::le16(
            raw,
            off,
        ) == x,
        0 <= x < 0x1_0000_0000 && raw[off] == x % 0x100 && raw[off + 1] == x / 0x100 % 0x100
            && raw[off + 2] == x / 0x1_0000 % 0x100 && raw[off + 3] == x / 0x100_0000
            ==> image::le32(raw, off) == x,
        0 <= x < 0x1_0000_0000_0000_0000 && image::le32(raw, off) == x % 0x1_0000_0000
            && image::le32(raw, off + 4) == x / 0x1_0000_0000 ==> image::le64(raw, off) == x,
        0 <= x < 0x8000 && image::le16(raw, off) == x ==> image::i16_at(raw, off) == x,
        -0x8000 <= x < 0 && image::le16(raw, off) == 0x1_0000 + x ==> image::i16_at(raw, off) == x,
{
}

/// An index begins with `RH26ZERO`.
#[verifier::spinoff_prover]
pub proof fn law_magic_is_name(raw: Seq<u8>)
    requires
        raw.len() >= 8,
    ensures
        image::le64(raw, 0) == MAGIC <==> "RH26ZERO".spec_bytes().is_prefix_of(raw),
{
    reveal_strlit("RH26ZERO");
    is_ascii_spec_bytes("RH26ZERO");
    let w = "RH26ZERO".spec_bytes();
    assert(w =~= seq![0x52u8, 0x48, 0x32, 0x36, 0x5a, 0x45, 0x52, 0x4f]);
    if image::le64(raw, 0) == MAGIC {
        assert(raw[0] == 0x52 && raw[1] == 0x48 && raw[2] == 0x32 && raw[3] == 0x36);
        assert(raw[4] == 0x5a && raw[5] == 0x45 && raw[6] == 0x52 && raw[7] == 0x4f);
        assert(w =~= raw.take(8));
    }
    if w.is_prefix_of(raw) {
        assert(w =~= raw.take(8));
        assert forall|i: int| 0 <= i < 8 implies raw[i] == #[trigger] w[i] by {
            assert(raw.take(8)[i] == w[i]);
        }
        assert(raw[0] == w[0] && raw[1] == w[1] && raw[2] == w[2] && raw[3] == w[3]);
        assert(raw[4] == w[4] && raw[5] == w[5] && raw[6] == w[6] && raw[7] == w[7]);
    }
}

/// Bytes are an index if and only if they begin with its name, in the first
/// version, with blocks of eight vectors of fourteen dimensions, and if all of
/// the sections that the header speaks of are there.
pub proof fn law_index_is_told_by_header(raw: Seq<u8>)
    requires
        raw.len() >= 64,
    ensures
        ({
            let (k, blocks) = (image::le32(raw, 16), image::le32(raw, 20));
            image::is_index(raw) <==> {
                &&& "RH26ZERO".spec_bytes().is_prefix_of(raw)
                &&& image::le32(raw, 8) == 1
                &&& image::le32(raw, 24) == 8
                &&& image::le32(raw, 28) == 14
                &&& raw.len() >= 64 + 3 * (28 * k) + 4 * (k + 1) + 4 * k + 8 * blocks + 224 * blocks
            }
        }),
        image::clusters(raw) == image::le32(raw, 16),
        image::block_total(raw) == image::le32(raw, 20),
        image::entries(raw) == image::le32(raw, 12),
{
    law_magic_is_name(raw);
}

/// Blocks of eight for a number of vectors: enough, and none without a vector.
pub proof fn law_blocks_are_enough(count: int)
    requires
        count >= 0,
    ensures
        8 * image::blocks_for(count) >= count,
        8 * image::blocks_for(count) < count + 8,
        image::blocks_for(0) == 0,
{
}

/// A cluster can be read if its blocks are among those that the header speaks
/// of, and if it is empty. One that can be read and is not empty ends before the
/// bytes do.
pub proof fn law_clusters_are_readable(raw: Seq<u8>, c: int)
    requires
        image::is_index(raw),
    ensures
        image::start_at(raw, c) + image::blocks_for(image::count_at(raw, c)) <= image::block_total(
            raw,
        ) ==> search::cluster_readable(raw, c),
        image::count_at(raw, c) == 0 ==> search::cluster_readable(raw, c),
        search::cluster_readable(raw, c) && image::count_at(raw, c) > 0 ==> image::blocks_section(
            image::clusters(raw),
            image::block_total(raw),
        ) + 224 * (image::start_at(raw, c) + image::blocks_for(image::count_at(raw, c)))
            <= raw.len(),
{
}

} // verus!
