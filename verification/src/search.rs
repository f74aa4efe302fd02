//! Search of an inverted-file index for the labels of the five vectors nearest
//! to a query.
use vstd::prelude::*;
use crate::format::{
    block_pair_offset, layout_for, rd_i16, rd_u32, rd_u64, IndexLayout, BLOCK, DIMS, MAGIC,
    PAIRS, VERSION,
};
use crate::image;
use crate::nearest;
use crate::{scalar, wide};

verus! {

// ---------------------------------------------------------------------------
// Rows of the index
// ---------------------------------------------------------------------------

pub open spec fn centroid_vector(raw: Seq<u8>, c: int) -> Seq<int> {
    Seq::new(14, |d: int| image::centroid_at(raw, c, d))
}

pub open spec fn bmin_vector(raw: Seq<u8>, c: int) -> Seq<int> {
    Seq::new(14, |d: int| image::bmin_at(raw, c, d))
}

pub open spec fn bmax_vector(raw: Seq<u8>, c: int) -> Seq<int> {
    Seq::new(14, |d: int| image::bmax_at(raw, c, d))
}

/// Squared distance between `q` and the bounding box of cluster `c`.
pub open spec fn cluster_bound(raw: Seq<u8>, q: Seq<i16>, c: int) -> int {
    nearest::box_distance(q, bmin_vector(raw, c), bmax_vector(raw, c))
}

/// Place of coordinate `d` of cluster `c` in the tables of cluster rows, which
/// hold eight clusters side by side as a block does.
pub open spec fn row_offset(c: int, d: int) -> int {
    (c / 8) * 112 + image::pair_offset(d, c % 8)
}

proof fn lemma_row_offset(c: int, d: int, groups: int)
    requires
        0 <= c < groups * 8,
        0 <= d < 14,
    ensures
        0 <= row_offset(c, d) < groups * 112,
{
}

proof fn lemma_row_offset_injective(c: int, d: int, c2: int, d2: int)
    requires
        0 <= c,
        0 <= d < 14,
        0 <= c2,
        0 <= d2 < 14,
        row_offset(c, d) == row_offset(c2, d2),
    ensures
        c == c2,
        d == d2,
{
    assert(row_offset(c, d) / 112 == c / 8);
    assert(row_offset(c2, d2) / 112 == c2 / 8);
    assert(image::pair_offset(d, c % 8) / 16 == d / 2);
    assert(image::pair_offset(d2, c2 % 8) / 16 == d2 / 2);
    assert(image::pair_offset(d, c % 8) % 2 == d % 2);
    assert(image::pair_offset(d2, c2 % 8) % 2 == d2 % 2);
}

/// Every block that cluster `c` claims lies inside the bytes.
pub open spec fn cluster_readable(raw: Seq<u8>, c: int) -> bool {
    image::count_at(raw, c) > 0 ==> image::blocks_section(image::clusters(raw), image::block_total(raw)) + (image::start_at(raw, c)
        + image::blocks_for(image::count_at(raw, c))) * 224 <= raw.len()
}

/// Every cluster can be scanned.
pub open spec fn is_searchable(raw: Seq<u8>) -> bool {
    forall|c: int| 0 <= c < image::clusters(raw) ==> #[trigger] cluster_readable(raw, c)
}

/// A search can be done: the blocks that it scans lie inside the bytes, and lanes
/// side by side have a cluster to begin with.
pub open spec fn can_search(
    raw: Seq<u8>,
    q: Seq<i16>,
    nprobe: int,
    lo: int,
    hi: int,
    wide: bool,
) -> bool {
    if wide {
        image::clusters(raw) > 0 && wide::kept_within(raw, q, nprobe, lo, hi)
    } else {
        scalar::kept_within(raw, q, nprobe, lo, hi)
    }
}

// ---------------------------------------------------------------------------
// The index
// ---------------------------------------------------------------------------

pub struct Index<'a> {
    pub raw: &'a [u8],
    pub k: usize,
    pub n: u32,
    pub total_blocks: usize,
    pub l: IndexLayout,
    /// Groups of eight clusters.
    pub n_groups: usize,
    /// Rows of centroids, eight clusters side by side.
    pub cpsoa: Vec<i16>,
    /// Rows of least coordinates, eight clusters side by side.
    pub bpsoa_min: Vec<i16>,
    /// Rows of greatest coordinates, eight clusters side by side.
    pub bpsoa_max: Vec<i16>,
}

impl<'a> View for Index<'a> {
    type V = Seq<u8>;

    open spec fn view(&self) -> Seq<u8> {
        self.raw@
    }
}

impl<'a> Index<'a> {
    /// The fields agree with the header.
    pub open spec fn header_agrees(&self) -> bool {
        &&& image::is_index(self@)
        &&& self.k == image::clusters(self@)
        &&& self.n == image::entries(self@)
        &&& self.total_blocks == image::block_total(self@)
        &&& self.l.is_for(self.k as int, self.total_blocks as int)
        &&& self.n_groups == (self.k + 7) / 8
        &&& self.cpsoa@.len() == self.n_groups * 112
        &&& self.bpsoa_min@.len() == self.n_groups * 112
        &&& self.bpsoa_max@.len() == self.n_groups * 112
    }

    /// Coordinate `d` of cluster `c` stands in the row tables.
    pub open spec fn in_tables(&self, c: int, d: int) -> bool {
        &&& self.cpsoa@[row_offset(c, d)] == image::centroid_at(self@, c, d)
        &&& self.bpsoa_min@[row_offset(c, d)] == image::bmin_at(self@, c, d)
        &&& self.bpsoa_max@[row_offset(c, d)] == image::bmax_at(self@, c, d)
    }

    /// The fields agree with the bytes.
    pub open spec fn wf(&self) -> bool {
        &&& self.header_agrees()
        &&& forall|c: int, d: int|
            0 <= c < self.k && 0 <= d < 14 ==> #[trigger] self.in_tables(c, d)
    }

    /// Reads an index out of its bytes.
    pub fn from_bytes(raw: &'a [u8]) -> (r: Option<Index<'a>>)
        ensures
            r is Some <==> image::is_index(raw@),
            r matches Some(index) ==> {
                &&& index.wf()
                &&& index@ == raw@
                &&& index.k == image::clusters(raw@)
                &&& index.n == image::entries(raw@)
                &&& index.total_blocks == image::block_total(raw@)
            },
    {
        if raw.len() < 64 {
            return None;
        }
        let magic = rd_u64(raw, 0);
        let version = rd_u32(raw, 8);
        let n = rd_u32(raw, 12);
        let k = rd_u32(raw, 16);
        let total_blocks = rd_u32(raw, 20);
        let block_size = rd_u32(raw, 24);
        let dims = rd_u32(raw, 28);
        if magic != MAGIC || version != VERSION || dims as usize != DIMS || block_size as usize
            != BLOCK {
            return None;
        }
        let needed: u64 = 68 + 92 * k as u64 + 232 * total_blocks as u64;
        if needed > raw.len() as u64 {
            return None;
        }
        let l = layout_for(k, total_blocks);
        let k = k as usize;
        let n_groups = (k + 7) / 8;
        let cells = n_groups * PAIRS * 16;
        let mut index = Index {
            raw,
            k,
            n,
            total_blocks: total_blocks as usize,
            l,
            n_groups,
            cpsoa: vec![0; cells],
            bpsoa_min: vec![0; cells],
            bpsoa_max: vec![0; cells],
        };
        index.build_soa();
        Some(index)
    }

    /// Fills the row tables from the bytes.
    fn build_soa(&mut self)
        requires
            old(self).header_agrees(),
        ensures
            final(self).wf(),
            final(self)@ == old(self)@,
            final(self).k == old(self).k,
            final(self).n == old(self).n,
            final(self).total_blocks == old(self).total_blocks,
    {
        let groups = self.n_groups;
        for g in 0..groups
            invariant
                groups == self.n_groups,
                self.header_agrees(),
                self@ == old(self)@,
                self.k == old(self).k,
                self.n == old(self).n,
                self.n_groups == old(self).n_groups,
                self.total_blocks == old(self).total_blocks,
                forall|c: int, d: int|
                    0 <= c < self.k && 0 <= d < 14 && c / 8 < g ==> #[trigger] self.in_tables(c, d),
        {
            self.fill_group(g);
        }
        assert forall|c: int, d: int| 0 <= c < self.k && 0 <= d < 14 implies #[trigger] self.in_tables(
            c,
            d,
        ) by {
            assert(c / 8 < self.n_groups);
        }
    }

    /// Copies the rows of the eight clusters of group `g` into the row tables.
    fn fill_group(&mut self, g: usize)
        requires
            old(self).header_agrees(),
            g < old(self).n_groups,
        ensures
            final(self).header_agrees(),
            final(self)@ == old(self)@,
            final(self).k == old(self).k,
            final(self).n == old(self).n,
            final(self).n_groups == old(self).n_groups,
            final(self).total_blocks == old(self).total_blocks,
            forall|c: int, d: int|
                0 <= c < old(self).k && 0 <= d < 14 && (c / 8 == g || old(self).in_tables(c, d))
                    ==> #[trigger] final(self).in_tables(c, d),
    {
        for p in 0..PAIRS
            invariant
                g < self.n_groups,
                self.header_agrees(),
                self@ == old(self)@,
                self.k == old(self).k,
                self.n == old(self).n,
                self.n_groups == old(self).n_groups,
                self.total_blocks == old(self).total_blocks,
                forall|c: int, d: int|
                    0 <= c < self.k && 0 <= d < 14 && (old(self).in_tables(c, d) || c / 8 == g && d
                        / 2 < p) ==> #[trigger] self.in_tables(c, d),
        {
            for lane in 0..8usize
                invariant
                    g < self.n_groups,
                    p < PAIRS,
                    self.header_agrees(),
                    self@ == old(self)@,
                    self.k == old(self).k,
                    self.n == old(self).n,
                    self.n_groups == old(self).n_groups,
                    self.total_blocks == old(self).total_blocks,
                    forall|c: int, d: int|
                        0 <= c < self.k && 0 <= d < 14 && (old(self).in_tables(c, d) || c / 8 == g
                            && (d / 2 < p || d / 2 == p && c % 8 < lane))
                            ==> #[trigger] self.in_tables(c, d),
            {
                let c = g * 8 + lane;
                if c < self.k {
                    self.fill_row(c, p * 2);
                    self.fill_row(c, p * 2 + 1);
                }
            }
        }
    }

    /// Copies coordinate `d` of cluster `c` into the row tables.
    fn fill_row(&mut self, c: usize, d: usize)
        requires
            old(self).header_agrees(),
            c < old(self).k,
            d < 14,
        ensures
            final(self).header_agrees(),
            final(self)@ == old(self)@,
            final(self).k == old(self).k,
            final(self).n == old(self).n,
            final(self).n_groups == old(self).n_groups,
            final(self).total_blocks == old(self).total_blocks,
            final(self).in_tables(c as int, d as int),
            forall|c2: int, d2: int|
                0 <= c2 < old(self).k && 0 <= d2 < 14 && old(self).in_tables(c2, d2)
                    ==> #[trigger] final(self).in_tables(c2, d2),
    {
        proof {
            lemma_row_offset(c as int, d as int, self.n_groups as int);
            assert forall|c2: int, d2: int| 0 <= c2 < self.k && 0 <= d2 < 14 && (c2 != c || d2
                != d) implies #[trigger] row_offset(c2, d2) != row_offset(c as int, d as int) by {
                if row_offset(c2, d2) == row_offset(c as int, d as int) {
                    lemma_row_offset_injective(c2, d2, c as int, d as int);
                }
            }
            assert forall|c2: int, d2: int| 0 <= c2 < self.k && 0 <= d2 < 14 implies 0
                <= #[trigger] row_offset(c2, d2) < self.n_groups * 112 by {
                lemma_row_offset(c2, d2, self.n_groups as int);
            }
        }
        let i = (c / 8) * PAIRS * 16 + block_pair_offset(d, c % 8);
        let centroid = self.centroid(c, d);
        let bmin = self.bmin(c, d);
        let bmax = self.bmax(c, d);
        self.cpsoa.set(i, centroid);
        self.bpsoa_min.set(i, bmin);
        self.bpsoa_max.set(i, bmax);
    }

    pub(crate) fn centroid(&self, c: usize, d: usize) -> (r: i16)
        requires
            self.header_agrees(),
            c < self.k,
            d < 14,
        ensures
            r == image::centroid_at(self@, c as int, d as int),
    {
        rd_i16(self.raw, self.l.centroids + (c * DIMS + d) * 2)
    }

    pub(crate) fn bmin(&self, c: usize, d: usize) -> (r: i16)
        requires
            self.header_agrees(),
            c < self.k,
            d < 14,
        ensures
            r == image::bmin_at(self@, c as int, d as int),
    {
        rd_i16(self.raw, self.l.bbox_min + (c * DIMS + d) * 2)
    }

    pub(crate) fn bmax(&self, c: usize, d: usize) -> (r: i16)
        requires
            self.header_agrees(),
            c < self.k,
            d < 14,
        ensures
            r == image::bmax_at(self@, c as int, d as int),
    {
        rd_i16(self.raw, self.l.bbox_max + (c * DIMS + d) * 2)
    }

    pub(crate) fn block_start(&self, c: usize) -> (r: u32)
        requires
            self.header_agrees(),
            c < self.k,
        ensures
            r == image::start_at(self@, c as int),
    {
        rd_u32(self.raw, self.l.offsets + c * 4)
    }

    pub(crate) fn count(&self, c: usize) -> (r: u32)
        requires
            self.header_agrees(),
            c < self.k,
        ensures
            r == image::count_at(self@, c as int),
    {
        rd_u32(self.raw, self.l.counts + c * 4)
    }

    pub(crate) fn block_val(&self, block_id: usize, idx: usize) -> (r: i16)
        requires
            self.header_agrees(),
            idx < 112,
            self.l.blocks + (block_id + 1) * 224 <= self@.len(),
        ensures
            r == image::cell_at(self@, block_id as int, idx as int),
    {
        let bytes = self.raw.len();
        assert(block_id * 112 <= block_id * 224 <= bytes);
        rd_i16(self.raw, self.l.blocks + (block_id * DIMS * BLOCK + idx) * 2)
    }

    pub(crate) fn label(&self, block_id: usize, lane: usize) -> (r: u8)
        requires
            self.header_agrees(),
            lane < 8,
            self.l.blocks + (block_id + 1) * 224 <= self@.len(),
        ensures
            r == image::label_at(self@, block_id as int, lane as int),
    {
        let bytes = self.raw.len();
        assert(block_id * 8 <= block_id * 224 <= bytes);
        self.raw[self.l.labels + block_id * BLOCK + lane]
    }

    /// Whether the blocks of cluster `c` lie inside the bytes.
    pub(crate) fn is_readable(&self, c: usize) -> (r: bool)
        requires
            self.wf(),
            c < self.k,
        ensures
            r == cluster_readable(self@, c as int),
    {
        let cnt = self.count(c);
        if cnt == 0 {
            return true;
        }
        let start = self.block_start(c);
        let blocks: u64 = start as u64 + (cnt as u64 + 7) / 8;
        if self.l.blocks as u64 + blocks * 224 > self.raw.len() as u64 {
            return false;
        }
        true
    }

    /// Sum of the labels of the vectors nearest to `q`: eight lanes at a time
    /// if `wide`, one vector at a time if not. There is none where the search
    /// cannot be done.
    pub fn try_search(
        &self,
        q: &[i16; DIMS],
        nprobe: usize,
        repair_min: u8,
        repair_max: u8,
        wide: bool,
    ) -> (r: Option<u8>)
        requires
            self.wf(),
        ensures
            r is Some == can_search(
                self@,
                q@,
                nprobe as int,
                repair_min as int,
                repair_max as int,
                wide,
            ),
            r matches Some(x) ==> {
                &&& wide ==> x == scalar::tag_sum(
                    wide::kept(self@, q@, nprobe as int, repair_min as int, repair_max as int),
                )
                &&& !wide ==> x == scalar::tag_sum(
                    scalar::kept(self@, q@, nprobe as int, repair_min as int, repair_max as int),
                )
            },
    {
        if wide {
            if self.k == 0 {
                return None;
            }
            self.try_search_avx2(q, nprobe, repair_min, repair_max)
        } else {
            self.try_search_scalar(q, nprobe, repair_min, repair_max)
        }
    }

    /// Sum of the labels of the vectors nearest to `q`: eight lanes at a time
    /// if `wide`, one vector at a time if not.
    pub fn search(
        &self,
        q: &[i16; DIMS],
        nprobe: usize,
        repair_min: u8,
        repair_max: u8,
        wide: bool,
    ) -> (r: u8)
        requires
            self.wf(),
            can_search(
                self@,
                q@,
                nprobe as int,
                repair_min as int,
                repair_max as int,
                wide,
            ),
        ensures
            wide ==> r == scalar::tag_sum(
                wide::kept(self@, q@, nprobe as int, repair_min as int, repair_max as int),
            ),
            !wide ==> r == scalar::tag_sum(
                scalar::kept(self@, q@, nprobe as int, repair_min as int, repair_max as int),
            ),
    {
        if wide {
            self.search_avx2(q, nprobe, repair_min, repair_max)
        } else {
            self.search_scalar(q, nprobe, repair_min, repair_max)
        }
    }
}

} // verus!
