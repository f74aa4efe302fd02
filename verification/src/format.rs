//! On-disk format of the inverted-file index.
//!
//! ```text
//! header 64 | centroids | box minima | box maxima | block offsets | counts | labels | blocks
//! ```
//!
//! All numbers are little-endian. A block holds eight vectors, its coordinates
//! in pairs: the two coordinates of a pair stand side by side, lane by lane.
use vstd::prelude::*;
use crate::encode::put_u32s;
use crate::image;

verus! {

pub const DIMS: usize = 14;

pub const BLOCK: usize = 8;

pub const PAIRS: usize = 7;

/// The bytes `RH26ZERO`, read as a little-endian number.
pub const MAGIC: u64 = 0x4F52_455A_3632_4852;

pub const VERSION: u32 = 1;

/// Length of the header in bytes.
pub const HEADER: usize = 64;

#[derive(Clone, Copy, Debug)]
pub struct IndexHeader {
    pub magic: u64,
    pub version: u32,
    pub n: u32,
    pub k: u32,
    pub total_blocks: u32,
    pub block_size: u32,
    pub dims: u32,
    pub reserved: [u32; 8],
}

impl IndexHeader {
    /// The bytes begin with this header.
    pub open spec fn is_at_start(self, raw: Seq<u8>) -> bool {
        &&& raw.len() >= 64
        &&& image::le64(raw, 0) == self.magic
        &&& image::le32(raw, 8) == self.version
        &&& image::le32(raw, 12) == self.n
        &&& image::le32(raw, 16) == self.k
        &&& image::le32(raw, 20) == self.total_blocks
        &&& image::le32(raw, 24) == self.block_size
        &&& image::le32(raw, 28) == self.dims
        &&& forall|i: int|
            0 <= i < 8 ==> image::le32(raw, 32 + 4 * i) == #[trigger] self.reserved[i]
    }

    /// The bytes of this header.
    pub fn to_bytes(&self) -> (r: Vec<u8>)
        ensures
            r@.len() == 64,
            self.is_at_start(r@),
    {
        let mut words: Vec<u32> = Vec::new();
        words.push((self.magic % 0x1_0000_0000) as u32);
        words.push((self.magic / 0x1_0000_0000) as u32);
        words.push(self.version);
        words.push(self.n);
        words.push(self.k);
        words.push(self.total_blocks);
        words.push(self.block_size);
        words.push(self.dims);
        for i in 0..8usize
            invariant
                words@.len() == 8 + i,
                words@[0] == self.magic % 0x1_0000_0000,
                words@[1] == self.magic / 0x1_0000_0000,
                words@[2] == self.version,
                words@[3] == self.n,
                words@[4] == self.k,
                words@[5] == self.total_blocks,
                words@[6] == self.block_size,
                words@[7] == self.dims,
                forall|j: int| 0 <= j < i ==> words@[8 + j] == #[trigger] self.reserved[j],
        {
            words.push(self.reserved[i]);
        }
        let mut out: Vec<u8> = Vec::new();
        put_u32s(&mut out, &words);
        proof {
            assert(image::le32(out@, 0) == words@[0]);
            assert(image::le32(out@, 4) == words@[1]);
            assert(image::le32(out@, 8) == words@[2]);
            assert(image::le32(out@, 12) == words@[3]);
            assert(image::le32(out@, 16) == words@[4]);
            assert(image::le32(out@, 20) == words@[5]);
            assert(image::le32(out@, 24) == words@[6]);
            assert(image::le32(out@, 28) == words@[7]);
            assert forall|i: int| 0 <= i < 8 implies image::le32(out@, 32 + 4 * i)
                == #[trigger] self.reserved[i] by {
                assert(image::le32(out@, 4 * (8 + i)) == words@[8 + i]);
            }
        }
        out
    }
}

/// Byte offset of each section, and the length of the whole file.
#[derive(Clone, Copy, Debug, Default)]
pub struct IndexLayout {
    pub centroids: usize,
    pub bbox_min: usize,
    pub bbox_max: usize,
    pub offsets: usize,
    pub counts: usize,
    pub labels: usize,
    pub blocks: usize,
    pub total: usize,
}

// ---------------------------------------------------------------------------
// Little-endian numbers
// ---------------------------------------------------------------------------

pub(crate) fn rd_i16(raw: &[u8], off: usize) -> (r: i16)
    requires
        off + 2 <= raw.len(),
    ensures
        r == image::i16_at(raw@, off as int),
{
    let u: i32 = raw[off] as i32 + 0x100 * raw[off + 1] as i32;
    if u < 0x8000 {
        u as i16
    } else {
        (u - 0x1_0000) as i16
    }
}

pub(crate) fn rd_u32(raw: &[u8], off: usize) -> (r: u32)
    requires
        off + 4 <= raw.len(),
    ensures
        r == image::le32(raw@, off as int),
{
    raw[off] as u32 + 0x100 * raw[off + 1] as u32 + 0x1_0000 * (raw[off + 2] as u32 + 0x100
        * raw[off + 3] as u32)
}

pub(crate) fn rd_u64(raw: &[u8], off: usize) -> (r: u64)
    requires
        off + 8 <= raw.len(),
    ensures
        r == image::le64(raw@, off as int),
{
    rd_u32(raw, off) as u64 + 0x1_0000_0000 * rd_u32(raw, off + 4) as u64
}

// ---------------------------------------------------------------------------
// Sections
// ---------------------------------------------------------------------------

impl IndexLayout {
    /// The sections of an index of `k` clusters and `total_blocks` blocks.
    pub open spec fn is_for(self, k: int, total_blocks: int) -> bool {
        &&& self.centroids == 64
        &&& self.bbox_min == image::bbox_min_section(k)
        &&& self.bbox_max == image::bbox_max_section(k)
        &&& self.offsets == image::offsets_section(k)
        &&& self.counts == image::counts_section(k)
        &&& self.labels == image::labels_section(k)
        &&& self.blocks == image::blocks_section(k, total_blocks)
        &&& self.total == image::index_length(k, total_blocks)
    }
}

/// Rounds `v` up to a multiple of `a`, a power of two.
pub(crate) fn align_up(v: usize, a: usize) -> (r: usize)
    requires
        exists|s: nat| s < usize::BITS && a == #[trigger] vstd::arithmetic::power2::pow2(s),
        v + a - 1 <= usize::MAX,
    ensures
        r as int % a as int == 0,
        v <= r < v + a,
{
    let ghost s = choose|s: nat| s < usize::BITS && a == #[trigger] vstd::arithmetic::power2::pow2(s);
    proof {
        vstd::arithmetic::power2::lemma_pow2_pos(s);
    }
    let x = v + (a - 1);
    let m = a - 1;
    proof {
        vstd::bits::lemma_usize_low_bits_mask_is_mod(x, s);
        assert(vstd::bits::low_bits_mask(s) == m);
        assert(x & !m == x - (x & m) && x & m <= x) by (bit_vector);
        vstd::arithmetic::div_mod::lemma_fundamental_div_mod(x as int, a as int);
        vstd::arithmetic::div_mod::lemma_mod_multiples_basic(x as int / a as int, a as int);
        vstd::arithmetic::mul::lemma_mul_is_commutative(x as int / a as int, a as int);
        vstd::arithmetic::div_mod::lemma_mod_bound(x as int, a as int);
    }
    x & !m
}

/// Nothing is added to what is aligned.
proof fn lemma_aligned(v: int, a: int, r: int)
    requires
        a > 0,
        v % a == 0,
        r % a == 0,
        v <= r < v + a,
    ensures
        r == v,
{
    vstd::arithmetic::div_mod::lemma_fundamental_div_mod(v, a);
    vstd::arithmetic::div_mod::lemma_fundamental_div_mod(r, a);
    assert(r / a == v / a) by (nonlinear_arith)
        requires
            a > 0,
            v == a * (v / a),
            r == a * (r / a),
            v <= r < v + a,
    ;
}

/// Byte offsets of the sections of an index of `k` clusters and
/// `total_blocks` blocks.
#[verifier::spinoff_prover]
pub fn layout_for(k: u32, total_blocks: u32) -> (l: IndexLayout)
    requires
        image::index_length(k as int, total_blocks as int) <= usize::MAX,
    ensures
        l.is_for(k as int, total_blocks as int),
{
    let k = k as usize;
    let tb = total_blocks as usize;
    let centroids = HEADER;
    let bbox_min = centroids + k * DIMS * 2;
    let bbox_max = bbox_min + k * DIMS * 2;
    assert(vstd::arithmetic::power2::pow2(2) == 4usize && vstd::arithmetic::power2::pow2(1)
        == 2usize) by {
        vstd::arithmetic::power2::lemma2_to64();
    }
    let offsets = align_up(bbox_max + k * DIMS * 2, 4);
    proof {
        lemma_aligned(4 * (16 + 21 * k), 4, offsets as int);
    }
    let counts = offsets + (k + 1) * 4;
    let labels = counts + k * 4;
    let blocks = align_up(labels + tb * BLOCK, 2);
    proof {
        lemma_aligned(2 * (34 + 46 * k + 4 * tb), 2, blocks as int);
    }
    let total = blocks + tb * DIMS * BLOCK * 2;
    IndexLayout { centroids, bbox_min, bbox_max, offsets, counts, labels, blocks, total }
}

/// Place of coordinate `d` of lane `lane` inside a block, in `i16` cells.
pub fn block_pair_offset(d: usize, lane: usize) -> (r: usize)
    requires
        image::pair_offset(d as int, lane as int) <= usize::MAX,
    ensures
        r == image::pair_offset(d as int, lane as int),
{
    assert(d & 1 == d % 2) by (bit_vector);
    (d / 2) * BLOCK * 2 + lane * 2 + (d & 1)
}

} // verus!
