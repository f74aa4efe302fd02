//! Building an index from vectors that are assigned to clusters.
use vstd::prelude::*;
use crate::encode::{self, put_bytes, put_i16s, put_u32s};
use crate::format::{IndexHeader, BLOCK, DIMS, MAGIC, VERSION};
use crate::image;
use crate::nearest::{self, Slots};
use crate::quant::{self, centroid_cell};
use crate::sort::{self, sort_by_distance};

verus! {

/// What an index is built from.
pub ghost struct Plan {
    /// The vectors, one after the other.
    pub vecs: Seq<i16>,
    /// The label of each vector.
    pub labels: Seq<u8>,
    /// Number of clusters.
    pub k: int,
    /// Binary32 bits of the centroids, one after the other.
    pub centroids: Seq<u32>,
    /// The cluster of each vector.
    pub assignment: Seq<u32>,
    /// How far each vector is from its centroid, as a number that only orders.
    pub keys: Seq<u32>,
}

impl Plan {
    /// The parts agree with one another, and the index fits its format.
    pub open spec fn wf(self) -> bool {
        &&& 0 <= self.k <= u32::MAX
        &&& self.labels.len() <= u32::MAX
        &&& self.vecs.len() == 14 * self.labels.len()
        &&& self.centroids.len() == 14 * self.k
        &&& self.assignment.len() == self.labels.len()
        &&& self.keys.len() == self.labels.len()
        &&& forall|i: int|
            0 <= i < self.assignment.len() ==> (#[trigger] self.assignment[i]) < self.k
        &&& self.base(self.k) <= u32::MAX
        &&& image::index_length(self.k, self.base(self.k)) <= usize::MAX
    }

    /// Those of the first `n` vectors that are in cluster `c`, by number, with
    /// their keys.
    pub open spec fn members(self, c: int, n: int) -> Slots
        decreases n,
    {
        if n <= 0 {
            Seq::empty()
        } else if self.assignment[n - 1] == c {
            self.members(c, n - 1).push((self.keys[n - 1] as int, n - 1))
        } else {
            self.members(c, n - 1)
        }
    }

    /// Number of vectors in cluster `c`.
    pub open spec fn size(self, c: int) -> int {
        self.members(c, self.labels.len() as int).len() as int
    }

    /// The vectors of cluster `c`, nearest to the centroid first.
    pub open spec fn roster(self, c: int) -> Slots {
        nearest::by_distance(self.members(c, self.labels.len() as int))
    }

    /// First block of cluster `c`.
    pub open spec fn base(self, c: int) -> int
        decreases c,
    {
        if c <= 0 {
            0
        } else {
            self.base(c - 1) + image::blocks_for(self.size(c - 1))
        }
    }

    /// Coordinate `d` of vector `i`.
    pub open spec fn coordinate(self, i: int, d: int) -> int {
        self.vecs[14 * i + d] as int
    }

    /// Least coordinate `d` of the first `n` vectors of cluster `c`.
    pub open spec fn least(self, c: int, d: int, n: int) -> int
        decreases n,
    {
        if n <= 0 {
            i16::MAX as int
        } else {
            let x = self.coordinate(self.roster(c)[n - 1].1, d);
            if x < self.least(c, d, n - 1) {
                x
            } else {
                self.least(c, d, n - 1)
            }
        }
    }

    /// Greatest coordinate `d` of the first `n` vectors of cluster `c`.
    pub open spec fn greatest(self, c: int, d: int, n: int) -> int
        decreases n,
    {
        if n <= 0 {
            i16::MIN as int
        } else {
            let x = self.coordinate(self.roster(c)[n - 1].1, d);
            if x > self.greatest(c, d, n - 1) {
                x
            } else {
                self.greatest(c, d, n - 1)
            }
        }
    }

    /// Lower corner of the bounding box of cluster `c`.
    pub open spec fn low(self, c: int, d: int) -> int {
        if self.size(c) == 0 {
            0
        } else {
            self.least(c, d, self.size(c))
        }
    }

    /// Upper corner of the bounding box of cluster `c`.
    pub open spec fn high(self, c: int, d: int) -> int {
        if self.size(c) == 0 {
            0
        } else {
            self.greatest(c, d, self.size(c))
        }
    }

    /// Coordinate `d` of the vector at `pos` of cluster `c`; zero behind the
    /// last one.
    pub open spec fn cell(self, c: int, pos: int, d: int) -> int {
        if pos < self.size(c) {
            self.coordinate(self.roster(c)[pos].1, d)
        } else {
            0
        }
    }

    /// The label of the vector at `pos` of cluster `c`; zero behind the last
    /// one.
    pub open spec fn tag(self, c: int, pos: int) -> int {
        if pos < self.size(c) {
            self.labels[self.roster(c)[pos].1] as int
        } else {
            0
        }
    }

    /// Cell `i` of the blocks of cluster `c`.
    pub open spec fn packed(self, c: int, i: int) -> int {
        self.cell(c, 8 * (i / 112) + i % 16 / 2, 2 * (i % 112 / 16) + i % 2)
    }

    /// The header of `raw` is that of the index.
    pub open spec fn header_in(self, raw: Seq<u8>) -> bool {
        &&& raw.len() == image::index_length(self.k, self.base(self.k))
        &&& image::is_index(raw)
        &&& image::entries(raw) == self.labels.len()
        &&& image::clusters(raw) == self.k
        &&& image::block_total(raw) == self.base(self.k)
        &&& forall|i: int| 32 <= i < 64 ==> #[trigger] raw[i] == 0
    }

    /// What `raw` says of cluster `c`.
    pub open spec fn cluster_in(self, raw: Seq<u8>, c: int) -> bool {
        &&& image::start_at(raw, c) == self.base(c)
        &&& image::count_at(raw, c) == self.size(c)
        &&& forall|d: int|
            0 <= d < 14 ==> #[trigger] image::centroid_at(raw, c, d) == quant::cell_of(
                self.centroids[14 * c + d] as int,
            )
        &&& forall|d: int| 0 <= d < 14 ==> #[trigger] image::bmin_at(raw, c, d) == self.low(c, d)
        &&& forall|d: int| 0 <= d < 14 ==> #[trigger] image::bmax_at(raw, c, d) == self.high(c, d)
        &&& forall|pos: int, d: int|
            0 <= pos < 8 * image::blocks_for(self.size(c)) && 0 <= d < 14 ==> (
            #[trigger] image::stored_vector(raw, c, pos)[d]) == self.cell(c, pos, d)
        &&& forall|pos: int|
            0 <= pos < 8 * image::blocks_for(self.size(c)) ==> #[trigger] image::stored_label(
                raw,
                c,
                pos,
            ) == self.tag(c, pos)
    }

    /// `raw` is the index built from this: what every byte says is fixed.
    pub open spec fn is_built(self, raw: Seq<u8>) -> bool {
        &&& self.header_in(raw)
        &&& image::start_at(raw, self.k) == self.base(self.k)
        &&& forall|c: int| 0 <= c < self.k ==> #[trigger] self.cluster_in(raw, c)
    }
}

// ---------------------------------------------------------------------------
// Facts about plans
// ---------------------------------------------------------------------------

/// Members are vectors of the cluster, in ascending order.
pub proof fn lemma_members(p: Plan, c: int, n: int)
    requires
        p.wf(),
        0 <= n <= p.labels.len(),
    ensures
        p.members(c, n).len() <= n,
        sort::tags_ascend(p.members(c, n)),
        forall|i: int|
            0 <= i < p.members(c, n).len() ==> {
                let m = (#[trigger] p.members(c, n)[i]);
                0 <= m.1 < n && p.assignment[m.1] == c && m.0 == p.keys[m.1]
            },
    decreases n,
{
    if n > 0 {
        lemma_members(p, c, n - 1);
    }
}

/// A roster holds the members.
pub proof fn lemma_roster(p: Plan, c: int)
    requires
        p.wf(),
    ensures
        p.roster(c).len() == p.size(c),
        p.size(c) <= p.labels.len(),
        forall|i: int|
            0 <= i < p.size(c) ==> {
                let m = (#[trigger] p.roster(c)[i]);
                0 <= m.1 < p.labels.len() && p.assignment[m.1] == c
            },
{
    let n = p.labels.len() as int;
    let s = p.members(c, n);
    lemma_members(p, c, n);
    nearest::lemma_by_distance_len(s);
    sort::lemma_by_distance_multiset(s);
    assert forall|i: int| 0 <= i < p.size(c) implies {
        let m = (#[trigger] p.roster(c)[i]);
        0 <= m.1 < p.labels.len() && p.assignment[m.1] == c
    } by {
        let j = sort::lemma_same_slot(p.roster(c), s, i);
        assert(s[j] == p.roster(c)[i]);
    }
}

pub proof fn lemma_base_grows(p: Plan, c: int, e: int)
    requires
        0 <= c <= e,
    ensures
        0 <= p.base(c) <= p.base(e),
        c < e ==> p.base(c) + image::blocks_for(p.size(c)) <= p.base(e),
    decreases e,
{
    if c < e {
        lemma_base_grows(p, c, e - 1);
    } else if c > 0 {
        lemma_base_grows(p, c - 1, c - 1);
    }
}

// ---------------------------------------------------------------------------
// Sections
// ---------------------------------------------------------------------------

/// What an index is built from.
struct Source<'a> {
    vecs: &'a [i16],
    labels: &'a [u8],
    k: u32,
    centroids: &'a [u32],
    assignment: &'a [u32],
    keys: &'a [u32],
}

impl<'a> View for Source<'a> {
    type V = Plan;

    closed spec fn view(&self) -> Plan {
        Plan {
            vecs: self.vecs@,
            labels: self.labels@,
            k: self.k as int,
            centroids: self.centroids@,
            assignment: self.assignment@,
            keys: self.keys@,
        }
    }
}

impl<'a> Source<'a> {
    /// The members of each cluster.
    fn buckets(&self) -> (r: Vec<Vec<(u64, usize)>>)
        requires
            self@.wf(),
        ensures
            r@.len() == self.k,
            forall|c: int|
                0 <= c < self.k ==> sort::slots_of((#[trigger] r@[c])@) == self@.members(
                    c,
                    self.labels@.len() as int,
                ),
    {
        let mut r: Vec<Vec<(u64, usize)>> = Vec::new();
        for c in 0..self.k
            invariant
                r@.len() == c,
                forall|e: int|
                    0 <= e < c ==> sort::slots_of((#[trigger] r@[e])@) == self@.members(e, 0),
        {
            r.push(Vec::new());
            assert(sort::slots_of(r@[c as int]@) =~= self@.members(c as int, 0));
        }
        for i in 0..self.labels.len()
            invariant
                self@.wf(),
                r@.len() == self.k,
                forall|e: int|
                    0 <= e < self.k ==> sort::slots_of((#[trigger] r@[e])@) == self@.members(
                        e,
                        i as int,
                    ),
        {
            let c = self.assignment[i] as usize;
            let ghost before = r@;
            assert(self@.assignment[i as int] < self@.k);
            r[c].push((self.keys[i] as u64, i));
            assert forall|e: int| 0 <= e < self.k implies sort::slots_of((#[trigger] r@[e])@)
                == self@.members(e, i + 1) by {
                assert(sort::slots_of(before[e]@) == self@.members(e, i as int));
                if e == c {
                    assert(sort::slots_of(r@[e]@) =~= sort::slots_of(before[e]@).push(
                        (self.keys@[i as int] as int, i as int),
                    ));
                }
            }
        }
        r
    }

    /// The coordinate `d` of the vector `i`.
    fn coordinate(&self, i: usize, d: usize) -> (r: i16)
        requires
            self@.wf(),
            i < self.labels@.len(),
            d < 14,
        ensures
            r == self@.coordinate(i as int, d as int),
    {
        let n = self.vecs.len();
        assert(14 * i + d < n);
        self.vecs[DIMS * i + d]
    }

    /// The least and the greatest coordinate `d` of a cluster.
    fn extent(&self, Ghost(c): Ghost<int>, roster: &Vec<(u64, usize)>, d: usize) -> (r: (i16, i16))
        requires
            self@.wf(),
            sort::slots_of(roster@) == self@.roster(c),
            d < 14,
        ensures
            r.0 == self@.low(c, d as int),
            r.1 == self@.high(c, d as int),
    {
        proof {
            lemma_roster(self@, c);
        }
        if roster.len() == 0 {
            return (0, 0);
        }
        let mut lo: i16 = i16::MAX;
        let mut hi: i16 = i16::MIN;
        for j in 0..roster.len()
            invariant
                self@.wf(),
                sort::slots_of(roster@) == self@.roster(c),
                d < 14,
                roster@.len() == self@.size(c),
                lo == self@.least(c, d as int, j as int),
                hi == self@.greatest(c, d as int, j as int),
        {
            proof {
                lemma_roster(self@, c);
                assert(sort::slots_of(roster@)[j as int].1 == roster@[j as int].1);
            }
            let x = self.coordinate(roster[j].1, d);
            if x < lo {
                lo = x;
            }
            if x > hi {
                hi = x;
            }
        }
        (lo, hi)
    }

    /// Appends the labels of a cluster, in blocks.
    fn put_lanes(
        &self,
        Ghost(c): Ghost<int>,
        roster: &Vec<(u64, usize)>,
        blocks: usize,
        lanes: &mut Vec<u8>,
    )
        requires
            self@.wf(),
            sort::slots_of(roster@) == self@.roster(c),
            blocks == image::blocks_for(self@.size(c)),
            8 * blocks <= usize::MAX,
        ensures
            final(lanes)@.len() == old(lanes)@.len() + 8 * blocks,
            forall|i: int| 0 <= i < old(lanes)@.len() ==> final(lanes)@[i] == old(lanes)@[i],
            forall|i: int|
                0 <= i < 8 * blocks ==> final(lanes)@[old(lanes)@.len() + i] == #[trigger] self@.tag(
                    c,
                    i,
                ),
    {
        let ghost before = lanes@;
        proof {
            lemma_roster(self@, c);
        }
        for i in 0..BLOCK * blocks
            invariant
                self@.wf(),
                sort::slots_of(roster@) == self@.roster(c),
                roster@.len() == self@.size(c),
                lanes@.len() == before.len() + i,
                forall|j: int| 0 <= j < before.len() ==> lanes@[j] == before[j],
                forall|j: int|
                    0 <= j < i ==> lanes@[before.len() + j] == #[trigger] self@.tag(c, j),
        {
            if i < roster.len() {
                proof {
                    lemma_roster(self@, c);
                    assert(sort::slots_of(roster@)[i as int].1 == roster@[i as int].1);
                }
                lanes.push(self.labels[roster[i].1]);
            } else {
                lanes.push(0);
            }
        }
    }

    /// Appends the vectors of a cluster, in blocks.
    fn put_cells(
        &self,
        Ghost(c): Ghost<int>,
        roster: &Vec<(u64, usize)>,
        blocks: usize,
        cells: &mut Vec<i16>,
    )
        requires
            self@.wf(),
            sort::slots_of(roster@) == self@.roster(c),
            blocks == image::blocks_for(self@.size(c)),
            112 * blocks <= usize::MAX,
        ensures
            final(cells)@.len() == old(cells)@.len() + 112 * blocks,
            forall|i: int| 0 <= i < old(cells)@.len() ==> final(cells)@[i] == old(cells)@[i],
            forall|i: int|
                0 <= i < 112 * blocks ==> final(cells)@[old(cells)@.len() + i]
                    == #[trigger] self@.packed(c, i),
    {
        let ghost before = cells@;
        proof {
            lemma_roster(self@, c);
        }
        for i in 0..DIMS * BLOCK * blocks
            invariant
                self@.wf(),
                sort::slots_of(roster@) == self@.roster(c),
                roster@.len() == self@.size(c),
                112 * blocks <= usize::MAX,
                DIMS * BLOCK * blocks == 112 * blocks,
                cells@.len() == before.len() + i,
                forall|j: int| 0 <= j < before.len() ==> cells@[j] == before[j],
                forall|j: int|
                    0 <= j < i ==> cells@[before.len() + j] == #[trigger] self@.packed(c, j),
        {
            let pos: usize = 8 * (i / 112) + i % 16 / 2;
            let d: usize = 2 * (i % 112 / 16) + i % 2;
            if pos < roster.len() {
                proof {
                    lemma_roster(self@, c);
                    assert(sort::slots_of(roster@)[pos as int].1 == roster@[pos as int].1);
                }
                let x = self.coordinate(roster[pos].1, d);
                cells.push(x);
            } else {
                cells.push(0);
            }
        }
    }
}

/// The sections of an index behind the centroids.
struct Sections {
    mins: Vec<i16>,
    maxs: Vec<i16>,
    offsets: Vec<u32>,
    counts: Vec<u32>,
    lanes: Vec<u8>,
    cells: Vec<i16>,
}

impl Sections {
    /// The sections hold the first `n` clusters.
    spec fn holds(&self, p: Plan, n: int) -> bool {
        &&& self.boxes_hold(p, n)
        &&& self.tables_hold(p, n)
        &&& self.blocks_hold(p, n)
    }

    spec fn boxes_hold(&self, p: Plan, n: int) -> bool {
        &&& self.mins@.len() == 14 * n
        &&& self.maxs@.len() == 14 * n
        &&& forall|c: int, d: int|
            0 <= c < n && 0 <= d < 14 ==> self.mins@[14 * c + d] == #[trigger] p.low(c, d)
        &&& forall|c: int, d: int|
            0 <= c < n && 0 <= d < 14 ==> self.maxs@[14 * c + d] == #[trigger] p.high(c, d)
    }

    spec fn tables_hold(&self, p: Plan, n: int) -> bool {
        &&& self.offsets@.len() == n + 1
        &&& self.counts@.len() == n
        &&& forall|c: int| 0 <= c <= n ==> self.offsets@[c] == #[trigger] p.base(c)
        &&& forall|c: int| 0 <= c < n ==> self.counts@[c] == #[trigger] p.size(c)
    }

    spec fn blocks_hold(&self, p: Plan, n: int) -> bool {
        &&& self.lanes@.len() == 8 * p.base(n)
        &&& self.cells@.len() == 112 * p.base(n)
        &&& forall|c: int, i: int|
            0 <= c < n && 0 <= i < 8 * image::blocks_for(p.size(c)) ==> self.lanes@[8 * p.base(c)
                + i] == #[trigger] p.tag(c, i)
        &&& forall|c: int, i: int|
            0 <= c < n && 0 <= i < 112 * image::blocks_for(p.size(c)) ==> self.cells@[112 * p.base(
                c,
            ) + i] == #[trigger] p.packed(c, i)
    }

    fn new(Ghost(p): Ghost<Plan>) -> (r: Sections)
        ensures
            r.holds(p, 0),
    {
        let mut offsets: Vec<u32> = Vec::new();
        offsets.push(0);
        Sections {
            mins: Vec::new(),
            maxs: Vec::new(),
            offsets,
            counts: Vec::new(),
            lanes: Vec::new(),
            cells: Vec::new(),
        }
    }

    fn add_box(&mut self, source: &Source, c: u32, roster: &Vec<(u64, usize)>)
        requires
            source@.wf(),
            c < source.k,
            sort::slots_of(roster@) == source@.roster(c as int),
            old(self).boxes_hold(source@, c as int),
        ensures
            final(self).boxes_hold(source@, c + 1),
            final(self).offsets == old(self).offsets,
            final(self).counts == old(self).counts,
            final(self).lanes == old(self).lanes,
            final(self).cells == old(self).cells,
    {
        let ghost p = source@;
        let ghost before = *self;
        for d in 0..DIMS
            invariant
                p == source@,
                p.wf(),
                sort::slots_of(roster@) == p.roster(c as int),
                before.boxes_hold(p, c as int),
                self.offsets == before.offsets,
                self.counts == before.counts,
                self.lanes == before.lanes,
                self.cells == before.cells,
                self.mins@.len() == 14 * c + d,
                self.maxs@.len() == 14 * c + d,
                forall|i: int| 0 <= i < 14 * c ==> self.mins@[i] == before.mins@[i],
                forall|i: int| 0 <= i < 14 * c ==> self.maxs@[i] == before.maxs@[i],
                forall|e: int|
                    0 <= e < d ==> self.mins@[14 * c + e] == #[trigger] p.low(c as int, e),
                forall|e: int|
                    0 <= e < d ==> self.maxs@[14 * c + e] == #[trigger] p.high(c as int, e),
        {
            let (lo, hi) = source.extent(Ghost(c as int), roster, d);
            self.mins.push(lo);
            self.maxs.push(hi);
        }
        assert forall|e: int, d: int| 0 <= e < c + 1 && 0 <= d < 14 implies self.mins@[14 * e + d]
            == #[trigger] p.low(e, d) by {
            if e < c {
                assert(before.mins@[14 * e + d] == p.low(e, d));
            }
        }
        assert forall|e: int, d: int| 0 <= e < c + 1 && 0 <= d < 14 implies self.maxs@[14 * e + d]
            == #[trigger] p.high(e, d) by {
            if e < c {
                assert(before.maxs@[14 * e + d] == p.high(e, d));
            }
        }
    }

    fn add_blocks(
        &mut self,
        source: &Source,
        c: u32,
        roster: &Vec<(u64, usize)>,
        blocks: usize,
    )
        requires
            source@.wf(),
            c < source.k,
            sort::slots_of(roster@) == source@.roster(c as int),
            blocks == image::blocks_for(source@.size(c as int)),
            old(self).blocks_hold(source@, c as int),
        ensures
            final(self).blocks_hold(source@, c + 1),
            final(self).mins == old(self).mins,
            final(self).maxs == old(self).maxs,
            final(self).offsets == old(self).offsets,
            final(self).counts == old(self).counts,
    {
        let ghost p = source@;
        let ghost before = *self;
        proof {
            lemma_base_grows(p, c as int, p.k);
            lemma_base_grows(p, c as int, c as int);
        }
        source.put_lanes(Ghost(c as int), roster, blocks, &mut self.lanes);
        source.put_cells(Ghost(c as int), roster, blocks, &mut self.cells);
        assert(p.base(c + 1) == p.base(c as int) + blocks);
        assert forall|e: int, i: int|
            0 <= e < c + 1 && 0 <= i < 8 * image::blocks_for(p.size(e)) implies self.lanes@[8
            * p.base(e) + i] == #[trigger] p.tag(e, i) by {
            if e < c {
                lemma_base_grows(p, e, c as int);
                assert(before.lanes@[8 * p.base(e) + i] == p.tag(e, i));
            }
        }
        assert forall|e: int, i: int|
            0 <= e < c + 1 && 0 <= i < 112 * image::blocks_for(p.size(e)) implies self.cells@[112
            * p.base(e) + i] == #[trigger] p.packed(e, i) by {
            if e < c {
                lemma_base_grows(p, e, c as int);
                assert(before.cells@[112 * p.base(e) + i] == p.packed(e, i));
            }
        }
    }

    fn add_cluster(&mut self, source: &Source, c: u32, members: &Vec<(u64, usize)>)
        requires
            source@.wf(),
            c < source.k,
            sort::slots_of(members@) == source@.members(c as int, source@.labels.len() as int),
            old(self).holds(source@, c as int),
        ensures
            final(self).holds(source@, c + 1),
    {
        let ghost p = source@;
        let ghost n = p.labels.len() as int;
        proof {
            lemma_members(p, c as int, n);
            lemma_base_grows(p, c as int, p.k);
            assert(p.base(c + 1) == p.base(c as int) + image::blocks_for(p.size(c as int)));
            lemma_base_grows(p, c + 1, p.k);
        }
        let roster = sort_by_distance(members);
        let size = members.len();
        let blocks: usize = size / BLOCK + (if size % BLOCK > 0 {
            1
        } else {
            0
        });
        assert(blocks == image::blocks_for(p.size(c as int)));
        self.add_box(source, c, &roster);
        self.add_blocks(source, c, &roster, blocks);
        let start = self.offsets[c as usize];
        assert(start == p.base(c as int));
        self.offsets.push(start + blocks as u32);
        self.counts.push(size as u32);
    }
}

impl<'a> Source<'a> {
    fn sections(&self) -> (r: Sections)
        requires
            self@.wf(),
        ensures
            r.holds(self@, self.k as int),
    {
        let buckets = self.buckets();
        let mut r = Sections::new(Ghost(self@));
        for c in 0..self.k
            invariant
                self@.wf(),
                buckets@.len() == self.k,
                forall|e: int|
                    0 <= e < self.k ==> sort::slots_of((#[trigger] buckets@[e])@) == self@.members(
                        e,
                        self.labels@.len() as int,
                    ),
                r.holds(self@, c as int),
        {
            r.add_cluster(self, c, &buckets[c as usize]);
        }
        r
    }

    /// The coordinates of the centroids, as stored.
    fn centroid_cells(&self) -> (r: Vec<i16>)
        requires
            self@.wf(),
        ensures
            r@.len() == 14 * self.k,
            forall|i: int|
                0 <= i < r@.len() ==> #[trigger] r@[i] == quant::cell_of(self.centroids@[i] as int),
    {
        let mut r: Vec<i16> = Vec::new();
        for i in 0..self.centroids.len()
            invariant
                r@.len() == i,
                forall|j: int|
                    0 <= j < i ==> #[trigger] r@[j] == quant::cell_of(self.centroids@[j] as int),
        {
            r.push(centroid_cell(self.centroids[i]));
        }
        r
    }
}

/// The bytes are the sections, one behind the other.
spec fn laid_out(raw: Seq<u8>, k: int, cells: Seq<i16>, t: Sections) -> bool {
    let blocks = t.lanes@.len() as int / 8;
    &&& raw.len() == image::index_length(k, blocks)
    &&& encode::holds16(raw, 64, cells)
    &&& encode::holds16(raw, image::bbox_min_section(k), t.mins@)
    &&& encode::holds16(raw, image::bbox_max_section(k), t.maxs@)
    &&& encode::holds32(raw, image::offsets_section(k), t.offsets@)
    &&& encode::holds32(raw, image::counts_section(k), t.counts@)
    &&& encode::holds8(raw, image::labels_section(k), t.lanes@)
    &&& encode::holds16(raw, image::blocks_section(k, blocks), t.cells@)
}

#[verifier::spinoff_prover]
fn lay_out(header: Vec<u8>, k: u32, cells: &Vec<i16>, t: &Sections) -> (out: Vec<u8>)
    requires
        header@.len() == 64,
        cells@.len() == 14 * k,
        t.mins@.len() == 14 * k,
        t.maxs@.len() == 14 * k,
        t.offsets@.len() == k + 1,
        t.counts@.len() == k,
        t.lanes@.len() % 8 == 0,
        t.cells@.len() == 14 * t.lanes@.len(),
    ensures
        encode::begins(header@, out@),
        laid_out(out@, k as int, cells@, *t),
{
    let mut out = header;
    put_i16s(&mut out, cells);
    let ghost a = out@;
    put_i16s(&mut out, &t.mins);
    let ghost b = out@;
    put_i16s(&mut out, &t.maxs);
    let ghost c = out@;
    put_u32s(&mut out, &t.offsets);
    let ghost d = out@;
    put_u32s(&mut out, &t.counts);
    let ghost e = out@;
    put_bytes(&mut out, &t.lanes);
    let ghost f = out@;
    put_i16s(&mut out, &t.cells);
    proof {
        let kk = k as int;
        encode::lemma_begins16(a, out@, 64, cells@);
        encode::lemma_begins16(b, out@, image::bbox_min_section(kk), t.mins@);
        encode::lemma_begins16(c, out@, image::bbox_max_section(kk), t.maxs@);
        encode::lemma_begins32(d, out@, image::offsets_section(kk), t.offsets@);
        encode::lemma_begins32(e, out@, image::counts_section(kk), t.counts@);
        assert(encode::holds8(f, image::labels_section(kk), t.lanes@));
    }
    out
}

#[verifier::spinoff_prover]
proof fn lemma_cluster_in(raw: Seq<u8>, p: Plan, cells: Seq<i16>, t: Sections, c: int)
    requires
        p.wf(),
        t.holds(p, p.k),
        cells.len() == 14 * p.k,
        forall|i: int|
            0 <= i < cells.len() ==> #[trigger] cells[i] == quant::cell_of(p.centroids[i] as int),
        laid_out(raw, p.k, cells, t),
        image::clusters(raw) == p.k,
        image::block_total(raw) == p.base(p.k),
        0 <= c < p.k,
    ensures
        p.cluster_in(raw, c),
{
    lemma_base_grows(p, c, p.k);
    lemma_roster(p, c);
    let k = p.k;
    assert(image::start_at(raw, c) == t.offsets@[c]);
    assert(t.offsets@[c] == p.base(c));
    assert(image::count_at(raw, c) == t.counts@[c]);
    assert(t.counts@[c] == p.size(c));
    assert forall|d: int| 0 <= d < 14 implies #[trigger] image::centroid_at(raw, c, d)
        == quant::cell_of(p.centroids[14 * c + d] as int) by {
        assert(image::i16_at(raw, 64 + 2 * (14 * c + d)) == cells[14 * c + d]);
    }
    assert forall|d: int| 0 <= d < 14 implies #[trigger] image::bmin_at(raw, c, d) == p.low(
        c,
        d,
    ) by {
        assert(image::i16_at(raw, image::bbox_min_section(k) + 2 * (14 * c + d)) == t.mins@[14 * c
            + d]);
    }
    assert forall|d: int| 0 <= d < 14 implies #[trigger] image::bmax_at(raw, c, d) == p.high(
        c,
        d,
    ) by {
        assert(image::i16_at(raw, image::bbox_max_section(k) + 2 * (14 * c + d)) == t.maxs@[14 * c
            + d]);
    }
    let blocks = image::blocks_for(p.size(c));
    assert forall|pos: int| 0 <= pos < 8 * blocks implies #[trigger] image::stored_label(
        raw,
        c,
        pos,
    ) == p.tag(c, pos) by {
        let i = 8 * p.base(c) + pos;
        assert((p.base(c) + pos / 8) * 8 + pos % 8 == i);
        assert(t.lanes@[i] == p.tag(c, pos));
    }
    assert forall|pos: int, d: int| 0 <= pos < 8 * blocks && 0 <= d < 14 implies (
    #[trigger] image::stored_vector(raw, c, pos)[d]) == p.cell(c, pos, d) by {
        lemma_cell_in(raw, p, t, c, pos, d);
    }
}

/// A cell of a block tells its vector and its coordinate.
proof fn lemma_packing(pos: int, d: int)
    requires
        0 <= pos,
        0 <= d < 14,
    ensures
        ({
            let i = 112 * (pos / 8) + image::pair_offset(d, pos % 8);
            &&& 0 <= image::pair_offset(d, pos % 8) < 112
            &&& 8 * (i / 112) + i % 16 / 2 == pos
            &&& 2 * (i % 112 / 16) + i % 2 == d
        }),
{
    let idx = image::pair_offset(d, pos % 8);
    let i = 112 * (pos / 8) + idx;
    assert(i / 112 == pos / 8 && i % 112 == idx);
    assert(idx / 16 == d / 2 && idx % 16 == 2 * (pos % 8) + d % 2);
    assert(i % 16 == idx % 16 && i % 2 == d % 2);
}

/// Where a cell of a cluster stands among its blocks, and among all blocks.
proof fn lemma_place(base: int, pos: int, d: int, blocks: int)
    requires
        0 <= base,
        0 <= pos < 8 * blocks,
        0 <= d < 14,
    ensures
        ({
            let idx = image::pair_offset(d, pos % 8);
            let i = 112 * (pos / 8) + idx;
            &&& 0 <= idx < 112
            &&& 0 <= i < 112 * blocks
            &&& 112 * (base + pos / 8) + idx == 112 * base + i
        }),
{
    lemma_packing(pos, d);
    assert(pos / 8 < blocks);
}

proof fn lemma_packed(p: Plan, c: int, pos: int, d: int)
    requires
        0 <= pos,
        0 <= d < 14,
    ensures
        p.packed(c, 112 * (pos / 8) + image::pair_offset(d, pos % 8)) == p.cell(c, pos, d),
{
    lemma_packing(pos, d);
}

#[verifier::spinoff_prover]
proof fn lemma_cell_in(raw: Seq<u8>, p: Plan, t: Sections, c: int, pos: int, d: int)
    requires
        t.blocks_hold(p, p.k),
        encode::holds16(raw, image::blocks_section(p.k, p.base(p.k)), t.cells@),
        image::clusters(raw) == p.k,
        image::block_total(raw) == p.base(p.k),
        image::start_at(raw, c) == p.base(c),
        0 <= c < p.k,
        0 <= pos < 8 * image::blocks_for(p.size(c)),
        0 <= d < 14,
    ensures
        image::stored_vector(raw, c, pos)[d] == p.cell(c, pos, d),
{
    lemma_base_grows(p, c, p.k);
    lemma_base_grows(p, c, c);
    lemma_place(p.base(c), pos, d, image::blocks_for(p.size(c)));
    let b = p.base(c) + pos / 8;
    let idx = image::pair_offset(d, pos % 8);
    let i = 112 * (pos / 8) + idx;
    let j = 112 * b + idx;
    lemma_packed(p, c, pos, d);
    assert(t.cells@[112 * p.base(c) + i] == p.packed(c, i));
    assert(0 <= j < t.cells@.len());
    assert(image::i16_at(raw, image::blocks_section(p.k, p.base(p.k)) + 2 * j) == t.cells@[j]);
    assert(image::cell_at(raw, b, idx) == t.cells@[j]);
    assert(image::stored_vector(raw, c, pos)[d] == image::cell_at(raw, b, idx));
}

/// The index of the vectors `vecs` with the labels `labels`, each in the
/// cluster that `assignment` gives it and nearest to its centroid first.
/// `centroids` holds the binary32 bits of the `k` centroids, and `keys` orders
/// the vectors of a cluster; vectors with the same key keep their order.
#[verifier::spinoff_prover]
pub fn build_ivf(
    vecs: &[i16],
    labels: &[u8],
    k: u32,
    centroids: &[u32],
    assignment: &[u32],
    keys: &[u32],
) -> (out: Vec<u8>)
    requires
        (Plan {
            vecs: vecs@,
            labels: labels@,
            k: k as int,
            centroids: centroids@,
            assignment: assignment@,
            keys: keys@,
        }).wf(),
    ensures
        (Plan {
            vecs: vecs@,
            labels: labels@,
            k: k as int,
            centroids: centroids@,
            assignment: assignment@,
            keys: keys@,
        }).is_built(out@),
{
    let source = Source { vecs, labels, k, centroids, assignment, keys };
    let ghost p = source@;
    let cells = source.centroid_cells();
    let t = source.sections();
    proof {
        lemma_base_grows(p, 0, p.k);
    }
    let total = t.offsets[k as usize];
    assert(total == p.base(p.k));
    let header = IndexHeader {
        magic: MAGIC,
        version: VERSION,
        n: labels.len() as u32,
        k,
        total_blocks: total,
        block_size: BLOCK as u32,
        dims: DIMS as u32,
        reserved: [0;8],
    };
    let bytes = header.to_bytes();
    let out = lay_out(bytes, k, &cells, &t);
    proof {
        assert(t.lanes@.len() as int / 8 == p.base(p.k));
        assert(header.is_at_start(out@));
        assert forall|i: int| 32 <= i < 64 implies #[trigger] out@[i] == 0 by {
            let w = (i - 32) / 4;
            assert(image::le32(out@, 32 + 4 * w) == header.reserved[w]);
            assert(32 + 4 * w <= i < 36 + 4 * w);
        }
        assert(image::start_at(out@, p.k) == t.offsets@[p.k]);
        assert forall|c: int| 0 <= c < p.k implies #[trigger] p.cluster_in(out@, c) by {
            lemma_cluster_in(out@, p, cells@, t, c);
        }
    }
    out
}

} // verus!
