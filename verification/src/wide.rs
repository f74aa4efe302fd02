//! Search with eight lanes at a time and the arithmetic of packed integers:
//! differences wrap around at sixteen bits, sums of squares at thirty-two.
use vstd::prelude::*;
use crate::format::{block_pair_offset, BLOCK, DIMS, PAIRS};
use crate::image;
use crate::nearest::{self, Slots};
use crate::scalar;
use crate::search::{self, Index};
use crate::sort::{self, sort_by_distance, worst_of};

verus! {

// ---------------------------------------------------------------------------
// Lane arithmetic
// ---------------------------------------------------------------------------

/// Two's complement of sixteen bits.
pub open spec fn wrap16(x: int) -> int {
    if x > 32767 {
        x - 0x1_0000
    } else if x < -32768 {
        x + 0x1_0000
    } else {
        x
    }
}

pub open spec fn wrap32(x: int) -> int {
    x % 0x1_0000_0000
}

pub open spec fn lane_differences(q: Seq<i16>, v: Seq<int>) -> Seq<int> {
    Seq::new(14, |d: int| wrap16(q[d] - v[d]))
}

/// Squared distance over the first `n` coordinates, in lane arithmetic.
pub open spec fn lane_prefix(q: Seq<i16>, v: Seq<int>, n: int) -> int {
    wrap32(nearest::square_sum(lane_differences(q, v).take(n)))
}

/// Squared distance between `q` and `v`, in lane arithmetic.
pub open spec fn lane_distance(q: Seq<i16>, v: Seq<int>) -> int {
    lane_prefix(q, v, 14)
}

pub open spec fn max(a: int, b: int) -> int {
    if a < b {
        b
    } else {
        a
    }
}

/// How far `x` lies outside `lo ..= hi`, in lane arithmetic.
pub open spec fn lane_gap(x: int, lo: int, hi: int) -> int {
    max(0, max(wrap16(lo - x), wrap16(x - hi)))
}

pub open spec fn lane_gaps(q: Seq<i16>, lo: Seq<int>, hi: Seq<int>) -> Seq<int> {
    Seq::new(14, |d: int| lane_gap(q[d] as int, lo[d], hi[d]))
}

/// Squared distance between `q` and the bounding box of cluster `c`, in lane
/// arithmetic.
pub open spec fn lane_bound(raw: Seq<u8>, q: Seq<i16>, c: int) -> int {
    wrap32(
        nearest::square_sum(
            lane_gaps(q, search::bmin_vector(raw, c), search::bmax_vector(raw, c)),
        ),
    )
}

proof fn lemma_wrap32_add(s: int, x: int)
    requires
        0 <= x < 0x1_0000_0000,
    ensures
        wrap32(s + x) == if wrap32(s) + x > u32::MAX {
            wrap32(s) + x - 0x1_0000_0000
        } else {
            wrap32(s) + x
        },
{
}

/// `(q0 - a)^2 + (q1 - b)^2` in lane arithmetic.
fn spair(q0: i16, q1: i16, a: i16, b: i16) -> (r: u32)
    ensures
        r == nearest::square(wrap16(q0 - a)) + nearest::square(wrap16(q1 - b)),
        r <= 0x8000_0000,
{
    let x = q0.wrapping_sub(a) as i64;
    let y = q1.wrapping_sub(b) as i64;
    assert(x == wrap16(q0 - a));
    assert(y == wrap16(q1 - b));
    proof {
        nearest::lemma_square_bound(x as int, 32768);
        nearest::lemma_square_bound(y as int, 32768);
    }
    (x * x + y * y) as u32
}

fn gap_of(x: i16, lo: i16, hi: i16) -> (r: i64)
    ensures
        r == lane_gap(x as int, lo as int, hi as int),
        0 <= r <= 32767,
{
    let below = lo.wrapping_sub(x);
    let above = x.wrapping_sub(hi);
    let g = if below < above {
        above
    } else {
        below
    };
    if g < 0 {
        0
    } else {
        g as i64
    }
}

// ---------------------------------------------------------------------------
// The five nearest, in order
// ---------------------------------------------------------------------------

/// What an offer leaves of a list in order: a distance below the last is put
/// in its place, and the last slot goes.
pub open spec fn keep(s: Slots, d: int, tag: int) -> Slots {
    if d < s.last().0 {
        nearest::place(s.drop_last(), (d, tag))
    } else {
        s
    }
}

/// What five slots hold after the vectors `from .. to` of cluster `c` in turn.
pub open spec fn keep_range(
    raw: Seq<u8>,
    q: Seq<i16>,
    c: int,
    from: int,
    to: int,
    s: Slots,
) -> Slots
    decreases to - from,
{
    if to <= from {
        s
    } else {
        keep(
            keep_range(raw, q, c, from, to - 1, s),
            lane_distance(q, image::stored_vector(raw, c, to - 1)),
            image::stored_label(raw, c, to - 1),
        )
    }
}

/// A partial sum, read as a signed number, that has reached `limit`.
pub open spec fn reaches(sum: int, limit: int) -> bool {
    sum < 0x8000_0000 && (sum >= limit || sum == 0x7fff_ffff)
}

/// All eight lanes of block `b` have reached `limit` after `n` coordinates.
pub open spec fn all_reach(raw: Seq<u8>, q: Seq<i16>, b: int, n: int, limit: int) -> bool {
    forall|lane: int|
        0 <= lane < 8 ==> reaches(
            #[trigger] lane_prefix(q, image::lane_vector(raw, b, lane), n),
            limit,
        )
}

/// What five slots hold after block `i` of cluster `c`, which is passed over
/// once all of its lanes have reached the last slot.
pub open spec fn scan_block(raw: Seq<u8>, q: Seq<i16>, c: int, i: int, s: Slots) -> Slots {
    let b = image::start_at(raw, c) + i;
    if all_reach(raw, q, b, 6, s.last().0) || all_reach(raw, q, b, 10, s.last().0) {
        s
    } else {
        let count = image::count_at(raw, c);
        keep_range(
            raw,
            q,
            c,
            i * 8,
            if i * 8 + 8 < count {
                i * 8 + 8
            } else {
                count
            },
            s,
        )
    }
}

/// What five slots hold after the first `n` blocks of cluster `c`.
pub open spec fn scan_blocks(raw: Seq<u8>, q: Seq<i16>, c: int, n: int, s: Slots) -> Slots
    decreases n,
{
    if n <= 0 {
        s
    } else {
        scan_block(raw, q, c, n - 1, scan_blocks(raw, q, c, n - 1, s))
    }
}

/// What five slots hold after cluster `c`.
pub open spec fn scan(raw: Seq<u8>, q: Seq<i16>, c: int, s: Slots) -> Slots {
    scan_blocks(raw, q, c, image::blocks_for(image::count_at(raw, c)), s)
}

struct Ranked5 {
    td: [u32; 5],
    tl: [u8; 5],
    max_top: u32,
}

impl View for Ranked5 {
    type V = Slots;

    closed spec fn view(&self) -> Slots {
        Seq::new(5, |i: int| (self.td@[i] as int, self.tl@[i] as int))
    }
}

impl Ranked5 {
    spec fn wf(&self) -> bool {
        self.max_top == self.td@[4]
    }

    fn new() -> (r: Self)
        ensures
            r.wf(),
            r@ =~= empty_five(),
    {
        Ranked5 { td: [u32::MAX; 5], tl: [0; 5], max_top: u32::MAX }
    }

    fn update_top5(&mut self, dist: u32, label: u8)
        requires
            old(self).wf(),
        ensures
            final(self).wf(),
            final(self)@ =~= keep(old(self)@, dist as int, label as int),
    {
        if dist >= self.max_top {
            return;
        }
        let ghost s = self@;
        let ghost t = s.drop_last();
        let mut j: usize = 4;
        while j > 0 && dist < self.td[j - 1]
            invariant
                s == old(self)@,
                t == s.drop_last(),
                s.len() == 5,
                j <= 4,
                forall|m: int| 0 <= m <= j ==> #[trigger] self@[m] == s[m],
                forall|m: int| j < m < 5 ==> #[trigger] self@[m] == s[m - 1],
                forall|m: int| j <= m < 4 ==> (#[trigger] t[m]).0 > dist,
            decreases j,
        {
            let ghost before = self@;
            assert(before[j - 1] == s[j - 1]);
            self.td[j] = self.td[j - 1];
            self.tl[j] = self.tl[j - 1];
            assert(self@ =~= before.update(j as int, before[j - 1]));
            j = j - 1;
        }
        let ghost before = self@;
        self.td[j] = dist;
        self.tl[j] = label;
        self.max_top = self.td[4];
        proof {
            if j > 0 {
                assert(before[j - 1] == s[j - 1]);
                assert(t[j - 1] == s[j - 1]);
            }
            nearest::lemma_rank_is(t, dist as int, j as int);
            assert(self@ =~= before.update(j as int, (dist as int, label as int)));
            let u = t.insert(j as int, (dist as int, label as int));
            assert forall|m: int| 0 <= m < 5 implies self@[m] == u[m] by {
                assert(m <= j ==> before[m] == s[m]);
                assert(m > j ==> before[m] == s[m - 1]);
            }
            assert(self@ =~= u);
        }
    }

    fn sum(&self) -> (r: u8)
        ensures
            r == scalar::tag_sum(self@),
    {
        proof {
            scalar::lemma_tag_sum_five(self@);
        }
        scalar::label_sum(&self.tl)
    }
}

pub open spec fn empty_five() -> Slots {
    Seq::new(5, |i: int| (u32::MAX as int, 0int))
}


// ---------------------------------------------------------------------------
// The nearest centroids
// ---------------------------------------------------------------------------

/// Distance from `q` to the centroid of each cluster, in lane arithmetic.
pub open spec fn centroid_distances(raw: Seq<u8>, q: Seq<i16>) -> Seq<int> {
    Seq::new(
        image::clusters(raw) as nat,
        |c: int| lane_distance(q, search::centroid_vector(raw, c)),
    )
}

/// `s` after place `i` has been held against the places `i + 1 .. j`, and the
/// nearer of the two put at `i` each time.
pub open spec fn sift(s: Slots, i: int, j: int) -> Slots
    decreases j - i,
{
    if j <= i + 1 {
        s
    } else {
        let t = sift(s, i, j - 1);
        if t[j - 1].0 < t[i].0 {
            t.update(i, t[j - 1]).update(j - 1, t[i])
        } else {
            t
        }
    }
}

/// `s` after the first `n` places have been sifted in turn.
pub open spec fn sifted(s: Slots, n: int) -> Slots
    decreases n,
{
    if n <= 0 {
        s
    } else {
        sift(sifted(s, n - 1), n - 1, s.len() as int)
    }
}

/// The `np` clusters with the nearest centroids, nearest first.
pub open spec fn probe_order(raw: Seq<u8>, q: Seq<i16>, np: int) -> Slots {
    sifted(
        nearest::offer_all(
            nearest::open_slots(np, u32::MAX as int),
            centroid_distances(raw, q),
        ),
        np - 1,
    )
}

/// Sifts every place in turn.
fn exchange_sort(slots: &mut Vec<(u64, usize)>, Ghost(k): Ghost<int>)
    requires
        old(slots)@.len() > 0,
        sort::tags_below(old(slots)@, k),
    ensures
        sort::slots_of(final(slots)@) == sifted(
            sort::slots_of(old(slots)@),
            old(slots)@.len() - 1,
        ),
        final(slots)@.len() == old(slots)@.len(),
        sort::tags_below(final(slots)@, k),
{
    let ghost s = sort::slots_of(slots@);
    let n = slots.len();
    for i in 0..n - 1
        invariant
            n == slots@.len(),
            n == s.len(),
            n > 0,
            sort::slots_of(slots@) == sifted(s, i as int),
            sort::tags_below(slots@, k),
    {
        let ghost t = sort::slots_of(slots@);
        for j in i + 1..n
            invariant
                n == slots@.len(),
                i < n,
                sort::slots_of(slots@) == sift(t, i as int, j as int),
                sort::tags_below(slots@, k),
        {
            let ghost u = sort::slots_of(slots@);
            let a = slots[i];
            let b = slots[j];
            if b.0 < a.0 {
                slots.set(i, b);
                slots.set(j, a);
                assert(sort::slots_of(slots@) =~= u.update(i as int, u[j as int]).update(
                    j as int,
                    u[i as int],
                ));
            }
        }
    }
}

impl<'a> Index<'a> {
    /// Pair `p` of the centroid of cluster `lane` of group `g`.
    fn centroid_pair(&self, g: usize, p: usize, lane: usize) -> (r: (i16, i16))
        requires
            self.wf(),
            g < self.n_groups,
            p < 7,
            lane < 8,
        ensures
            g * 8 + lane < self.k ==> {
                &&& r.0 == image::centroid_at(self@, g * 8 + lane, p * 2)
                &&& r.1 == image::centroid_at(self@, g * 8 + lane, p * 2 + 1)
            },
    {
        let base = (g * PAIRS + p) * 16 + lane * 2;
        proof {
            let c = g * 8 + lane;
            assert(search::row_offset(c, p * 2) == base);
            assert(search::row_offset(c, p * 2 + 1) == base + 1);
            if c < self.k {
                assert(self.in_tables(c, p * 2));
                assert(self.in_tables(c, p * 2 + 1));
            }
        }
        (self.cpsoa[base], self.cpsoa[base + 1])
    }

    /// Distances to the centroids of the eight clusters of group `g`.
    fn group_distances(&self, g: usize, q: &[i16; DIMS]) -> (acc: [u32; 8])
        requires
            self.wf(),
            g < self.n_groups,
        ensures
            forall|lane: int|
                0 <= lane < 8 && g * 8 + lane < self.k ==> #[trigger] acc@[lane] == lane_distance(
                    q@,
                    search::centroid_vector(self@, g * 8 + lane),
                ),
    {
        let ghost raw = self@;
        let mut acc: [u32; 8] = [0; 8];
        for p in 0..PAIRS
            invariant
                self.wf(),
                raw == self@,
                g < self.n_groups,
                forall|lane: int|
                    0 <= lane < 8 && g * 8 + lane < self.k ==> #[trigger] acc@[lane] == lane_prefix(
                        q@,
                        search::centroid_vector(raw, g * 8 + lane),
                        p * 2,
                    ),
        {
            for lane in 0..8usize
                invariant
                    self.wf(),
                    raw == self@,
                    g < self.n_groups,
                    p < PAIRS,
                    forall|m: int|
                        0 <= m < 8 && g * 8 + m < self.k ==> #[trigger] acc@[m] == lane_prefix(
                            q@,
                            search::centroid_vector(raw, g * 8 + m),
                            if m < lane {
                                p * 2 + 2
                            } else {
                                p * 2
                            },
                        ),
            {
                let (a, b) = self.centroid_pair(g, p, lane);
                let x = spair(q[p * 2], q[p * 2 + 1], a, b);
                proof {
                    let c = g * 8 + lane;
                    if c < self.k {
                        let v = search::centroid_vector(raw, c);
                        lemma_lane_pair(q@, v, p as int);
                        lemma_wrap32_add(
                            nearest::square_sum(lane_differences(q@, v).take(p * 2)),
                            x as int,
                        );
                    }
                }
                acc[lane] = acc[lane].wrapping_add(x);
            }
        }
        acc
    }
}

/// One more pair of coordinates.
proof fn lemma_lane_pair(q: Seq<i16>, v: Seq<int>, p: int)
    requires
        0 <= p < 7,
    ensures
        lane_prefix(q, v, p * 2 + 2) == wrap32(
            nearest::square_sum(lane_differences(q, v).take(p * 2)) + nearest::square(
                wrap16(q[p * 2] - v[p * 2]),
            ) + nearest::square(wrap16(q[p * 2 + 1] - v[p * 2 + 1])),
        ),
{
    nearest::lemma_square_sum_step(lane_differences(q, v), p * 2);
    nearest::lemma_square_sum_step(lane_differences(q, v), p * 2 + 1);
}


impl<'a> Index<'a> {
    /// The `n` clusters with the nearest centroids, nearest first.
    fn find_top_centroids(&self, q: &[i16; DIMS], n: usize) -> (r: Vec<(u64, usize)>)
        requires
            self.wf(),
            0 < n <= self.k,
        ensures
            sort::slots_of(r@) == probe_order(self@, q@, n as int),
            r@.len() == n,
            sort::tags_below(r@, self.k as int),
    {
        let ghost ds = centroid_distances(self@, q@);
        let ghost none = nearest::open_slots(n as int, u32::MAX as int);
        let mut slots: Vec<(u64, usize)> = Vec::new();
        for i in 0..n
            invariant
                n <= self.k,
                slots@.len() == i,
                forall|j: int| 0 <= j < i ==> #[trigger] slots@[j] == (u32::MAX as u64, j as usize),
                sort::tags_below(slots@, self.k as int),
        {
            slots.push((u32::MAX as u64, i));
        }
        assert(sort::slots_of(slots@) =~= none);
        assert(ds.take(0) =~= Seq::empty());
        let mut worst = worst_of(&slots);
        for g in 0..self.n_groups
            invariant
                self.wf(),
                0 < n == slots@.len(),
                ds == centroid_distances(self@, q@),
                sort::slots_of(slots@) == nearest::offer_all(
                    none,
                    ds.take(
                        if g * 8 < self.k {
                            g * 8
                        } else {
                            self.k as int
                        },
                    ),
                ),
                worst == nearest::worst_slot(sort::slots_of(slots@)),
                worst < n,
                sort::tags_below(slots@, self.k as int),
        {
            let vals = self.group_distances(g, q);
            let lim = if self.k - g * 8 < 8 {
                self.k - g * 8
            } else {
                8
            };
            for i in 0..lim
                invariant
                    self.wf(),
                    g < self.n_groups,
                    g * 8 + lim <= self.k,
                    lim <= 8,
                    0 < n == slots@.len(),
                    ds == centroid_distances(self@, q@),
                    forall|lane: int|
                        0 <= lane < 8 && g * 8 + lane < self.k ==> #[trigger] vals@[lane]
                            == lane_distance(q@, search::centroid_vector(self@, g * 8 + lane)),
                    sort::slots_of(slots@) == nearest::offer_all(none, ds.take(g * 8 + i)),
                    worst == nearest::worst_slot(sort::slots_of(slots@)),
                    worst < n,
                    sort::tags_below(slots@, self.k as int),
            {
                let ghost t = sort::slots_of(slots@);
                let c = g * 8 + i;
                let d = vals[i] as u64;
                proof {
                    assert(ds.take(c + 1).drop_last() =~= ds.take(c as int));
                    assert(ds[c as int] == d);
                }
                if d < slots[worst].0 {
                    proof {
                        assert(sort::slots_of(slots@.update(worst as int, (d, c))) =~= t.update(
                            worst as int,
                            (d as int, c as int),
                        ));
                    }
                    slots.set(worst, (d, c));
                    worst = worst_of(&slots);
                }
            }
        }
        assert(ds.take(ds.len() as int) =~= ds);
        exchange_sort(&mut slots, Ghost(self.k as int));
        slots
    }

    /// Adds pair `p` of block `block_id` to the partial sums of its lanes.
    fn add_block_pair(&self, q: &[i16; DIMS], block_id: usize, p: usize, acc: [u32; 8]) -> (r: [u32;
        8])
        requires
            self.wf(),
            p < 7,
            self.l.blocks + (block_id + 1) * 224 <= self@.len(),
            forall|lane: int|
                0 <= lane < 8 ==> #[trigger] acc@[lane] == lane_prefix(
                    q@,
                    image::lane_vector(self@, block_id as int, lane),
                    p * 2,
                ),
        ensures
            forall|lane: int|
                0 <= lane < 8 ==> #[trigger] r@[lane] == lane_prefix(
                    q@,
                    image::lane_vector(self@, block_id as int, lane),
                    p * 2 + 2,
                ),
    {
        let ghost raw = self@;
        let mut r = acc;
        for lane in 0..8usize
            invariant
                self.wf(),
                raw == self@,
                p < 7,
                self.l.blocks + (block_id + 1) * 224 <= raw.len(),
                forall|m: int|
                    0 <= m < 8 ==> #[trigger] r@[m] == lane_prefix(
                        q@,
                        image::lane_vector(raw, block_id as int, m),
                        if m < lane {
                            p * 2 + 2
                        } else {
                            p * 2
                        },
                    ),
        {
            let a = self.block_val(block_id, block_pair_offset(p * 2, lane));
            let b = self.block_val(block_id, block_pair_offset(p * 2 + 1, lane));
            let x = spair(q[p * 2], q[p * 2 + 1], a, b);
            proof {
                let v = image::lane_vector(raw, block_id as int, lane as int);
                lemma_lane_pair(q@, v, p as int);
                lemma_wrap32_add(
                    nearest::square_sum(lane_differences(q@, v).take(p * 2)),
                    x as int,
                );
            }
            r[lane] = r[lane].wrapping_add(x);
        }
        r
    }

    /// Distances to the lanes of block `b`, or nothing once all of its lanes
    /// have reached `limit`.
    fn block_sums(&self, q: &[i16; DIMS], b: usize, limit: u32) -> (r: Option<[u32; 8]>)
        requires
            self.wf(),
            self.l.blocks + (b + 1) * 224 <= self@.len(),
        ensures
            r is None <==> all_reach(self@, q@, b as int, 6, limit as int) || all_reach(
                self@,
                q@,
                b as int,
                10,
                limit as int,
            ),
            r matches Some(acc) ==> forall|lane: int|
                0 <= lane < 8 ==> #[trigger] acc@[lane] == lane_distance(
                    q@,
                    image::lane_vector(self@, b as int, lane),
                ),
    {
        let zero: [u32; 8] = [0; 8];
        proof {
            assert forall|lane: int| 0 <= lane < 8 implies #[trigger] zero@[lane] == lane_prefix(
                q@,
                image::lane_vector(self@, b as int, lane),
                0,
            ) by {
                let d = lane_differences(q@, image::lane_vector(self@, b as int, lane));
                assert(d.take(0).len() == 0);
            }
        }
        let acc2 = self.add_block_pair(q, b, 0, zero);
        let acc4 = self.add_block_pair(q, b, 1, acc2);
        let acc6 = self.add_block_pair(q, b, 2, acc4);
        if self.lanes_reach(q, b, 6, &acc6, limit) {
            return None;
        }
        let acc8 = self.add_block_pair(q, b, 3, acc6);
        let acc10 = self.add_block_pair(q, b, 4, acc8);
        if self.lanes_reach(q, b, 10, &acc10, limit) {
            return None;
        }
        let acc12 = self.add_block_pair(q, b, 5, acc10);
        let acc14 = self.add_block_pair(q, b, 6, acc12);
        Some(acc14)
    }

    /// Whether all lanes of block `b` have reached `limit` after `n`
    /// coordinates, of which `acc` holds the sums.
    fn lanes_reach(&self, q: &[i16; DIMS], b: usize, n: usize, acc: &[u32; 8], limit: u32) -> (r:
        bool)
        requires
            forall|lane: int|
                0 <= lane < 8 ==> #[trigger] acc@[lane] == lane_prefix(
                    q@,
                    image::lane_vector(self@, b as int, lane),
                    n as int,
                ),
        ensures
            r == all_reach(self@, q@, b as int, n as int, limit as int),
    {
        let r = all_reached(acc, limit);
        proof {
            if r {
                assert forall|lane: int| 0 <= lane < 8 implies reaches(
                    #[trigger] lane_prefix(
                        q@,
                        image::lane_vector(self@, b as int, lane),
                        n as int,
                    ),
                    limit as int,
                ) by {
                    assert(reaches(acc@[lane] as int, limit as int));
                }
            } else {
                let lane = choose|lane: int|
                    0 <= lane < 8 && !reaches(#[trigger] acc@[lane] as int, limit as int);
                assert(!reaches(
                    lane_prefix(q@, image::lane_vector(self@, b as int, lane), n as int),
                    limit as int,
                ));
            }
        }
        r
    }

    /// Offers the vectors of block `i` of cluster `c` to `top`.
    fn scan_block_avx2(&self, q: &[i16; DIMS], c: usize, i: usize, top: &mut Ranked5)
        requires
            self.wf(),
            c < self.k,
            0 <= i < image::blocks_for(image::count_at(self@, c as int)),
            search::cluster_readable(self@, c as int),
            old(top).wf(),
        ensures
            final(top).wf(),
            final(top)@ == scan_block(self@, q@, c as int, i as int, old(top)@),
    {
        let ghost raw = self@;
        let ghost s0 = top@;
        let cnt = self.count(c) as usize;
        let bytes = self.raw.len();
        let b = self.block_start(c) as usize + i;
        let acc = match self.block_sums(q, b, top.max_top) {
            Some(acc) => acc,
            None => {
                return;
            },
        };
        let n_valid = if cnt - i * BLOCK < BLOCK {
            cnt - i * BLOCK
        } else {
            BLOCK
        };
        for j in 0..n_valid
            invariant
                self.wf(),
                raw == self@,
                c < self.k,
                n_valid <= 8,
                b == image::start_at(raw, c as int) + i,
                self.l.blocks + (b + 1) * 224 <= raw.len(),
                forall|lane: int|
                    0 <= lane < 8 ==> #[trigger] acc@[lane] == lane_distance(
                        q@,
                        image::lane_vector(raw, b as int, lane),
                    ),
                top.wf(),
                top@ == keep_range(raw, q@, c as int, i * 8, i * 8 + j, s0),
        {
            proof {
                let pos = i * 8 + j;
                assert(pos / 8 == i && pos % 8 == j);
            }
            let l = self.label(b, j);
            top.update_top5(acc[j], l);
        }
    }

    /// Offers the vectors of cluster `c` to `top`.
    fn scan_cluster_avx2(&self, q: &[i16; DIMS], c: usize, top: &mut Ranked5)
        requires
            self.wf(),
            c < self.k,
            search::cluster_readable(self@, c as int),
            old(top).wf(),
        ensures
            final(top).wf(),
            final(top)@ == scan(self@, q@, c as int, old(top)@),
    {
        let ghost raw = self@;
        let cnt = self.count(c) as usize;
        if cnt == 0 {
            return;
        }
        let bytes = self.raw.len();
        let nblocks = (cnt + (BLOCK - 1)) / BLOCK;
        for i in 0..nblocks
            invariant
                self.wf(),
                raw == self@,
                c < self.k,
                search::cluster_readable(raw, c as int),
                nblocks == image::blocks_for(image::count_at(raw, c as int)),
                top.wf(),
                top@ == scan_blocks(raw, q@, c as int, i as int, old(top)@),
        {
            self.scan_block_avx2(q, c, i, top);
        }
    }
}

fn all_reached(acc: &[u32; 8], limit: u32) -> (r: bool)
    ensures
        r == (forall|lane: int|
            0 <= lane < 8 ==> reaches(#[trigger] acc@[lane] as int, limit as int)),
{
    for i in 0..8usize
        invariant
            forall|lane: int|
                0 <= lane < i ==> reaches(#[trigger] acc@[lane] as int, limit as int),
    {
        let x = acc[i];
        if !(x < 0x8000_0000 && (x >= limit || x == 0x7fff_ffff)) {
            assert(!reaches(acc@[i as int] as int, limit as int));
            return false;
        }
    }
    true
}


// ---------------------------------------------------------------------------
// The search
// ---------------------------------------------------------------------------

/// What five slots hold after the first `n` clusters of `order`.
pub open spec fn probe(raw: Seq<u8>, q: Seq<i16>, order: Slots, n: int, s: Slots) -> Slots
    decreases n,
{
    if n <= 0 {
        s
    } else {
        scan(raw, q, order[n - 1].1, probe(raw, q, order, n - 1, s))
    }
}

/// Distance from `q` to the box of each cluster, in lane arithmetic.
pub open spec fn cluster_bounds(raw: Seq<u8>, q: Seq<i16>) -> Seq<int> {
    Seq::new(image::clusters(raw) as nat, |c: int| lane_bound(raw, q, c))
}

/// What five slots hold after the clusters of `list` from place `i` on, up to
/// the first whose bound has reached the last slot, or the first that brings
/// the sum of labels outside `lo ..= hi`.
pub open spec fn repair(
    raw: Seq<u8>,
    q: Seq<i16>,
    list: Slots,
    i: int,
    s: Slots,
    lo: int,
    hi: int,
) -> Slots
    decreases list.len() - i,
{
    if i < 0 || i >= list.len() || list[i].0 >= s.last().0 {
        s
    } else {
        let t = scan(raw, q, list[i].1, s);
        if lo <= scalar::tag_sum(t) <= hi {
            repair(raw, q, list, i + 1, t, lo, hi)
        } else {
            t
        }
    }
}

/// The five slots that a search ends with.
pub open spec fn kept(raw: Seq<u8>, q: Seq<i16>, nprobe: int, lo: int, hi: int) -> Slots {
    let order = probe_order(raw, q, scalar::probe_count(nprobe, image::clusters(raw)));
    let s = probe(raw, q, order, order.len() as int, empty_five());
    if lo <= scalar::tag_sum(s) <= hi {
        let list = nearest::by_distance(
            scalar::candidates(
                raw,
                cluster_bounds(raw, q),
                order,
                s.last().0,
                image::clusters(raw),
            ),
        );
        repair(raw, q, list, 0, s, lo, hi)
    } else {
        s
    }
}

/// The blocks of each of the first `n` clusters of `order` lie inside the bytes.
pub open spec fn probe_within(raw: Seq<u8>, order: Slots, n: int) -> bool {
    forall|i: int| 0 <= i < n ==> search::cluster_readable(raw, (#[trigger] order[i]).1)
}

/// The blocks of each cluster of `list` from place `i` on that is scanned lie
/// inside the bytes.
pub open spec fn repair_within(
    raw: Seq<u8>,
    q: Seq<i16>,
    list: Slots,
    i: int,
    s: Slots,
    lo: int,
    hi: int,
) -> bool
    decreases list.len() - i,
{
    i < 0 || i >= list.len() || list[i].0 >= s.last().0 || {
        let t = scan(raw, q, list[i].1, s);
        &&& search::cluster_readable(raw, list[i].1)
        &&& lo <= scalar::tag_sum(t) <= hi ==> repair_within(raw, q, list, i + 1, t, lo, hi)
    }
}

/// A search stays inside the bytes.
pub open spec fn kept_within(raw: Seq<u8>, q: Seq<i16>, nprobe: int, lo: int, hi: int) -> bool {
    let order = probe_order(raw, q, scalar::probe_count(nprobe, image::clusters(raw)));
    let s = probe(raw, q, order, order.len() as int, empty_five());
    &&& probe_within(raw, order, order.len() as int)
    &&& lo <= scalar::tag_sum(s) <= hi ==> {
        let list = nearest::by_distance(
            scalar::candidates(
                raw,
                cluster_bounds(raw, q),
                order,
                s.last().0,
                image::clusters(raw),
            ),
        );
        repair_within(raw, q, list, 0, s, lo, hi)
    }
}

impl<'a> Index<'a> {
    /// Adds the gaps of the pair `p` of coordinates between `q` and the box in
    /// lane `lane` of group `g`.
    #[verifier::spinoff_prover]
    fn add_gap_pair(&self, g: usize, p: usize, lane: usize, q: &[i16; DIMS], acc: u32) -> (r: u32)
        requires
            self.wf(),
            g < self.n_groups,
            p < PAIRS,
            lane < 8,
            g * 8 + lane < self.k ==> acc == bound_prefix(self@, q@, g * 8 + lane, p * 2),
        ensures
            g * 8 + lane < self.k ==> r == bound_prefix(self@, q@, g * 8 + lane, p * 2 + 2),
    {
        let ghost raw = self@;
        let base = (g * PAIRS + p) * 16 + lane * 2;
        let a = gap_of(q[p * 2], self.bpsoa_min[base], self.bpsoa_max[base]);
        let b = gap_of(q[p * 2 + 1], self.bpsoa_min[base + 1], self.bpsoa_max[base + 1]);
        proof {
            nearest::lemma_square_bound(a as int, 32767);
            nearest::lemma_square_bound(b as int, 32767);
        }
        let x = (a * a + b * b) as u32;
        proof {
            let c = g * 8 + lane;
            if c < self.k {
                let gs = lane_gaps(q@, search::bmin_vector(raw, c), search::bmax_vector(raw, c));
                assert(search::row_offset(c, p * 2) == base);
                assert(search::row_offset(c, p * 2 + 1) == base + 1);
                assert(self.in_tables(c, p * 2));
                assert(self.in_tables(c, p * 2 + 1));
                nearest::lemma_square_sum_step(gs, p * 2);
                nearest::lemma_square_sum_step(gs, p * 2 + 1);
                lemma_wrap32_add(nearest::square_sum(gs.take(p * 2)), x as int);
            }
        }
        acc.wrapping_add(x)
    }

    /// Distances to the boxes of the eight clusters of group `g`.
    #[verifier::spinoff_prover]
    fn bbox_lb8(&self, g: usize, q: &[i16; DIMS]) -> (acc: [u32; 8])
        requires
            self.wf(),
            g < self.n_groups,
        ensures
            forall|lane: int|
                0 <= lane < 8 && g * 8 + lane < self.k ==> #[trigger] acc@[lane] == lane_bound(
                    self@,
                    q@,
                    g * 8 + lane,
                ),
    {
        let ghost raw = self@;
        let mut acc: [u32; 8] = [0; 8];
        for p in 0..PAIRS
            invariant
                self.wf(),
                raw == self@,
                g < self.n_groups,
                forall|lane: int|
                    0 <= lane < 8 && g * 8 + lane < self.k ==> #[trigger] acc@[lane]
                        == bound_prefix(raw, q@, g * 8 + lane, p * 2),
        {
            for lane in 0..8usize
                invariant
                    self.wf(),
                    raw == self@,
                    g < self.n_groups,
                    p < PAIRS,
                    forall|m: int|
                        0 <= m < 8 && g * 8 + m < self.k ==> #[trigger] acc@[m] == bound_prefix(
                            raw,
                            q@,
                            g * 8 + m,
                            if m < lane {
                                p * 2 + 2
                            } else {
                                p * 2
                            },
                        ),
            {
                let sum = self.add_gap_pair(g, p, lane, q, acc[lane]);
                acc[lane] = sum;
            }
        }
        proof {
            assert forall|lane: int| 0 <= lane < 8 && g * 8 + lane < self.k implies
                #[trigger] acc@[lane] == lane_bound(raw, q@, g * 8 + lane) by {
                let gs = lane_gaps(
                    q@,
                    search::bmin_vector(raw, g * 8 + lane),
                    search::bmax_vector(raw, g * 8 + lane),
                );
                assert(gs.take(14) =~= gs);
                assert(acc@[lane] == bound_prefix(raw, q@, g * 8 + lane, 14));
            }
        }
        acc
    }

    /// Clusters that hold a vector, are not marked as scanned, and whose bound
    /// is less than `limit`; least bound first.
    fn repair_list_avx2(
        &self,
        q: &[i16; DIMS],
        scanned: &Vec<bool>,
        limit: u32,
        Ghost(order): Ghost<Slots>,
    ) -> (r: Vec<(u64, usize)>)
        requires
            self.wf(),
            scanned@.len() == self.k,
            forall|c: int| 0 <= c < self.k ==> #[trigger] scanned@[c] == scalar::is_tagged(order, c),
        ensures
            sort::slots_of(r@) == nearest::by_distance(
                scalar::candidates(
                    self@,
                    cluster_bounds(self@, q@),
                    order,
                    limit as int,
                    self.k as int,
                ),
            ),
            sort::tags_below(r@, self.k as int),
    {
        let mut cands: Vec<(u64, usize)> = Vec::new();
        let ghost raw = self@;
        let ghost bounds = cluster_bounds(raw, q@);
        assert(sort::slots_of(cands@) =~= Seq::empty());
        for g in 0..self.n_groups
            invariant
                self.wf(),
                raw == self@,
                bounds == cluster_bounds(raw, q@),
                scanned@.len() == self.k,
                forall|c: int|
                    0 <= c < self.k ==> #[trigger] scanned@[c] == scalar::is_tagged(order, c),
                sort::slots_of(cands@) == scalar::candidates(
                    raw,
                    bounds,
                    order,
                    limit as int,
                    if g * 8 < self.k {
                        g * 8
                    } else {
                        self.k as int
                    },
                ),
        {
            let lbs = self.bbox_lb8(g, q);
            let lim = if self.k - g * 8 < 8 {
                self.k - g * 8
            } else {
                8
            };
            for i in 0..lim
                invariant
                    self.wf(),
                    raw == self@,
                    bounds == cluster_bounds(raw, q@),
                    g < self.n_groups,
                    g * 8 + lim <= self.k,
                    lim <= 8,
                    scanned@.len() == self.k,
                    forall|c: int|
                        0 <= c < self.k ==> #[trigger] scanned@[c] == scalar::is_tagged(order, c),
                    forall|lane: int|
                        0 <= lane < 8 && g * 8 + lane < self.k ==> #[trigger] lbs@[lane]
                            == lane_bound(raw, q@, g * 8 + lane),
                    sort::slots_of(cands@) == scalar::candidates(
                        raw,
                        bounds,
                        order,
                        limit as int,
                        g * 8 + i,
                    ),
            {
                let c = g * 8 + i;
                assert(bounds[c as int] == lbs@[i as int]);
                if lbs[i] < limit && !scanned[c] && self.count(c) != 0 {
                    let lb = lbs[i] as u64;
                    proof {
                        assert(sort::slots_of(cands@.push((lb, c))) =~= sort::slots_of(
                            cands@,
                        ).push((lb as int, c as int)));
                    }
                    cands.push((lb, c));
                }
            }
        }
        proof {
            scalar::lemma_candidates_ascend(raw, bounds, order, limit as int, self.k as int);
        }
        let r = sort_by_distance(&cands);
        proof {
            let a = sort::slots_of(cands@);
            let b = sort::slots_of(r@);
            sort::lemma_by_distance_multiset(a);
            assert forall|i: int| 0 <= i < r@.len() implies (#[trigger] r@[i]).1 < self.k by {
                let m = sort::lemma_same_slot(b, a, i);
                assert(b[i] == (r@[i].0 as int, r@[i].1 as int));
                assert(0 <= a[m].1 < self.k);
            }
        }
        r
    }

    /// Offers the vectors of cluster `c` to `top`, if they lie inside the bytes.
    fn scan_if_readable_avx2(&self, q: &[i16; DIMS], c: usize, top: &mut Ranked5) -> (ok: bool)
        requires
            self.wf(),
            c < self.k,
            old(top).wf(),
        ensures
            final(top).wf(),
            ok == search::cluster_readable(self@, c as int),
            ok ==> final(top)@ == scan(self@, q@, c as int, old(top)@),
    {
        if !self.is_readable(c) {
            return false;
        }
        self.scan_cluster_avx2(q, c, top);
        true
    }

    /// Scans the clusters of `cands` in turn, up to the first whose bound has
    /// reached the last slot, or the first that brings the sum of labels
    /// outside `repair_min ..= repair_max`. Stops at one that does not lie
    /// inside the bytes.
    fn repair(
        &self,
        q: &[i16; DIMS],
        cands: &Vec<(u64, usize)>,
        top: &mut Ranked5,
        repair_min: u8,
        repair_max: u8,
    ) -> (ok: bool)
        requires
            self.wf(),
            sort::tags_below(cands@, self.k as int),
            old(top).wf(),
        ensures
            final(top).wf(),
            ok == repair_within(
                self@,
                q@,
                sort::slots_of(cands@),
                0,
                old(top)@,
                repair_min as int,
                repair_max as int,
            ),
            ok ==> final(top)@ == repair(
                self@,
                q@,
                sort::slots_of(cands@),
                0,
                old(top)@,
                repair_min as int,
                repair_max as int,
            ),
    {
        let ghost raw = self@;
        let ghost list = sort::slots_of(cands@);
        let ghost lo = repair_min as int;
        let ghost hi = repair_max as int;
        let ghost goal = repair(raw, q@, list, 0, top@, lo, hi);
        let ghost within = repair_within(raw, q@, list, 0, top@, lo, hi);
        let mut i: usize = 0;
        while i < cands.len()
            invariant
                self.wf(),
                raw == self@,
                list == sort::slots_of(cands@),
                lo == repair_min,
                hi == repair_max,
                sort::tags_below(cands@, self.k as int),
                i <= cands@.len(),
                top.wf(),
                goal == repair(raw, q@, list, 0, old(top)@, lo, hi),
                goal == repair(raw, q@, list, i as int, top@, lo, hi),
                within == repair_within(raw, q@, list, 0, old(top)@, lo, hi),
                within == repair_within(raw, q@, list, i as int, top@, lo, hi),
            decreases cands@.len() - i,
        {
            let c = cands[i].1;
            assert(list[i as int] == (cands@[i as int].0 as int, c as int));
            if cands[i].0 >= top.max_top as u64 {
                return true;
            }
            if !self.scan_if_readable_avx2(q, c, top) {
                return false;
            }
            let now = top.sum();
            if now < repair_min || now > repair_max {
                return true;
            }
            i = i + 1;
        }
        true
    }

    /// Sum of the labels of the five vectors that the search keeps.
    ///
    /// Probes the `nprobe` clusters with the nearest centroids. If the sum
    /// then lies in `repair_min ..= repair_max`, scans the other clusters
    /// whose box is near enough, until the sum leaves that range.
    pub fn search_avx2(
        &self,
        q: &[i16; DIMS],
        nprobe: usize,
        repair_min: u8,
        repair_max: u8,
    ) -> (r: u8)
        requires
            self.wf(),
            self.k > 0,
            kept_within(self@, q@, nprobe as int, repair_min as int, repair_max as int),
        ensures
            r == scalar::tag_sum(
                kept(self@, q@, nprobe as int, repair_min as int, repair_max as int),
            ),
    {
        self.try_search_avx2(q, nprobe, repair_min, repair_max).unwrap()
    }

    /// Sum of the labels of the five vectors that the search keeps. There is
    /// none where the search does not stay inside the bytes.
    pub(crate) fn try_search_avx2(
        &self,
        q: &[i16; DIMS],
        nprobe: usize,
        repair_min: u8,
        repair_max: u8,
    ) -> (r: Option<u8>)
        requires
            self.wf(),
            self.k > 0,
        ensures
            r is Some == kept_within(
                self@,
                q@,
                nprobe as int,
                repair_min as int,
                repair_max as int,
            ),
            r matches Some(x) ==> x == scalar::tag_sum(
                kept(self@, q@, nprobe as int, repair_min as int, repair_max as int),
            ),
    {
        let ghost raw = self@;
        let wanted = if nprobe < 1 {
            1
        } else if nprobe > 64 {
            64
        } else {
            nprobe
        };
        let np = if wanted < self.k {
            wanted
        } else {
            self.k
        };
        let probes = self.find_top_centroids(q, np);
        let ghost order = sort::slots_of(probes@);
        let mut top = Ranked5::new();
        let mut scanned: Vec<bool> = vec![false; self.k];
        assert(top@ =~= empty_five());
        for i in 0..np
            invariant
                self.wf(),
                raw == self@,
                np == probes@.len(),
                order == sort::slots_of(probes@),
                sort::tags_below(probes@, self.k as int),
                scanned@.len() == self.k,
                forall|c: int|
                    0 <= c < self.k ==> #[trigger] scanned@[c] == scalar::is_tagged(
                        order.take(i as int),
                        c,
                    ),
                top.wf(),
                top@ == probe(raw, q@, order, i as int, empty_five()),
                order.len() == np,
                order == probe_order(raw, q@, np as int),
                np == scalar::probe_count(nprobe as int, image::clusters(raw)),
                probe_within(raw, order, i as int),
        {
            let c = probes[i].1;
            assert(order[i as int] == (probes@[i as int].0 as int, c as int));
            if !self.scan_if_readable_avx2(q, c, &mut top) {
                assert(!search::cluster_readable(raw, order[i as int].1));
                return None;
            }
            scanned.set(c, true);
            proof {
                scalar::lemma_is_tagged_step(order, i as int);
            }
        }
        assert(order.take(np as int) =~= order);
        let cnt = top.sum();
        if cnt >= repair_min && cnt <= repair_max {
            let cands = self.repair_list_avx2(q, &scanned, top.max_top, Ghost(order));
            if !self.repair(q, &cands, &mut top, repair_min, repair_max) {
                return None;
            }
            return Some(top.sum());
        }
        Some(cnt)
    }
}

spec fn bound_prefix(raw: Seq<u8>, q: Seq<i16>, c: int, n: int) -> int {
    wrap32(
        nearest::square_sum(
            lane_gaps(q, search::bmin_vector(raw, c), search::bmax_vector(raw, c)).take(n),
        ),
    )
}

} // verus!
