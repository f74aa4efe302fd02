//! Search with one vector at a time and exact squared distances.
use vstd::prelude::*;
use crate::format::{block_pair_offset, BLOCK, DIMS};
use crate::image;
use crate::nearest::{self, Slots};
use crate::search::{self, Index};
use crate::sort::{self, insertion_sort, sort_by_distance, worst_of};

verus! {

// ---------------------------------------------------------------------------
// The five nearest
// ---------------------------------------------------------------------------

/// Sum of the tags of all slots.
pub open spec fn tag_total(s: Slots) -> int
    decreases s.len(),
{
    if s.len() == 0 {
        0
    } else {
        tag_total(s.drop_last()) + s.last().1
    }
}

/// Sum of the tags of all slots, as a byte holds it: a sum past the greatest
/// byte wraps around.
pub open spec fn tag_sum(s: Slots) -> int {
    tag_total(s) % 256
}

/// What five slots hold after the first `n` vectors of cluster `c` in turn,
/// each with its label.
pub open spec fn scan(raw: Seq<u8>, q: Seq<i16>, c: int, n: int, s: Slots) -> Slots
    decreases n,
{
    if n <= 0 {
        s
    } else {
        nearest::offer(
            scan(raw, q, c, n - 1, s),
            nearest::distance(q, image::stored_vector(raw, c, n - 1)),
            image::stored_label(raw, c, n - 1),
        )
    }
}

pub proof fn lemma_tag_sum_five(s: Slots)
    requires
        s.len() == 5,
    ensures
        tag_sum(s) == (s[0].1 + s[1].1 + s[2].1 + s[3].1 + s[4].1) % 256,
{
    reveal_with_fuel(tag_total, 6);
    let a = s.drop_last();
    let b = a.drop_last();
    let c = b.drop_last();
    let d = c.drop_last();
    assert(d.drop_last().len() == 0);
    assert(a.last() == s[3] && b.last() == s[2] && c.last() == s[1] && d.last() == s[0]);
}

/// Sum of five labels; one past the greatest byte wraps around.
pub(crate) fn label_sum(l: &[u8; 5]) -> (r: u8)
    ensures
        r == (l@[0] + l@[1] + l@[2] + l@[3] + l@[4]) % 256,
{
    l[0].wrapping_add(l[1]).wrapping_add(l[2]).wrapping_add(l[3]).wrapping_add(l[4])
}

struct Top5 {
    dist: [u64; 5],
    label: [u8; 5],
    worst: usize,
}

impl View for Top5 {
    type V = Slots;

    closed spec fn view(&self) -> Slots {
        Seq::new(5, |i: int| (self.dist@[i] as int, self.label@[i] as int))
    }
}

impl Top5 {
    spec fn wf(&self) -> bool {
        self.worst == nearest::worst_slot(self@)
    }

    fn new() -> (r: Self)
        ensures
            r.wf(),
            r@ =~= Seq::new(5, |i: int| (u64::MAX as int, 0int)),
    {
        let r = Top5 { dist: [u64::MAX; 5], label: [0; 5], worst: 0 };
        proof {
            nearest::lemma_worst_slot(r@);
            assert(r@[0].0 == r@[nearest::worst_slot(r@)].0);
        }
        r
    }

    fn worst_dist(&self) -> (r: u64)
        requires
            self.wf(),
        ensures
            r == nearest::worst_distance(self@),
    {
        proof {
            nearest::lemma_worst_slot(self@);
        }
        self.dist[self.worst]
    }

    fn add(&mut self, d: u64, l: u8)
        requires
            old(self).wf(),
        ensures
            final(self).wf(),
            final(self)@ =~= nearest::offer(old(self)@, d as int, l as int),
    {
        proof {
            nearest::lemma_worst_slot(self@);
        }
        if d >= self.dist[self.worst] {
            return;
        }
        self.dist[self.worst] = d;
        self.label[self.worst] = l;
        assert(self@ =~= nearest::offer(old(self)@, d as int, l as int));
        let ghost s = self@;
        let mut w: usize = 0;
        for i in 1..5usize
            invariant
                s == self@,
                s.len() == 5,
                w < i <= 5,
                w == nearest::worst_slot(s.take(i as int)),
        {
            proof {
                assert(s.take(i + 1).drop_last() =~= s.take(i as int));
            }
            if self.dist[i] > self.dist[w] {
                w = i;
            }
        }
        assert(s.take(5) =~= s);
        self.worst = w;
        assert(self@ =~= s);
    }

    fn fraud(&self) -> (r: u8)
        ensures
            r == tag_sum(self@),
    {
        proof {
            lemma_tag_sum_five(self@);
        }
        label_sum(&self.label)
    }
}



// ---------------------------------------------------------------------------
// What a search keeps
// ---------------------------------------------------------------------------

/// Number of clusters that a search probes.
pub open spec fn probe_count(nprobe: int, k: int) -> int {
    let wanted = if nprobe < 1 {
        1
    } else if nprobe > 64 {
        64
    } else {
        nprobe
    };
    if wanted < k {
        wanted
    } else {
        k
    }
}

/// Distance from `q` to the centroid of each cluster.
pub open spec fn centroid_distances(raw: Seq<u8>, q: Seq<i16>) -> Seq<int> {
    Seq::new(image::clusters(raw) as nat, |c: int| nearest::distance(q, search::centroid_vector(raw, c)))
}

/// The `np` clusters with the nearest centroids, nearest first.
pub open spec fn probe_order(raw: Seq<u8>, q: Seq<i16>, np: int) -> Slots {
    nearest::by_distance(nearest::offer_all(nearest::open_slots(np, u64::MAX as int), centroid_distances(raw, q)))
}

/// What five slots hold after the first `n` clusters of `order`: each but the
/// first is passed over if its box lies no nearer than the farthest slot.
pub open spec fn probe(raw: Seq<u8>, q: Seq<i16>, order: Slots, n: int, s: Slots) -> Slots
    decreases n,
{
    if n <= 0 {
        s
    } else {
        let t = probe(raw, q, order, n - 1, s);
        let c = order[n - 1].1;
        if n > 1 && search::cluster_bound(raw, q, c) >= nearest::worst_distance(t) {
            t
        } else {
            scan(raw, q, c, image::count_at(raw, c), t)
        }
    }
}

pub open spec fn is_tagged(s: Slots, tag: int) -> bool {
    exists|i: int| 0 <= i < s.len() && (#[trigger] s[i]).1 == tag
}

/// One more slot has one more tag.
pub proof fn lemma_is_tagged_step(s: Slots, i: int)
    requires
        0 <= i < s.len(),
    ensures
        forall|x: int|
            #[trigger] is_tagged(s.take(i + 1), x) == (is_tagged(s.take(i), x) || x == s[i].1),
{
    let a = s.take(i);
    let b = s.take(i + 1);
    assert forall|x: int|
        #[trigger] is_tagged(s.take(i + 1), x) == (is_tagged(s.take(i), x) || x == s[i].1) by {
        if is_tagged(a, x) {
            let m = choose|m: int| 0 <= m < a.len() && (#[trigger] a[m]).1 == x;
            assert(b[m] == a[m]);
        }
        if x == s[i].1 {
            assert(b[i].1 == x);
        }
        if is_tagged(b, x) && x != s[i].1 {
            let m = choose|m: int| 0 <= m < b.len() && (#[trigger] b[m]).1 == x;
            assert(a[m] == b[m]);
        }
    }
}

/// Distance from `q` to the box of each cluster.
pub open spec fn cluster_bounds(raw: Seq<u8>, q: Seq<i16>) -> Seq<int> {
    Seq::new(image::clusters(raw) as nat, |c: int| search::cluster_bound(raw, q, c))
}

/// Those of the first `n` clusters, tagged and with their bound, that hold a
/// vector, are not in `order`, and whose bound is less than `limit`.
pub open spec fn candidates(
    raw: Seq<u8>,
    bounds: Seq<int>,
    order: Slots,
    limit: int,
    n: int,
) -> Slots
    decreases n,
{
    if n <= 0 {
        Seq::empty()
    } else {
        let s = candidates(raw, bounds, order, limit, n - 1);
        if !is_tagged(order, n - 1) && image::count_at(raw, n - 1) != 0 && bounds[n - 1] < limit {
            s.push((bounds[n - 1], n - 1))
        } else {
            s
        }
    }
}

/// What five slots hold after the clusters of `list` from place `i` on, up to
/// the first whose box lies no nearer than the farthest slot, or the first
/// that brings the sum of labels outside `lo ..= hi`.
pub open spec fn repair(
    raw: Seq<u8>,
    q: Seq<i16>,
    list: Slots,
    i: int,
    s: Slots,
    lo: int,
    hi: int,
) -> Slots
    decreases list.len() - i,
{
    if i < 0 || i >= list.len() || list[i].0 >= nearest::worst_distance(s) {
        s
    } else {
        let t = scan(raw, q, list[i].1, image::count_at(raw, list[i].1), s);
        if lo <= tag_sum(t) <= hi {
            repair(raw, q, list, i + 1, t, lo, hi)
        } else {
            t
        }
    }
}

pub open spec fn empty_five() -> Slots {
    Seq::new(5, |i: int| (u64::MAX as int, 0int))
}

/// The five slots that the probes of a search end with.
pub open spec fn probed(raw: Seq<u8>, q: Seq<i16>, nprobe: int) -> Slots {
    let order = probe_order(raw, q, probe_count(nprobe, image::clusters(raw)));
    probe(raw, q, order, order.len() as int, empty_five())
}

/// The five slots that a search ends with.
pub open spec fn kept(raw: Seq<u8>, q: Seq<i16>, nprobe: int, lo: int, hi: int) -> Slots {
    let order = probe_order(raw, q, probe_count(nprobe, image::clusters(raw)));
    let s = probed(raw, q, nprobe);
    if lo <= tag_sum(s) <= hi {
        let list = nearest::by_distance(candidates(raw, cluster_bounds(raw, q), order, nearest::worst_distance(s), image::clusters(raw)));
        repair(raw, q, list, 0, s, lo, hi)
    } else {
        s
    }
}

// ---------------------------------------------------------------------------
// What a search reads
// ---------------------------------------------------------------------------

/// The blocks of each of the first `n` clusters of `order` that is not passed
/// over lie inside the bytes.
pub open spec fn probe_within(raw: Seq<u8>, q: Seq<i16>, order: Slots, n: int, s: Slots) -> bool
    decreases n,
{
    n > 0 ==> {
        let t = probe(raw, q, order, n - 1, s);
        let c = order[n - 1].1;
        &&& probe_within(raw, q, order, n - 1, s)
        &&& n > 1 && search::cluster_bound(raw, q, c) >= nearest::worst_distance(t)
            || search::cluster_readable(raw, c)
    }
}

/// The blocks of each cluster of `list` from place `i` on that is scanned lie
/// inside the bytes.
pub open spec fn repair_within(
    raw: Seq<u8>,
    q: Seq<i16>,
    list: Slots,
    i: int,
    s: Slots,
    lo: int,
    hi: int,
) -> bool
    decreases list.len() - i,
{
    i < 0 || i >= list.len() || list[i].0 >= nearest::worst_distance(s) || {
        let t = scan(raw, q, list[i].1, image::count_at(raw, list[i].1), s);
        &&& search::cluster_readable(raw, list[i].1)
        &&& lo <= tag_sum(t) <= hi ==> repair_within(raw, q, list, i + 1, t, lo, hi)
    }
}

/// The probes of a search stay inside the bytes.
pub open spec fn probed_within(raw: Seq<u8>, q: Seq<i16>, nprobe: int) -> bool {
    let order = probe_order(raw, q, probe_count(nprobe, image::clusters(raw)));
    probe_within(raw, q, order, order.len() as int, empty_five())
}

/// A search stays inside the bytes.
pub open spec fn kept_within(raw: Seq<u8>, q: Seq<i16>, nprobe: int, lo: int, hi: int) -> bool {
    let order = probe_order(raw, q, probe_count(nprobe, image::clusters(raw)));
    let s = probed(raw, q, nprobe);
    &&& probed_within(raw, q, nprobe)
    &&& lo <= tag_sum(s) <= hi ==> {
        let list = nearest::by_distance(
            candidates(
                raw,
                cluster_bounds(raw, q),
                order,
                nearest::worst_distance(s),
                image::clusters(raw),
            ),
        );
        repair_within(raw, q, list, 0, s, lo, hi)
    }
}

/// More probes read more.
proof fn lemma_probe_within(raw: Seq<u8>, q: Seq<i16>, order: Slots, n: int, m: int, s: Slots)
    requires
        n <= m,
        probe_within(raw, q, order, m, s),
    ensures
        probe_within(raw, q, order, n, s),
    decreases m - n,
{
    if n < m {
        lemma_probe_within(raw, q, order, n, m - 1, s);
    }
}

// ---------------------------------------------------------------------------
// The search
// ---------------------------------------------------------------------------

pub proof fn lemma_candidates_ascend(
    raw: Seq<u8>,
    bounds: Seq<int>,
    order: Slots, limit: int,
    n: int,
)
    ensures
        sort::tags_ascend(candidates(raw, bounds, order, limit, n)),
        forall|i: int|
            0 <= i < candidates(raw, bounds, order, limit, n).len() ==> 0 <= (#[trigger] candidates(
                raw,
                bounds,
                order,
                limit,
                n,
            )[i]).1 < n,
    decreases n,
{
    if n > 0 {
        lemma_candidates_ascend(raw, bounds, order, limit, n - 1);
        let s = candidates(raw, bounds, order, limit, n - 1);
        let t = candidates(raw, bounds, order, limit, n);
        assert forall|i: int, j: int| 0 <= i < j < t.len() implies (#[trigger] t[i]).1 < (
        #[trigger] t[j]).1 by {
            assert(t[i] == s[i]);
            if j < s.len() {
                assert(t[j] == s[j]);
            }
        }
        assert forall|i: int| 0 <= i < t.len() implies 0 <= (#[trigger] t[i]).1 < n by {
            if i < s.len() {
                assert(t[i] == s[i]);
            }
        }
    }
}

impl<'a> Index<'a> {
    fn dist_centroid(&self, q: &[i16; DIMS], c: usize) -> (r: u64)
        requires
            self.wf(),
            c < self.k,
        ensures
            r == nearest::distance(q@, search::centroid_vector(self@, c as int)),
            r < u64::MAX,
    {
        let ghost v = search::centroid_vector(self@, c as int);
        let ghost diffs = nearest::differences(q@, v);
        let mut s: i64 = 0;
        for d in 0..DIMS
            invariant
                self.wf(),
                c < self.k,
                v == search::centroid_vector(self@, c as int),
                diffs == nearest::differences(q@, v),
                s == nearest::square_sum(diffs.take(d as int)),
                0 <= s <= d * 4294836225,
        {
            let diff = q[d] as i64 - self.centroid(c, d) as i64;
            proof {
                nearest::lemma_square_bound(diff as int, 65535);
                nearest::lemma_square_sum_step(diffs, d as int);
            }
            s = s + diff * diff;
        }
        assert(diffs.take(14) =~= diffs);
        s as u64
    }

    fn bbox_lb(&self, q: &[i16; DIMS], c: usize) -> (r: u64)
        requires
            self.wf(),
            c < self.k,
        ensures
            r == search::cluster_bound(self@, q@, c as int),
    {
        let ghost lo = search::bmin_vector(self@, c as int);
        let ghost hi = search::bmax_vector(self@, c as int);
        let ghost gs = nearest::gaps(q@, lo, hi);
        let mut s: i64 = 0;
        for d in 0..DIMS
            invariant
                self.wf(),
                c < self.k,
                lo == search::bmin_vector(self@, c as int),
                hi == search::bmax_vector(self@, c as int),
                gs == nearest::gaps(q@, lo, hi),
                s == nearest::square_sum(gs.take(d as int)),
                0 <= s <= d * 4294836225,
        {
            let qd = q[d] as i64;
            let mn = self.bmin(c, d) as i64;
            let mx = self.bmax(c, d) as i64;
            let gap = if qd < mn {
                mn - qd
            } else if qd > mx {
                qd - mx
            } else {
                0
            };
            proof {
                nearest::lemma_square_bound(gap as int, 65535);
                nearest::lemma_square_sum_step(gs, d as int);
            }
            s = s + gap * gap;
        }
        assert(gs.take(14) =~= gs);
        s as u64
    }

    /// Distance to lane `lane` of block `block_id`, or some part of it that is
    /// no less than `limit`.
    fn lane_distance(&self, q: &[i16; DIMS], block_id: usize, lane: usize, limit: u64) -> (s: u64)
        requires
            self.wf(),
            lane < 8,
            self.l.blocks + (block_id + 1) * 224 <= self@.len(),
        ensures
            s == nearest::distance(q@, image::lane_vector(self@, block_id as int, lane as int)) || limit <= s
                <= nearest::distance(q@, image::lane_vector(self@, block_id as int, lane as int)),
    {
        let ghost raw = self@;
        let ghost v = image::lane_vector(raw, block_id as int, lane as int);
        let ghost diffs = nearest::differences(q@, v);
        let mut s: u64 = 0;
        let mut d: usize = 0;
        while d < DIMS && s < limit
            invariant
                self.wf(),
                raw == self@,
                lane < 8,
                self.l.blocks + (block_id + 1) * 224 <= raw.len(),
                v == image::lane_vector(raw, block_id as int, lane as int),
                diffs == nearest::differences(q@, v),
                d <= DIMS,
                s == nearest::square_sum(diffs.take(d as int)),
                0 <= s <= d * 4294836225,
            decreases DIMS - d,
        {
            let diff = q[d] as i64 - self.block_val(block_id, block_pair_offset(d, lane)) as i64;
            proof {
                nearest::lemma_square_bound(diff as int, 65535);
                nearest::lemma_square_sum_step(diffs, d as int);
            }
            s = s + (diff * diff) as u64;
            d = d + 1;
        }
        proof {
            assert(diffs.take(14) =~= diffs);
            nearest::lemma_square_sum_monotone(diffs, d as int, 14);
        }
        s
    }

    /// Offers the vectors of cluster `c` to `top`.
    fn scan_cluster(&self, c: usize, q: &[i16; DIMS], top: &mut Top5)
        requires
            self.wf(),
            c < self.k,
            search::cluster_readable(self@, c as int),
            old(top).wf(),
        ensures
            final(top).wf(),
            final(top)@ == scan(
                self@,
                q@,
                c as int,
                image::count_at(self@, c as int),
                old(top)@,
            ),
    {
        let ghost raw = self@;
        let ghost s0 = top@;
        let cnt = self.count(c) as usize;
        if cnt == 0 {
            return;
        }
        let start = self.block_start(c) as usize;
        let bytes = self.raw.len();
        let mut pos: usize = 0;
        while pos < cnt
            invariant
                self.wf(),
                c < self.k,
                raw == self@,
                bytes == raw.len(),
                cnt == image::count_at(raw, c as int),
                start == image::start_at(raw, c as int),
                self.l.blocks + (start + image::blocks_for(cnt as int)) * 224 <= bytes,
                pos <= cnt,
                top.wf(),
                top@ == scan(raw, q@, c as int, pos as int, s0),
            decreases cnt - pos,
        {
            let block_id = start + pos / BLOCK;
            let lane = pos % BLOCK;
            assert(pos as int / 8 < image::blocks_for(cnt as int));
            let limit = top.worst_dist();
            let s = self.lane_distance(q, block_id, lane, limit);
            let l = self.label(block_id, lane);
            top.add(s, l);
            pos = pos + 1;
        }
    }

    /// The `np` clusters with the nearest centroids, nearest first.
    fn nearest_clusters(&self, q: &[i16; DIMS], np: usize) -> (r: Vec<(u64, usize)>)
        requires
            self.wf(),
            np <= self.k,
            np > 0 || self.k == 0,
        ensures
            sort::slots_of(r@) == probe_order(self@, q@, np as int),
            r@.len() == np,
            sort::tags_below(r@, self.k as int),
    {
        let ghost ds = centroid_distances(self@, q@);
        let mut slots: Vec<(u64, usize)> = Vec::new();
        for i in 0..np
            invariant
                slots@.len() == i,
                forall|j: int| 0 <= j < i ==> #[trigger] slots@[j] == (u64::MAX, j as usize),
        {
            slots.push((u64::MAX, i));
        }
        assert(sort::slots_of(slots@) =~= nearest::open_slots(np as int, u64::MAX as int));
        assert(ds.take(0) =~= Seq::empty());
        let mut worst: usize = 0;
        if np > 0 {
            worst = worst_of(&slots);
        }
        for c in 0..self.k
            invariant
                self.wf(),
                np > 0 || self.k == 0,
                np <= self.k,
                ds == centroid_distances(self@, q@),
                slots@.len() == np,
                sort::slots_of(slots@) == nearest::offer_all(
                    nearest::open_slots(np as int, u64::MAX as int),
                    ds.take(c as int),
                ),
                np > 0 ==> worst == nearest::worst_slot(sort::slots_of(slots@)),
                sort::tags_below(slots@, self.k as int),
        {
            let ghost t = sort::slots_of(slots@);
            let d = self.dist_centroid(q, c);
            proof {
                nearest::lemma_worst_slot(t);
                assert(ds.take(c + 1).drop_last() =~= ds.take(c as int));
            }
            if d < slots[worst].0 {
                proof {
                    assert(sort::slots_of(slots@.update(worst as int, (d, c))) =~= t.update(
                        worst as int,
                        (d as int, c as int),
                    ));
                }
                slots.set(worst, (d, c));
                worst = worst_of(&slots);
            }
        }
        proof {
            assert(ds.take(ds.len() as int) =~= ds);
        }
        let r = insertion_sort(&slots);
        proof {
            let a = sort::slots_of(slots@);
            let b = sort::slots_of(r@);
            sort::lemma_by_distance_multiset(a);
            assert forall|i: int| 0 <= i < np implies (#[trigger] r@[i]).1 < self.k by {
                let m = sort::lemma_same_slot(b, a, i);
                assert(b[i] == (r@[i].0 as int, r@[i].1 as int));
                assert(a[m] == (slots@[m].0 as int, slots@[m].1 as int));
            }
        }
        r
    }

    /// Clusters that hold a vector, are not marked as scanned, and whose box
    /// lies nearer than `limit`; nearest box first.
    fn repair_list(&self, q: &[i16; DIMS], scanned: &Vec<bool>, limit: u64, Ghost(order): Ghost<Slots>) -> (r: Vec<
        (u64, usize),
    >)
        requires
            self.wf(),
            scanned@.len() == self.k,
            forall|c: int| 0 <= c < self.k ==> #[trigger] scanned@[c] == is_tagged(order, c),
        ensures
            sort::slots_of(r@) == nearest::by_distance(
                candidates(self@, cluster_bounds(self@, q@), order, limit as int, self.k as int),
            ),
            sort::tags_below(r@, self.k as int),
    {
        let mut cands: Vec<(u64, usize)> = Vec::new();
        let ghost raw = self@;
        assert(sort::slots_of(cands@) =~= Seq::empty());
        for c in 0..self.k
            invariant
                self.wf(),
                raw == self@,
                scanned@.len() == self.k,
                forall|c: int| 0 <= c < self.k ==> #[trigger] scanned@[c] == is_tagged(order, c),
                sort::slots_of(cands@) == candidates(raw, cluster_bounds(raw, q@), order, limit as int, c as int),
        {
            if !scanned[c] && self.count(c) != 0 {
                let lb = self.bbox_lb(q, c);
                if lb < limit {
                    proof {
                        assert(sort::slots_of(cands@.push((lb, c))) =~= sort::slots_of(
                            cands@,
                        ).push((lb as int, c as int)));
                    }
                    cands.push((lb, c));
                }
            }
        }
        proof {
            lemma_candidates_ascend(raw, cluster_bounds(raw, q@), order, limit as int, self.k as int);
        }
        let r = sort_by_distance(&cands);
        proof {
            let a = sort::slots_of(cands@);
            let b = sort::slots_of(r@);
            sort::lemma_by_distance_multiset(a);
            assert forall|i: int| 0 <= i < r@.len() implies (#[trigger] r@[i]).1 < self.k by {
                let m = sort::lemma_same_slot(b, a, i);
                assert(b[i] == (r@[i].0 as int, r@[i].1 as int));
                assert(0 <= a[m].1 < self.k);
            }
        }
        r
    }

    /// Offers the vectors of cluster `c` to `top`, if they lie inside the bytes.
    fn scan_if_readable(&self, c: usize, q: &[i16; DIMS], top: &mut Top5) -> (ok: bool)
        requires
            self.wf(),
            c < self.k,
            old(top).wf(),
        ensures
            final(top).wf(),
            ok == search::cluster_readable(self@, c as int),
            ok ==> final(top)@ == scan(
                self@,
                q@,
                c as int,
                image::count_at(self@, c as int),
                old(top)@,
            ),
    {
        if !self.is_readable(c) {
            return false;
        }
        self.scan_cluster(c, q, top);
        true
    }

    /// Scans the clusters of `cands` in turn, up to the first whose box lies no
    /// nearer than the farthest slot, or the first that brings the sum of
    /// labels outside `repair_min ..= repair_max`. Stops at one that does not lie
    /// inside the bytes.
    fn repair_scalar(
        &self,
        q: &[i16; DIMS],
        cands: &Vec<(u64, usize)>,
        top: &mut Top5,
        repair_min: u8,
        repair_max: u8,
    ) -> (ok: bool)
        requires
            self.wf(),
            sort::tags_below(cands@, self.k as int),
            old(top).wf(),
        ensures
            final(top).wf(),
            ok == repair_within(
                self@,
                q@,
                sort::slots_of(cands@),
                0,
                old(top)@,
                repair_min as int,
                repair_max as int,
            ),
            ok ==> final(top)@ == repair(
                self@,
                q@,
                sort::slots_of(cands@),
                0,
                old(top)@,
                repair_min as int,
                repair_max as int,
            ),
    {
        let ghost raw = self@;
        let ghost list = sort::slots_of(cands@);
        let ghost lo = repair_min as int;
        let ghost hi = repair_max as int;
        let ghost goal = repair(raw, q@, list, 0, top@, lo, hi);
        let ghost within = repair_within(raw, q@, list, 0, top@, lo, hi);
        let mut i: usize = 0;
        while i < cands.len()
            invariant
                self.wf(),
                raw == self@,
                list == sort::slots_of(cands@),
                lo == repair_min,
                hi == repair_max,
                sort::tags_below(cands@, self.k as int),
                i <= cands@.len(),
                top.wf(),
                goal == repair(raw, q@, list, 0, old(top)@, lo, hi),
                goal == repair(raw, q@, list, i as int, top@, lo, hi),
                within == repair_within(raw, q@, list, 0, old(top)@, lo, hi),
                within == repair_within(raw, q@, list, i as int, top@, lo, hi),
            decreases cands@.len() - i,
        {
            let c = cands[i].1;
            proof {
                assert(list[i as int] == (cands@[i as int].0 as int, c as int));
            }
            if cands[i].0 >= top.worst_dist() {
                return true;
            }
            if !self.scan_if_readable(c, q, top) {
                return false;
            }
            let now = top.fraud();
            if now < repair_min || now > repair_max {
                return true;
            }
            i = i + 1;
        }
        true
    }

    /// Scans the clusters of `order` in turn, but for those whose box lies no
    /// nearer than the farthest slot. Marks all of them. Gives up at one that
    /// does not lie inside the bytes.
    fn probe_clusters(
        &self,
        q: &[i16; DIMS],
        order: &Vec<(u64, usize)>,
        scanned: &mut Vec<bool>,
    ) -> (r: Option<Top5>)
        requires
            self.wf(),
            sort::tags_below(order@, self.k as int),
            old(scanned)@.len() == self.k,
            forall|c: int| 0 <= c < self.k ==> !(#[trigger] old(scanned)@[c]),
        ensures
            r is Some == probe_within(
                self@,
                q@,
                sort::slots_of(order@),
                order@.len() as int,
                empty_five(),
            ),
            r matches Some(top) ==> {
                &&& final(scanned)@.len() == self.k
                &&& forall|c: int|
                    0 <= c < self.k ==> #[trigger] final(scanned)@[c] == is_tagged(
                        sort::slots_of(order@),
                        c,
                    )
                &&& top.wf()
                &&& top@ == probe(
                    self@,
                    q@,
                    sort::slots_of(order@),
                    order@.len() as int,
                    empty_five(),
                )
            },
    {
        let ghost raw = self@;
        let ghost list = sort::slots_of(order@);
        let kk = self.k;
        let np = order.len();
        let mut top = Top5::new();
        assert(top@ =~= empty_five());
        for i in 0..np
            invariant
                self.wf(),
                raw == self@,
                kk == self.k,
                np == order@.len(),
                list == sort::slots_of(order@),
                sort::tags_below(order@, kk as int),
                scanned@.len() == kk,
                forall|c: int|
                    0 <= c < kk ==> #[trigger] scanned@[c] == is_tagged(list.take(i as int), c),
                top.wf(),
                top@ == probe(raw, q@, list, i as int, empty_five()),
                probe_within(raw, q@, list, i as int, empty_five()),
        {
            let c = order[i].1;
            assert(list[i as int] == (order@[i as int].0 as int, c as int));
            let pass = i > 0 && self.bbox_lb(q, c) >= top.worst_dist();
            if !pass {
                if !self.scan_if_readable(c, q, &mut top) {
                    proof {
                        if probe_within(raw, q@, list, np as int, empty_five()) {
                            lemma_probe_within(raw, q@, list, i + 1, np as int, empty_five());
                        }
                    }
                    return None;
                }
            }
            scanned.set(c, true);
            proof {
                lemma_is_tagged_step(list, i as int);
            }
        }
        assert(list.take(np as int) =~= list);
        Some(top)
    }

    /// How many clusters are probed.
    fn probes(&self, nprobe: usize) -> (np: usize)
        ensures
            np == probe_count(nprobe as int, self.k as int),
            np <= self.k,
            np > 0 || self.k == 0,
    {
        let wanted = if nprobe < 1 {
            1
        } else if nprobe > 64 {
            64
        } else {
            nprobe
        };
        if wanted < self.k {
            wanted
        } else {
            self.k
        }
    }

    /// Sum of the labels of the five vectors that the probes find, and the
    /// distance of the farthest of them. There is none where the probes do not
    /// stay inside the bytes.
    pub fn search_fast(&self, q: &[i16; DIMS], nprobe: usize) -> (r: Option<(u8, u64)>)
        requires
            self.wf(),
        ensures
            r is Some == probed_within(self@, q@, nprobe as int),
            r matches Some(x) ==> {
                &&& x.0 == tag_sum(probed(self@, q@, nprobe as int))
                &&& x.1 == nearest::worst_distance(probed(self@, q@, nprobe as int))
            },
    {
        let np = self.probes(nprobe);
        let order = self.nearest_clusters(q, np);
        let mut scanned: Vec<bool> = vec![false; self.k];
        match self.probe_clusters(q, &order, &mut scanned) {
            Some(top) => Some((top.fraud(), top.worst_dist())),
            None => None,
        }
    }

    /// Sum of the labels of the five vectors that the search keeps. There is
    /// none where the search does not stay inside the bytes.
    pub(crate) fn try_search_scalar(
        &self,
        q: &[i16; DIMS],
        nprobe: usize,
        repair_min: u8,
        repair_max: u8,
    ) -> (r: Option<u8>)
        requires
            self.wf(),
        ensures
            r is Some == kept_within(
                self@,
                q@,
                nprobe as int,
                repair_min as int,
                repair_max as int,
            ),
            r matches Some(x) ==> x == tag_sum(
                kept(self@, q@, nprobe as int, repair_min as int, repair_max as int),
            ),
    {
        let np = self.probes(nprobe);
        let order = self.nearest_clusters(q, np);
        let ghost list = sort::slots_of(order@);
        let mut scanned: Vec<bool> = vec![false; self.k];
        let mut top = match self.probe_clusters(q, &order, &mut scanned) {
            Some(top) => top,
            None => {
                return None;
            },
        };
        let fraud = top.fraud();
        if fraud >= repair_min && fraud <= repair_max {
            let limit = top.worst_dist();
            let cands = self.repair_list(q, &scanned, limit, Ghost(list));
            if !self.repair_scalar(q, &cands, &mut top, repair_min, repair_max) {
                return None;
            }
            return Some(top.fraud());
        }
        Some(fraud)
    }

    /// Sum of the labels of the five vectors that the search keeps.
    ///
    /// Probes the `nprobe` clusters with the nearest centroids. If the sum
    /// then lies in `repair_min ..= repair_max`, scans the other clusters
    /// whose box is near enough, until the sum leaves that range.
    pub fn search_scalar(
        &self,
        q: &[i16; DIMS],
        nprobe: usize,
        repair_min: u8,
        repair_max: u8,
    ) -> (r: u8)
        requires
            self.wf(),
            kept_within(self@, q@, nprobe as int, repair_min as int, repair_max as int),
        ensures
            r == tag_sum(
                kept(self@, q@, nprobe as int, repair_min as int, repair_max as int),
            ),
    {
        self.try_search_scalar(q, nprobe, repair_min, repair_max).unwrap()
    }
}

} // verus!
