//! Which clusters a search reads, and how great a score can be.
use vstd::prelude::*;
use crate::conn::{self, Settings};
use crate::exact_wide;
use crate::image;
use crate::nearest::{self, Slots};
use crate::normalize;
use crate::scalar;
use crate::search;
use crate::sort;
use crate::wide;

verus! {

/// Five slots whose tags are at most `max`.
pub open spec fn tags_within(s: Slots, max: int) -> bool {
    &&& s.len() == 5
    &&& forall|i: int| 0 <= i < s.len() ==> 0 <= (#[trigger] s[i]).1 <= max
}

/// Every stored label is at most `max`.
pub open spec fn labels_within(raw: Seq<u8>, max: int) -> bool {
    forall|c: int, pos: int|
        0 <= c < image::clusters(raw) && 0 <= pos < image::count_at(raw, c)
            ==> #[trigger] image::stored_label(raw, c, pos) <= max
}

proof fn lemma_sum(s: Slots, max: int)
    requires
        tags_within(s, max),
    ensures
        0 <= scalar::tag_sum(s) <= 5 * max,
{
    scalar::lemma_tag_sum_five(s);
    assert(s[0].1 <= max && s[1].1 <= max && s[2].1 <= max && s[3].1 <= max && s[4].1 <= max);
    assert(s[0].1 >= 0 && s[1].1 >= 0 && s[2].1 >= 0 && s[3].1 >= 0 && s[4].1 >= 0);
}

/// Offered tags are numbers of clusters.
proof fn lemma_offered(n: int, limit: int, ds: Seq<int>, k: int)
    requires
        0 <= n <= k,
        ds.len() <= k,
        n > 0 || ds.len() == 0,
    ensures
        nearest::offer_all(nearest::open_slots(n, limit), ds).len() == n,
        forall|i: int|
            0 <= i < nearest::offer_all(nearest::open_slots(n, limit), ds).len() ==> 0 <= (
            #[trigger] nearest::offer_all(nearest::open_slots(n, limit), ds)[i]).1 < k,
    decreases ds.len(),
{
    if ds.len() > 0 {
        lemma_offered(n, limit, ds.drop_last(), k);
        let s = nearest::offer_all(nearest::open_slots(n, limit), ds.drop_last());
        let t = nearest::offer_all(nearest::open_slots(n, limit), ds);
        nearest::lemma_worst_slot(s);
        let w = nearest::worst_slot(s);
        assert forall|i: int| 0 <= i < t.len() implies 0 <= (#[trigger] t[i]).1 < k by {
            if i != w {
                assert(t[i] == s[i]);
            } else {
                assert(t[i] == s[i] || t[i].1 == ds.len() - 1);
            }
        }
    }
}

/// The tags of `s` are numbers of clusters.
spec fn are_clusters(s: Slots, k: int) -> bool {
    forall|i: int| 0 <= i < s.len() ==> 0 <= (#[trigger] s[i]).1 < k
}

proof fn lemma_same_clusters(s: Slots, t: Slots, k: int)
    requires
        are_clusters(s, k),
        s.to_multiset() == t.to_multiset(),
    ensures
        are_clusters(t, k),
{
    assert forall|i: int| 0 <= i < t.len() implies 0 <= (#[trigger] t[i]).1 < k by {
        let m = sort::lemma_same_slot(t, s, i);
        assert(s[m] == t[i]);
    }
}

proof fn lemma_candidates(raw: Seq<u8>, bounds: Seq<int>, order: Slots, limit: int, n: int)
    ensures
        are_clusters(scalar::candidates(raw, bounds, order, limit, n), n),
    decreases n,
{
    if n > 0 {
        lemma_candidates(raw, bounds, order, limit, n - 1);
    }
}

// ---------------------------------------------------------------------------
// One vector at a time
// ---------------------------------------------------------------------------

proof fn lemma_scan(raw: Seq<u8>, q: Seq<i16>, c: int, n: int, s: Slots, max: int)
    requires
        labels_within(raw, max),
        0 <= c < image::clusters(raw),
        n <= image::count_at(raw, c),
        tags_within(s, max),
    ensures
        tags_within(scalar::scan(raw, q, c, n, s), max),
    decreases n,
{
    if n > 0 {
        lemma_scan(raw, q, c, n - 1, s, max);
        nearest::lemma_worst_slot(scalar::scan(raw, q, c, n - 1, s));
        assert(image::stored_label(raw, c, n - 1) <= max);
    }
}

proof fn lemma_probe(raw: Seq<u8>, q: Seq<i16>, order: Slots, n: int, s: Slots, max: int)
    requires
        labels_within(raw, max),
        are_clusters(order, image::clusters(raw)),
        n <= order.len(),
        tags_within(s, max),
    ensures
        tags_within(scalar::probe(raw, q, order, n, s), max),
    decreases n,
{
    if n > 0 {
        lemma_probe(raw, q, order, n - 1, s, max);
        let c = order[n - 1].1;
        let t = scalar::probe(raw, q, order, n - 1, s);
        lemma_scan(raw, q, c, image::count_at(raw, c), t, max);
    }
}

proof fn lemma_repair(
    raw: Seq<u8>,
    q: Seq<i16>,
    list: Slots,
    i: int,
    s: Slots,
    lo: int,
    hi: int,
    max: int,
)
    requires
        labels_within(raw, max),
        are_clusters(list, image::clusters(raw)),
        tags_within(s, max),
    ensures
        tags_within(scalar::repair(raw, q, list, i, s, lo, hi), max),
    decreases list.len() - i,
{
    if 0 <= i < list.len() {
        let c = list[i].1;
        lemma_scan(raw, q, c, image::count_at(raw, c), s, max);
        let t = scalar::scan(raw, q, c, image::count_at(raw, c), s);
        lemma_repair(raw, q, list, i + 1, t, lo, hi, max);
    }
}

/// The clusters that are probed are there.
proof fn lemma_order(raw: Seq<u8>, q: Seq<i16>, nprobe: int)
    ensures
        are_clusters(
            scalar::probe_order(raw, q, scalar::probe_count(nprobe, image::clusters(raw))),
            image::clusters(raw),
        ),
{
    let k = image::clusters(raw);
    let np = scalar::probe_count(nprobe, k);
    let ds = scalar::centroid_distances(raw, q);
    let chosen = nearest::offer_all(nearest::open_slots(np, u64::MAX as int), ds);
    lemma_offered(np, u64::MAX as int, ds, k);
    sort::lemma_by_distance_multiset(chosen);
    lemma_same_clusters(chosen, scalar::probe_order(raw, q, np), k);
}

/// The clusters that a repair goes through are there.
proof fn lemma_list(raw: Seq<u8>, bounds: Seq<int>, order: Slots, limit: int)
    ensures
        are_clusters(
            nearest::by_distance(
                scalar::candidates(raw, bounds, order, limit, image::clusters(raw)),
            ),
            image::clusters(raw),
        ),
{
    let k = image::clusters(raw);
    let cands = scalar::candidates(raw, bounds, order, limit, k);
    lemma_candidates(raw, bounds, order, limit, k);
    sort::lemma_by_distance_multiset(cands);
    lemma_same_clusters(cands, nearest::by_distance(cands), k);
}

proof fn lemma_probe_reads(raw: Seq<u8>, q: Seq<i16>, order: Slots, n: int, s: Slots)
    requires
        search::is_searchable(raw),
        are_clusters(order, image::clusters(raw)),
        n <= order.len(),
    ensures
        scalar::probe_within(raw, q, order, n, s),
    decreases n,
{
    if n > 0 {
        lemma_probe_reads(raw, q, order, n - 1, s);
        assert(search::cluster_readable(raw, order[n - 1].1));
    }
}

proof fn lemma_repair_reads(
    raw: Seq<u8>,
    q: Seq<i16>,
    list: Slots,
    i: int,
    s: Slots,
    lo: int,
    hi: int,
)
    requires
        search::is_searchable(raw),
        are_clusters(list, image::clusters(raw)),
    ensures
        scalar::repair_within(raw, q, list, i, s, lo, hi),
    decreases list.len() - i,
{
    if 0 <= i < list.len() {
        let c = list[i].1;
        assert(search::cluster_readable(raw, c));
        let t = scalar::scan(raw, q, c, image::count_at(raw, c), s);
        lemma_repair_reads(raw, q, list, i + 1, t, lo, hi);
    }
}

/// A search that takes a vector at a time keeps five labels.
pub proof fn lemma_kept(
    raw: Seq<u8>,
    q: Seq<i16>,
    nprobe: int,
    lo: int,
    hi: int,
    max: int,
)
    requires
        0 <= max,
        labels_within(raw, max),
    ensures
        tags_within(scalar::kept(raw, q, nprobe, lo, hi), max),
{
    let np = scalar::probe_count(nprobe, image::clusters(raw));
    let order = scalar::probe_order(raw, q, np);
    lemma_order(raw, q, nprobe);
    let first = scalar::empty_five();
    assert(tags_within(first, max));
    lemma_probe(raw, q, order, order.len() as int, first, max);
    let s = scalar::probe(raw, q, order, order.len() as int, first);
    let bounds = scalar::cluster_bounds(raw, q);
    let limit = nearest::worst_distance(s);
    let list = nearest::by_distance(
        scalar::candidates(raw, bounds, order, limit, image::clusters(raw)),
    );
    lemma_list(raw, bounds, order, limit);
    lemma_repair(raw, q, list, 0, s, lo, hi, max);
}

/// A search that takes a vector at a time gives at most five times the greatest
/// label.
pub proof fn law_search_bounded(
    raw: Seq<u8>,
    q: Seq<i16>,
    nprobe: int,
    lo: int,
    hi: int,
    max: int,
)
    requires
        0 <= max,
        labels_within(raw, max),
    ensures
        0 <= scalar::tag_sum(scalar::kept(raw, q, nprobe, lo, hi)) <= 5 * max,
{
    lemma_kept(raw, q, nprobe, lo, hi, max);
    lemma_sum(scalar::kept(raw, q, nprobe, lo, hi), max);
}

// ---------------------------------------------------------------------------
// Lanes side by side
// ---------------------------------------------------------------------------

proof fn lemma_keep_range(
    raw: Seq<u8>,
    q: Seq<i16>,
    c: int,
    from: int,
    to: int,
    s: Slots,
    max: int,
)
    requires
        labels_within(raw, max),
        0 <= c < image::clusters(raw),
        0 <= from,
        to <= image::count_at(raw, c),
        tags_within(s, max),
    ensures
        tags_within(wide::keep_range(raw, q, c, from, to, s), max),
    decreases to - from,
{
    if from < to {
        lemma_keep_range(raw, q, c, from, to - 1, s, max);
        let t = wide::keep_range(raw, q, c, from, to - 1, s);
        let d = wide::lane_distance(q, image::stored_vector(raw, c, to - 1));
        let u = t.drop_last();
        nearest::lemma_rank(u, d);
        assert(image::stored_label(raw, c, to - 1) <= max);
        let x = (d, image::stored_label(raw, c, to - 1));
        let r = nearest::rank(u, d);
        let v = nearest::place(u, x);
        assert forall|i: int| 0 <= i < v.len() implies 0 <= (#[trigger] v[i]).1 <= max by {
            if i < r {
                assert(v[i] == t[i]);
            } else if i > r {
                assert(v[i] == t[i - 1]);
            }
        }
    }
}

proof fn lemma_scan_blocks(raw: Seq<u8>, q: Seq<i16>, c: int, n: int, s: Slots, max: int)
    requires
        labels_within(raw, max),
        0 <= c < image::clusters(raw),
        tags_within(s, max),
    ensures
        tags_within(wide::scan_blocks(raw, q, c, n, s), max),
    decreases n,
{
    if n > 0 {
        lemma_scan_blocks(raw, q, c, n - 1, s, max);
        let t = wide::scan_blocks(raw, q, c, n - 1, s);
        let count = image::count_at(raw, c);
        let to = if (n - 1) * 8 + 8 < count {
            (n - 1) * 8 + 8
        } else {
            count
        };
        lemma_keep_range(raw, q, c, (n - 1) * 8, to, t, max);
    }
}

proof fn lemma_wide_probe(raw: Seq<u8>, q: Seq<i16>, order: Slots, n: int, s: Slots, max: int)
    requires
        labels_within(raw, max),
        are_clusters(order, image::clusters(raw)),
        n <= order.len(),
        tags_within(s, max),
    ensures
        tags_within(wide::probe(raw, q, order, n, s), max),
    decreases n,
{
    if n > 0 {
        lemma_wide_probe(raw, q, order, n - 1, s, max);
        let c = order[n - 1].1;
        lemma_scan_blocks(
            raw,
            q,
            c,
            image::blocks_for(image::count_at(raw, c)),
            wide::probe(raw, q, order, n - 1, s),
            max,
        );
    }
}

proof fn lemma_wide_repair(
    raw: Seq<u8>,
    q: Seq<i16>,
    list: Slots,
    i: int,
    s: Slots,
    lo: int,
    hi: int,
    max: int,
)
    requires
        labels_within(raw, max),
        are_clusters(list, image::clusters(raw)),
        tags_within(s, max),
    ensures
        tags_within(wide::repair(raw, q, list, i, s, lo, hi), max),
    decreases list.len() - i,
{
    if 0 <= i < list.len() {
        let c = list[i].1;
        let blocks = image::blocks_for(image::count_at(raw, c));
        lemma_scan_blocks(raw, q, c, blocks, s, max);
        lemma_wide_repair(raw, q, list, i + 1, wide::scan(raw, q, c, s), lo, hi, max);
    }
}

/// The clusters that are probed are there.
proof fn lemma_wide_order(raw: Seq<u8>, q: Seq<i16>, nprobe: int)
    ensures
        are_clusters(
            wide::probe_order(raw, q, scalar::probe_count(nprobe, image::clusters(raw))),
            image::clusters(raw),
        ),
{
    let k = image::clusters(raw);
    let np = scalar::probe_count(nprobe, k);
    let ds = wide::centroid_distances(raw, q);
    let chosen = nearest::offer_all(nearest::open_slots(np, u32::MAX as int), ds);
    lemma_offered(np, u32::MAX as int, ds, k);
    exact_wide::lemma_sifted(chosen, np - 1);
    lemma_same_clusters(chosen, wide::probe_order(raw, q, np), k);
}

proof fn lemma_wide_repair_reads(
    raw: Seq<u8>,
    q: Seq<i16>,
    list: Slots,
    i: int,
    s: Slots,
    lo: int,
    hi: int,
)
    requires
        search::is_searchable(raw),
        are_clusters(list, image::clusters(raw)),
    ensures
        wide::repair_within(raw, q, list, i, s, lo, hi),
    decreases list.len() - i,
{
    if 0 <= i < list.len() {
        let c = list[i].1;
        assert(search::cluster_readable(raw, c));
        lemma_wide_repair_reads(raw, q, list, i + 1, wide::scan(raw, q, c, s), lo, hi);
    }
}

/// Every search of an index whose clusters all lie inside the bytes can be done,
/// with lanes side by side if there is a cluster.
pub proof fn law_searchable_answers(
    raw: Seq<u8>,
    q: Seq<i16>,
    nprobe: int,
    lo: int,
    hi: int,
    wide: bool,
)
    requires
        search::is_searchable(raw),
        wide ==> image::clusters(raw) > 0,
    ensures
        search::can_search(raw, q, nprobe, lo, hi, wide),
{
    let k = image::clusters(raw);
    let np = scalar::probe_count(nprobe, k);
    if wide {
        let order = wide::probe_order(raw, q, np);
        lemma_wide_order(raw, q, nprobe);
        assert forall|i: int| 0 <= i < order.len() implies search::cluster_readable(
            raw,
            (#[trigger] order[i]).1,
        ) by {}
        let s = wide::probe(raw, q, order, order.len() as int, wide::empty_five());
        let bounds = wide::cluster_bounds(raw, q);
        let list = nearest::by_distance(
            scalar::candidates(raw, bounds, order, s.last().0, k),
        );
        lemma_list(raw, bounds, order, s.last().0);
        lemma_wide_repair_reads(raw, q, list, 0, s, lo, hi);
    } else {
        let order = scalar::probe_order(raw, q, np);
        lemma_order(raw, q, nprobe);
        lemma_probe_reads(raw, q, order, order.len() as int, scalar::empty_five());
        let s = scalar::probed(raw, q, nprobe);
        let bounds = scalar::cluster_bounds(raw, q);
        let limit = nearest::worst_distance(s);
        let list = nearest::by_distance(scalar::candidates(raw, bounds, order, limit, k));
        lemma_list(raw, bounds, order, limit);
        lemma_repair_reads(raw, q, list, 0, s, lo, hi);
    }
}

/// A search with lanes side by side keeps five labels.
pub proof fn lemma_wide_kept(
    raw: Seq<u8>,
    q: Seq<i16>,
    nprobe: int,
    lo: int,
    hi: int,
    max: int,
)
    requires
        0 <= max,
        labels_within(raw, max),
    ensures
        tags_within(wide::kept(raw, q, nprobe, lo, hi), max),
{
    let np = scalar::probe_count(nprobe, image::clusters(raw));
    let order = wide::probe_order(raw, q, np);
    lemma_wide_order(raw, q, nprobe);
    let first = wide::empty_five();
    assert(tags_within(first, max));
    lemma_wide_probe(raw, q, order, order.len() as int, first, max);
    let s = wide::probe(raw, q, order, order.len() as int, first);
    let bounds = wide::cluster_bounds(raw, q);
    let list = nearest::by_distance(
        scalar::candidates(raw, bounds, order, s.last().0, image::clusters(raw)),
    );
    lemma_list(raw, bounds, order, s.last().0);
    lemma_wide_repair(raw, q, list, 0, s, lo, hi, max);
}

/// A search with lanes side by side gives at most five times the greatest
/// label.
pub proof fn law_wide_search_bounded(
    raw: Seq<u8>,
    q: Seq<i16>,
    nprobe: int,
    lo: int,
    hi: int,
    max: int,
)
    requires
        0 <= max,
        labels_within(raw, max),
    ensures
        0 <= scalar::tag_sum(wide::kept(raw, q, nprobe, lo, hi)) <= 5 * max,
{
    lemma_wide_kept(raw, q, nprobe, lo, hi, max);
    lemma_sum(wide::kept(raw, q, nprobe, lo, hi), max);
}

/// Where labels are zero or one, the score of a transaction is a count of its
/// five neighbours.
pub proof fn law_score_is_count_of_five(s: Settings, body: Seq<u8>)
    requires
        labels_within(s.raw, 1),
    ensures
        0 <= conn::score(s, body) <= 5,
{
    if let Some(v) = normalize::normalized(body) {
        let q = Seq::new(14, |i: int| v[i] as i16);
        law_search_bounded(s.raw, q, s.nprobe, s.repair_min, s.repair_max, 1);
        law_wide_search_bounded(s.raw, q, s.nprobe, s.repair_min, s.repair_max, 1);
    }
}

} // verus!
