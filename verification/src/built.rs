//! What holds of an index that was built from vectors.
use vstd::prelude::*;
use vstd::multiset::Multiset;
use crate::counts;
use crate::exact;
use crate::exact_wide;
use crate::image;
use crate::ivf::{self, Plan};
use crate::nearest::{self, Slots};
use crate::precision;
use crate::quant::{self, SCALE};
use crate::scalar;
use crate::score_range;
use crate::search;
use crate::sort;
use crate::wide;

verus! {

/// The coordinates of vector `i`.
pub open spec fn vector(p: Plan, i: int) -> Seq<int> {
    Seq::new(14, |d: int| p.coordinate(i, d))
}

/// Distance to the query and label of vector `i`.
pub open spec fn pair(p: Plan, q: Seq<i16>, i: int) -> (int, int) {
    (nearest::distance(q, vector(p, i)), p.labels[i] as int)
}

/// Distance to the query and label of each of the first `n` vectors.
pub open spec fn pairs(p: Plan, q: Seq<i16>, n: int) -> Multiset<(int, int)>
    decreases n,
{
    if n <= 0 {
        Multiset::empty()
    } else {
        pairs(p, q, n - 1).insert(pair(p, q, n - 1))
    }
}

/// What stands at `pos` of cluster `c`.
proof fn lemma_stored(p: Plan, raw: Seq<u8>, c: int, pos: int)
    requires
        p.wf(),
        p.is_built(raw),
        0 <= c < p.k,
        0 <= pos < p.size(c),
    ensures
        0 <= p.roster(c)[pos].1 < p.labels.len(),
        image::stored_vector(raw, c, pos) == vector(p, p.roster(c)[pos].1),
        image::stored_label(raw, c, pos) == p.labels[p.roster(c)[pos].1],
{
    assert(p.cluster_in(raw, c));
    ivf::lemma_roster(p, c);
    let i = p.roster(c)[pos].1;
    let v = image::stored_vector(raw, c, pos);
    assert(pos < 8 * image::blocks_for(p.size(c)));
    assert forall|d: int| 0 <= d < 14 implies #[trigger] v[d] == vector(p, i)[d] by {
        assert(v[d] == p.cell(c, pos, d));
    }
    assert(v =~= vector(p, i));
    assert(image::stored_label(raw, c, pos) == p.tag(c, pos));
}

/// An index that was built can be searched.
pub proof fn law_built_searchable(p: Plan, raw: Seq<u8>)
    requires
        p.wf(),
        p.is_built(raw),
    ensures
        image::is_index(raw),
        search::is_searchable(raw),
{
    assert forall|c: int| 0 <= c < image::clusters(raw) implies #[trigger] search::cluster_readable(
        raw,
        c,
    ) by {
        assert(p.cluster_in(raw, c));
        ivf::lemma_base_grows(p, c, p.k);
    }
}

/// Every search of an index that was built can be done, with lanes side by side
/// if there is a cluster.
pub proof fn law_built_answers(
    p: Plan,
    raw: Seq<u8>,
    q: Seq<i16>,
    nprobe: int,
    lo: int,
    hi: int,
    wide: bool,
)
    requires
        p.wf(),
        p.is_built(raw),
        wide ==> p.k > 0,
    ensures
        search::can_search(raw, q, nprobe, lo, hi, wide),
{
    law_built_searchable(p, raw);
    score_range::law_searchable_answers(raw, q, nprobe, lo, hi, wide);
}

proof fn lemma_extent(p: Plan, c: int, d: int, n: int, pos: int)
    requires
        0 <= pos < n,
    ensures
        p.least(c, d, n) <= p.coordinate(p.roster(c)[pos].1, d) <= p.greatest(c, d, n),
    decreases n,
{
    if pos < n - 1 {
        lemma_extent(p, c, d, n - 1, pos);
    }
}

/// In an index that was built every vector lies in the box of its cluster.
pub proof fn law_built_boxes_hold(p: Plan, raw: Seq<u8>)
    requires
        p.wf(),
        p.is_built(raw),
    ensures
        exact::boxes_hold(raw),
{
    assert forall|c: int, pos: int|
        0 <= c < image::clusters(raw) && 0 <= pos < image::count_at(raw, c) implies exact::in_box(
        raw,
        c,
        #[trigger] image::stored_vector(raw, c, pos),
    ) by {
        assert(p.cluster_in(raw, c));
        lemma_stored(p, raw, c, pos);
        let v = image::stored_vector(raw, c, pos);
        assert forall|d: int| 0 <= d < 14 implies image::bmin_at(raw, c, d) <= #[trigger] v[d]
            <= image::bmax_at(raw, c, d) by {
            lemma_extent(p, c, d, p.size(c), pos);
        }
    }
}

/// The vectors of a cluster are stored nearest to the centroid first.
pub proof fn law_built_nearest_first(p: Plan, raw: Seq<u8>, c: int, a: int, b: int)
    requires
        p.wf(),
        p.is_built(raw),
        0 <= c < p.k,
        0 <= a < b < p.size(c),
    ensures
        ({
            let i = p.roster(c)[a].1;
            let j = p.roster(c)[b].1;
            &&& image::stored_vector(raw, c, a) == vector(p, i)
            &&& image::stored_vector(raw, c, b) == vector(p, j)
            &&& p.keys[i] <= p.keys[j]
        }),
{
    lemma_stored(p, raw, c, a);
    lemma_stored(p, raw, c, b);
    let n = p.labels.len() as int;
    let s = p.members(c, n);
    ivf::lemma_members(p, c, n);
    ivf::lemma_roster(p, c);
    nearest::lemma_by_distance_sorted(s);
    sort::lemma_by_distance_multiset(s);
    let x = sort::lemma_same_slot(p.roster(c), s, a);
    let y = sort::lemma_same_slot(p.roster(c), s, b);
    assert(s[x] == p.roster(c)[a] && s[y] == p.roster(c)[b]);
    assert(p.roster(c)[a].0 <= p.roster(c)[b].0);
}

/// Distances and labels of the vectors that `s` names.
spec fn named(p: Plan, q: Seq<i16>, s: Slots) -> Seq<(int, int)> {
    s.map_values(|x: (int, int)| pair(p, q, x.1))
}

proof fn lemma_named_by_distance(p: Plan, q: Seq<i16>, s: Slots)
    ensures
        named(p, q, nearest::by_distance(s)).to_multiset() == named(p, q, s).to_multiset(),
    decreases s.len(),
{
    broadcast use vstd::seq_lib::group_to_multiset_ensures;

    if s.len() > 0 {
        let t = s.drop_last();
        let x = s.last();
        lemma_named_by_distance(p, q, t);
        let u = nearest::by_distance(t);
        let r = nearest::rank(u, x.0);
        nearest::lemma_rank(u, x.0);
        let f = pair(p, q, x.1);
        assert(named(p, q, u.insert(r, x)) =~= named(p, q, u).insert(r, f));
        assert(named(p, q, s) =~= named(p, q, t).push(f));
        vstd::seq_lib::to_multiset_insert(named(p, q, u), r, f);
        vstd::seq_lib::to_multiset_build(named(p, q, t), f);
    }
}

proof fn lemma_cluster_pairs(p: Plan, raw: Seq<u8>, q: Seq<i16>, c: int, n: int)
    requires
        p.wf(),
        p.is_built(raw),
        0 <= c < p.k,
        0 <= n <= p.size(c),
    ensures
        exact::cluster_pairs(raw, q, c, n) == named(p, q, p.roster(c).take(n)).to_multiset(),
    decreases n,
{
    broadcast use vstd::seq_lib::group_to_multiset_ensures;

    ivf::lemma_roster(p, c);
    let s = p.roster(c);
    if n > 0 {
        lemma_cluster_pairs(p, raw, q, c, n - 1);
        lemma_stored(p, raw, c, n - 1);
        let f = pair(p, q, s[n - 1].1);
        assert(named(p, q, s.take(n)) =~= named(p, q, s.take(n - 1)).push(f));
        vstd::seq_lib::to_multiset_build(named(p, q, s.take(n - 1)), f);
    } else {
        assert(named(p, q, s.take(0)) =~= Seq::<(int, int)>::empty());
        assert(Seq::<(int, int)>::empty().to_multiset() =~= Multiset::empty());
    }
}

/// Distances and labels of those of the first `n` vectors that are in one of
/// the first `m` clusters.
spec fn clustered(p: Plan, q: Seq<i16>, m: int, n: int) -> Multiset<(int, int)>
    decreases m,
{
    if m <= 0 {
        Multiset::empty()
    } else {
        clustered(p, q, m - 1, n).add(named(p, q, p.members(m - 1, n)).to_multiset())
    }
}

proof fn lemma_clustered_step(p: Plan, q: Seq<i16>, m: int, n: int)
    requires
        p.wf(),
        0 <= m <= p.k,
        0 < n <= p.labels.len(),
    ensures
        clustered(p, q, m, n) == if p.assignment[n - 1] < m {
            clustered(p, q, m, n - 1).insert(pair(p, q, n - 1))
        } else {
            clustered(p, q, m, n - 1)
        },
    decreases m,
{
    broadcast use vstd::seq_lib::group_to_multiset_ensures;
    broadcast use vstd::multiset::group_multiset_axioms;

    if m > 0 {
        lemma_clustered_step(p, q, m - 1, n);
        let f = pair(p, q, n - 1);
        if p.assignment[n - 1] == m - 1 {
            assert(named(p, q, p.members(m - 1, n)) =~= named(p, q, p.members(m - 1, n - 1)).push(
                f,
            ));
            vstd::seq_lib::to_multiset_build(named(p, q, p.members(m - 1, n - 1)), f);
        }
        assert(clustered(p, q, m, n) =~= if p.assignment[n - 1] < m {
            clustered(p, q, m, n - 1).insert(f)
        } else {
            clustered(p, q, m, n - 1)
        });
    }
}

proof fn lemma_clustered_empty(p: Plan, q: Seq<i16>, m: int)
    requires
        0 <= m,
    ensures
        clustered(p, q, m, 0) == Multiset::<(int, int)>::empty(),
    decreases m,
{
    broadcast use vstd::seq_lib::group_to_multiset_ensures;
    broadcast use vstd::multiset::group_multiset_axioms;

    if m > 0 {
        lemma_clustered_empty(p, q, m - 1);
        assert(named(p, q, p.members(m - 1, 0)) =~= Seq::<(int, int)>::empty());
        assert(Seq::<(int, int)>::empty().to_multiset() =~= Multiset::empty());
        assert(clustered(p, q, m, 0) =~= Multiset::empty());
    }
}

proof fn lemma_clustered_all(p: Plan, q: Seq<i16>, n: int)
    requires
        p.wf(),
        0 <= n <= p.labels.len(),
    ensures
        clustered(p, q, p.k, n) == pairs(p, q, n),
    decreases n,
{
    if n > 0 {
        lemma_clustered_all(p, q, n - 1);
        lemma_clustered_step(p, q, p.k, n);
        assert(p.assignment[n - 1] < p.k);
    } else {
        lemma_clustered_empty(p, q, p.k);
    }
}

proof fn lemma_gathered(p: Plan, raw: Seq<u8>, q: Seq<i16>, m: int)
    requires
        p.wf(),
        p.is_built(raw),
        0 <= m <= p.k,
    ensures
        exact::gathered(raw, q, Set::full(), m) == clustered(p, q, m, p.labels.len() as int),
    decreases m,
{
    if m > 0 {
        lemma_gathered(p, raw, q, m - 1);
        let c = m - 1;
        let n = p.labels.len() as int;
        assert(p.cluster_in(raw, c));
        ivf::lemma_roster(p, c);
        lemma_cluster_pairs(p, raw, q, c, p.size(c));
        assert(p.roster(c).take(p.size(c)) =~= p.roster(c));
        lemma_named_by_distance(p, q, p.members(c, n));
        assert(Set::<int>::full().contains(c));
    }
}

/// An index holds each vector it was built from, with its label, exactly once:
/// the pairs of distance and label that it makes with any query are those of
/// the vectors.
pub proof fn law_built_holds_vectors(p: Plan, raw: Seq<u8>, q: Seq<i16>)
    requires
        p.wf(),
        p.is_built(raw),
    ensures
        exact::all_pairs(raw, q) == pairs(p, q, p.labels.len() as int).add(
            scalar::empty_five().to_multiset(),
        ),
{
    lemma_gathered(p, raw, q, p.k);
    lemma_clustered_all(p, q, p.labels.len() as int);
}

/// A search of a built index whose result lies in the range of repair finds
/// the labels of the five vectors nearest to the query among all those that
/// the index was built from.
pub proof fn law_built_search_exact(
    p: Plan,
    raw: Seq<u8>,
    q: Seq<i16>,
    nprobe: int,
    lo: int,
    hi: int,
)
    requires
        p.wf(),
        p.is_built(raw),
        q.len() == 14,
        lo <= scalar::tag_sum(scalar::kept(raw, q, nprobe, lo, hi)) <= hi,
    ensures
        exact::are_nearest(
            scalar::kept(raw, q, nprobe, lo, hi),
            pairs(p, q, p.labels.len() as int).add(scalar::empty_five().to_multiset()),
        ),
{
    law_built_boxes_hold(p, raw);
    law_built_holds_vectors(p, raw, q);
    exact::law_search_exact(raw, q, nprobe, lo, hi);
}

/// The number of vectors in the first `m` clusters.
pub open spec fn count_sum(raw: Seq<u8>, m: int) -> int
    decreases m,
{
    if m <= 0 {
        0
    } else {
        count_sum(raw, m - 1) + image::count_at(raw, m - 1)
    }
}

/// Those of the first `n` vectors that are in one of the first `m` clusters.
spec fn placed(p: Plan, n: int, m: int) -> int
    decreases m,
{
    if m <= 0 {
        0
    } else {
        placed(p, n, m - 1) + p.members(m - 1, n).len()
    }
}

proof fn lemma_placed_step(p: Plan, n: int, m: int)
    requires
        0 < n <= p.assignment.len(),
    ensures
        placed(p, n, m) == placed(p, n - 1, m) + if p.assignment[n - 1] < m {
            1int
        } else {
            0
        },
    decreases m,
{
    if m > 0 {
        lemma_placed_step(p, n, m - 1);
    }
}

proof fn lemma_placed(p: Plan, n: int)
    requires
        p.wf(),
        0 <= n <= p.labels.len(),
    ensures
        placed(p, n, p.k) == n,
    decreases n,
{
    if n > 0 {
        lemma_placed(p, n - 1);
        lemma_placed_step(p, n, p.k);
        assert(p.assignment[n - 1] < p.k);
    } else {
        lemma_placed_none(p, p.k);
    }
}

proof fn lemma_placed_none(p: Plan, m: int)
    ensures
        placed(p, 0, m) == 0,
    decreases m,
{
    if m > 0 {
        lemma_placed_none(p, m - 1);
    }
}

proof fn lemma_count_sum(p: Plan, raw: Seq<u8>, m: int)
    requires
        p.is_built(raw),
        m <= p.k,
    ensures
        count_sum(raw, m) == placed(p, p.labels.len() as int, m),
    decreases m,
{
    if m > 0 {
        lemma_count_sum(p, raw, m - 1);
        assert(p.cluster_in(raw, m - 1));
    }
}

/// The clusters of an index that was built hold as many vectors as it was built
/// from, and as many as its header says.
pub proof fn law_built_counts_add_up(p: Plan, raw: Seq<u8>)
    requires
        p.wf(),
        p.is_built(raw),
    ensures
        count_sum(raw, image::clusters(raw)) == p.labels.len(),
        image::entries(raw) == p.labels.len(),
{
    lemma_count_sum(p, raw, p.k);
    lemma_placed(p, p.labels.len() as int);
}

/// Labels that were built in are stored.
pub proof fn law_built_labels_within(p: Plan, raw: Seq<u8>, max: int)
    requires
        p.wf(),
        p.is_built(raw),
        forall|i: int| 0 <= i < p.labels.len() ==> #[trigger] p.labels[i] <= max,
    ensures
        score_range::labels_within(raw, max),
{
    assert forall|c: int, pos: int|
        0 <= c < image::clusters(raw) && 0 <= pos < image::count_at(raw, c)
            implies #[trigger] image::stored_label(raw, c, pos) <= max by {
        assert(p.cluster_in(raw, c));
        lemma_stored(p, raw, c, pos);
    }
}

/// A search of an index that was built with labels of zero and one counts up to
/// five, whether it takes a vector at a time or lanes side by side.
pub proof fn law_built_counts_to_five(
    p: Plan,
    raw: Seq<u8>,
    q: Seq<i16>,
    nprobe: int,
    lo: int,
    hi: int,
)
    requires
        p.wf(),
        p.is_built(raw),
        forall|i: int| 0 <= i < p.labels.len() ==> #[trigger] p.labels[i] <= 1,
    ensures
        0 <= scalar::tag_sum(scalar::kept(raw, q, nprobe, lo, hi)) <= 5,
        0 <= scalar::tag_sum(wide::kept(raw, q, nprobe, lo, hi)) <= 5,
{
    law_built_labels_within(p, raw, 1);
    score_range::law_search_bounded(raw, q, nprobe, lo, hi, 1);
    score_range::law_wide_search_bounded(raw, q, nprobe, lo, hi, 1);
}

/// A search of a built index that repairs whatever the sum of labels is finds
/// the labels of the five nearest vectors, always.
pub proof fn law_built_full_repair_exact(
    p: Plan,
    raw: Seq<u8>,
    q: Seq<i16>,
    nprobe: int,
    lo: int,
    hi: int,
    max: int,
)
    requires
        p.wf(),
        p.is_built(raw),
        q.len() == 14,
        0 <= max,
        forall|i: int| 0 <= i < p.labels.len() ==> #[trigger] p.labels[i] <= max,
        lo <= 0,
        5 * max <= hi,
    ensures
        exact::are_nearest(
            scalar::kept(raw, q, nprobe, lo, hi),
            pairs(p, q, p.labels.len() as int).add(scalar::empty_five().to_multiset()),
        ),
{
    law_built_labels_within(p, raw, max);
    score_range::law_search_bounded(raw, q, nprobe, lo, hi, max);
    law_built_search_exact(p, raw, q, nprobe, lo, hi);
}

/// The vectors and the query lie on the stored scale.
pub open spec fn in_scale(p: Plan, q: Seq<i16>) -> bool {
    &&& forall|i: int| 0 <= i < p.vecs.len() ==> -SCALE <= #[trigger] p.vecs[i] <= SCALE
    &&& forall|d: int| 0 <= d < 14 ==> -SCALE <= #[trigger] q[d] <= SCALE
}

/// The distance of every vector to `q` is below the greatest number of
/// thirty-one bits. That of a stored centroid, which only says where to begin,
/// is not the one of a place not yet taken.
pub open spec fn distances_fit(p: Plan, raw: Seq<u8>, q: Seq<i16>) -> bool {
    &&& forall|i: int|
        0 <= i < p.labels.len() ==> (#[trigger] pair(p, q, i)).0 < 0x7fff_ffff
    &&& forall|c: int|
        0 <= c < p.k ==> wide::lane_distance(q, #[trigger] search::centroid_vector(raw, c))
            < u32::MAX
}

/// The vectors, the query and the stored centroids are features.
pub open spec fn are_features(p: Plan, q: Seq<i16>) -> bool {
    &&& forall|i: int, d: int|
        0 <= i < p.labels.len() && 0 <= d < 14 ==> exact_wide::is_feature(
            d,
            #[trigger] p.coordinate(i, d),
        )
    &&& forall|c: int, d: int|
        0 <= c < p.k && 0 <= d < 14 ==> exact_wide::is_feature(
            d,
            quant::cell_of(#[trigger] p.centroids[14 * c + d] as int),
        )
    &&& forall|d: int| 0 <= d < 14 ==> exact_wide::is_feature(d, #[trigger] q[d] as int)
}

proof fn lemma_extent_in_scale(p: Plan, c: int, d: int, n: int)
    requires
        p.wf(),
        forall|i: int| 0 <= i < p.vecs.len() ==> -SCALE <= #[trigger] p.vecs[i] <= SCALE,
        0 <= d < 14,
        0 < n <= p.size(c),
    ensures
        -SCALE <= p.least(c, d, n) <= SCALE,
        -SCALE <= p.greatest(c, d, n) <= SCALE,
    decreases n,
{
    ivf::lemma_roster(p, c);
    let i = p.roster(c)[n - 1].1;
    assert(0 <= 14 * i + d < p.vecs.len());
    assert(-SCALE <= p.vecs[14 * i + d] <= SCALE);
    if n > 1 {
        lemma_extent_in_scale(p, c, d, n - 1);
    } else {
        assert(p.least(c, d, 0) == i16::MAX && p.greatest(c, d, 0) == i16::MIN);
    }
}

/// Nothing wraps around in a search of a built index on the stored scale whose
/// distances fit.
pub proof fn law_built_is_calm(p: Plan, raw: Seq<u8>, q: Seq<i16>)
    requires
        p.wf(),
        p.is_built(raw),
        q.len() == 14,
        in_scale(p, q),
        distances_fit(p, raw, q),
    ensures
        exact_wide::is_calm(raw, q),
{
    assert forall|c: int| 0 <= c < image::clusters(raw) implies #[trigger] exact_wide::box_fits(
        raw,
        q,
        c,
    ) by {
        assert(p.cluster_in(raw, c));
        assert forall|d: int| 0 <= d < 14 implies -32768 <= #[trigger] image::bmin_at(raw, c, d)
            - q[d] <= 32767 && -32768 <= q[d] - image::bmax_at(raw, c, d) <= 32767 by {
            assert(image::bmax_at(raw, c, d) == p.high(c, d));
            assert(-SCALE <= q[d] <= SCALE);
            if p.size(c) > 0 {
                lemma_extent_in_scale(p, c, d, p.size(c));
            }
        }
    }
    assert forall|c: int, pos: int|
        0 <= c < image::clusters(raw) && 0 <= pos < image::count_at(raw, c) implies exact_wide::fits(
        q,
        #[trigger] image::stored_vector(raw, c, pos),
    ) by {
        assert(p.cluster_in(raw, c));
        lemma_stored(p, raw, c, pos);
        let i = p.roster(c)[pos].1;
        let v = image::stored_vector(raw, c, pos);
        assert(pair(p, q, i).0 < 0x7fff_ffff);
        assert forall|d: int| 0 <= d < 14 implies -32768 <= q[d] - #[trigger] v[d] <= 32767 by {
            assert(-SCALE <= p.vecs[14 * i + d] <= SCALE);
            assert(-SCALE <= q[d] <= SCALE);
        }
    }
}

/// Features lie on the stored scale, and the distances between them fit.
pub proof fn law_features_fit(p: Plan, raw: Seq<u8>, q: Seq<i16>)
    requires
        p.wf(),
        p.is_built(raw),
        q.len() == 14,
        are_features(p, q),
    ensures
        in_scale(p, q),
        distances_fit(p, raw, q),
{
    assert forall|i: int| 0 <= i < p.vecs.len() implies -SCALE <= #[trigger] p.vecs[i] <= SCALE by {
        assert(exact_wide::is_feature(i % 14, p.coordinate(i / 14, i % 14)));
    }
    assert forall|d: int| 0 <= d < 14 implies -SCALE <= #[trigger] q[d] <= SCALE by {
        assert(exact_wide::is_feature(d, q[d] as int));
    }
    assert forall|i: int| 0 <= i < p.labels.len() implies (#[trigger] pair(p, q, i)).0
        < 0x7fff_ffff by {
        let v = vector(p, i);
        assert forall|d: int| 0 <= d < 14 implies exact_wide::is_feature(d, #[trigger] v[d]) by {
            assert(exact_wide::is_feature(d, p.coordinate(i, d)));
        }
        exact_wide::lemma_features_fit(q, v);
    }
    assert forall|c: int| 0 <= c < p.k implies wide::lane_distance(
        q,
        #[trigger] search::centroid_vector(raw, c),
    ) < u32::MAX by {
        assert(p.cluster_in(raw, c));
        let v = search::centroid_vector(raw, c);
        assert forall|d: int| 0 <= d < 14 implies exact_wide::is_feature(d, #[trigger] v[d]) by {
            assert(image::centroid_at(raw, c, d) == quant::cell_of(p.centroids[14 * c + d] as int));
        }
        exact_wide::lemma_features_fit(q, v);
        exact_wide::lemma_lane_distance(q, v, 14);
    }
}

/// A search of a built index with lanes side by side whose result lies in the
/// range of repair finds the labels of the five vectors nearest to the query
/// among all those that the index was built from, if all is on the stored scale
/// and the distances fit.
pub proof fn law_built_wide_search_exact(
    p: Plan,
    raw: Seq<u8>,
    q: Seq<i16>,
    nprobe: int,
    lo: int,
    hi: int,
)
    requires
        p.wf(),
        p.is_built(raw),
        p.k > 0,
        q.len() == 14,
        in_scale(p, q),
        distances_fit(p, raw, q),
        lo <= scalar::tag_sum(wide::kept(raw, q, nprobe, lo, hi)) <= hi,
    ensures
        exact::are_nearest(
            wide::kept(raw, q, nprobe, lo, hi),
            pairs(p, q, p.labels.len() as int).add(wide::empty_five().to_multiset()),
        ),
{
    law_built_is_calm(p, raw, q);
    law_built_boxes_hold(p, raw);
    lemma_gathered(p, raw, q, p.k);
    lemma_clustered_all(p, q, p.labels.len() as int);
    exact_wide::law_wide_search_exact(raw, q, nprobe, lo, hi);
}

/// Among features, a search of a built index whose result lies in the range of
/// repair finds the labels of the five vectors nearest to the query, whether it
/// takes a vector at a time or lanes side by side.
pub proof fn law_built_feature_search_exact(
    p: Plan,
    raw: Seq<u8>,
    q: Seq<i16>,
    nprobe: int,
    lo: int,
    hi: int,
)
    requires
        p.wf(),
        p.is_built(raw),
        p.k > 0,
        q.len() == 14,
        are_features(p, q),
    ensures
        lo <= scalar::tag_sum(scalar::kept(raw, q, nprobe, lo, hi)) <= hi ==> exact::are_nearest(
            scalar::kept(raw, q, nprobe, lo, hi),
            pairs(p, q, p.labels.len() as int).add(scalar::empty_five().to_multiset()),
        ),
        lo <= scalar::tag_sum(wide::kept(raw, q, nprobe, lo, hi)) <= hi ==> exact::are_nearest(
            wide::kept(raw, q, nprobe, lo, hi),
            pairs(p, q, p.labels.len() as int).add(wide::empty_five().to_multiset()),
        ),
{
    law_features_fit(p, raw, q);
    if lo <= scalar::tag_sum(scalar::kept(raw, q, nprobe, lo, hi)) <= hi {
        law_built_search_exact(p, raw, q, nprobe, lo, hi);
    }
    if lo <= scalar::tag_sum(wide::kept(raw, q, nprobe, lo, hi)) <= hi {
        law_built_wide_search_exact(p, raw, q, nprobe, lo, hi);
    }
}

// ---------------------------------------------------------------------------
// Clusters
// ---------------------------------------------------------------------------

proof fn lemma_size(p: Plan, c: int, n: int)
    ensures
        p.members(c, n).len() == counts::how_many(n, |i: int| p.assignment[i] == c),
    decreases n,
{
    if n > 0 {
        lemma_size(p, c, n - 1);
    }
}

/// Vector `i` is stored in cluster `c`, where it was assigned to, at `pos`.
pub open spec fn is_stored_at(p: Plan, raw: Seq<u8>, c: int, pos: int, i: int) -> bool {
    &&& 0 <= i < p.labels.len()
    &&& p.assignment[i] == c
    &&& image::stored_label(raw, c, pos) == p.labels[i]
    &&& image::stored_vector(raw, c, pos).len() == 14
    &&& forall|d: int|
        0 <= d < 14 ==> #[trigger] image::stored_vector(raw, c, pos)[d] == p.vecs[14 * i + d]
}

/// A cluster of an index that was built holds as many vectors as were assigned
/// to it, and none but those.
pub proof fn law_built_by_assignment(p: Plan, raw: Seq<u8>, c: int, pos: int)
    requires
        p.wf(),
        p.is_built(raw),
        0 <= c < p.k,
        0 <= pos < image::count_at(raw, c),
    ensures
        image::count_at(raw, c) == counts::how_many(
            p.labels.len() as int,
            |i: int| p.assignment[i] == c,
        ),
        exists|i: int| #[trigger] is_stored_at(p, raw, c, pos, i),
{
    assert(p.cluster_in(raw, c));
    lemma_size(p, c, p.labels.len() as int);
    lemma_stored(p, raw, c, pos);
    ivf::lemma_roster(p, c);
    let i = p.roster(c)[pos].1;
    assert(is_stored_at(p, raw, c, pos, i));
}

proof fn lemma_attained(p: Plan, c: int, d: int, n: int) -> (r: (int, int))
    requires
        0 < n,
    ensures
        0 <= r.0 < n,
        0 <= r.1 < n,
        p.least(c, d, n) == p.coordinate(p.roster(c)[r.0].1, d),
        p.greatest(c, d, n) == p.coordinate(p.roster(c)[r.1].1, d),
    decreases n,
{
    let x = p.coordinate(p.roster(c)[n - 1].1, d);
    assert(i16::MIN <= x <= i16::MAX);
    if n == 1 {
        assert(p.least(c, d, 0) == i16::MAX && p.greatest(c, d, 0) == i16::MIN);
        (0, 0)
    } else {
        let (a, b) = lemma_attained(p, c, d, n - 1);
        (
            if x < p.least(c, d, n - 1) {
                n - 1
            } else {
                a
            },
            if x > p.greatest(c, d, n - 1) {
                n - 1
            } else {
                b
            },
        )
    }
}

/// The box of a cluster is no greater than it has to be: each of its bounds is
/// the coordinate of one of the vectors. That of an empty cluster is at zero.
pub proof fn law_built_boxes_tight(p: Plan, raw: Seq<u8>, c: int, d: int) -> (r: (int, int))
    requires
        p.wf(),
        p.is_built(raw),
        0 <= c < p.k,
        0 <= d < 14,
    ensures
        ({
            let n = image::count_at(raw, c);
            &&& n > 0 ==> {
                &&& 0 <= r.0 < n
                &&& 0 <= r.1 < n
                &&& image::bmin_at(raw, c, d) == image::stored_vector(raw, c, r.0)[d]
                &&& image::bmax_at(raw, c, d) == image::stored_vector(raw, c, r.1)[d]
            }
            &&& n == 0 ==> image::bmin_at(raw, c, d) == 0 && image::bmax_at(raw, c, d) == 0
        }),
{
    assert(p.cluster_in(raw, c));
    let n = p.size(c);
    if n > 0 {
        let (a, b) = lemma_attained(p, c, d, n);
        lemma_stored(p, raw, c, a);
        lemma_stored(p, raw, c, b);
        (a, b)
    } else {
        (0, 0)
    }
}

/// The blocks of the clusters follow one another: the first begins at the first
/// block, each other where the one before it ends, and all of them together are
/// the blocks that the header speaks of.
pub proof fn law_built_blocks_follow(p: Plan, raw: Seq<u8>, c: int)
    requires
        p.wf(),
        p.is_built(raw),
        0 <= c < p.k,
    ensures
        image::start_at(raw, 0) == 0,
        image::start_at(raw, c + 1) == image::start_at(raw, c) + image::blocks_for(
            image::count_at(raw, c),
        ),
        image::start_at(raw, p.k) == image::block_total(raw),
        image::clusters(raw) == p.k,
{
    assert(p.cluster_in(raw, c));
    assert(p.cluster_in(raw, 0));
    if c + 1 < p.k {
        assert(p.cluster_in(raw, c + 1));
    }
}

/// Coordinates of centroids are stored as the nearest whole numbers.
pub proof fn law_built_centroids(p: Plan, raw: Seq<u8>, c: int, d: int)
    requires
        p.wf(),
        p.is_built(raw),
        0 <= c < p.k,
        0 <= d < 14,
        0x80_0000 <= p.centroids[14 * c + d] < 0x7f80_0000,
    ensures
        ({
            let bits = p.centroids[14 * c + d] as int;
            let m = 0x80_0000 + bits % 0x80_0000;
            let e = bits / 0x80_0000 - 150;
            let r = image::centroid_at(raw, c, d);
            let u = vstd::arithmetic::power2::pow2((-e) as nat) as int;
            &&& e >= 0 ==> r == 10000
            &&& e < 0 && r < 10000 ==> 2 * (r * u - m) <= u && 2 * (m - r * u) < u
            &&& e < 0 && r >= 10000 ==> r == 10000 && 2 * m >= 19999 * u
        }),
{
    assert(p.cluster_in(raw, c));
    assert(image::centroid_at(raw, c, d) == quant::cell_of(p.centroids[14 * c + d] as int));
    precision::law_centroid_is_nearest(p.centroids[14 * c + d] as int);
}

/// Vectors of a cluster with the same key are stored in the order in which they
/// were given.
pub proof fn law_built_keeps_order(p: Plan, raw: Seq<u8>, c: int, a: int, b: int)
    requires
        p.wf(),
        p.is_built(raw),
        0 <= c < p.k,
        0 <= a < b < p.size(c),
    ensures
        ({
            let i = p.roster(c)[a].1;
            let j = p.roster(c)[b].1;
            &&& i != j
            &&& p.keys[i] == p.keys[j] ==> i < j
        }),
{
    let n = p.labels.len() as int;
    let s = p.members(c, n);
    let t = p.roster(c);
    ivf::lemma_members(p, c, n);
    ivf::lemma_roster(p, c);
    sort::law_sorted_by_distance(s, a, b);
    let x = sort::lemma_same_slot(t, s, a);
    let y = sort::lemma_same_slot(t, s, b);
    assert(s[x] == t[a] && s[y] == t[b]);
    assert(exact::tags_differ(s)) by {
        assert forall|u: int, v: int| 0 <= u < v < s.len() implies (#[trigger] s[u]).1 != (
        #[trigger] s[v]).1 by {
            assert(s[u].1 < s[v].1);
        }
    }
    exact::lemma_differ_multiset(s, t);
    assert(t[a].1 != t[b].1);
}

/// Behind the last vector of a cluster its last block is filled with zeros.
pub proof fn law_built_pads_with_zeros(p: Plan, raw: Seq<u8>, c: int, pos: int, d: int)
    requires
        p.wf(),
        p.is_built(raw),
        0 <= c < p.k,
        image::count_at(raw, c) <= pos < 8 * image::blocks_for(image::count_at(raw, c)),
        0 <= d < 14,
    ensures
        image::stored_vector(raw, c, pos)[d] == 0,
        image::stored_label(raw, c, pos) == 0,
{
    assert(p.cluster_in(raw, c));
    assert(image::stored_vector(raw, c, pos)[d] == p.cell(c, pos, d));
    assert(image::stored_label(raw, c, pos) == p.tag(c, pos));
}

} // verus!
