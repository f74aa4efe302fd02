//! When a search with lanes side by side is exact.
//!
//! Lane arithmetic wraps around. Where nothing does, the search is as exact as
//! the one that takes a vector at a time.
use vstd::prelude::*;
use vstd::multiset::Multiset;
use crate::exact;
use crate::image;
use crate::nearest::{self, Slots};
use crate::quant::SCALE;
use crate::scalar;
use crate::search;
use crate::sort;
use crate::wide;

verus! {

/// No coordinate of the difference between `q` and `v` needs more than sixteen
/// bits, and their distance is below the greatest of thirty-one.
pub open spec fn fits(q: Seq<i16>, v: Seq<int>) -> bool {
    &&& forall|d: int| 0 <= d < 14 ==> -32768 <= q[d] - #[trigger] v[d] <= 32767
    &&& nearest::distance(q, v) < 0x7fff_ffff
}

/// The corners of the box of cluster `c` differ from `q` by sixteen bits.
pub open spec fn box_fits(raw: Seq<u8>, q: Seq<i16>, c: int) -> bool {
    forall|d: int|
        0 <= d < 14 ==> -32768 <= #[trigger] image::bmin_at(raw, c, d) - q[d] <= 32767 && -32768
            <= q[d] - image::bmax_at(raw, c, d) <= 32767
}

/// Nothing that counts wraps around in a search for `q`. Distances to centroids
/// may: they only say where to begin. They must not look like that of a place
/// not yet taken.
pub open spec fn is_calm(raw: Seq<u8>, q: Seq<i16>) -> bool {
    &&& forall|c: int|
        0 <= c < image::clusters(raw) ==> wide::lane_distance(
            q,
            #[trigger] search::centroid_vector(raw, c),
        ) < u32::MAX
    &&& forall|c: int| 0 <= c < image::clusters(raw) ==> #[trigger] box_fits(raw, q, c)
    &&& forall|c: int, pos: int|
        0 <= c < image::clusters(raw) && 0 <= pos < image::count_at(raw, c) ==> fits(
            q,
            #[trigger] image::stored_vector(raw, c, pos),
        )
}

/// Distance and label of every stored vector, and five empty slots.
pub open spec fn all_pairs(raw: Seq<u8>, q: Seq<i16>) -> Multiset<(int, int)> {
    exact::gathered(raw, q, Set::full(), image::clusters(raw)).add(
        wide::empty_five().to_multiset(),
    )
}

// ---------------------------------------------------------------------------
// Distances
// ---------------------------------------------------------------------------

/// Without wrapping, a distance in lane arithmetic is the distance, and its
/// parts are no greater.
pub proof fn lemma_lane_distance(q: Seq<i16>, v: Seq<int>, n: int)
    requires
        q.len() == 14,
        v.len() == 14,
        fits(q, v),
        0 <= n <= 14,
    ensures
        wide::lane_distance(q, v) == nearest::distance(q, v),
        0 <= wide::lane_prefix(q, v, n) <= nearest::distance(q, v),
{
    let a = wide::lane_differences(q, v);
    let b = nearest::differences(q, v);
    assert(a =~= b);
    assert(b.take(14) =~= b);
    nearest::lemma_square_sum_monotone(b, n, 14);
    nearest::lemma_square_sum_monotone(b, 0, n);
    assert(nearest::square_sum(b.take(0)) == 0);
    let s = nearest::square_sum(b.take(n));
    let t = nearest::square_sum(b);
    assert(0 <= s <= t < 0x7fff_ffff);
    assert(wide::wrap32(s) == s && wide::wrap32(t) == t);
}

/// Without wrapping, the bound of a cluster that holds a vector is the distance
/// to its box.
pub proof fn lemma_lane_bound(raw: Seq<u8>, q: Seq<i16>, c: int)
    requires
        q.len() == 14,
        is_calm(raw, q),
        exact::boxes_hold(raw),
        0 <= c < image::clusters(raw),
        image::count_at(raw, c) > 0,
    ensures
        wide::lane_bound(raw, q, c) == search::cluster_bound(raw, q, c),
{
    let lo = search::bmin_vector(raw, c);
    let hi = search::bmax_vector(raw, c);
    let v = image::stored_vector(raw, c, 0);
    assert(exact::in_box(raw, c, v));
    assert(fits(q, v));
    assert(box_fits(raw, q, c));
    assert forall|d: int| 0 <= d < 14 implies lo[d] <= #[trigger] v[d] <= hi[d] by {}
    nearest::lemma_box_distance(q, lo, hi, v);
    let a = wide::lane_gaps(q, lo, hi);
    let b = nearest::gaps(q, lo, hi);
    assert forall|d: int| 0 <= d < 14 implies #[trigger] a[d] == b[d] by {
        assert(image::bmin_at(raw, c, d) == lo[d]);
        assert(lo[d] <= v[d] <= hi[d]);
    }
    assert(a =~= b);
    nearest::lemma_square_sum_monotone(b, 0, 14);
    assert(b.take(14) =~= b);
    assert(nearest::square_sum(b.take(0)) == 0);
    let t = nearest::square_sum(b);
    assert(wide::wrap32(t) == t);
}

// ---------------------------------------------------------------------------
// Features in their ranges
// ---------------------------------------------------------------------------

/// The numbers that coordinate `d` of a feature vector can be: only the two that
/// look back at the last transaction are ever negative.
pub open spec fn is_feature(d: int, x: int) -> bool {
    &&& x <= SCALE
    &&& if d == 5 || d == 6 {
        -SCALE <= x
    } else {
        0 <= x
    }
}

pub open spec fn are_features(v: Seq<int>) -> bool {
    forall|d: int| 0 <= d < 14 ==> is_feature(d, #[trigger] v[d])
}

/// The query, the stored vectors, the centroids and the corners of the boxes
/// are features.
pub open spec fn holds_features(raw: Seq<u8>, q: Seq<i16>) -> bool {
    &&& forall|d: int| 0 <= d < 14 ==> is_feature(d, #[trigger] q[d] as int)
    &&& forall|c: int|
        0 <= c < image::clusters(raw) ==> are_features(#[trigger] search::centroid_vector(raw, c))
    &&& forall|c: int|
        0 <= c < image::clusters(raw) ==> are_features(#[trigger] search::bmin_vector(raw, c))
    &&& forall|c: int|
        0 <= c < image::clusters(raw) ==> are_features(#[trigger] search::bmax_vector(raw, c))
    &&& forall|c: int, pos: int|
        0 <= c < image::clusters(raw) && 0 <= pos < image::count_at(raw, c) ==> are_features(
            #[trigger] image::stored_vector(raw, c, pos),
        )
}

/// Vectors of features are near enough for lane arithmetic.
pub proof fn lemma_features_fit(q: Seq<i16>, v: Seq<int>)
    requires
        q.len() == 14,
        v.len() == 14,
        forall|d: int| 0 <= d < 14 ==> is_feature(d, #[trigger] q[d] as int),
        are_features(v),
    ensures
        fits(q, v),
{
    let b = nearest::differences(q, v);
    assert forall|d: int| 0 <= d < 14 implies -32768 <= q[d] - #[trigger] v[d] <= 32767 by {
        assert(is_feature(d, q[d] as int));
    }
    assert forall|d: int| 0 <= d < 14 implies 0 <= #[trigger] nearest::square(b[d]) <= if d == 5
        || d == 6 {
        400_000_000int
    } else {
        100_000_000
    } by {
        assert(is_feature(d, q[d] as int) && is_feature(d, v[d]));
        if d == 5 || d == 6 {
            nearest::lemma_square_bound(b[d], 20000);
        } else {
            nearest::lemma_square_bound(b[d], 10000);
        }
    }
    lemma_prefix_sum(b, 14);
    assert(b.take(14) =~= b);
}

/// The sum of squares of differences of features, up to a coordinate.
proof fn lemma_prefix_sum(b: Seq<int>, n: int)
    requires
        b.len() == 14,
        0 <= n <= 14,
        forall|d: int|
            0 <= d < 14 ==> 0 <= #[trigger] nearest::square(b[d]) <= if d == 5 || d == 6 {
                400_000_000int
            } else {
                100_000_000
            },
    ensures
        0 <= nearest::square_sum(b.take(n)) <= 100_000_000 * n + if n <= 5 {
            0int
        } else if n == 6 {
            300_000_000
        } else {
            600_000_000
        },
    decreases n,
{
    if n > 0 {
        lemma_prefix_sum(b, n - 1);
        nearest::lemma_square_sum_step(b, n - 1);
        assert(0 <= nearest::square(b[n - 1]));
    }
}

/// Nothing wraps around in a search among features.
pub proof fn law_features_are_calm(raw: Seq<u8>, q: Seq<i16>)
    requires
        q.len() == 14,
        holds_features(raw, q),
    ensures
        is_calm(raw, q),
{
    assert forall|c: int| 0 <= c < image::clusters(raw) implies wide::lane_distance(
        q,
        #[trigger] search::centroid_vector(raw, c),
    ) < u32::MAX by {
        let v = search::centroid_vector(raw, c);
        assert(are_features(v));
        lemma_features_fit(q, v);
        lemma_lane_distance(q, v, 14);
    }
    assert forall|c: int| 0 <= c < image::clusters(raw) implies #[trigger] box_fits(raw, q, c) by {
        let lo = search::bmin_vector(raw, c);
        let hi = search::bmax_vector(raw, c);
        assert(are_features(lo) && are_features(hi));
        assert forall|d: int| 0 <= d < 14 implies -32768 <= #[trigger] image::bmin_at(raw, c, d)
            - q[d] <= 32767 && -32768 <= q[d] - image::bmax_at(raw, c, d) <= 32767 by {
            assert(is_feature(d, q[d] as int) && is_feature(d, lo[d]) && is_feature(d, hi[d]));
        }
    }
    assert forall|c: int, pos: int|
        0 <= c < image::clusters(raw) && 0 <= pos < image::count_at(raw, c) implies fits(
        q,
        #[trigger] image::stored_vector(raw, c, pos),
    ) by {
        lemma_features_fit(q, image::stored_vector(raw, c, pos));
    }
}

// ---------------------------------------------------------------------------
// Five slots in order
// ---------------------------------------------------------------------------

/// The last of slots in order is the farthest.
pub proof fn lemma_last_is_worst(s: Slots)
    requires
        s.len() > 0,
        nearest::is_by_distance(s),
    ensures
        nearest::worst_distance(s) == s.last().0,
{
    nearest::lemma_worst_slot(s);
    let w = nearest::worst_slot(s);
    let n = s.len() - 1;
    if w < n {
        assert(s[w].0 <= s[n].0);
    }
    assert(s[n].0 <= s[w].0);
}

proof fn lemma_keep(s: Slots, all: Multiset<(int, int)>, d: int, tag: int)
    requires
        s.len() == 5,
        nearest::is_by_distance(s),
        exact::are_nearest(s, all),
    ensures
        ({
            let t = wide::keep(s, d, tag);
            &&& t.len() == 5
            &&& nearest::is_by_distance(t)
            &&& exact::are_nearest(t, all.insert((d, tag)))
            &&& t.last().0 <= s.last().0
        }),
{
    broadcast use vstd::seq_lib::group_to_multiset_ensures;
    broadcast use vstd::multiset::group_multiset_axioms;

    lemma_last_is_worst(s);
    let x = (d, tag);
    let t = wide::keep(s, d, tag);
    if d < s.last().0 {
        let u = s.drop_last();
        assert forall|i: int, j: int| 0 <= i < j < u.len() implies (#[trigger] u[i]).0 <= (
        #[trigger] u[j]).0 by {
            assert(u[i] == s[i] && u[j] == s[j]);
        }
        nearest::lemma_place_sorted(u, x);
        nearest::lemma_rank(u, d);
        lemma_last_is_worst(t);
        vstd::seq_lib::to_multiset_insert(u, nearest::rank(u, d), x);
        assert(u.push(s.last()) =~= s);
        vstd::seq_lib::to_multiset_build(u, s.last());
        assert(t.to_multiset() =~= u.to_multiset().insert(x));
        assert(s.to_multiset() =~= u.to_multiset().insert(s.last()));
        assert(t.last().0 <= s.last().0) by {
            let r = nearest::rank(u, d);
            if r < 4 {
                assert(t[4] == u[3]);
                assert(u[3] == s[3]);
                assert(s[3].0 <= s[4].0);
            } else {
                assert(t[4] == x);
            }
        }
        assert forall|y: (int, int)| #[trigger]
            all.insert(x).count(y) > t.to_multiset().count(y) implies nearest::worst_distance(t)
            <= y.0 by {
            if y != s.last() {
                assert(all.count(y) > s.to_multiset().count(y));
            }
        }
        assert(t.to_multiset().subset_of(all.insert(x)));
    } else {
        assert forall|y: (int, int)| #[trigger]
            all.insert(x).count(y) > t.to_multiset().count(y) implies nearest::worst_distance(t)
            <= y.0 by {
            if y != x {
                assert(all.count(y) > s.to_multiset().count(y));
            }
        }
    }
}

/// What is no nearer than the last slot changes nothing.
proof fn lemma_pass(s: Slots, all: Multiset<(int, int)>, x: (int, int))
    requires
        s.len() == 5,
        nearest::is_by_distance(s),
        exact::are_nearest(s, all),
        s.last().0 <= x.0,
    ensures
        exact::are_nearest(s, all.insert(x)),
{
    broadcast use vstd::multiset::group_multiset_axioms;

    lemma_last_is_worst(s);
    assert forall|y: (int, int)| #[trigger]
        all.insert(x).count(y) > s.to_multiset().count(y) implies nearest::worst_distance(s)
        <= y.0 by {
        if y != x {
            assert(all.count(y) > s.to_multiset().count(y));
        }
    }
}

// ---------------------------------------------------------------------------
// Scans
// ---------------------------------------------------------------------------

/// The slots are in order and nearest among `all`.
pub open spec fn is_ranked(s: Slots, all: Multiset<(int, int)>) -> bool {
    &&& s.len() == 5
    &&& nearest::is_by_distance(s)
    &&& exact::are_nearest(s, all)
}

proof fn lemma_keep_range(
    raw: Seq<u8>,
    q: Seq<i16>,
    c: int,
    from: int,
    to: int,
    s: Slots,
    all: Multiset<(int, int)>,
)
    requires
        q.len() == 14,
        is_calm(raw, q),
        0 <= c < image::clusters(raw),
        0 <= from <= to <= image::count_at(raw, c),
        is_ranked(s, all.add(exact::cluster_pairs(raw, q, c, from))),
    ensures
        is_ranked(
            wide::keep_range(raw, q, c, from, to, s),
            all.add(exact::cluster_pairs(raw, q, c, to)),
        ),
        wide::keep_range(raw, q, c, from, to, s).last().0 <= s.last().0,
    decreases to - from,
{
    broadcast use vstd::multiset::group_multiset_axioms;

    if from < to {
        lemma_keep_range(raw, q, c, from, to - 1, s, all);
        let t = wide::keep_range(raw, q, c, from, to - 1, s);
        let v = image::stored_vector(raw, c, to - 1);
        assert(fits(q, v));
        lemma_lane_distance(q, v, 14);
        let x = (nearest::distance(q, v), image::stored_label(raw, c, to - 1));
        lemma_keep(t, all.add(exact::cluster_pairs(raw, q, c, to - 1)), x.0, x.1);
        assert(all.add(exact::cluster_pairs(raw, q, c, to - 1)).insert(x) =~= all.add(
            exact::cluster_pairs(raw, q, c, to),
        ));
    }
}

/// Vectors of a block that is passed over are no nearer than the last slot.
proof fn lemma_pass_range(
    raw: Seq<u8>,
    q: Seq<i16>,
    c: int,
    from: int,
    to: int,
    s: Slots,
    all: Multiset<(int, int)>,
)
    requires
        0 <= from <= to,
        is_ranked(s, all.add(exact::cluster_pairs(raw, q, c, from))),
        forall|pos: int|
            from <= pos < to ==> s.last().0 <= nearest::distance(
                q,
                #[trigger] image::stored_vector(raw, c, pos),
            ),
    ensures
        is_ranked(s, all.add(exact::cluster_pairs(raw, q, c, to))),
    decreases to - from,
{
    broadcast use vstd::multiset::group_multiset_axioms;

    if from < to {
        lemma_pass_range(raw, q, c, from, to - 1, s, all);
        let v = image::stored_vector(raw, c, to - 1);
        let x = (nearest::distance(q, v), image::stored_label(raw, c, to - 1));
        lemma_pass(s, all.add(exact::cluster_pairs(raw, q, c, to - 1)), x);
        assert(all.add(exact::cluster_pairs(raw, q, c, to - 1)).insert(x) =~= all.add(
            exact::cluster_pairs(raw, q, c, to),
        ));
    }
}

/// The vectors of the first `i` blocks of a cluster of `count`.
pub open spec fn up_to(i: int, count: int) -> int {
    if i * 8 < count {
        i * 8
    } else {
        count
    }
}

proof fn lemma_scan_block(
    raw: Seq<u8>,
    q: Seq<i16>,
    c: int,
    i: int,
    s: Slots,
    all: Multiset<(int, int)>,
)
    requires
        q.len() == 14,
        is_calm(raw, q),
        0 <= c < image::clusters(raw),
        0 <= i < image::blocks_for(image::count_at(raw, c)),
        is_ranked(s, all.add(exact::cluster_pairs(raw, q, c, i * 8))),
    ensures
        is_ranked(
            wide::scan_block(raw, q, c, i, s),
            all.add(exact::cluster_pairs(raw, q, c, up_to(i + 1, image::count_at(raw, c)))),
        ),
        wide::scan_block(raw, q, c, i, s).last().0 <= s.last().0,
{
    let count = image::count_at(raw, c);
    let to = up_to(i + 1, count);
    let b = image::start_at(raw, c) + i;
    let limit = s.last().0;
    let early = wide::all_reach(raw, q, b, 6, limit);
    if early || wide::all_reach(raw, q, b, 10, limit) {
        let n: int = if early {
            6
        } else {
            10
        };
        assert forall|pos: int| i * 8 <= pos < to implies limit <= nearest::distance(
            q,
            #[trigger] image::stored_vector(raw, c, pos),
        ) by {
            let lane = pos - i * 8;
            assert(pos / 8 == i && pos % 8 == lane);
            let v = image::stored_vector(raw, c, pos);
            assert(v == image::lane_vector(raw, b, lane));
            assert(fits(q, v));
            lemma_lane_distance(q, v, n);
            assert(wide::reaches(
                wide::lane_prefix(q, image::lane_vector(raw, b, lane), n),
                limit,
            ));
        }
        lemma_pass_range(raw, q, c, i * 8, to, s, all);
    } else {
        lemma_keep_range(raw, q, c, i * 8, to, s, all);
    }
}

proof fn lemma_scan_blocks(
    raw: Seq<u8>,
    q: Seq<i16>,
    c: int,
    n: int,
    s: Slots,
    all: Multiset<(int, int)>,
)
    requires
        q.len() == 14,
        is_calm(raw, q),
        0 <= c < image::clusters(raw),
        0 <= n <= image::blocks_for(image::count_at(raw, c)),
        image::count_at(raw, c) >= 0,
        is_ranked(s, all),
    ensures
        is_ranked(
            wide::scan_blocks(raw, q, c, n, s),
            all.add(exact::cluster_pairs(raw, q, c, up_to(n, image::count_at(raw, c)))),
        ),
        wide::scan_blocks(raw, q, c, n, s).last().0 <= s.last().0,
    decreases n,
{
    broadcast use vstd::multiset::group_multiset_axioms;

    let count = image::count_at(raw, c);
    if n == 0 {
        assert(up_to(0, count) == 0);
        assert(all.add(exact::cluster_pairs(raw, q, c, 0)) =~= all);
    } else {
        lemma_scan_blocks(raw, q, c, n - 1, s, all);
        assert(up_to(n - 1, count) == (n - 1) * 8);
        lemma_scan_block(raw, q, c, n - 1, wide::scan_blocks(raw, q, c, n - 1, s), all);
    }
}

// ---------------------------------------------------------------------------
// The probed clusters
// ---------------------------------------------------------------------------

proof fn lemma_swap(s: Slots, i: int, j: int)
    requires
        0 <= i < j < s.len(),
    ensures
        s.update(i, s[j]).update(j, s[i]).to_multiset() == s.to_multiset(),
{
    broadcast use vstd::multiset::group_multiset_axioms;
    broadcast use vstd::seq_lib::group_to_multiset_ensures;

    let t = s.update(i, s[j]);
    vstd::seq_lib::to_multiset_update(s, i, s[j]);
    vstd::seq_lib::to_multiset_update(t, j, s[i]);
    assert(t[j] == s[j]);
    assert(s.contains(s[i]) && s.contains(s[j]));
    assert(t.update(j, s[i]).to_multiset() =~= s.to_multiset());
}

proof fn lemma_sift(s: Slots, i: int, j: int)
    requires
        0 <= i,
        j <= s.len(),
    ensures
        wide::sift(s, i, j).to_multiset() == s.to_multiset(),
        wide::sift(s, i, j).len() == s.len(),
    decreases j - i,
{
    if j > i + 1 {
        lemma_sift(s, i, j - 1);
        let t = wide::sift(s, i, j - 1);
        lemma_swap(t, i, j - 1);
    }
}

/// Sifting keeps every slot.
pub proof fn lemma_sifted(s: Slots, n: int)
    ensures
        wide::sifted(s, n).to_multiset() == s.to_multiset(),
        wide::sifted(s, n).len() == s.len(),
    decreases n,
{
    if n > 0 {
        lemma_sifted(s, n - 1);
        lemma_sift(wide::sifted(s, n - 1), n - 1, s.len() as int);
    }
}

/// The clusters of the first `n` places of `order`.
pub open spec fn tags(order: Slots, n: int) -> Set<int>
    decreases n,
{
    if n <= 0 {
        Set::empty()
    } else {
        tags(order, n - 1).insert(order[n - 1].1)
    }
}

pub proof fn lemma_tags(order: Slots, n: int)
    requires
        n <= order.len(),
    ensures
        forall|c: int|
            #![trigger tags(order, n).contains(c)]
            tags(order, n).contains(c) <==> exists|i: int|
                0 <= i < n && (#[trigger] order[i]).1 == c,
    decreases n,
{
    if n > 0 {
        lemma_tags(order, n - 1);
        assert forall|c: int|
            #![trigger tags(order, n).contains(c)]
            tags(order, n).contains(c) <==> exists|i: int|
                0 <= i < n && (#[trigger] order[i]).1 == c by {
            if tags(order, n - 1).contains(c) {
                let i = choose|i: int| 0 <= i < n - 1 && (#[trigger] order[i]).1 == c;
                assert(order[i].1 == c);
            }
            if order[n - 1].1 == c {
                assert(tags(order, n).contains(c));
            }
            if exists|i: int| 0 <= i < n && (#[trigger] order[i]).1 == c {
                let i = choose|i: int| 0 <= i < n && (#[trigger] order[i]).1 == c;
                if i < n - 1 {
                    assert(tags(order, n - 1).contains(c));
                }
            }
        }
    }
}

/// Distance and label of every vector of the clusters in `done`, and five empty
/// slots.
pub open spec fn with_empty(raw: Seq<u8>, q: Seq<i16>, done: Set<int>) -> Multiset<(int, int)> {
    exact::gathered(raw, q, done, image::clusters(raw)).add(wide::empty_five().to_multiset())
}

pub proof fn lemma_scan_done(raw: Seq<u8>, q: Seq<i16>, done: Set<int>, c: int, s: Slots)
    requires
        q.len() == 14,
        is_calm(raw, q),
        0 <= c < image::clusters(raw),
        image::count_at(raw, c) >= 0,
        !done.contains(c),
        is_ranked(s, with_empty(raw, q, done)),
    ensures
        is_ranked(wide::scan(raw, q, c, s), with_empty(raw, q, done.insert(c))),
        wide::scan(raw, q, c, s).last().0 <= s.last().0,
{
    broadcast use vstd::multiset::group_multiset_axioms;

    let n = image::count_at(raw, c);
    let blocks = image::blocks_for(n);
    lemma_scan_blocks(raw, q, c, blocks, s, with_empty(raw, q, done));
    assert(up_to(blocks, n) == n);
    exact::lemma_gathered_insert(raw, q, done, c, image::clusters(raw));
    assert(with_empty(raw, q, done).add(exact::cluster_pairs(raw, q, c, n)) =~= with_empty(
        raw,
        q,
        done.insert(c),
    ));
}

pub proof fn lemma_probe(raw: Seq<u8>, q: Seq<i16>, order: Slots, n: int)
    requires
        q.len() == 14,
        is_calm(raw, q),
        0 <= n <= order.len(),
        exact::tags_differ(order),
        forall|i: int|
            0 <= i < order.len() ==> 0 <= (#[trigger] order[i]).1 < image::clusters(raw),
    ensures
        is_ranked(
            wide::probe(raw, q, order, n, wide::empty_five()),
            with_empty(raw, q, tags(order, n)),
        ),
    decreases n,
{
    broadcast use vstd::multiset::group_multiset_axioms;

    if n == 0 {
        exact::lemma_gathered_empty(raw, q, image::clusters(raw));
        let s = wide::empty_five();
        assert(with_empty(raw, q, Set::empty()) =~= s.to_multiset());
    } else {
        lemma_probe(raw, q, order, n - 1);
        lemma_tags(order, n - 1);
        let c = order[n - 1].1;
        if tags(order, n - 1).contains(c) {
            let i = choose|i: int| 0 <= i < n - 1 && (#[trigger] order[i]).1 == c;
            assert(order[i].1 != order[n - 1].1);
        }
        lemma_count_nonnegative(raw, c);
        lemma_scan_done(
            raw,
            q,
            tags(order, n - 1),
            c,
            wide::probe(raw, q, order, n - 1, wide::empty_five()),
        );
    }
}

proof fn lemma_count_nonnegative(raw: Seq<u8>, c: int)
    ensures
        image::count_at(raw, c) >= 0,
{
}

// ---------------------------------------------------------------------------
// The search
// ---------------------------------------------------------------------------

proof fn lemma_repair(
    raw: Seq<u8>,
    q: Seq<i16>,
    list: Slots,
    i: int,
    s: Slots,
    lo: int,
    hi: int,
    done: Set<int>,
)
    requires
        q.len() == 14,
        is_calm(raw, q),
        exact::boxes_hold(raw),
        0 <= i <= list.len(),
        is_ranked(s, with_empty(raw, q, done)),
        exact::tags_differ(list),
        nearest::is_by_distance(list),
        forall|m: int|
            i <= m < list.len() ==> {
                &&& 0 <= (#[trigger] list[m]).1 < image::clusters(raw)
                &&& !done.contains(list[m].1)
                &&& list[m].0 == search::cluster_bound(raw, q, list[m].1)
            },
        forall|c: int|
            0 <= c < image::clusters(raw) && !done.contains(c) && !exact::is_pending(list, i, c)
                ==> #[trigger] exact::is_far(raw, q, c, s.last().0),
        lo <= scalar::tag_sum(wide::repair(raw, q, list, i, s, lo, hi)) <= hi,
    ensures
        exact::are_nearest(wide::repair(raw, q, list, i, s, lo, hi), all_pairs(raw, q)),
    decreases list.len() - i,
{
    lemma_last_is_worst(s);
    if i == list.len() || list[i].0 >= s.last().0 {
        assert forall|c: int|
            0 <= c < image::clusters(raw) && !done.contains(c) implies #[trigger] exact::is_far(
            raw,
            q,
            c,
            nearest::worst_distance(s),
        ) by {
            if exact::is_pending(list, i, c) {
                let m = choose|m: int| i <= m < list.len() && (#[trigger] list[m]).1 == c;
                if i < m {
                    assert(list[i].0 <= list[m].0);
                }
                exact::lemma_bound_is_far(raw, q, c, s.last().0);
            }
        }
        exact::lemma_nearest_of_all(raw, q, done, wide::empty_five().to_multiset(), s);
    } else {
        let c = list[i].1;
        let t = wide::scan(raw, q, c, s);
        lemma_count_nonnegative(raw, c);
        lemma_scan_done(raw, q, done, c, s);
        let after = done.insert(c);
        assert forall|m: int| i + 1 <= m < list.len() implies !after.contains(
            (#[trigger] list[m]).1,
        ) by {
            assert(list[i].1 != list[m].1);
        }
        assert forall|x: int|
            0 <= x < image::clusters(raw) && !after.contains(x) && !exact::is_pending(
                list,
                i + 1,
                x,
            ) implies #[trigger] exact::is_far(raw, q, x, t.last().0) by {
            if exact::is_pending(list, i, x) {
                let m = choose|m: int| i <= m < list.len() && (#[trigger] list[m]).1 == x;
                assert(m != i);
            }
            assert(exact::is_far(raw, q, x, s.last().0));
        }
        lemma_repair(raw, q, list, i + 1, t, lo, hi, after);
    }
}

/// The clusters that are probed are different ones.
proof fn lemma_order(raw: Seq<u8>, q: Seq<i16>, np: int)
    requires
        q.len() == 14,
        is_calm(raw, q),
        0 < np <= image::clusters(raw),
    ensures
        ({
            let order = wide::probe_order(raw, q, np);
            &&& exact::tags_differ(order)
            &&& forall|i: int|
                0 <= i < order.len() ==> 0 <= (#[trigger] order[i]).1 < image::clusters(raw)
        }),
{
    let k = image::clusters(raw);
    let ds = wide::centroid_distances(raw, q);
    let chosen = nearest::offer_all(nearest::open_slots(np, u32::MAX as int), ds);
    let order = wide::probe_order(raw, q, np);
    assert forall|i: int| 0 <= i < ds.len() implies #[trigger] ds[i] < u32::MAX by {
        assert(wide::lane_distance(q, search::centroid_vector(raw, i)) < u32::MAX);
    }
    exact::lemma_chosen_differ(np, u32::MAX as int, ds);
    lemma_sifted(chosen, np - 1);
    exact::lemma_differ_multiset(chosen, order);
    assert forall|i: int| 0 <= i < order.len() implies 0 <= (#[trigger] order[i]).1 < k by {
        let m = sort::lemma_same_slot(order, chosen, i);
        assert(chosen[m].1 == order[i].1);
    }
}

/// A search with lanes side by side in which nothing wraps around, and whose
/// result lies within the range that calls for a repair, is exact: no stored
/// vector is nearer than any of the five that it sums up, whatever number of
/// clusters it probes. This holds of every index whose boxes hold.
pub proof fn law_wide_search_exact(raw: Seq<u8>, q: Seq<i16>, nprobe: int, lo: int, hi: int)
    requires
        q.len() == 14,
        image::clusters(raw) > 0,
        is_calm(raw, q),
        exact::boxes_hold(raw),
        lo <= scalar::tag_sum(wide::kept(raw, q, nprobe, lo, hi)) <= hi,
    ensures
        exact::are_nearest(wide::kept(raw, q, nprobe, lo, hi), all_pairs(raw, q)),
{
    let k = image::clusters(raw);
    let np = scalar::probe_count(nprobe, k);
    let order = wide::probe_order(raw, q, np);
    lemma_order(raw, q, np);
    lemma_probe(raw, q, order, order.len() as int);
    lemma_tags(order, order.len() as int);
    let done = tags(order, order.len() as int);
    let s = wide::probe(raw, q, order, order.len() as int, wide::empty_five());
    let limit = s.last().0;
    let bounds = wide::cluster_bounds(raw, q);
    let cands = scalar::candidates(raw, bounds, order, limit, k);
    let list = nearest::by_distance(cands);
    exact::lemma_candidates(raw, bounds, order, limit, k);
    scalar::lemma_candidates_ascend(raw, bounds, order, limit, k);
    lemma_candidates_hold(raw, bounds, order, limit, k);
    sort::lemma_by_distance_multiset(cands);
    nearest::lemma_by_distance_sorted(cands);
    exact::lemma_differ_multiset(cands, list);
    assert forall|m: int| 0 <= m < list.len() implies {
        &&& 0 <= (#[trigger] list[m]).1 < k
        &&& !done.contains(list[m].1)
        &&& list[m].0 == search::cluster_bound(raw, q, list[m].1)
    } by {
        let i = sort::lemma_same_slot(list, cands, m);
        assert(cands[i] == list[m]);
        assert(image::count_at(raw, cands[i].1) != 0);
        lemma_count_nonnegative(raw, cands[i].1);
        lemma_lane_bound(raw, q, cands[i].1);
        if done.contains(list[m].1) {
            assert(scalar::is_tagged(order, list[m].1));
        }
    }
    assert forall|c: int|
        0 <= c < k && !done.contains(c) && !exact::is_pending(list, 0, c) implies #[trigger] exact::is_far(
        raw,
        q,
        c,
        limit,
    ) by {
        lemma_count_nonnegative(raw, c);
        if scalar::is_tagged(order, c) {
            let i = choose|i: int| 0 <= i < order.len() && (#[trigger] order[i]).1 == c;
            assert(done.contains(c));
        } else if image::count_at(raw, c) != 0 {
            lemma_lane_bound(raw, q, c);
            if bounds[c] < limit {
                assert(exact::is_pending(cands, 0, c));
                let i = choose|i: int| 0 <= i < cands.len() && (#[trigger] cands[i]).1 == c;
                let m = sort::lemma_same_slot(cands, list, i);
                assert(list[m].1 == c);
            } else {
                exact::lemma_bound_is_far(raw, q, c, limit);
            }
        }
    }
    if lo <= scalar::tag_sum(s) <= hi {
        lemma_repair(raw, q, list, 0, s, lo, hi, done);
    }
}

/// A search with lanes side by side that probes every cluster, and in which
/// nothing wraps around, is exact, whatever its result.
pub proof fn law_wide_full_probe_exact(raw: Seq<u8>, q: Seq<i16>, nprobe: int, lo: int, hi: int)
    requires
        q.len() == 14,
        image::clusters(raw) > 0,
        is_calm(raw, q),
        exact::boxes_hold(raw),
        scalar::probe_count(nprobe, image::clusters(raw)) == image::clusters(raw),
    ensures
        exact::are_nearest(wide::kept(raw, q, nprobe, lo, hi), all_pairs(raw, q)),
{
    let k = image::clusters(raw);
    let ds = wide::centroid_distances(raw, q);
    let order = wide::probe_order(raw, q, k);
    let chosen = nearest::offer_all(nearest::open_slots(k, u32::MAX as int), ds);
    lemma_order(raw, q, k);
    assert forall|i: int| 0 <= i < ds.len() implies #[trigger] ds[i] < u32::MAX by {
        assert(wide::lane_distance(q, search::centroid_vector(raw, i)) < u32::MAX);
    }
    lemma_sifted(chosen, k - 1);
    exact::lemma_all_chosen(u32::MAX as int, ds, order);
    lemma_probe(raw, q, order, order.len() as int);
    lemma_tags(order, order.len() as int);
    let done = tags(order, order.len() as int);
    let s = wide::probe(raw, q, order, order.len() as int, wide::empty_five());
    assert forall|c: int| 0 <= c < k && !done.contains(c) implies #[trigger] exact::is_far(
        raw,
        q,
        c,
        nearest::worst_distance(s),
    ) by {
        assert(scalar::is_tagged(order, c));
        let i = choose|i: int| 0 <= i < order.len() && (#[trigger] order[i]).1 == c;
        assert(done.contains(c));
    }
    exact::lemma_nearest_of_all(raw, q, done, wide::empty_five().to_multiset(), s);
    let bounds = wide::cluster_bounds(raw, q);
    exact::lemma_no_candidates(raw, bounds, order, s.last().0, k);
    let cands = scalar::candidates(raw, bounds, order, s.last().0, k);
    nearest::lemma_by_distance_len(cands);
}

/// Candidates hold vectors.
pub proof fn lemma_candidates_hold(
    raw: Seq<u8>,
    bounds: Seq<int>,
    order: Slots,
    limit: int,
    n: int,
)
    ensures
        forall|i: int|
            0 <= i < scalar::candidates(raw, bounds, order, limit, n).len() ==> image::count_at(
                raw,
                (#[trigger] scalar::candidates(raw, bounds, order, limit, n)[i]).1,
            ) != 0,
    decreases n,
{
    if n > 0 {
        lemma_candidates_hold(raw, bounds, order, limit, n - 1);
        let s = scalar::candidates(raw, bounds, order, limit, n - 1);
        let t = scalar::candidates(raw, bounds, order, limit, n);
        assert forall|i: int| 0 <= i < t.len() implies image::count_at(raw, (#[trigger] t[i]).1)
            != 0 by {
            if i < s.len() {
                assert(t[i] == s[i]);
            }
        }
    }
}

// ---------------------------------------------------------------------------
// Wrapping
// ---------------------------------------------------------------------------

/// What wraps around is off by whole turns, and lies in the range of the lane.
pub proof fn law_lanes_wrap(x: int)
    ensures
        0 <= wide::wrap32(x) < 0x1_0000_0000,
        (x - wide::wrap32(x)) % 0x1_0000_0000 == 0,
        -0x1_0000 - 32768 <= x <= 0x1_0000 + 32767 ==> -32768 <= wide::wrap16(x) <= 32767,
        (x - wide::wrap16(x)) % 0x1_0000 == 0,
{
}

/// A distance in lanes is that of the wrapped differences, but for whole turns.
pub proof fn law_lane_distance_wraps(q: Seq<i16>, v: Seq<int>, w: Seq<int>)
    requires
        q.len() == 14,
        v.len() == 14,
        w.len() == 14,
        forall|d: int|
            0 <= d < 14 ==> -32768 <= q[d] - #[trigger] w[d] <= 32767 && (q[d] - w[d] == q[d] - v[d]
                || q[d] - w[d] == q[d] - v[d] + 0x1_0000 || q[d] - w[d] == q[d] - v[d]
                - 0x1_0000),
        forall|d: int| 0 <= d < 14 ==> -32768 <= #[trigger] v[d] <= 32767,
    ensures
        wide::lane_distance(q, v) == nearest::distance(q, w) % 0x1_0000_0000,
{
    let a = wide::lane_differences(q, v);
    let b = nearest::differences(q, w);
    assert forall|d: int| 0 <= d < 14 implies #[trigger] a[d] == b[d] by {
        assert(-32768 <= q[d] - w[d] <= 32767);
        assert(-32768 <= v[d] <= 32767);
    }
    assert(a =~= b);
    assert(b.take(14) =~= b);
}

/// A sum of thirty-two bits, read with its sign.
pub open spec fn with_sign(sum: int) -> int {
    if sum < 0x8000_0000 {
        sum
    } else {
        sum - 0x1_0000_0000
    }
}

/// A partial sum has reached a limit if it is not below it, both read with their
/// signs, and no limit is greater than the greatest number with a sign.
pub proof fn law_reaching_is_signed(sum: int, limit: int)
    requires
        0 <= sum < 0x1_0000_0000,
        0 <= limit <= 0xffff_ffff,
    ensures
        wide::reaches(sum, limit) <==> with_sign(sum) >= limit || with_sign(sum) == 0x7fff_ffff,
{
}

} // verus!
