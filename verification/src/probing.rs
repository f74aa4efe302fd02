//! Which clusters a search looks at, and what it then knows.
use vstd::prelude::*;
use vstd::multiset::Multiset;
use crate::conn::{self, Settings};
use crate::exact;
use crate::exact_wide;
use crate::image;
use crate::nearest::{self, Slots};
use crate::normalize;
use crate::scalar;
use crate::search;
use crate::sort;
use crate::wide;

verus! {

// ---------------------------------------------------------------------------
// How many, and which
// ---------------------------------------------------------------------------

/// A search probes as many clusters as it is told to, but at least one, at most
/// sixty-four, and no more than there are.
pub proof fn law_probe_count(nprobe: int, k: int)
    ensures
        1 <= nprobe <= 64 && nprobe <= k ==> scalar::probe_count(nprobe, k) == nprobe,
        1 <= nprobe <= 64 && nprobe > k ==> scalar::probe_count(nprobe, k) == k,
        nprobe < 1 && 1 <= k ==> scalar::probe_count(nprobe, k) == 1,
        nprobe > 64 && 64 <= k ==> scalar::probe_count(nprobe, k) == 64,
        (nprobe < 1 && k < 1) || (nprobe > 64 && k < 64) ==> scalar::probe_count(nprobe, k) == k,
{
}

/// `chosen` are as many of the clusters as a search that is told to probe
/// `nprobe` of them probes, and no other has a nearer centroid.
pub open spec fn have_nearest_centroids(
    raw: Seq<u8>,
    q: Seq<i16>,
    nprobe: int,
    chosen: Set<int>,
) -> bool {
    let k = image::clusters(raw);
    &&& chosen.finite()
    &&& 1 <= nprobe <= 64 && nprobe <= k ==> chosen.len() == nprobe
    &&& k <= 64 && k <= nprobe ==> chosen.len() == k
    &&& nprobe < 1 <= k ==> chosen.len() == 1
    &&& nprobe > 64 && k >= 64 ==> chosen.len() == 64
    &&& forall|c: int| #[trigger] chosen.contains(c) ==> 0 <= c < k
    &&& forall|c: int, e: int|
        #![trigger search::centroid_vector(raw, c), search::centroid_vector(raw, e)]
        chosen.contains(c) && 0 <= e < k && !chosen.contains(e) ==> nearest::distance(
            q,
            search::centroid_vector(raw, c),
        ) <= nearest::distance(q, search::centroid_vector(raw, e))
}

/// Offered more than they hold, slots keep the nearest.
proof fn lemma_chosen_nearest(n: int, limit: int, ds: Seq<int>)
    requires
        0 < n <= ds.len(),
        forall|i: int| 0 <= i < ds.len() ==> #[trigger] ds[i] < limit,
    ensures
        ({
            let s = nearest::offer_all(nearest::open_slots(n, limit), ds);
            &&& s.len() == n
            &&& forall|i: int|
                0 <= i < n ==> 0 <= (#[trigger] s[i]).1 < ds.len() && s[i].0 == ds[s[i].1]
            &&& forall|c: int|
                0 <= c < ds.len() && !scalar::is_tagged(s, c) ==> nearest::worst_distance(s)
                    <= #[trigger] ds[c]
        }),
    decreases ds.len(),
{
    let t = nearest::offer_all(nearest::open_slots(n, limit), ds);
    if ds.len() == n {
        exact::lemma_filling(n, limit, ds);
        assert forall|c: int| 0 <= c < ds.len() && !scalar::is_tagged(t, c) implies
            nearest::worst_distance(t) <= #[trigger] ds[c] by {
            assert(t[c].1 == c);
        }
    } else {
        let e = ds.drop_last();
        assert forall|i: int| 0 <= i < e.len() implies #[trigger] e[i] < limit by {
            assert(e[i] == ds[i]);
        }
        lemma_chosen_nearest(n, limit, e);
        let s = nearest::offer_all(nearest::open_slots(n, limit), e);
        let w = nearest::worst_slot(s);
        let m = ds.len() - 1;
        nearest::lemma_worst_slot(s);
        nearest::lemma_worst_slot(t);
        exact::law_offer_replaces_farthest(s, ds.last(), m);
        assert forall|i: int| 0 <= i < n implies 0 <= (#[trigger] t[i]).1 < ds.len() && t[i].0
            == ds[t[i].1] by {
            if t[i] == s[i] {
                assert(e[s[i].1] == ds[s[i].1]);
            }
        }
        assert forall|c: int| 0 <= c < ds.len() && !scalar::is_tagged(t, c) implies
            nearest::worst_distance(t) <= #[trigger] ds[c] by {
            if c < m {
                assert(e[c] == ds[c]);
                if scalar::is_tagged(s, c) {
                    let i = choose|i: int| 0 <= i < s.len() && (#[trigger] s[i]).1 == c;
                    if i != w || t == s {
                        assert(t[i] == s[i]);
                    }
                    assert(i == w);
                    assert(s[w].0 == e[c]);
                }
            } else if t != s {
                assert(t[w].1 == m);
            }
        }
    }
}

/// As many clusters as places, if no two places name the same.
proof fn lemma_tags_len(order: Slots, n: int)
    requires
        0 <= n <= order.len(),
        exact::tags_differ(order),
    ensures
        exact_wide::tags(order, n).finite(),
        exact_wide::tags(order, n).len() == n,
    decreases n,
{
    if n > 0 {
        lemma_tags_len(order, n - 1);
        exact_wide::lemma_tags(order, n - 1);
        let c = order[n - 1].1;
        if exact_wide::tags(order, n - 1).contains(c) {
            let i = choose|i: int| 0 <= i < n - 1 && (#[trigger] order[i]).1 == c;
            assert(order[i].1 != order[n - 1].1);
        }
    }
}

/// The places that a search fills with clusters name those with the nearest
/// centroids, in whatever order they stand.
proof fn lemma_order_nearest(
    raw: Seq<u8>,
    q: Seq<i16>,
    nprobe: int,
    limit: int,
    ds: Seq<int>,
    order: Slots,
)
    requires
        image::clusters(raw) > 0,
        ds.len() == image::clusters(raw),
        forall|c: int|
            0 <= c < ds.len() ==> #[trigger] ds[c] == nearest::distance(
                q,
                search::centroid_vector(raw, c),
            ) && ds[c] < limit,
        order.to_multiset() == nearest::offer_all(
            nearest::open_slots(scalar::probe_count(nprobe, image::clusters(raw)), limit),
            ds,
        ).to_multiset(),
    ensures
        have_nearest_centroids(raw, q, nprobe, exact_wide::tags(order, order.len() as int)),
        exact::tags_differ(order),
        forall|i: int|
            0 <= i < order.len() ==> 0 <= (#[trigger] order[i]).1 < image::clusters(raw),
{
    let k = image::clusters(raw);
    let np = scalar::probe_count(nprobe, k);
    let s = nearest::offer_all(nearest::open_slots(np, limit), ds);
    law_probe_count(nprobe, k);
    exact::lemma_chosen_differ(np, limit, ds);
    lemma_chosen_nearest(np, limit, ds);
    exact::lemma_differ_multiset(s, order);
    vstd::seq_lib::to_multiset_len(s);
    vstd::seq_lib::to_multiset_len(order);
    let n = order.len() as int;
    let chosen = exact_wide::tags(order, n);
    lemma_tags_len(order, n);
    exact_wide::lemma_tags(order, n);
    assert forall|i: int| 0 <= i < order.len() implies 0 <= (#[trigger] order[i]).1 < k by {
        let m = sort::lemma_same_slot(order, s, i);
        assert(s[m] == order[i]);
    }
    nearest::lemma_worst_slot(s);
    assert forall|c: int, e: int|
        #![trigger search::centroid_vector(raw, c), search::centroid_vector(raw, e)]
        chosen.contains(c) && 0 <= e < k && !chosen.contains(e) implies nearest::distance(
        q,
        search::centroid_vector(raw, c),
    ) <= nearest::distance(q, search::centroid_vector(raw, e)) by {
        let i = choose|i: int| 0 <= i < n && (#[trigger] order[i]).1 == c;
        let m = sort::lemma_same_slot(order, s, i);
        assert(s[m] == order[i]);
        assert(s[m].0 == ds[c]);
        if scalar::is_tagged(s, e) {
            let j = choose|j: int| 0 <= j < s.len() && (#[trigger] s[j]).1 == e;
            let l = sort::lemma_same_slot(s, order, j);
            assert(order[l].1 == e);
        }
        assert(nearest::worst_distance(s) <= ds[e]);
    }
}

// ---------------------------------------------------------------------------
// What lies in the clusters
// ---------------------------------------------------------------------------

/// What is gathered from more clusters that are far is far.
proof fn lemma_more_is_far(
    raw: Seq<u8>,
    q: Seq<i16>,
    done: Set<int>,
    more: Set<int>,
    m: int,
    limit: int,
    x: (int, int),
)
    requires
        m <= image::clusters(raw),
        done.subset_of(more),
        forall|c: int|
            0 <= c < image::clusters(raw) && more.contains(c) && !done.contains(c)
                ==> #[trigger] exact::is_far(raw, q, c, limit),
    ensures
        exact::gathered(raw, q, done, m).count(x) <= exact::gathered(raw, q, more, m).count(x),
        exact::gathered(raw, q, more, m).count(x) > exact::gathered(raw, q, done, m).count(x)
            ==> limit <= x.0,
    decreases m,
{
    broadcast use vstd::multiset::group_multiset_axioms;

    if m > 0 {
        lemma_more_is_far(raw, q, done, more, m - 1, limit, x);
        let n = image::count_at(raw, m - 1);
        if more.contains(m - 1) && !done.contains(m - 1) {
            assert(exact::is_far(raw, q, m - 1, limit));
            if exact::cluster_pairs(raw, q, m - 1, n).count(x) > 0 {
                exact::lemma_far_pairs(raw, q, m - 1, n, limit, x);
            }
        }
    }
}

/// Slots that are nearest among some clusters are nearest among more of them, if
/// the others are far.
proof fn lemma_nearest_of_more(
    raw: Seq<u8>,
    q: Seq<i16>,
    done: Set<int>,
    more: Set<int>,
    empties: Multiset<(int, int)>,
    s: Slots,
)
    requires
        done.subset_of(more),
        exact::are_nearest(s, exact::gathered(raw, q, done, image::clusters(raw)).add(empties)),
        forall|c: int|
            0 <= c < image::clusters(raw) && more.contains(c) && !done.contains(c)
                ==> #[trigger] exact::is_far(raw, q, c, nearest::worst_distance(s)),
    ensures
        exact::are_nearest(s, exact::gathered(raw, q, more, image::clusters(raw)).add(empties)),
{
    broadcast use vstd::multiset::group_multiset_axioms;

    let k = image::clusters(raw);
    let limit = nearest::worst_distance(s);
    let some = exact::gathered(raw, q, done, k).add(empties);
    let all = exact::gathered(raw, q, more, k).add(empties);
    assert forall|x: (int, int)| #[trigger] s.to_multiset().count(x) <= all.count(x) by {
        lemma_more_is_far(raw, q, done, more, k, limit, x);
        assert(s.to_multiset().count(x) <= some.count(x));
    }
    assert forall|x: (int, int)| #[trigger]
        all.count(x) > s.to_multiset().count(x) implies limit <= x.0 by {
        lemma_more_is_far(raw, q, done, more, k, limit, x);
        assert(some.count(x) > s.to_multiset().count(x) ==> limit <= x.0);
    }
}

// ---------------------------------------------------------------------------
// Repairs
// ---------------------------------------------------------------------------

/// The blocks of the clusters in `some` lie inside the bytes.
pub open spec fn all_readable(raw: Seq<u8>, some: Set<int>) -> bool {
    forall|c: int| #[trigger] some.contains(c) ==> search::cluster_readable(raw, c)
}

/// Before the last cluster was looked at, of those in `more` and not in `done`,
/// the labels nearest still had a sum within `lo ..= hi`.
pub open spec fn was_within(
    raw: Seq<u8>,
    q: Seq<i16>,
    done: Set<int>,
    more: Set<int>,
    lo: int,
    hi: int,
) -> bool {
    exists|x: int, u: Slots|
        #![trigger more.remove(x), scalar::tag_sum(u)]
        more.contains(x) && !done.contains(x) && exact::are_nearest(
            u,
            exact::with_empty(raw, q, more.remove(x)),
        ) && lo <= scalar::tag_sum(u) <= hi
}

/// As `was_within`, of a search with lanes side by side.
pub open spec fn wide_was_within(
    raw: Seq<u8>,
    q: Seq<i16>,
    done: Set<int>,
    more: Set<int>,
    lo: int,
    hi: int,
) -> bool {
    exists|x: int, u: Slots|
        #![trigger more.remove(x), scalar::tag_sum(u)]
        more.contains(x) && !done.contains(x) && exact_wide::is_ranked(
            u,
            exact_wide::with_empty(raw, q, more.remove(x)),
        ) && lo <= scalar::tag_sum(u) <= hi
}

/// What a repair from place `i` of `list` on ends with, and the clusters that it
/// has then looked at.
proof fn lemma_repaired(
    raw: Seq<u8>,
    q: Seq<i16>,
    list: Slots,
    i: int,
    s: Slots,
    lo: int,
    hi: int,
    done: Set<int>,
) -> (more: Set<int>)
    requires
        q.len() == 14,
        0 <= i <= list.len(),
        s.len() == 5,
        exact::are_nearest(s, exact::with_empty(raw, q, done)),
        lo <= scalar::tag_sum(s) <= hi,
        exact::tags_differ(list),
        forall|m: int|
            i <= m < list.len() ==> 0 <= (#[trigger] list[m]).1 < image::clusters(raw)
                && !done.contains(list[m].1),
    ensures
        ({
            let r = scalar::repair(raw, q, list, i, s, lo, hi);
            &&& r.len() == 5
            &&& exact::are_nearest(r, exact::with_empty(raw, q, more))
            &&& done.subset_of(more)
            &&& forall|c: int| #[trigger]
                more.contains(c) && !done.contains(c) ==> exact::is_pending(list, i, c)
            &&& forall|a: int|
                i <= a < list.len() && more.contains((#[trigger] list[a]).1) ==> list[a].0
                    < nearest::worst_distance(s)
            &&& forall|a: int, b: int|
                i <= a < list.len() && i <= b < list.len() && more.contains((#[trigger] list[a]).1)
                    && !more.contains((#[trigger] list[b]).1) ==> a < b
            &&& !(lo <= scalar::tag_sum(r) <= hi) ==> was_within(raw, q, done, more, lo, hi)
            &&& all_readable(raw, more) ==> scalar::repair_within(raw, q, list, i, s, lo, hi)
        }),
    decreases list.len() - i,
{
    if i == list.len() || list[i].0 >= nearest::worst_distance(s) {
        done
    } else {
        let c = list[i].1;
        let t = scalar::scan(raw, q, c, image::count_at(raw, c), s);
        exact::lemma_scan_done(raw, q, done, c, s);
        let after = done.insert(c);
        assert forall|m: int| i + 1 <= m < list.len() implies !after.contains(
            (#[trigger] list[m]).1,
        ) by {
            assert(list[i].1 != list[m].1);
        }
        assert(exact::is_pending(list, i, c)) by {
            assert(list[i].1 == c);
        }
        if lo <= scalar::tag_sum(t) <= hi {
            let more = lemma_repaired(raw, q, list, i + 1, t, lo, hi, after);
            assert forall|x: int| #[trigger]
                more.contains(x) && !done.contains(x) implies exact::is_pending(list, i, x) by {
                if x != c {
                    assert(exact::is_pending(list, i + 1, x));
                    let m = choose|m: int| i + 1 <= m < list.len() && (#[trigger] list[m]).1 == x;
                    assert(list[m].1 == x);
                }
            }
            assert(more.contains(list[i].1));
            let r = scalar::repair(raw, q, list, i + 1, t, lo, hi);
            if !(lo <= scalar::tag_sum(r) <= hi) {
                let (x, u) = choose|x: int, u: Slots|
                    #![trigger more.remove(x), scalar::tag_sum(u)]
                    more.contains(x) && !after.contains(x) && exact::are_nearest(u, exact::with_empty(raw, q, more.remove(x))) && lo
                        <= scalar::tag_sum(u) <= hi;
                assert(more.contains(x) && !done.contains(x));
            }
            more
        } else {
            assert forall|a: int| i <= a < list.len() && after.contains(
                (#[trigger] list[a]).1,
            ) implies a == i by {
                if i < a {
                    assert(list[i].1 != list[a].1);
                }
            }
            assert(after.remove(c) =~= done);
            assert(after.contains(c) && !done.contains(c) && exact::are_nearest(s, exact::with_empty(raw, q, after.remove(c))) && lo
                <= scalar::tag_sum(s) <= hi);
            after
        }
    }
}

/// What a repair from place `i` of `list` on ends with, and the clusters that it
/// has then looked at.
proof fn lemma_wide_repaired(
    raw: Seq<u8>,
    q: Seq<i16>,
    list: Slots,
    i: int,
    s: Slots,
    lo: int,
    hi: int,
    done: Set<int>,
) -> (more: Set<int>)
    requires
        q.len() == 14,
        exact_wide::is_calm(raw, q),
        0 <= i <= list.len(),
        s.len() == 5,
        exact_wide::is_ranked(s, exact_wide::with_empty(raw, q, done)),
        lo <= scalar::tag_sum(s) <= hi,
        exact::tags_differ(list),
        forall|m: int|
            i <= m < list.len() ==> 0 <= (#[trigger] list[m]).1 < image::clusters(raw)
                && !done.contains(list[m].1),
    ensures
        ({
            let r = wide::repair(raw, q, list, i, s, lo, hi);
            &&& r.len() == 5
            &&& exact_wide::is_ranked(r, exact_wide::with_empty(raw, q, more))
            &&& done.subset_of(more)
            &&& forall|c: int| #[trigger]
                more.contains(c) && !done.contains(c) ==> exact::is_pending(list, i, c)
            &&& forall|a: int|
                i <= a < list.len() && more.contains((#[trigger] list[a]).1) ==> list[a].0
                    < s.last().0
            &&& forall|a: int, b: int|
                i <= a < list.len() && i <= b < list.len() && more.contains((#[trigger] list[a]).1)
                    && !more.contains((#[trigger] list[b]).1) ==> a < b
            &&& !(lo <= scalar::tag_sum(r) <= hi) ==> wide_was_within(raw, q, done, more, lo, hi)
            &&& all_readable(raw, more) ==> wide::repair_within(raw, q, list, i, s, lo, hi)
        }),
    decreases list.len() - i,
{
    if i == list.len() || list[i].0 >= s.last().0 {
        done
    } else {
        let c = list[i].1;
        let t = wide::scan(raw, q, c, s);
        exact_wide::lemma_scan_done(raw, q, done, c, s);
        exact_wide::lemma_last_is_worst(s);
        exact_wide::lemma_last_is_worst(t);
        let after = done.insert(c);
        assert forall|m: int| i + 1 <= m < list.len() implies !after.contains(
            (#[trigger] list[m]).1,
        ) by {
            assert(list[i].1 != list[m].1);
        }
        assert(exact::is_pending(list, i, c)) by {
            assert(list[i].1 == c);
        }
        if lo <= scalar::tag_sum(t) <= hi {
            let more = lemma_wide_repaired(raw, q, list, i + 1, t, lo, hi, after);
            assert forall|x: int| #[trigger]
                more.contains(x) && !done.contains(x) implies exact::is_pending(list, i, x) by {
                if x != c {
                    assert(exact::is_pending(list, i + 1, x));
                    let m = choose|m: int| i + 1 <= m < list.len() && (#[trigger] list[m]).1 == x;
                    assert(list[m].1 == x);
                }
            }
            assert(more.contains(list[i].1));
            let r = wide::repair(raw, q, list, i + 1, t, lo, hi);
            if !(lo <= scalar::tag_sum(r) <= hi) {
                let (x, u) = choose|x: int, u: Slots|
                    #![trigger more.remove(x), scalar::tag_sum(u)]
                    more.contains(x) && !after.contains(x) && exact_wide::is_ranked(u, exact_wide::with_empty(raw, q, more.remove(x))) && lo
                        <= scalar::tag_sum(u) <= hi;
                assert(more.contains(x) && !done.contains(x));
            }
            more
        } else {
            assert forall|a: int| i <= a < list.len() && after.contains(
                (#[trigger] list[a]).1,
            ) implies a == i by {
                if i < a {
                    assert(list[i].1 != list[a].1);
                }
            }
            assert(after.remove(c) =~= done);
            assert(after.contains(c) && !done.contains(c) && exact_wide::is_ranked(s, exact_wide::with_empty(raw, q, after.remove(c))) && lo
                <= scalar::tag_sum(s) <= hi);
            after
        }
    }
}

// ---------------------------------------------------------------------------
// The search
// ---------------------------------------------------------------------------

/// The places that a search fills, in the order in which it probes them.
proof fn lemma_order(raw: Seq<u8>, q: Seq<i16>, nprobe: int)
    requires
        q.len() == 14,
    ensures
        ({
            let order = scalar::probe_order(
                raw,
                q,
                scalar::probe_count(nprobe, image::clusters(raw)),
            );
            &&& have_nearest_centroids(
                raw,
                q,
                nprobe,
                exact_wide::tags(order, order.len() as int),
            )
            &&& exact::tags_differ(order)
            &&& forall|i: int|
                0 <= i < order.len() ==> 0 <= (#[trigger] order[i]).1 < image::clusters(raw)
        }),
{
    let k = image::clusters(raw);
    let np = scalar::probe_count(nprobe, k);
    let ds = scalar::centroid_distances(raw, q);
    let s = nearest::offer_all(nearest::open_slots(np, u64::MAX as int), ds);
    let order = scalar::probe_order(raw, q, np);
    assert forall|c: int| 0 <= c < ds.len() implies #[trigger] ds[c] == nearest::distance(
        q,
        search::centroid_vector(raw, c),
    ) && ds[c] < u64::MAX by {
        exact::lemma_centroid_distances(raw, q, c);
    }
    sort::lemma_by_distance_multiset(s);
    if k == 0 {
        assert(s.len() == 0);
        nearest::lemma_by_distance_len(s);
    } else {
        lemma_order_nearest(raw, q, nprobe, u64::MAX as int, ds, order);
    }
}

/// What the probes find in the clusters that stand in their places.
proof fn lemma_probed(raw: Seq<u8>, q: Seq<i16>, nprobe: int)
    requires
        q.len() == 14,
        exact::boxes_hold(raw),
    ensures
        ({
            let order = scalar::probe_order(
                raw,
                q,
                scalar::probe_count(nprobe, image::clusters(raw)),
            );
            let chosen = exact_wide::tags(order, order.len() as int);
            &&& have_nearest_centroids(raw, q, nprobe, chosen)
            &&& scalar::probed(raw, q, nprobe).len() == 5
            &&& exact::are_nearest(scalar::probed(raw, q, nprobe), exact::with_empty(raw, q, chosen))
        }),
{
    let k = image::clusters(raw);
    let order = scalar::probe_order(raw, q, scalar::probe_count(nprobe, k));
    let n = order.len() as int;
    lemma_order(raw, q, nprobe);
    let done = exact::lemma_probe(raw, q, order, n);
    let s = scalar::probed(raw, q, nprobe);
    let chosen = exact_wide::tags(order, n);
    exact_wide::lemma_tags(order, n);
    assert(order.take(n) =~= order);
    assert forall|c: int| done.contains(c) implies #[trigger] chosen.contains(c) by {
        assert(scalar::is_tagged(order.take(n), c));
        let i = choose|i: int| 0 <= i < order.len() && (#[trigger] order[i]).1 == c;
        assert(order[i].1 == c);
    }
    assert forall|c: int|
        0 <= c < k && chosen.contains(c) && !done.contains(c) implies #[trigger] exact::is_far(
        raw,
        q,
        c,
        nearest::worst_distance(s),
    ) by {
        let i = choose|i: int| 0 <= i < n && (#[trigger] order[i]).1 == c;
        assert(!done.contains(order[i].1));
        exact::lemma_bound_is_far(raw, q, c, nearest::worst_distance(s));
    }
    lemma_nearest_of_more(raw, q, done, chosen, scalar::empty_five().to_multiset(), s);
}

/// The five slots after the probes of a search are the five nearest of all the
/// vectors in the clusters that have the nearest centroids, in as many as the
/// search is told to probe.
pub proof fn law_probes_find_nearest(raw: Seq<u8>, q: Seq<i16>, nprobe: int) -> (chosen: Set<int>)
    requires
        q.len() == 14,
        exact::boxes_hold(raw),
    ensures
        have_nearest_centroids(raw, q, nprobe, chosen),
        scalar::probed(raw, q, nprobe).len() == 5,
        exact::are_nearest(scalar::probed(raw, q, nprobe), exact::with_empty(raw, q, chosen)),
{
    lemma_probed(raw, q, nprobe);
    let order = scalar::probe_order(raw, q, scalar::probe_count(nprobe, image::clusters(raw)));
    exact_wide::tags(order, order.len() as int)
}

/// Probes can be done where the clusters that they look at can be read.
proof fn lemma_probe_readable(raw: Seq<u8>, q: Seq<i16>, order: Slots, n: int)
    requires
        n <= order.len(),
        forall|i: int| 0 <= i < n ==> search::cluster_readable(raw, (#[trigger] order[i]).1),
    ensures
        scalar::probe_within(raw, q, order, n, scalar::empty_five()),
    decreases n,
{
    if n > 0 {
        lemma_probe_readable(raw, q, order, n - 1);
        assert(search::cluster_readable(raw, order[n - 1].1));
    }
}

/// What a search looks at: the clusters in `chosen`, and, of the others, those
/// in `more`. It takes the latter by the distance of their boxes, the nearest
/// first.
pub open spec fn looks_at(
    raw: Seq<u8>,
    q: Seq<i16>,
    nprobe: int,
    chosen: Set<int>,
    more: Set<int>,
) -> bool {
    &&& have_nearest_centroids(raw, q, nprobe, chosen)
    &&& chosen.subset_of(more)
    &&& forall|c: int| #[trigger] more.contains(c) ==> 0 <= c < image::clusters(raw)
    &&& forall|c: int, e: int|
        #![trigger more.contains(c), more.contains(e)]
        more.contains(c) && !chosen.contains(c) && 0 <= e < image::clusters(raw) && !more.contains(
            e,
        ) && image::count_at(raw, e) > 0 ==> search::cluster_bound(raw, q, c)
            <= search::cluster_bound(raw, q, e)
}

/// A search keeps the five nearest of all the vectors in the clusters that it
/// looks at. It looks at those that it probes, and if the sum of the labels then
/// lies outside the range that calls for a repair, at no others. If it lies
/// within, it looks at one more after the other, and what it keeps is exact
/// unless the last of them brings the sum outside.
pub proof fn law_search_finds_nearest(
    raw: Seq<u8>,
    q: Seq<i16>,
    nprobe: int,
    lo: int,
    hi: int,
) -> (r: (Set<int>, Set<int>))
    requires
        q.len() == 14,
        exact::boxes_hold(raw),
    ensures
        looks_at(raw, q, nprobe, r.0, r.1),
        scalar::kept(raw, q, nprobe, lo, hi).len() == 5,
        exact::are_nearest(scalar::probed(raw, q, nprobe), exact::with_empty(raw, q, r.0)),
        exact::are_nearest(scalar::kept(raw, q, nprobe, lo, hi), exact::with_empty(raw, q, r.1)),
        !(lo <= scalar::tag_sum(scalar::probed(raw, q, nprobe)) <= hi) ==> r.1 == r.0
            && scalar::kept(raw, q, nprobe, lo, hi) == scalar::probed(raw, q, nprobe),
        lo <= scalar::tag_sum(scalar::probed(raw, q, nprobe)) <= hi ==> {
            ||| exact::are_nearest(scalar::kept(raw, q, nprobe, lo, hi), exact::all_pairs(raw, q))
            ||| was_within(raw, q, r.0, r.1, lo, hi)
        },
        all_readable(raw, r.1) ==> scalar::kept_within(raw, q, nprobe, lo, hi),
        all_readable(raw, r.0) ==> scalar::probed_within(raw, q, nprobe),
{
    let k = image::clusters(raw);
    let order = scalar::probe_order(raw, q, scalar::probe_count(nprobe, k));
    let n = order.len() as int;
    let s = scalar::probed(raw, q, nprobe);
    let kept = scalar::kept(raw, q, nprobe, lo, hi);
    let limit = nearest::worst_distance(s);
    let bounds = scalar::cluster_bounds(raw, q);
    let cands = scalar::candidates(raw, bounds, order, limit, k);
    let list = nearest::by_distance(cands);
    lemma_probed(raw, q, nprobe);
    lemma_order(raw, q, nprobe);
    let chosen = exact_wide::tags(order, n);
    exact_wide::lemma_tags(order, n);
    if all_readable(raw, chosen) {
        assert forall|i: int| 0 <= i < n implies search::cluster_readable(
            raw,
            (#[trigger] order[i]).1,
        ) by {
            assert(chosen.contains(order[i].1));
        }
        lemma_probe_readable(raw, q, order, n);
    }
    if lo <= scalar::tag_sum(s) <= hi {
        let first = chosen;
        exact::lemma_candidates(raw, bounds, order, limit, k);
        scalar::lemma_candidates_ascend(raw, bounds, order, limit, k);
        sort::lemma_by_distance_multiset(cands);
        nearest::lemma_by_distance_sorted(cands);
        exact::lemma_differ_multiset(cands, list);
        assert forall|m: int| 0 <= m < list.len() implies {
            &&& 0 <= (#[trigger] list[m]).1 < k
            &&& !first.contains(list[m].1)
            &&& list[m].0 == search::cluster_bound(raw, q, list[m].1)
        } by {
            let i = sort::lemma_same_slot(list, cands, m);
            assert(cands[i] == list[m]);
            if first.contains(list[m].1) {
                let j = choose|j: int| 0 <= j < n && (#[trigger] order[j]).1 == list[m].1;
                assert(scalar::is_tagged(order, list[m].1));
            }
        }
        let more = lemma_repaired(raw, q, list, 0, s, lo, hi, first);
        assert forall|c: int| #[trigger] more.contains(c) implies 0 <= c < k by {
            if !first.contains(c) {
                assert(exact::is_pending(list, 0, c));
                let m = choose|m: int| 0 <= m < list.len() && (#[trigger] list[m]).1 == c;
                assert(0 <= list[m].1 < k);
            }
        }
        assert forall|c: int, e: int|
            #![trigger more.contains(c), more.contains(e)]
            more.contains(c) && !first.contains(c) && 0 <= e < k && !more.contains(e)
                && image::count_at(raw, e) > 0 implies search::cluster_bound(raw, q, c)
            <= search::cluster_bound(raw, q, e) by {
            assert(exact::is_pending(list, 0, c));
            let a = choose|a: int| 0 <= a < list.len() && (#[trigger] list[a]).1 == c;
            assert(list[a].0 < limit);
            assert(!first.contains(e));
            if scalar::is_tagged(order, e) {
                let j = choose|j: int| 0 <= j < order.len() && (#[trigger] order[j]).1 == e;
                assert(first.contains(e));
            }
            if bounds[e] < limit {
                assert(exact::is_pending(cands, 0, e));
                let i = choose|i: int| 0 <= i < cands.len() && (#[trigger] cands[i]).1 == e;
                let b = sort::lemma_same_slot(cands, list, i);
                assert(list[b].1 == e);
                assert(a < b);
                assert(list[a].0 <= list[b].0);
            }
        }
        if lo <= scalar::tag_sum(kept) <= hi {
            exact::law_search_exact(raw, q, nprobe, lo, hi);
        }
        assert(all_readable(raw, more) ==> all_readable(raw, first));
        (first, more)
    } else {
        (chosen, chosen)
    }
}

// ---------------------------------------------------------------------------
// The search with lanes side by side
// ---------------------------------------------------------------------------

/// Nothing wraps around in a search for `q`, not even in the distances to the
/// centroids.
pub open spec fn all_fits(raw: Seq<u8>, q: Seq<i16>) -> bool {
    &&& exact_wide::is_calm(raw, q)
    &&& forall|c: int|
        0 <= c < image::clusters(raw) ==> exact_wide::fits(
            q,
            #[trigger] search::centroid_vector(raw, c),
        )
}

/// Nothing wraps around among features.
pub proof fn law_features_all_fit(raw: Seq<u8>, q: Seq<i16>)
    requires
        q.len() == 14,
        exact_wide::holds_features(raw, q),
    ensures
        all_fits(raw, q),
{
    exact_wide::law_features_are_calm(raw, q);
    assert forall|c: int| 0 <= c < image::clusters(raw) implies exact_wide::fits(
        q,
        #[trigger] search::centroid_vector(raw, c),
    ) by {
        exact_wide::lemma_features_fit(q, search::centroid_vector(raw, c));
    }
}

/// What the probes find in the clusters that stand in their places.
proof fn lemma_wide_probed(raw: Seq<u8>, q: Seq<i16>, nprobe: int)
    requires
        q.len() == 14,
        image::clusters(raw) > 0,
        all_fits(raw, q),
    ensures
        ({
            let order = wide::probe_order(
                raw,
                q,
                scalar::probe_count(nprobe, image::clusters(raw)),
            );
            let chosen = exact_wide::tags(order, order.len() as int);
            &&& have_nearest_centroids(raw, q, nprobe, chosen)
            &&& exact::tags_differ(order)
            &&& forall|i: int|
                0 <= i < order.len() ==> 0 <= (#[trigger] order[i]).1 < image::clusters(raw)
            &&& exact_wide::is_ranked(
                wide::probe(raw, q, order, order.len() as int, wide::empty_five()),
                exact_wide::with_empty(raw, q, chosen),
            )
        }),
{
    let k = image::clusters(raw);
    let np = scalar::probe_count(nprobe, k);
    let ds = wide::centroid_distances(raw, q);
    let s = nearest::offer_all(nearest::open_slots(np, u32::MAX as int), ds);
    let order = wide::probe_order(raw, q, np);
    assert forall|c: int| 0 <= c < ds.len() implies #[trigger] ds[c] == nearest::distance(
        q,
        search::centroid_vector(raw, c),
    ) && ds[c] < u32::MAX by {
        let v = search::centroid_vector(raw, c);
        assert(exact_wide::fits(q, v));
        exact_wide::lemma_lane_distance(q, v, 14);
    }
    exact_wide::lemma_sifted(s, np - 1);
    lemma_order_nearest(raw, q, nprobe, u32::MAX as int, ds, order);
    exact_wide::lemma_probe(raw, q, order, order.len() as int);
}

/// A search with lanes side by side that is never repaired keeps the five
/// nearest of all the vectors in the clusters that have the nearest centroids,
/// in as many as it is told to probe.
pub proof fn law_wide_probes_find_nearest(
    raw: Seq<u8>,
    q: Seq<i16>,
    nprobe: int,
    lo: int,
    hi: int,
) -> (chosen: Set<int>)
    requires
        q.len() == 14,
        image::clusters(raw) > 0,
        all_fits(raw, q),
        hi < lo,
    ensures
        have_nearest_centroids(raw, q, nprobe, chosen),
        wide::kept(raw, q, nprobe, lo, hi).len() == 5,
        exact::are_nearest(
            wide::kept(raw, q, nprobe, lo, hi),
            exact_wide::with_empty(raw, q, chosen),
        ),
{
    lemma_wide_probed(raw, q, nprobe);
    let order = wide::probe_order(raw, q, scalar::probe_count(nprobe, image::clusters(raw)));
    exact_wide::tags(order, order.len() as int)
}

/// A search with lanes side by side keeps the five nearest of all the vectors in
/// the clusters that it looks at. It looks at those that it probes, and if the
/// sum of the labels then lies outside the range that calls for a repair, at no
/// others. If it lies within, it looks at one more after the other, and what it
/// keeps is exact unless the last of them brings the sum outside.
pub proof fn law_wide_search_finds_nearest(
    raw: Seq<u8>,
    q: Seq<i16>,
    nprobe: int,
    lo: int,
    hi: int,
) -> (r: (Set<int>, Set<int>))
    requires
        q.len() == 14,
        image::clusters(raw) > 0,
        all_fits(raw, q),
        exact::boxes_hold(raw),
    ensures
        looks_at(raw, q, nprobe, r.0, r.1),
        wide::kept(raw, q, nprobe, lo, hi).len() == 5,
        exact::are_nearest(wide::kept(raw, q, nprobe, 1, 0), exact_wide::with_empty(raw, q, r.0)),
        exact::are_nearest(
            wide::kept(raw, q, nprobe, lo, hi),
            exact_wide::with_empty(raw, q, r.1),
        ),
        !(lo <= scalar::tag_sum(wide::kept(raw, q, nprobe, 1, 0)) <= hi) ==> r.1 == r.0
            && wide::kept(raw, q, nprobe, lo, hi) == wide::kept(raw, q, nprobe, 1, 0),
        lo <= scalar::tag_sum(wide::kept(raw, q, nprobe, 1, 0)) <= hi ==> {
            ||| exact::are_nearest(wide::kept(raw, q, nprobe, lo, hi), exact_wide::all_pairs(raw, q))
            ||| wide_was_within(raw, q, r.0, r.1, lo, hi)
        },
        all_readable(raw, r.1) ==> wide::kept_within(raw, q, nprobe, lo, hi),
{
    let k = image::clusters(raw);
    let order = wide::probe_order(raw, q, scalar::probe_count(nprobe, k));
    let n = order.len() as int;
    let s = wide::probe(raw, q, order, n, wide::empty_five());
    let kept = wide::kept(raw, q, nprobe, lo, hi);
    let limit = s.last().0;
    let bounds = wide::cluster_bounds(raw, q);
    let cands = scalar::candidates(raw, bounds, order, limit, k);
    let list = nearest::by_distance(cands);
    let first = exact_wide::tags(order, n);
    lemma_wide_probed(raw, q, nprobe);
    exact_wide::lemma_tags(order, n);
    if all_readable(raw, first) {
        assert forall|i: int| 0 <= i < n implies search::cluster_readable(
            raw,
            (#[trigger] order[i]).1,
        ) by {
            assert(first.contains(order[i].1));
        }
    }
    if lo <= scalar::tag_sum(s) <= hi {
        exact::lemma_candidates(raw, bounds, order, limit, k);
        scalar::lemma_candidates_ascend(raw, bounds, order, limit, k);
        exact_wide::lemma_candidates_hold(raw, bounds, order, limit, k);
        sort::lemma_by_distance_multiset(cands);
        nearest::lemma_by_distance_sorted(cands);
        exact::lemma_differ_multiset(cands, list);
        assert forall|m: int| 0 <= m < list.len() implies {
            &&& 0 <= (#[trigger] list[m]).1 < k
            &&& !first.contains(list[m].1)
            &&& list[m].0 == search::cluster_bound(raw, q, list[m].1)
        } by {
            let i = sort::lemma_same_slot(list, cands, m);
            assert(cands[i] == list[m]);
            assert(image::count_at(raw, cands[i].1) != 0);
            exact_wide::lemma_lane_bound(raw, q, cands[i].1);
            if first.contains(list[m].1) {
                let j = choose|j: int| 0 <= j < n && (#[trigger] order[j]).1 == list[m].1;
                assert(scalar::is_tagged(order, list[m].1));
            }
        }
        let more = lemma_wide_repaired(raw, q, list, 0, s, lo, hi, first);
        assert forall|c: int| #[trigger] more.contains(c) implies 0 <= c < k by {
            if !first.contains(c) {
                assert(exact::is_pending(list, 0, c));
                let m = choose|m: int| 0 <= m < list.len() && (#[trigger] list[m]).1 == c;
                assert(0 <= list[m].1 < k);
            }
        }
        assert forall|c: int, e: int|
            #![trigger more.contains(c), more.contains(e)]
            more.contains(c) && !first.contains(c) && 0 <= e < k && !more.contains(e)
                && image::count_at(raw, e) > 0 implies search::cluster_bound(raw, q, c)
            <= search::cluster_bound(raw, q, e) by {
            assert(exact::is_pending(list, 0, c));
            let a = choose|a: int| 0 <= a < list.len() && (#[trigger] list[a]).1 == c;
            assert(list[a].0 < limit);
            assert(!first.contains(e));
            exact_wide::lemma_lane_bound(raw, q, e);
            if scalar::is_tagged(order, e) {
                let j = choose|j: int| 0 <= j < order.len() && (#[trigger] order[j]).1 == e;
                assert(first.contains(e));
            }
            if bounds[e] < limit {
                assert(exact::is_pending(cands, 0, e));
                let i = choose|i: int| 0 <= i < cands.len() && (#[trigger] cands[i]).1 == e;
                let b = sort::lemma_same_slot(cands, list, i);
                assert(list[b].1 == e);
                assert(a < b);
                assert(list[a].0 <= list[b].0);
            }
        }
        if lo <= scalar::tag_sum(kept) <= hi {
            exact_wide::law_wide_search_exact(raw, q, nprobe, lo, hi);
        }
        assert(all_readable(raw, more) ==> all_readable(raw, first));
        (first, more)
    } else {
        (first, first)
    }
}

// ---------------------------------------------------------------------------
// Scores
// ---------------------------------------------------------------------------

/// Five slots for which nothing was found: at the distance `far`, without a
/// label.
pub open spec fn nothing(far: int) -> Multiset<(int, int)> {
    seq![(far, 0int), (far, 0int), (far, 0int), (far, 0int), (far, 0int)].to_multiset()
}

/// What a search finds.
pub ghost struct Sight {
    /// The clusters that it probes.
    pub chosen: Set<int>,
    /// The clusters that it looks at.
    pub more: Set<int>,
    /// What it keeps: distance and label of five vectors.
    pub five: Slots,
    /// The distance that stands for no vector.
    pub far: int,
}

/// No stored vector is as far as `far`.
pub open spec fn all_nearer(raw: Seq<u8>, q: Seq<i16>, far: int) -> bool {
    forall|c: int, pos: int|
        0 <= c < image::clusters(raw) && 0 <= pos < image::count_at(raw, c) ==> nearest::distance(
            q,
            #[trigger] image::stored_vector(raw, c, pos),
        ) < far
}

/// Either way to search sums up the labels of the five nearest of all the
/// vectors in the clusters that it looks at, and where the sum is not one that
/// calls for a repair it looks at those alone that it is told to probe.
pub proof fn law_found_is_nearest(s: Settings, q: Seq<i16>) -> (r: Sight)
    requires
        q.len() == 14,
        exact::boxes_hold(s.raw),
        s.wide ==> image::clusters(s.raw) > 0 && all_fits(s.raw, q),
    ensures
        looks_at(s.raw, q, s.nprobe, r.chosen, r.more),
        s.repair_max < s.repair_min ==> r.more == r.chosen,
        all_nearer(s.raw, q, r.far),
        r.five.len() == 5,
        exact::are_nearest(
            r.five,
            exact::gathered(s.raw, q, r.more, image::clusters(s.raw)).add(nothing(r.far)),
        ),
        conn::found(s, q) == (r.five[0].1 + r.five[1].1 + r.five[2].1 + r.five[3].1 + r.five[4].1)
            % 256,
        s.repair_min <= conn::found(s, q) <= s.repair_max ==> exact::are_nearest(
            r.five,
            exact::gathered(s.raw, q, Set::full(), image::clusters(s.raw)).add(nothing(r.far)),
        ),
{
    let (nprobe, lo, hi) = (s.nprobe, s.repair_min, s.repair_max);
    if s.wide {
        let (chosen, more) = law_wide_search_finds_nearest(s.raw, q, nprobe, lo, hi);
        let five = wide::kept(s.raw, q, nprobe, lo, hi);
        let far = u32::MAX as int;
        scalar::lemma_tag_sum_five(five);
        assert(wide::empty_five() =~= seq![
            (far, 0int),
            (far, 0int),
            (far, 0int),
            (far, 0int),
            (far, 0int),
        ]);
        if lo <= conn::found(s, q) <= hi {
            exact_wide::law_wide_search_exact(s.raw, q, nprobe, lo, hi);
        }
        Sight { chosen, more, five, far }
    } else {
        let (chosen, more) = law_search_finds_nearest(s.raw, q, nprobe, lo, hi);
        let five = scalar::kept(s.raw, q, nprobe, lo, hi);
        let far = u64::MAX as int;
        scalar::lemma_tag_sum_five(five);
        assert(scalar::empty_five() =~= seq![
            (far, 0int),
            (far, 0int),
            (far, 0int),
            (far, 0int),
            (far, 0int),
        ]);
        assert forall|c: int, pos: int|
            0 <= c < image::clusters(s.raw) && 0 <= pos < image::count_at(s.raw, c) implies
            nearest::distance(q, #[trigger] image::stored_vector(s.raw, c, pos)) < far by {
            nearest::lemma_square_sum_bound(
                nearest::differences(q, image::stored_vector(s.raw, c, pos)),
                65535,
            );
        }
        if lo <= conn::found(s, q) <= hi {
            exact::law_search_exact(s.raw, q, nprobe, lo, hi);
        }
        Sight { chosen, more, five, far }
    }
}

/// A search can be done where the clusters that it looks at can be read.
pub proof fn law_search_can_be_done(s: Settings, q: Seq<i16>) -> (more: Set<int>)
    requires
        q.len() == 14,
        exact::boxes_hold(s.raw),
        s.wide ==> image::clusters(s.raw) > 0 && all_fits(s.raw, q),
    ensures
        all_readable(s.raw, more) ==> search::can_search(
            s.raw,
            q,
            s.nprobe,
            s.repair_min,
            s.repair_max,
            s.wide,
        ),
        exists|chosen: Set<int>| #[trigger] looks_at(s.raw, q, s.nprobe, chosen, more),
{
    let (chosen, more) = if s.wide {
        law_wide_search_finds_nearest(s.raw, q, s.nprobe, s.repair_min, s.repair_max)
    } else {
        law_search_finds_nearest(s.raw, q, s.nprobe, s.repair_min, s.repair_max)
    };
    assert(looks_at(s.raw, q, s.nprobe, chosen, more));
    more
}

/// A transaction is scored by what is found for its features, and one that is
/// malformed by zero.
pub proof fn law_score_is_found(s: Settings, body: Seq<u8>, q: Seq<i16>)
    requires
        q.len() == 14,
    ensures
        normalize::normalized(body) is None ==> conn::score(s, body) == 0,
        normalize::normalized(body) is Some && (forall|i: int|
            0 <= i < 14 ==> normalize::normalized(body)->0[i] as i16 == #[trigger] q[i])
            ==> conn::score(s, body) == conn::found(s, q),
{
    if normalize::normalized(body) is Some && (forall|i: int|
        0 <= i < 14 ==> normalize::normalized(body)->0[i] as i16 == #[trigger] q[i]) {
        let v = normalize::normalized(body)->0;
        assert(Seq::new(14, |i: int| v[i] as i16) =~= q);
    }
}

// ---------------------------------------------------------------------------
// Distances
// ---------------------------------------------------------------------------

proof fn lemma_square_sum_update(xs: Seq<int>, i: int, x: int)
    requires
        0 <= i < xs.len(),
    ensures
        nearest::square_sum(xs.update(i, x)) == nearest::square_sum(xs) - xs[i] * xs[i] + x * x,
    decreases xs.len(),
{
    let n = xs.len() - 1;
    let ys = xs.update(i, x);
    if i < n {
        lemma_square_sum_update(xs.drop_last(), i, x);
        assert(ys.drop_last() =~= xs.drop_last().update(i, x));
        assert(ys.last() == xs.last());
    } else {
        assert(ys.drop_last() =~= xs.drop_last());
        assert(ys.last() == x);
    }
}

proof fn lemma_square_sum_zero(xs: Seq<int>)
    requires
        forall|i: int| 0 <= i < xs.len() ==> #[trigger] xs[i] == 0,
    ensures
        nearest::square_sum(xs) == 0,
    decreases xs.len(),
{
    if xs.len() > 0 {
        let ys = xs.drop_last();
        assert forall|i: int| 0 <= i < ys.len() implies #[trigger] ys[i] == 0 by {
            assert(ys[i] == xs[i]);
        }
        lemma_square_sum_zero(ys);
        assert(xs[xs.len() - 1] == 0);
    }
}

/// A vector is at no distance from itself, and where one of its fourteen
/// coordinates moves, the square of the difference there is all that changes.
pub proof fn law_distance_moves(q: Seq<i16>, v: Seq<int>, d: int, x: int)
    requires
        q.len() == 14,
        v.len() == 14,
        0 <= d < 14,
    ensures
        (forall|i: int| 0 <= i < 14 ==> q[i] == #[trigger] v[i]) ==> nearest::distance(q, v) == 0,
        nearest::distance(q, v.update(d, x)) == nearest::distance(q, v) - (q[d] - v[d]) * (q[d]
            - v[d]) + (q[d] - x) * (q[d] - x),
{
    let b = nearest::differences(q, v);
    if forall|i: int| 0 <= i < 14 ==> q[i] == #[trigger] v[i] {
        assert forall|i: int| 0 <= i < b.len() implies #[trigger] b[i] == 0 by {
            assert(q[i] == v[i]);
        }
        lemma_square_sum_zero(b);
    }
    lemma_square_sum_update(b, d, q[d] - x);
    assert(nearest::differences(q, v.update(d, x)) =~= b.update(d, q[d] - x));
}

/// A box is as far as the nearest point in it.
pub proof fn law_box_distance_is_attained(
    q: Seq<i16>,
    lo: Seq<int>,
    hi: Seq<int>,
    v: Seq<int>,
) -> (at: Seq<int>)
    requires
        q.len() == 14,
        lo.len() == 14,
        hi.len() == 14,
        v.len() == 14,
        forall|d: int| 0 <= d < 14 ==> lo[d] <= #[trigger] v[d] <= hi[d],
    ensures
        nearest::box_distance(q, lo, hi) <= nearest::distance(q, v),
        at.len() == 14,
        forall|d: int| 0 <= d < 14 ==> lo[d] <= #[trigger] at[d] <= hi[d],
        nearest::box_distance(q, lo, hi) == nearest::distance(q, at),
{
    nearest::lemma_box_distance(q, lo, hi, v);
    let at = Seq::new(
        14,
        |d: int|
            if q[d] < lo[d] {
                lo[d]
            } else if q[d] > hi[d] {
                hi[d]
            } else {
                q[d] as int
            },
    );
    assert forall|d: int| 0 <= d < 14 implies lo[d] <= #[trigger] at[d] <= hi[d] by {
        assert(lo[d] <= v[d] <= hi[d]);
    }
    let g = nearest::gaps(q, lo, hi);
    let f = nearest::differences(q, at);
    assert forall|i: int| 0 <= i < 14 implies #[trigger] g[i] == f[i] || g[i] == -f[i] by {}
    lemma_square_sum_same(g, f);
    at
}

proof fn lemma_square_sum_same(xs: Seq<int>, ys: Seq<int>)
    requires
        xs.len() == ys.len(),
        forall|i: int| 0 <= i < xs.len() ==> #[trigger] xs[i] == ys[i] || xs[i] == -ys[i],
    ensures
        nearest::square_sum(xs) == nearest::square_sum(ys),
    decreases xs.len(),
{
    if xs.len() > 0 {
        let (a, b) = (xs.drop_last(), ys.drop_last());
        assert forall|i: int| 0 <= i < a.len() implies #[trigger] a[i] == b[i] || a[i] == -b[i] by {
            assert(a[i] == xs[i]);
        }
        lemma_square_sum_same(a, b);
        let (x, y) = (xs.last(), ys.last());
        assert(xs[xs.len() - 1] == x);
        assert(x * x == y * y) by (nonlinear_arith)
            requires
                x == y || x == -y,
        ;
    }
}

// ---------------------------------------------------------------------------
// The order of probes
// ---------------------------------------------------------------------------

/// What stays of `s` and what is held against place `i`.
#[verifier::spinoff_prover]
proof fn lemma_sift(s: Slots, i: int, j: int, least: int)
    requires
        0 <= i < s.len(),
        j <= s.len(),
        forall|m: int| i <= m < s.len() ==> least <= (#[trigger] s[m]).0,
    ensures
        ({
            let t = wide::sift(s, i, j);
            &&& t.len() == s.len()
            &&& forall|m: int| 0 <= m < i ==> #[trigger] t[m] == s[m]
            &&& forall|m: int| i <= m < t.len() ==> least <= (#[trigger] t[m]).0
            &&& forall|m: int| i <= m < j ==> t[i].0 <= (#[trigger] t[m]).0
        }),
    decreases j - i,
{
    if j > i + 1 {
        lemma_sift(s, i, j - 1, least);
    }
}

proof fn lemma_sifted(s: Slots, n: int)
    requires
        n <= s.len(),
    ensures
        ({
            let t = wide::sifted(s, n);
            &&& t.len() == s.len()
            &&& forall|a: int, b: int|
                0 <= a < b < t.len() && a < n ==> (#[trigger] t[a]).0 <= (#[trigger] t[b]).0
        }),
    decreases n,
{
    if n > 0 {
        lemma_sifted(s, n - 1);
        let u = wide::sifted(s, n - 1);
        let t = wide::sifted(s, n);
        let i = n - 1;
        let k = s.len() as int;
        let floor = if n >= 2 {
            u[n - 2].0
        } else {
            // Nothing is less than the least of what there is.
            u[least_of(u)].0
        };
        lemma_least_of(u);
        lemma_sift(u, i, k, floor);
        assert forall|a: int, b: int| 0 <= a < b < t.len() && a < n implies (#[trigger] t[a]).0 <= (
        #[trigger] t[b]).0 by {
            if a < i {
                assert(t[a] == u[a]);
                if b < i {
                    assert(t[b] == u[b]);
                } else {
                    assert(floor <= t[b].0);
                    if a < n - 2 {
                        assert(u[a].0 <= u[n - 2].0);
                    }
                }
            }
        }
    }
}

/// A place that holds the least distance.
spec fn least_of(s: Slots) -> int
    decreases s.len(),
{
    if s.len() <= 1 {
        0
    } else if s.last().0 < s[least_of(s.drop_last())].0 {
        s.len() - 1
    } else {
        least_of(s.drop_last())
    }
}

proof fn lemma_least_of(s: Slots)
    requires
        s.len() > 0,
    ensures
        0 <= least_of(s) < s.len(),
        forall|m: int| 0 <= m < s.len() ==> s[least_of(s)].0 <= (#[trigger] s[m]).0,
    decreases s.len(),
{
    if s.len() > 1 {
        let t = s.drop_last();
        lemma_least_of(t);
        assert forall|m: int| 0 <= m < s.len() implies s[least_of(s)].0 <= (#[trigger] s[m]).0 by {
            if m < t.len() {
                assert(s[m] == t[m]);
            }
        }
    }
}

/// Either way to search probes the clusters in the order of the distances of
/// their centroids, the nearest first.
pub proof fn law_probes_nearest_first(raw: Seq<u8>, q: Seq<i16>, np: int, i: int, j: int)
    requires
        0 < np <= image::clusters(raw),
        0 <= i < j,
    ensures
        j < scalar::probe_order(raw, q, np).len() ==> scalar::probe_order(raw, q, np)[i].0
            <= scalar::probe_order(raw, q, np)[j].0,
        j < wide::probe_order(raw, q, np).len() ==> wide::probe_order(raw, q, np)[i].0
            <= wide::probe_order(raw, q, np)[j].0,
{
    let s = nearest::offer_all(
        nearest::open_slots(np, u64::MAX as int),
        scalar::centroid_distances(raw, q),
    );
    nearest::lemma_by_distance_sorted(s);
    let t = nearest::offer_all(
        nearest::open_slots(np, u32::MAX as int),
        wide::centroid_distances(raw, q),
    );
    lemma_offered_len(np, u32::MAX as int, wide::centroid_distances(raw, q));
    lemma_sifted(t, np - 1);
}

proof fn lemma_offered_len(n: int, limit: int, ds: Seq<int>)
    requires
        n > 0,
    ensures
        nearest::offer_all(nearest::open_slots(n, limit), ds).len() == n,
    decreases ds.len(),
{
    if ds.len() > 0 {
        lemma_offered_len(n, limit, ds.drop_last());
        nearest::lemma_worst_slot(
            nearest::offer_all(nearest::open_slots(n, limit), ds.drop_last()),
        );
    }
}

} // verus!
