//! When a search is exact.
//!
//! A search keeps five slots. It is exact if what they hold are five of the
//! pairs of distance and label that the stored vectors make with the query,
//! and none of the other pairs is nearer.
use vstd::prelude::*;
use vstd::multiset::Multiset;
use crate::image;
use crate::nearest::{self, Slots};
use crate::scalar;
use crate::search;
use crate::sort;

verus! {

/// Distance and label of each of the first `n` vectors of cluster `c`.
pub open spec fn cluster_pairs(raw: Seq<u8>, q: Seq<i16>, c: int, n: int) -> Multiset<(int, int)>
    decreases n,
{
    if n <= 0 {
        Multiset::empty()
    } else {
        cluster_pairs(raw, q, c, n - 1).insert(
            (
                nearest::distance(q, image::stored_vector(raw, c, n - 1)),
                image::stored_label(raw, c, n - 1),
            ),
        )
    }
}

/// Distance and label of every vector of those of the first `m` clusters that
/// are in `done`.
pub open spec fn gathered(raw: Seq<u8>, q: Seq<i16>, done: Set<int>, m: int) -> Multiset<(int, int)>
    decreases m,
{
    if m <= 0 {
        Multiset::empty()
    } else if done.contains(m - 1) {
        gathered(raw, q, done, m - 1).add(
            cluster_pairs(raw, q, m - 1, image::count_at(raw, m - 1)),
        )
    } else {
        gathered(raw, q, done, m - 1)
    }
}

/// Distance and label of every stored vector, and five empty slots.
pub open spec fn all_pairs(raw: Seq<u8>, q: Seq<i16>) -> Multiset<(int, int)> {
    gathered(raw, q, Set::full(), image::clusters(raw)).add(scalar::empty_five().to_multiset())
}

/// The slots of `s` are among `all`, and nothing else in `all` is nearer than
/// any of them.
pub open spec fn are_nearest(s: Slots, all: Multiset<(int, int)>) -> bool {
    &&& s.to_multiset().subset_of(all)
    &&& forall|x: (int, int)| #[trigger]
        all.count(x) > s.to_multiset().count(x) ==> nearest::worst_distance(s) <= x.0
}

/// Every stored vector lies inside the bounding box of its cluster.
pub open spec fn boxes_hold(raw: Seq<u8>) -> bool {
    forall|c: int, pos: int|
        0 <= c < image::clusters(raw) && 0 <= pos < image::count_at(raw, c) ==> in_box(
            raw,
            c,
            #[trigger] image::stored_vector(raw, c, pos),
        )
}

/// `v` lies inside the bounding box of cluster `c`.
pub open spec fn in_box(raw: Seq<u8>, c: int, v: Seq<int>) -> bool {
    forall|d: int|
        0 <= d < 14 ==> image::bmin_at(raw, c, d) <= #[trigger] v[d] <= image::bmax_at(raw, c, d)
}

/// No vector of cluster `c` is nearer than `limit`.
pub open spec fn is_far(raw: Seq<u8>, q: Seq<i16>, c: int, limit: int) -> bool {
    forall|pos: int|
        0 <= pos < image::count_at(raw, c) ==> limit <= nearest::distance(
            q,
            #[trigger] image::stored_vector(raw, c, pos),
        )
}

pub proof fn lemma_bound_is_far(raw: Seq<u8>, q: Seq<i16>, c: int, limit: int)
    requires
        q.len() == 14,
        boxes_hold(raw),
        0 <= c < image::clusters(raw),
        search::cluster_bound(raw, q, c) >= limit,
    ensures
        is_far(raw, q, c, limit),
{
    assert forall|pos: int| 0 <= pos < image::count_at(raw, c) implies limit <= nearest::distance(
        q,
        #[trigger] image::stored_vector(raw, c, pos),
    ) by {
        let v = image::stored_vector(raw, c, pos);
        assert(in_box(raw, c, v));
        let lo = search::bmin_vector(raw, c);
        let hi = search::bmax_vector(raw, c);
        assert forall|d: int| 0 <= d < 14 implies lo[d] <= #[trigger] v[d] <= hi[d] by {}
        nearest::lemma_box_distance(q, lo, hi, v);
    }
}

proof fn lemma_offer_nearest(s: Slots, all: Multiset<(int, int)>, d: int, tag: int)
    requires
        s.len() > 0,
        are_nearest(s, all),
    ensures
        are_nearest(nearest::offer(s, d, tag), all.insert((d, tag))),
        nearest::offer(s, d, tag).len() == s.len(),
        nearest::worst_distance(nearest::offer(s, d, tag)) <= nearest::worst_distance(s),
{
    broadcast use vstd::seq_lib::group_to_multiset_ensures;
    broadcast use vstd::multiset::group_multiset_axioms;

    nearest::lemma_worst_slot(s);
    let t = nearest::offer(s, d, tag);
    let w = nearest::worst_slot(s);
    nearest::lemma_worst_slot(t);
    if d < nearest::worst_distance(s) {
        let v = nearest::worst_slot(t);
        assert(t[v].0 <= nearest::worst_distance(s)) by {
            if v != w {
                assert(t[v] == s[v]);
            }
        }
        assert(s.contains(s[w]));
        assert(t.to_multiset() == s.to_multiset().insert((d, tag)).remove(s[w]));
        assert forall|x: (int, int)| #[trigger]
            all.insert((d, tag)).count(x) > t.to_multiset().count(x) implies nearest::worst_distance(
            t,
        ) <= x.0 by {
            if x != s[w] {
                assert(all.count(x) > s.to_multiset().count(x));
            }
        }
        assert(t.to_multiset().subset_of(all.insert((d, tag))));
    } else {
        assert forall|x: (int, int)| #[trigger]
            all.insert((d, tag)).count(x) > t.to_multiset().count(x) implies nearest::worst_distance(
            t,
        ) <= x.0 by {
            if x != (d, tag) {
                assert(all.count(x) > s.to_multiset().count(x));
            }
        }
    }
}

/// What slots hold after each pair of distance and tag in `xs` was offered in
/// turn.
pub open spec fn offered(s: Slots, xs: Slots) -> Slots
    decreases xs.len(),
{
    if xs.len() == 0 {
        s
    } else {
        nearest::offer(offered(s, xs.drop_last()), xs.last().0, xs.last().1)
    }
}

/// Five slots that were empty at first hold, after any run of offers, the five
/// least distances that were ever offered, each with the tag it was offered
/// with; places for which there was no offer stay empty. The distance that
/// counts is the greatest they hold.
pub proof fn law_offers_keep_least(xs: Slots)
    ensures
        offered(scalar::empty_five(), xs).len() == 5,
        are_nearest(
            offered(scalar::empty_five(), xs),
            xs.to_multiset().add(scalar::empty_five().to_multiset()),
        ),
        exists|i: int|
            0 <= i < 5 && (#[trigger] offered(scalar::empty_five(), xs)[i]).0
                == nearest::worst_distance(offered(scalar::empty_five(), xs)),
        forall|i: int|
            0 <= i < 5 ==> (#[trigger] offered(scalar::empty_five(), xs)[i]).0
                <= nearest::worst_distance(offered(scalar::empty_five(), xs)),
    decreases xs.len(),
{
    broadcast use vstd::seq_lib::group_to_multiset_ensures;
    broadcast use vstd::multiset::group_multiset_axioms;

    let e = scalar::empty_five();
    let s = offered(e, xs);
    if xs.len() == 0 {
        assert(xs.to_multiset().add(e.to_multiset()) =~= e.to_multiset());
    } else {
        let ys = xs.drop_last();
        law_offers_keep_least(ys);
        let all = ys.to_multiset().add(e.to_multiset());
        lemma_offer_nearest(offered(e, ys), all, xs.last().0, xs.last().1);
        assert(ys.push(xs.last()) =~= xs);
        assert(all.insert(xs.last()) =~= xs.to_multiset().add(e.to_multiset()));
    }
    nearest::lemma_worst_slot(s);
    assert(s[nearest::worst_slot(s)].0 == nearest::worst_distance(s));
}

/// An offer that is no nearer than the farthest slot changes nothing, not even
/// one just as far. Any other takes the place of one slot at that distance and
/// leaves the rest as they were, and the farthest is no farther for it.
pub proof fn law_offer_replaces_farthest(s: Slots, d: int, tag: int)
    requires
        s.len() > 0,
    ensures
        d >= nearest::worst_distance(s) ==> nearest::offer(s, d, tag) == s,
        d < nearest::worst_distance(s) ==> exists|w: int|
            0 <= w < s.len() && (#[trigger] s[w]).0 == nearest::worst_distance(s) && nearest::offer(
                s,
                d,
                tag,
            ) == s.update(w, (d, tag)),
        nearest::worst_distance(nearest::offer(s, d, tag)) <= nearest::worst_distance(s),
{
    nearest::lemma_worst_slot(s);
    let t = nearest::offer(s, d, tag);
    let w = nearest::worst_slot(s);
    nearest::lemma_worst_slot(t);
    let v = nearest::worst_slot(t);
    if d < nearest::worst_distance(s) {
        assert(s[w].0 == nearest::worst_distance(s));
        if v != w {
            assert(t[v] == s[v]);
        }
    }
}

proof fn lemma_scan_nearest(
    raw: Seq<u8>,
    q: Seq<i16>,
    c: int,
    n: int,
    s: Slots,
    all: Multiset<(int, int)>,
)
    requires
        s.len() > 0,
        are_nearest(s, all),
    ensures
        are_nearest(scalar::scan(raw, q, c, n, s), all.add(cluster_pairs(raw, q, c, n))),
        scalar::scan(raw, q, c, n, s).len() == s.len(),
        nearest::worst_distance(scalar::scan(raw, q, c, n, s)) <= nearest::worst_distance(s),
    decreases n,
{
    broadcast use vstd::multiset::group_multiset_axioms;

    if n <= 0 {
        assert(all.add(cluster_pairs(raw, q, c, n)) =~= all);
    } else {
        lemma_scan_nearest(raw, q, c, n - 1, s, all);
        let x = (
            nearest::distance(q, image::stored_vector(raw, c, n - 1)),
            image::stored_label(raw, c, n - 1),
        );
        lemma_offer_nearest(
            scalar::scan(raw, q, c, n - 1, s),
            all.add(cluster_pairs(raw, q, c, n - 1)),
            x.0,
            x.1,
        );
        assert(all.add(cluster_pairs(raw, q, c, n - 1)).insert(x) =~= all.add(
            cluster_pairs(raw, q, c, n),
        ));
    }
}

pub proof fn lemma_gathered_insert(raw: Seq<u8>, q: Seq<i16>, done: Set<int>, c: int, m: int)
    requires
        0 <= c,
        !done.contains(c),
    ensures
        gathered(raw, q, done.insert(c), m) == if c < m {
            gathered(raw, q, done, m).add(cluster_pairs(raw, q, c, image::count_at(raw, c)))
        } else {
            gathered(raw, q, done, m)
        },
    decreases m,
{
    broadcast use vstd::multiset::group_multiset_axioms;

    if m > 0 {
        lemma_gathered_insert(raw, q, done, c, m - 1);
        if c == m - 1 {
        } else {
            assert(gathered(raw, q, done.insert(c), m) =~= if c < m {
                gathered(raw, q, done, m).add(cluster_pairs(raw, q, c, image::count_at(raw, c)))
            } else {
                gathered(raw, q, done, m)
            });
        }
    }
}

pub proof fn lemma_far_pairs(raw: Seq<u8>, q: Seq<i16>, c: int, n: int, limit: int, x: (int, int))
    requires
        is_far(raw, q, c, limit),
        n <= image::count_at(raw, c),
        cluster_pairs(raw, q, c, n).count(x) > 0,
    ensures
        limit <= x.0,
    decreases n,
{
    broadcast use vstd::multiset::group_multiset_axioms;

    if n > 0 {
        let y = (
            nearest::distance(q, image::stored_vector(raw, c, n - 1)),
            image::stored_label(raw, c, n - 1),
        );
        if x != y {
            lemma_far_pairs(raw, q, c, n - 1, limit, x);
        }
    }
}

/// What is not gathered from `done` is far.
pub proof fn lemma_rest_is_far(
    raw: Seq<u8>,
    q: Seq<i16>,
    done: Set<int>,
    m: int,
    limit: int,
    x: (int, int),
)
    requires
        m <= image::clusters(raw),
        forall|c: int|
            0 <= c < image::clusters(raw) && !done.contains(c) ==> #[trigger] is_far(
                raw,
                q,
                c,
                limit,
            ),
    ensures
        gathered(raw, q, done, m).count(x) <= gathered(raw, q, Set::full(), m).count(x),
        gathered(raw, q, Set::full(), m).count(x) > gathered(raw, q, done, m).count(x) ==> limit
            <= x.0,
    decreases m,
{
    broadcast use vstd::multiset::group_multiset_axioms;

    if m > 0 {
        lemma_rest_is_far(raw, q, done, m - 1, limit, x);
        let n = image::count_at(raw, m - 1);
        if !done.contains(m - 1) {
            assert(is_far(raw, q, m - 1, limit));
            if cluster_pairs(raw, q, m - 1, n).count(x) > 0 {
                lemma_far_pairs(raw, q, m - 1, n, limit, x);
            }
        }
    }
}

/// Slots that are nearest among the clusters of `done` and the slots of
/// `empties` are nearest of all, if the other clusters are far.
pub proof fn lemma_nearest_of_all(
    raw: Seq<u8>,
    q: Seq<i16>,
    done: Set<int>,
    empties: Multiset<(int, int)>,
    s: Slots,
)
    requires
        are_nearest(s, gathered(raw, q, done, image::clusters(raw)).add(empties)),
        forall|c: int|
            0 <= c < image::clusters(raw) && !done.contains(c) ==> #[trigger] is_far(
                raw,
                q,
                c,
                nearest::worst_distance(s),
            ),
    ensures
        are_nearest(s, gathered(raw, q, Set::full(), image::clusters(raw)).add(empties)),
{
    broadcast use vstd::multiset::group_multiset_axioms;

    let k = image::clusters(raw);
    let limit = nearest::worst_distance(s);
    let some = gathered(raw, q, done, k).add(empties);
    let all = gathered(raw, q, Set::full(), k).add(empties);
    assert forall|x: (int, int)| #[trigger] s.to_multiset().count(x) <= all.count(x) by {
        lemma_rest_is_far(raw, q, done, k, limit, x);
        assert(s.to_multiset().count(x) <= some.count(x));
    }
    assert forall|x: (int, int)| #[trigger]
        all.count(x) > s.to_multiset().count(x) implies limit <= x.0 by {
        lemma_rest_is_far(raw, q, done, k, limit, x);
        assert(some.count(x) > s.to_multiset().count(x) ==> limit <= x.0);
    }
}

// ---------------------------------------------------------------------------
// The probed clusters are different ones
// ---------------------------------------------------------------------------

pub open spec fn tags_differ(s: Slots) -> bool {
    forall|i: int, j: int| 0 <= i < j < s.len() ==> (#[trigger] s[i]).1 != (#[trigger] s[j]).1
}

/// The first offers below `limit` fill the open slots from the front.
pub proof fn lemma_filling(n: int, limit: int, ds: Seq<int>)
    requires
        ds.len() <= n,
        n > 0,
        forall|i: int| 0 <= i < ds.len() ==> #[trigger] ds[i] < limit,
    ensures
        nearest::offer_all(nearest::open_slots(n, limit), ds) == Seq::new(
            n as nat,
            |i: int|
                if i < ds.len() {
                    (ds[i], i)
                } else {
                    (limit, i)
                },
        ),
    decreases ds.len(),
{
    let m = ds.len() - 1;
    if ds.len() == 0 {
        assert(nearest::open_slots(n, limit) =~= Seq::new(
            n as nat,
            |i: int|
                if i < ds.len() {
                    (ds[i], i)
                } else {
                    (limit, i)
                },
        ));
    } else {
        let e = ds.drop_last();
        assert forall|i: int| 0 <= i < e.len() implies #[trigger] e[i] < limit by {
            assert(e[i] == ds[i]);
        }
        lemma_filling(n, limit, e);
        let s = nearest::offer_all(nearest::open_slots(n, limit), e);
        nearest::lemma_worst_slot(s);
        let w = nearest::worst_slot(s);
        assert(s[m] == (limit, m as int));
        assert(s[w].0 <= limit) by {
            if w < m {
                assert(s[w] == (e[w], w));
            }
        }
        if w < m {
            assert(s[w] == (e[w], w));
            assert(e[w] < limit);
        } else if m < w {
            assert(s[m].0 < nearest::worst_distance(s));
        }
        assert(ds[m] < limit);
        assert(nearest::offer(s, ds.last(), m) =~= Seq::new(
            n as nat,
            |i: int|
                if i < ds.len() {
                    (ds[i], i)
                } else {
                    (limit, i)
                },
        ));
    }
}

pub proof fn lemma_chosen_differ(n: int, limit: int, ds: Seq<int>)
    requires
        0 < n <= ds.len(),
        forall|i: int| 0 <= i < ds.len() ==> #[trigger] ds[i] < limit,
    ensures
        tags_differ(nearest::offer_all(nearest::open_slots(n, limit), ds)),
        forall|i: int|
            0 <= i < n ==> 0 <= (#[trigger] nearest::offer_all(
                nearest::open_slots(n, limit),
                ds,
            )[i]).1 < ds.len(),
        nearest::offer_all(nearest::open_slots(n, limit), ds).len() == n,
    decreases ds.len(),
{
    if ds.len() == n {
        lemma_filling(n, limit, ds);
    } else {
        let e = ds.drop_last();
        assert forall|i: int| 0 <= i < e.len() implies #[trigger] e[i] < limit by {
            assert(e[i] == ds[i]);
        }
        lemma_chosen_differ(n, limit, e);
        let s = nearest::offer_all(nearest::open_slots(n, limit), e);
        nearest::lemma_worst_slot(s);
        let t = nearest::offer(s, ds.last(), ds.len() - 1);
        let w = nearest::worst_slot(s);
        assert forall|i: int, j: int| 0 <= i < j < t.len() implies (#[trigger] t[i]).1 != (
        #[trigger] t[j]).1 by {
            assert(i != w ==> t[i] == s[i]);
            assert(j != w ==> t[j] == s[j]);
            assert(s[i].1 < e.len() && s[j].1 < e.len());
        }
        assert forall|i: int| 0 <= i < n implies 0 <= (#[trigger] t[i]).1 < ds.len() by {
            assert(i != w ==> t[i] == s[i]);
        }
    }
}

/// Lists with the same slots have different tags together.
pub proof fn lemma_differ_multiset(s: Slots, t: Slots)
    requires
        s.to_multiset() == t.to_multiset(),
        tags_differ(s),
    ensures
        tags_differ(t),
{
    broadcast use vstd::seq_lib::group_to_multiset_ensures;
    broadcast use vstd::multiset::group_multiset_axioms;

    assert forall|i: int, j: int| 0 <= i < j < t.len() implies (#[trigger] t[i]).1 != (
    #[trigger] t[j]).1 by {
        if t[i].1 == t[j].1 {
            let a = sort::lemma_same_slot(t, s, i);
            let b = sort::lemma_same_slot(t, s, j);
            if a != b {
                assert(s[a].1 == s[b].1);
            }
            assert(t[i] == t[j]);
            let u = t.remove(j);
            assert(u[i] == t[i]);
            assert(u.contains(t[i]));
            assert(u.to_multiset() == t.to_multiset().remove(t[j]));
            assert(u.to_multiset().count(t[i]) > 0);
            assert(t.contains(t[i]));
            assert(t.to_multiset().count(t[i]) > 0);
            assert(t.to_multiset().count(t[i]) >= 2);
            let v = s.remove(a);
            assert(v.to_multiset() == s.to_multiset().remove(s[a]));
            assert(v.to_multiset().count(t[i]) >= 1);
            assert(v.contains(t[i]));
            let m = choose|m: int| 0 <= m < v.len() && v[m] == t[i];
            let m2 = if m < a {
                m
            } else {
                m + 1
            };
            assert(s[m2] == t[i]);
            assert(s[m2].1 == s[a].1);
        }
    }
}


// ---------------------------------------------------------------------------
// The search
// ---------------------------------------------------------------------------

/// Distance and label of every vector of the clusters in `done`, and five empty
/// slots.
pub open spec fn with_empty(raw: Seq<u8>, q: Seq<i16>, done: Set<int>) -> Multiset<(int, int)> {
    gathered(raw, q, done, image::clusters(raw)).add(scalar::empty_five().to_multiset())
}

pub proof fn lemma_scan_done(raw: Seq<u8>, q: Seq<i16>, done: Set<int>, c: int, s: Slots)
    requires
        s.len() == 5,
        0 <= c < image::clusters(raw),
        !done.contains(c),
        are_nearest(s, with_empty(raw, q, done)),
    ensures
        ({
            let t = scalar::scan(raw, q, c, image::count_at(raw, c), s);
            &&& t.len() == 5
            &&& are_nearest(t, with_empty(raw, q, done.insert(c)))
            &&& nearest::worst_distance(t) <= nearest::worst_distance(s)
        }),
{
    broadcast use vstd::multiset::group_multiset_axioms;

    let n = image::count_at(raw, c);
    lemma_scan_nearest(raw, q, c, n, s, with_empty(raw, q, done));
    lemma_gathered_insert(raw, q, done, c, image::clusters(raw));
    assert(with_empty(raw, q, done).add(cluster_pairs(raw, q, c, n)) =~= with_empty(
        raw,
        q,
        done.insert(c),
    ));
}

/// The clusters scanned by the first `n` probes; the other probed ones are far.
pub proof fn lemma_probe(raw: Seq<u8>, q: Seq<i16>, order: Slots, n: int) -> (done: Set<int>)
    requires
        q.len() == 14,
        boxes_hold(raw),
        0 <= n <= order.len(),
        tags_differ(order),
        forall|i: int|
            0 <= i < order.len() ==> 0 <= (#[trigger] order[i]).1 < image::clusters(raw),
    ensures
        ({
            let s = scalar::probe(raw, q, order, n, scalar::empty_five());
            &&& s.len() == 5
            &&& are_nearest(s, with_empty(raw, q, done))
            &&& forall|c: int| #[trigger]
                done.contains(c) ==> scalar::is_tagged(order.take(n), c)
            &&& forall|i: int|
                0 <= i < n && !done.contains((#[trigger] order[i]).1) ==> search::cluster_bound(
                    raw,
                    q,
                    order[i].1,
                ) >= nearest::worst_distance(s)
        }),
    decreases n,
{
    broadcast use vstd::multiset::group_multiset_axioms;

    if n == 0 {
        let done = Set::<int>::empty();
        lemma_gathered_empty(raw, q, image::clusters(raw));
        let s = scalar::empty_five();
        assert(with_empty(raw, q, done) =~= s.to_multiset());
        done
    } else {
        let before = lemma_probe(raw, q, order, n - 1);
        let s = scalar::probe(raw, q, order, n - 1, scalar::empty_five());
        let c = order[n - 1].1;
        scalar::lemma_is_tagged_step(order, n - 1);
        assert(order.take(n - 1 + 1) =~= order.take(n));
        assert forall|x: int| before.contains(x) || x == c implies #[trigger] scalar::is_tagged(
            order.take(n),
            x,
        ) by {
            assert(scalar::is_tagged(order.take(n - 1 + 1), x));
        }
        if before.contains(c) {
            assert(scalar::is_tagged(order.take(n - 1), c));
            let t = order.take(n - 1);
            let m = choose|m: int| 0 <= m < t.len() && (#[trigger] t[m]).1 == c;
            assert(order[m] == t[m]);
            assert(order[m].1 != order[n - 1].1);
        }
        if n > 1 && search::cluster_bound(raw, q, c) >= nearest::worst_distance(s) {
            before
        } else {
            lemma_scan_done(raw, q, before, c, s);
            before.insert(c)
        }
    }
}

pub proof fn lemma_gathered_empty(raw: Seq<u8>, q: Seq<i16>, m: int)
    ensures
        gathered(raw, q, Set::empty(), m) == Multiset::<(int, int)>::empty(),
    decreases m,
{
    if m > 0 {
        lemma_gathered_empty(raw, q, m - 1);
    }
}

/// A cluster stands in `list` at place `i` or later.
pub open spec fn is_pending(list: Slots, i: int, c: int) -> bool {
    exists|m: int| i <= m < list.len() && (#[trigger] list[m]).1 == c
}

proof fn lemma_repair(
    raw: Seq<u8>,
    q: Seq<i16>,
    list: Slots,
    i: int,
    s: Slots,
    lo: int,
    hi: int,
    done: Set<int>,
)
    requires
        q.len() == 14,
        boxes_hold(raw),
        0 <= i <= list.len(),
        s.len() == 5,
        are_nearest(s, with_empty(raw, q, done)),
        tags_differ(list),
        nearest::is_by_distance(list),
        forall|m: int|
            i <= m < list.len() ==> {
                &&& 0 <= (#[trigger] list[m]).1 < image::clusters(raw)
                &&& !done.contains(list[m].1)
                &&& list[m].0 == search::cluster_bound(raw, q, list[m].1)
            },
        forall|c: int|
            0 <= c < image::clusters(raw) && !done.contains(c) && !is_pending(list, i, c)
                ==> #[trigger] is_far(raw, q, c, nearest::worst_distance(s)),
        lo <= scalar::tag_sum(scalar::repair(raw, q, list, i, s, lo, hi)) <= hi,
    ensures
        are_nearest(scalar::repair(raw, q, list, i, s, lo, hi), all_pairs(raw, q)),
    decreases list.len() - i,
{
    if i == list.len() || list[i].0 >= nearest::worst_distance(s) {
        assert forall|c: int| 0 <= c < image::clusters(raw) && !done.contains(c) implies #[trigger] is_far(
            raw,
            q,
            c,
            nearest::worst_distance(s),
        ) by {
            if is_pending(list, i, c) {
                let m = choose|m: int| i <= m < list.len() && (#[trigger] list[m]).1 == c;
                if i < m {
                    assert(list[i].0 <= list[m].0);
                }
                lemma_bound_is_far(raw, q, c, nearest::worst_distance(s));
            }
        }
        lemma_nearest_of_all(raw, q, done, scalar::empty_five().to_multiset(), s);
    } else {
        let c = list[i].1;
        let t = scalar::scan(raw, q, c, image::count_at(raw, c), s);
        lemma_scan_done(raw, q, done, c, s);
        let after = done.insert(c);
        assert forall|m: int| i + 1 <= m < list.len() implies !after.contains(
            (#[trigger] list[m]).1,
        ) by {
            assert(list[i].1 != list[m].1);
        }
        assert forall|x: int|
            0 <= x < image::clusters(raw) && !after.contains(x) && !is_pending(list, i + 1, x)
                implies #[trigger] is_far(raw, q, x, nearest::worst_distance(t)) by {
            if is_pending(list, i, x) {
                let m = choose|m: int| i <= m < list.len() && (#[trigger] list[m]).1 == x;
                assert(m != i);
            }
            assert(is_far(raw, q, x, nearest::worst_distance(s)));
        }
        lemma_repair(raw, q, list, i + 1, t, lo, hi, after);
    }
}

pub proof fn lemma_candidates(
    raw: Seq<u8>,
    bounds: Seq<int>,
    order: Slots,
    limit: int,
    n: int,
)
    ensures
        ({
            let s = scalar::candidates(raw, bounds, order, limit, n);
            &&& forall|i: int|
                0 <= i < s.len() ==> {
                    &&& 0 <= (#[trigger] s[i]).1 < n
                    &&& s[i].0 == bounds[s[i].1]
                    &&& !scalar::is_tagged(order, s[i].1)
                }
            &&& forall|c: int|
                0 <= c < n && !#[trigger] scalar::is_tagged(order, c) && image::count_at(raw, c) != 0
                    && bounds[c] < limit ==> is_pending(s, 0, c)
        }),
    decreases n,
{
    if n > 0 {
        lemma_candidates(raw, bounds, order, limit, n - 1);
        let s = scalar::candidates(raw, bounds, order, limit, n - 1);
        let t = scalar::candidates(raw, bounds, order, limit, n);
        assert forall|i: int| 0 <= i < t.len() implies {
            &&& 0 <= (#[trigger] t[i]).1 < n
            &&& t[i].0 == bounds[t[i].1]
            &&& !scalar::is_tagged(order, t[i].1)
        } by {
            if i < s.len() {
                assert(t[i] == s[i]);
            }
        }
        assert forall|c: int|
            0 <= c < n && !#[trigger] scalar::is_tagged(order, c) && image::count_at(raw, c) != 0
                && bounds[c] < limit implies is_pending(t, 0, c) by {
            if c < n - 1 {
                assert(is_pending(s, 0, c));
                let m = choose|m: int| 0 <= m < s.len() && (#[trigger] s[m]).1 == c;
                assert(t[m] == s[m]);
            } else {
                assert(t[t.len() - 1].1 == c);
            }
        }
    }
}

pub proof fn lemma_centroid_distances(raw: Seq<u8>, q: Seq<i16>, c: int)
    requires
        q.len() == 14,
        0 <= c < image::clusters(raw),
    ensures
        0 <= scalar::centroid_distances(raw, q)[c] < u64::MAX,
{
    let v = search::centroid_vector(raw, c);
    nearest::lemma_square_sum_bound(nearest::differences(q, v), 65535);
}

/// Where every cluster is probed there is none left to repair with.
pub proof fn lemma_no_candidates(
    raw: Seq<u8>,
    bounds: Seq<int>,
    order: Slots,
    limit: int,
    n: int,
)
    requires
        forall|c: int| 0 <= c < n ==> #[trigger] scalar::is_tagged(order, c),
    ensures
        scalar::candidates(raw, bounds, order, limit, n).len() == 0,
    decreases n,
{
    if n > 0 {
        lemma_no_candidates(raw, bounds, order, limit, n - 1);
        assert(scalar::is_tagged(order, n - 1));
    }
}

/// Slots for as many clusters as there are take all of them.
pub proof fn lemma_all_chosen(limit: int, ds: Seq<int>, order: Slots)
    requires
        ds.len() > 0,
        forall|i: int| 0 <= i < ds.len() ==> #[trigger] ds[i] < limit,
        order.to_multiset() == nearest::offer_all(
            nearest::open_slots(ds.len() as int, limit),
            ds,
        ).to_multiset(),
    ensures
        forall|c: int| 0 <= c < ds.len() ==> #[trigger] scalar::is_tagged(order, c),
{
    let chosen = nearest::offer_all(nearest::open_slots(ds.len() as int, limit), ds);
    lemma_filling(ds.len() as int, limit, ds);
    assert forall|c: int| 0 <= c < ds.len() implies #[trigger] scalar::is_tagged(order, c) by {
        assert(chosen[c] == (ds[c], c));
        let m = sort::lemma_same_slot(chosen, order, c);
        assert(order[m].1 == c);
    }
}

/// A search that probes every cluster is exact, whatever its result.
pub proof fn law_full_probe_exact(raw: Seq<u8>, q: Seq<i16>, nprobe: int, lo: int, hi: int)
    requires
        q.len() == 14,
        boxes_hold(raw),
        scalar::probe_count(nprobe, image::clusters(raw)) == image::clusters(raw),
    ensures
        are_nearest(scalar::kept(raw, q, nprobe, lo, hi), all_pairs(raw, q)),
{
    let k = image::clusters(raw);
    let ds = scalar::centroid_distances(raw, q);
    let order = scalar::probe_order(raw, q, k);
    let chosen = nearest::offer_all(nearest::open_slots(k, u64::MAX as int), ds);
    assert forall|i: int| 0 <= i < ds.len() implies #[trigger] ds[i] < u64::MAX by {
        lemma_centroid_distances(raw, q, i);
    }
    sort::lemma_by_distance_multiset(chosen);
    if k == 0 {
        assert(chosen.len() == 0);
    } else {
        lemma_chosen_differ(k, u64::MAX as int, ds);
        lemma_all_chosen(u64::MAX as int, ds, order);
    }
    lemma_differ_multiset(chosen, order);
    assert forall|i: int| 0 <= i < order.len() implies 0 <= (#[trigger] order[i]).1 < k by {
        let m = sort::lemma_same_slot(order, chosen, i);
        assert(chosen[m].1 == order[i].1);
    }
    let done = lemma_probe(raw, q, order, order.len() as int);
    let s = scalar::probe(raw, q, order, order.len() as int, scalar::empty_five());
    let limit = nearest::worst_distance(s);
    assert forall|c: int| 0 <= c < k && !done.contains(c) implies #[trigger] is_far(
        raw,
        q,
        c,
        limit,
    ) by {
        assert(scalar::is_tagged(order, c));
        let i = choose|i: int| 0 <= i < order.len() && (#[trigger] order[i]).1 == c;
        lemma_bound_is_far(raw, q, c, limit);
    }
    lemma_nearest_of_all(raw, q, done, scalar::empty_five().to_multiset(), s);
    let bounds = scalar::cluster_bounds(raw, q);
    lemma_no_candidates(raw, bounds, order, limit, k);
    let cands = scalar::candidates(raw, bounds, order, limit, k);
    nearest::lemma_by_distance_len(cands);
}

/// A search whose result lies within the range that calls for a repair is
/// exact: no stored vector is nearer than any of the five that it sums up,
/// whatever number of clusters it probes. This holds of every index whose
/// boxes hold.
pub proof fn law_search_exact(raw: Seq<u8>, q: Seq<i16>, nprobe: int, lo: int, hi: int)
    requires
        q.len() == 14,
        boxes_hold(raw),
        lo <= scalar::tag_sum(scalar::kept(raw, q, nprobe, lo, hi)) <= hi,
    ensures
        are_nearest(scalar::kept(raw, q, nprobe, lo, hi), all_pairs(raw, q)),
{
    let k = image::clusters(raw);
    let np = scalar::probe_count(nprobe, k);
    let ds = scalar::centroid_distances(raw, q);
    let order = scalar::probe_order(raw, q, np);
    let chosen = nearest::offer_all(nearest::open_slots(np, u64::MAX as int), ds);
    assert forall|i: int| 0 <= i < ds.len() implies #[trigger] ds[i] < u64::MAX by {
        lemma_centroid_distances(raw, q, i);
    }
    if k == 0 {
        assert(chosen.len() == 0);
    } else {
        lemma_chosen_differ(np, u64::MAX as int, ds);
    }
    sort::lemma_by_distance_multiset(chosen);
    lemma_differ_multiset(chosen, order);
    assert forall|i: int| 0 <= i < order.len() implies 0 <= (#[trigger] order[i]).1 < k by {
        let m = sort::lemma_same_slot(order, chosen, i);
        assert(chosen[m].1 == order[i].1);
    }
    let done = lemma_probe(raw, q, order, order.len() as int);
    assert(order.take(order.len() as int) =~= order);
    let s = scalar::probe(raw, q, order, order.len() as int, scalar::empty_five());
    let limit = nearest::worst_distance(s);
    let bounds = scalar::cluster_bounds(raw, q);
    let cands = scalar::candidates(raw, bounds, order, limit, k);
    let list = nearest::by_distance(cands);
    lemma_candidates(raw, bounds, order, limit, k);
    scalar::lemma_candidates_ascend(raw, bounds, order, limit, k);
    sort::lemma_by_distance_multiset(cands);
    nearest::lemma_by_distance_sorted(cands);
    lemma_differ_multiset(cands, list);
    assert forall|m: int| 0 <= m < list.len() implies {
        &&& 0 <= (#[trigger] list[m]).1 < k
        &&& !done.contains(list[m].1)
        &&& list[m].0 == search::cluster_bound(raw, q, list[m].1)
    } by {
        let i = sort::lemma_same_slot(list, cands, m);
        assert(cands[i] == list[m]);
        if done.contains(list[m].1) {
            assert(scalar::is_tagged(order, list[m].1));
        }
    }
    assert forall|c: int| 0 <= c < k && !done.contains(c) && !is_pending(list, 0, c) implies #[trigger] is_far(
        raw,
        q,
        c,
        limit,
    ) by {
        if scalar::is_tagged(order, c) {
            let i = choose|i: int| 0 <= i < order.len() && (#[trigger] order[i]).1 == c;
            lemma_bound_is_far(raw, q, c, limit);
        } else if image::count_at(raw, c) != 0 {
            if bounds[c] < limit {
                assert(is_pending(cands, 0, c));
                let i = choose|i: int| 0 <= i < cands.len() && (#[trigger] cands[i]).1 == c;
                let m = sort::lemma_same_slot(cands, list, i);
                assert(list[m].1 == c);
            } else {
                lemma_bound_is_far(raw, q, c, limit);
            }
        }
    }
    if lo <= scalar::tag_sum(s) <= hi {
        lemma_repair(raw, q, list, 0, s, lo, hi, done);
    }
}

} // verus!
