//! Where the two ways to search give the same result.
use vstd::prelude::*;
use vstd::multiset::Multiset;
use crate::exact;
use crate::exact_wide;
use crate::image;
use crate::nearest::{self, Slots};
use crate::scalar;
use crate::score_range;
use crate::wide;

verus! {

/// A slot that holds a vector near enough for lane arithmetic, and not the
/// distance of an empty one.
spec fn is_taken(x: (int, int)) -> bool {
    x.0 < 0x7fff_ffff
}

// ---------------------------------------------------------------------------
// Sums of tags
// ---------------------------------------------------------------------------

proof fn lemma_total_remove(s: Slots, j: int)
    requires
        0 <= j < s.len(),
    ensures
        scalar::tag_total(s) == scalar::tag_total(s.remove(j)) + s[j].1,
    decreases s.len(),
{
    let t = s.remove(j);
    if j == s.len() - 1 {
        assert(t =~= s.drop_last());
    } else {
        let u = s.drop_last();
        lemma_total_remove(u, j);
        assert(t.drop_last() =~= u.remove(j));
        assert(t.last() == s.last());
    }
}

/// Every slot that is not taken has the tag zero.
spec fn rest_is_zero(s: Slots) -> bool {
    forall|i: int| 0 <= i < s.len() && !is_taken(#[trigger] s[i]) ==> s[i].1 == 0
}

/// Lists that hold the same taken slots have the same sum of tags.
proof fn lemma_same_total(s: Slots, t: Slots)
    requires
        rest_is_zero(s),
        rest_is_zero(t),
        forall|x: (int, int)|
            is_taken(x) ==> #[trigger] s.to_multiset().count(x) == t.to_multiset().count(x),
    ensures
        scalar::tag_total(s) == scalar::tag_total(t),
    decreases s.len() + t.len(),
{
    broadcast use vstd::seq_lib::group_to_multiset_ensures;
    broadcast use vstd::multiset::group_multiset_axioms;

    if s.len() > 0 {
        let x = s.last();
        let u = s.drop_last();
        assert(u.push(x) =~= s);
        vstd::seq_lib::to_multiset_build(u, x);
        assert(s.to_multiset() == u.to_multiset().insert(x));
        assert forall|i: int| 0 <= i < u.len() && !is_taken(#[trigger] u[i]) implies u[i].1
            == 0 by {
            assert(u[i] == s[i]);
        }
        assert(s[s.len() - 1] == x);
        if is_taken(x) {
            assert(s.to_multiset().count(x) > 0);
            assert(t.to_multiset().contains(x));
            assert(t.contains(x));
            let j = choose|j: int| 0 <= j < t.len() && t[j] == x;
            let v = t.remove(j);
            vstd::seq_lib::to_multiset_remove(t, j);
            lemma_total_remove(t, j);
            assert forall|i: int| 0 <= i < v.len() && !is_taken(#[trigger] v[i]) implies v[i].1
                == 0 by {
                assert(v[i] == if i < j {
                    t[i]
                } else {
                    t[i + 1]
                });
            }
            assert forall|y: (int, int)| is_taken(y) implies #[trigger] u.to_multiset().count(y)
                == v.to_multiset().count(y) by {
                assert(s.to_multiset().count(y) == t.to_multiset().count(y));
            }
            lemma_same_total(u, v);
        } else {
            assert forall|y: (int, int)| is_taken(y) implies #[trigger] u.to_multiset().count(y)
                == t.to_multiset().count(y) by {
                assert(s.to_multiset().count(y) == t.to_multiset().count(y));
            }
            lemma_same_total(u, t);
        }
    } else if t.len() > 0 {
        let x = t.last();
        let v = t.drop_last();
        assert(v.push(x) =~= t);
        vstd::seq_lib::to_multiset_build(v, x);
        assert(t[t.len() - 1] == x);
        assert(t.to_multiset().count(x) > 0);
        assert(s.to_multiset().count(x) == 0);
        assert(!is_taken(x));
        assert forall|i: int| 0 <= i < v.len() && !is_taken(#[trigger] v[i]) implies v[i].1
            == 0 by {
            assert(v[i] == t[i]);
        }
        assert forall|y: (int, int)| is_taken(y) implies #[trigger] s.to_multiset().count(y)
            == v.to_multiset().count(y) by {
            assert(s.to_multiset().count(y) == t.to_multiset().count(y));
        }
        lemma_same_total(s, v);
    }
}

// ---------------------------------------------------------------------------
// Distances that differ
// ---------------------------------------------------------------------------

/// No two stored vectors are equally far from `q`.
pub open spec fn distances_differ(raw: Seq<u8>, q: Seq<i16>) -> bool {
    forall|c: int, pos: int, d: int, at: int|
        #![trigger image::stored_vector(raw, c, pos), image::stored_vector(raw, d, at)]
        0 <= c < image::clusters(raw) && 0 <= pos < image::count_at(raw, c) && 0 <= d
            < image::clusters(raw) && 0 <= at < image::count_at(raw, d) && (c != d || pos != at)
            ==> nearest::distance(q, image::stored_vector(raw, c, pos)) != nearest::distance(
            q,
            image::stored_vector(raw, d, at),
        )
}

/// The pairs are different ones, with different distances, all of them taken.
spec fn all_differ(all: Multiset<(int, int)>) -> bool {
    &&& forall|x: (int, int)| #[trigger] all.count(x) <= 1
    &&& forall|x: (int, int)| #[trigger] all.count(x) > 0 ==> is_taken(x)
    &&& forall|x: (int, int), y: (int, int)|
        #![trigger all.count(x), all.count(y)]
        all.count(x) > 0 && all.count(y) > 0 && x.0 == y.0 ==> x == y
}

spec fn stored_pair(raw: Seq<u8>, q: Seq<i16>, c: int, pos: int) -> (int, int) {
    (
        nearest::distance(q, image::stored_vector(raw, c, pos)),
        image::stored_label(raw, c, pos),
    )
}

/// What is counted in a cluster is stored in it.
proof fn lemma_in_cluster(raw: Seq<u8>, q: Seq<i16>, c: int, n: int, x: (int, int)) -> (pos: int)
    requires
        exact::cluster_pairs(raw, q, c, n).count(x) > 0,
    ensures
        0 <= pos < n,
        stored_pair(raw, q, c, pos) == x,
    decreases n,
{
    broadcast use vstd::multiset::group_multiset_axioms;

    if n <= 0 {
        0
    } else if stored_pair(raw, q, c, n - 1) == x {
        n - 1
    } else {
        lemma_in_cluster(raw, q, c, n - 1, x)
    }
}

/// What is counted in the first `m` clusters is stored in one of them.
proof fn lemma_in_some(raw: Seq<u8>, q: Seq<i16>, m: int, x: (int, int)) -> (at: (int, int))
    requires
        exact::gathered(raw, q, Set::full(), m).count(x) > 0,
    ensures
        0 <= at.0 < m,
        0 <= at.1 < image::count_at(raw, at.0),
        stored_pair(raw, q, at.0, at.1) == x,
    decreases m,
{
    broadcast use vstd::multiset::group_multiset_axioms;

    if m <= 0 {
        (0, 0)
    } else {
        let n = image::count_at(raw, m - 1);
        if exact::cluster_pairs(raw, q, m - 1, n).count(x) > 0 {
            (m - 1, lemma_in_cluster(raw, q, m - 1, n, x))
        } else {
            lemma_in_some(raw, q, m - 1, x)
        }
    }
}

proof fn lemma_once_in_cluster(raw: Seq<u8>, q: Seq<i16>, c: int, n: int, x: (int, int))
    requires
        distances_differ(raw, q),
        0 <= c < image::clusters(raw),
        n <= image::count_at(raw, c),
    ensures
        exact::cluster_pairs(raw, q, c, n).count(x) <= 1,
    decreases n,
{
    broadcast use vstd::multiset::group_multiset_axioms;

    if n > 0 {
        lemma_once_in_cluster(raw, q, c, n - 1, x);
        if stored_pair(raw, q, c, n - 1) == x && exact::cluster_pairs(raw, q, c, n - 1).count(x)
            > 0 {
            let pos = lemma_in_cluster(raw, q, c, n - 1, x);
            let a = image::stored_vector(raw, c, pos);
            let b = image::stored_vector(raw, c, n - 1);
            assert(nearest::distance(q, a) != nearest::distance(q, b));
        }
    }
}

proof fn lemma_once(raw: Seq<u8>, q: Seq<i16>, m: int, x: (int, int))
    requires
        distances_differ(raw, q),
        m <= image::clusters(raw),
    ensures
        exact::gathered(raw, q, Set::full(), m).count(x) <= 1,
    decreases m,
{
    broadcast use vstd::multiset::group_multiset_axioms;

    if m > 0 {
        let n = image::count_at(raw, m - 1);
        lemma_once(raw, q, m - 1, x);
        lemma_once_in_cluster(raw, q, m - 1, n, x);
        if exact::gathered(raw, q, Set::full(), m - 1).count(x) > 0 && exact::cluster_pairs(
            raw,
            q,
            m - 1,
            n,
        ).count(x) > 0 {
            let at = lemma_in_some(raw, q, m - 1, x);
            let pos = lemma_in_cluster(raw, q, m - 1, n, x);
            let a = image::stored_vector(raw, at.0, at.1);
            let b = image::stored_vector(raw, m - 1, pos);
            assert(nearest::distance(q, a) != nearest::distance(q, b));
        }
    }
}

proof fn lemma_all_differ(raw: Seq<u8>, q: Seq<i16>)
    requires
        distances_differ(raw, q),
        exact_wide::is_calm(raw, q),
    ensures
        all_differ(exact::gathered(raw, q, Set::full(), image::clusters(raw))),
{
    let k = image::clusters(raw);
    let all = exact::gathered(raw, q, Set::full(), k);
    assert forall|x: (int, int)| #[trigger] all.count(x) <= 1 by {
        lemma_once(raw, q, k, x);
    }
    assert forall|x: (int, int)| #[trigger] all.count(x) > 0 implies is_taken(x) by {
        let at = lemma_in_some(raw, q, k, x);
        assert(exact_wide::fits(q, image::stored_vector(raw, at.0, at.1)));
    }
    assert forall|x: (int, int), y: (int, int)|
        #![trigger all.count(x), all.count(y)]
        all.count(x) > 0 && all.count(y) > 0 && x.0 == y.0 implies x == y by {
        let a = lemma_in_some(raw, q, k, x);
        let b = lemma_in_some(raw, q, k, y);
        let v = image::stored_vector(raw, a.0, a.1);
        let w = image::stored_vector(raw, b.0, b.1);
        if a != b {
            assert(nearest::distance(q, v) != nearest::distance(q, w));
        }
    }
}

// ---------------------------------------------------------------------------
// The five nearest
// ---------------------------------------------------------------------------

/// Five empty slots with the distance `limit`.
spec fn empties(limit: int) -> Multiset<(int, int)> {
    Seq::new(5, |i: int| (limit, 0int)).to_multiset()
}

/// What is empty has the distance that it was given.
proof fn lemma_empties(limit: int, x: (int, int))
    ensures
        empties(limit).count(x) > 0 ==> x == (limit, 0int),
{
    broadcast use vstd::seq_lib::group_to_multiset_ensures;

    let s = Seq::new(5, |i: int| (limit, 0int));
    if empties(limit).count(x) > 0 {
        assert(s.to_multiset().contains(x));
        assert(s.contains(x));
    }
}

/// A taken slot among the nearest of one list is among those of the other.
proof fn lemma_in_both(
    all: Multiset<(int, int)>,
    s: Slots,
    a: int,
    t: Slots,
    b: int,
    x: (int, int),
)
    requires
        all_differ(all),
        a >= 0x7fff_ffff,
        b >= 0x7fff_ffff,
        s.len() == 5,
        t.len() == 5,
        exact::are_nearest(s, all.add(empties(a))),
        exact::are_nearest(t, all.add(empties(b))),
        is_taken(x),
        s.to_multiset().count(x) > 0,
    ensures
        t.to_multiset().count(x) > 0,
{
    broadcast use vstd::seq_lib::group_to_multiset_ensures;
    broadcast use vstd::multiset::group_multiset_axioms;

    let ms = s.to_multiset();
    let mt = t.to_multiset();
    let left = all.add(empties(a));
    let right = all.add(empties(b));
    lemma_empties(a, x);
    assert(ms.count(x) <= left.count(x));
    assert(all.count(x) > 0);
    if mt.count(x) == 0 {
        assert(right.count(x) > mt.count(x));
        assert(nearest::worst_distance(t) <= x.0);
        nearest::lemma_worst_slot(t);
        nearest::lemma_worst_slot(s);
        assert(s.contains(x)) by {
            assert(ms.contains(x));
        }
        let i = choose|i: int| 0 <= i < s.len() && s[i] == x;
        assert(s[i].0 <= nearest::worst_distance(s));
        assert forall|y: (int, int)| #[trigger] mt.count(y) <= ms.count(y) by {
            if mt.count(y) > 0 {
                assert(mt.contains(y));
                assert(t.contains(y));
                let j = choose|j: int| 0 <= j < t.len() && t[j] == y;
                assert(t[j].0 <= nearest::worst_distance(t));
                lemma_empties(b, y);
                lemma_empties(a, y);
                assert(mt.count(y) <= right.count(y));
                assert(all.count(y) == 1);
                assert(all.count(x) == 1);
                assert(y != x);
                assert(y.0 < x.0);
                if ms.count(y) == 0 {
                    assert(left.count(y) > ms.count(y));
                }
            }
        }
        assert(mt.subset_of(ms));
        let rest = ms.sub(mt);
        assert(rest.len() == 0);
        assert(rest.count(x) > 0);
        assert(rest.remove(x).insert(x) =~= rest);
        assert(rest.remove(x).insert(x).len() == rest.remove(x).len() + 1);
    }
}

proof fn lemma_taken_once(all: Multiset<(int, int)>, s: Slots, a: int, x: (int, int))
    requires
        all_differ(all),
        a >= 0x7fff_ffff,
        exact::are_nearest(s, all.add(empties(a))),
        is_taken(x),
    ensures
        s.to_multiset().count(x) <= 1,
{
    broadcast use vstd::multiset::group_multiset_axioms;

    lemma_empties(a, x);
    assert(s.to_multiset().count(x) <= all.add(empties(a)).count(x));
    assert(all.count(x) <= 1);
}

proof fn lemma_rest_is_zero(all: Multiset<(int, int)>, s: Slots, a: int)
    requires
        all_differ(all),
        exact::are_nearest(s, all.add(empties(a))),
    ensures
        rest_is_zero(s),
{
    broadcast use vstd::seq_lib::group_to_multiset_ensures;
    broadcast use vstd::multiset::group_multiset_axioms;

    assert forall|i: int| 0 <= i < s.len() && !is_taken(#[trigger] s[i]) implies s[i].1 == 0 by {
        let x = s[i];
        assert(s.contains(x));
        assert(s.to_multiset().contains(x));
        assert(s.to_multiset().count(x) <= all.add(empties(a)).count(x));
        assert(all.count(x) == 0 || all.count(x) > 0);
        lemma_empties(a, x);
    }
}

/// Where no two vectors are equally far from the query, the five nearest have
/// one sum of labels.
proof fn lemma_one_sum(all: Multiset<(int, int)>, s: Slots, a: int, t: Slots, b: int)
    requires
        all_differ(all),
        a >= 0x7fff_ffff,
        b >= 0x7fff_ffff,
        s.len() == 5,
        t.len() == 5,
        exact::are_nearest(s, all.add(empties(a))),
        exact::are_nearest(t, all.add(empties(b))),
    ensures
        scalar::tag_sum(s) == scalar::tag_sum(t),
{
    assert forall|x: (int, int)| is_taken(x) implies #[trigger] s.to_multiset().count(x)
        == t.to_multiset().count(x) by {
        lemma_taken_once(all, s, a, x);
        lemma_taken_once(all, t, b, x);
        if s.to_multiset().count(x) > 0 {
            lemma_in_both(all, s, a, t, b, x);
        }
        if t.to_multiset().count(x) > 0 {
            lemma_in_both(all, t, b, s, a, x);
        }
    }
    lemma_rest_is_zero(all, s, a);
    lemma_rest_is_zero(all, t, b);
    lemma_same_total(s, t);
}

// ---------------------------------------------------------------------------
// Laws
// ---------------------------------------------------------------------------

/// Both ways to search give the same result where no two stored vectors are
/// equally far from the query, nothing that counts wraps around, and every sum
/// of labels calls for a repair. How many clusters either probes does not
/// matter.
pub proof fn law_searches_agree(
    raw: Seq<u8>,
    q: Seq<i16>,
    nprobe: int,
    other: int,
    lo: int,
    hi: int,
    max: int,
)
    requires
        q.len() == 14,
        image::clusters(raw) > 0,
        exact::boxes_hold(raw),
        exact_wide::is_calm(raw, q),
        distances_differ(raw, q),
        0 <= max,
        score_range::labels_within(raw, max),
        lo <= 0,
        5 * max <= hi,
    ensures
        scalar::tag_sum(wide::kept(raw, q, nprobe, lo, hi)) == scalar::tag_sum(
            scalar::kept(raw, q, other, lo, hi),
        ),
{
    score_range::law_search_bounded(raw, q, other, lo, hi, max);
    score_range::law_wide_search_bounded(raw, q, nprobe, lo, hi, max);
    exact::law_search_exact(raw, q, other, lo, hi);
    exact_wide::law_wide_search_exact(raw, q, nprobe, lo, hi);
    lemma_all_differ(raw, q);
    let s = wide::kept(raw, q, nprobe, lo, hi);
    let t = scalar::kept(raw, q, other, lo, hi);
    score_range::lemma_kept(raw, q, other, lo, hi, max);
    score_range::lemma_wide_kept(raw, q, nprobe, lo, hi, max);
    let all = exact::gathered(raw, q, Set::full(), image::clusters(raw));
    assert(wide::empty_five() =~= Seq::new(5, |i: int| (u32::MAX as int, 0int)));
    assert(scalar::empty_five() =~= Seq::new(5, |i: int| (u64::MAX as int, 0int)));
    lemma_one_sum(all, s, u32::MAX as int, t, u64::MAX as int);
}

/// Both ways to search give the same result among features with labels of zero
/// and one, if no two stored vectors are equally far from the query and every
/// count calls for a repair.
pub proof fn law_feature_searches_agree(
    raw: Seq<u8>,
    q: Seq<i16>,
    nprobe: int,
    lo: int,
    hi: int,
)
    requires
        q.len() == 14,
        image::clusters(raw) > 0,
        exact::boxes_hold(raw),
        exact_wide::holds_features(raw, q),
        distances_differ(raw, q),
        score_range::labels_within(raw, 1),
        lo == 0,
        5 <= hi,
    ensures
        scalar::tag_sum(wide::kept(raw, q, nprobe, lo, hi)) == scalar::tag_sum(
            scalar::kept(raw, q, nprobe, lo, hi),
        ),
{
    exact_wide::law_features_are_calm(raw, q);
    law_searches_agree(raw, q, nprobe, nprobe, lo, hi, 1);
}

} // verus!
