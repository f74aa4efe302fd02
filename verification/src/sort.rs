//! Merge sort of tagged distances.
use vstd::prelude::*;
use vstd::relations;
use crate::nearest::{self, Slots};

verus! {

/// The slots that a list of tagged distances stands for.
pub open spec fn slots_of(s: Seq<(u64, usize)>) -> Slots {
    s.map_values(|x: (u64, usize)| (x.0 as int, x.1 as int))
}

pub open spec fn tags_below(s: Seq<(u64, usize)>, k: int) -> bool {
    forall|i: int| 0 <= i < s.len() ==> (#[trigger] s[i]).1 < k
}

/// Each tag is greater than the one before.
pub open spec fn tags_ascend(s: Slots) -> bool {
    forall|i: int, j: int| 0 <= i < j < s.len() ==> (#[trigger] s[i]).1 < (#[trigger] s[j]).1
}

/// Nearer, or as near with a tag no greater.
pub open spec fn precedes(a: (int, int), b: (int, int)) -> bool {
    a.0 < b.0 || a.0 == b.0 && a.1 <= b.1
}

spec fn in_order(s: Slots) -> bool {
    relations::sorted_by(s, |a: (int, int), b: (int, int)| precedes(a, b))
}

proof fn lemma_place_multiset(s: Slots, x: (int, int))
    ensures
        nearest::place(s, x).to_multiset() =~= s.to_multiset().insert(x),
{
    broadcast use vstd::seq_lib::group_to_multiset_ensures;

    nearest::lemma_rank(s, x.0);
}

/// Ordering by distance keeps every slot.
pub proof fn lemma_by_distance_multiset(s: Slots)
    ensures
        nearest::by_distance(s).to_multiset() == s.to_multiset(),
    decreases s.len(),
{
    broadcast use vstd::seq_lib::group_to_multiset_ensures;

    if s.len() > 0 {
        lemma_by_distance_multiset(s.drop_last());
        lemma_place_multiset(nearest::by_distance(s.drop_last()), s.last());
        assert(s.drop_last().push(s.last()) =~= s);
    }
}

/// A slot of one list stands in every list with the same slots.
pub proof fn lemma_same_slot(s: Slots, t: Slots, i: int) -> (m: int)
    requires
        s.to_multiset() == t.to_multiset(),
        0 <= i < s.len(),
    ensures
        0 <= m < t.len(),
        t[m] == s[i],
{
    broadcast use vstd::seq_lib::group_to_multiset_ensures;

    assert(s.contains(s[i]));
    assert(s.to_multiset().count(s[i]) > 0);
    assert(t.contains(s[i]));
    choose|m: int| 0 <= m < t.len() && t[m] == s[i]
}

proof fn lemma_by_distance_in_order(s: Slots)
    requires
        tags_ascend(s),
    ensures
        in_order(nearest::by_distance(s)),
    decreases s.len(),
{
    broadcast use vstd::seq_lib::group_to_multiset_ensures;

    if s.len() > 0 {
        let t = s.drop_last();
        assert forall|i: int, j: int| 0 <= i < j < t.len() implies (#[trigger] t[i]).1 < (
        #[trigger] t[j]).1 by {
            assert(t[i] == s[i] && t[j] == s[j]);
        }
        lemma_by_distance_in_order(t);
        lemma_by_distance_multiset(t);
        let u = nearest::by_distance(t);
        let x = s.last();
        let r = nearest::rank(u, x.0);
        nearest::lemma_rank(u, x.0);
        nearest::lemma_by_distance_sorted(t);
        let w = nearest::place(u, x);
        assert forall|i: int| 0 <= i < u.len() implies (#[trigger] u[i]).1 < x.1 by {
            let m = lemma_same_slot(u, t, i);
            assert(s[m] == t[m]);
            assert(s[s.len() - 1] == x);
        }
        assert forall|i: int, j: int| 0 <= i < j < w.len() implies precedes(
            #[trigger] w[i],
            #[trigger] w[j],
        ) by {
            let f = |a: (int, int), b: (int, int)| precedes(a, b);
            if i < r && j < r {
                assert(w[i] == u[i] && w[j] == u[j]);
                assert(f(u[i], u[j]));
            } else if i < r && j == r {
                assert(w[i] == u[i]);
                if i < r - 1 {
                    assert(u[i].0 <= u[r - 1].0);
                }
            } else if i < r {
                assert(w[i] == u[i] && w[j] == u[j - 1]);
                assert(f(u[i], u[j - 1]));
            } else if i == r {
                assert(w[j] == u[j - 1]);
                assert(u[j - 1].0 > x.0);
            } else {
                assert(w[i] == u[i - 1] && w[j] == u[j - 1]);
                assert(f(u[i - 1], u[j - 1]));
            }
        }
    }
}

fn comes_first(a: (u64, usize), b: (u64, usize)) -> (r: bool)
    ensures
        r == precedes((a.0 as int, a.1 as int), (b.0 as int, b.1 as int)),
{
    a.0 < b.0 || a.0 == b.0 && a.1 <= b.1
}

spec fn pair(x: (u64, usize)) -> (int, int) {
    (x.0 as int, x.1 as int)
}

proof fn lemma_slots_push(s: Seq<(u64, usize)>, x: (u64, usize))
    ensures
        slots_of(s.push(x)) =~= slots_of(s).push(pair(x)),
{
}

fn merge(a: &Vec<(u64, usize)>, b: &Vec<(u64, usize)>) -> (r: Vec<(u64, usize)>)
    requires
        in_order(slots_of(a@)),
        in_order(slots_of(b@)),
        a@.len() + b@.len() <= usize::MAX,
    ensures
        in_order(slots_of(r@)),
        slots_of(r@).to_multiset() == slots_of(a@).to_multiset().add(slots_of(b@).to_multiset()),
{
    broadcast use vstd::seq_lib::group_to_multiset_ensures;

    let ghost sa = slots_of(a@);
    let ghost sb = slots_of(b@);
    let ghost f = |a: (int, int), b: (int, int)| precedes(a, b);
    let mut r: Vec<(u64, usize)> = Vec::new();
    let mut i: usize = 0;
    let mut j: usize = 0;
    proof {
        assert(sa.take(0) =~= Seq::empty());
        assert(sb.take(0) =~= Seq::empty());
        assert(slots_of(r@) =~= Seq::empty());
        assert(Seq::<(int, int)>::empty().to_multiset() =~= vstd::multiset::Multiset::empty());
    }
    while i < a.len() || j < b.len()
        invariant
            sa == slots_of(a@),
            sb == slots_of(b@),
            in_order(sa),
            in_order(sb),
            f == (|a: (int, int), b: (int, int)| precedes(a, b)),
            0 <= i <= a@.len(),
            0 <= j <= b@.len(),
            a@.len() + b@.len() <= usize::MAX,
            in_order(slots_of(r@)),
            slots_of(r@).to_multiset() == sa.take(i as int).to_multiset().add(
                sb.take(j as int).to_multiset(),
            ),
            forall|m: int|
                0 <= m < r@.len() ==> {
                    &&& i < a@.len() ==> precedes(#[trigger] slots_of(r@)[m], sa[i as int])
                    &&& j < b@.len() ==> precedes(slots_of(r@)[m], sb[j as int])
                },
        decreases a@.len() - i + b@.len() - j,
    {
        let ghost before = r@;
        let left = j >= b.len() || i < a.len() && comes_first(a[i], b[j]);
        let x = if left {
            a[i]
        } else {
            b[j]
        };
        proof {
            if left {
                assert(sa.take(i + 1) =~= sa.take(i as int).push(sa[i as int]));
                assert(sa[i as int] == pair(x));
            } else {
                assert(sb.take(j + 1) =~= sb.take(j as int).push(sb[j as int]));
                assert(sb[j as int] == pair(x));
            }
            lemma_slots_push(before, x);
        }
        r.push(x);
        proof {
            broadcast use vstd::seq_lib::group_to_multiset_ensures;

            let t = slots_of(r@);
            assert(t =~= slots_of(before).push(pair(x)));
            assert(t.to_multiset() =~= slots_of(before).to_multiset().insert(pair(x)));
            if left {
                assert(sa.take(i + 1).to_multiset() =~= sa.take(i as int).to_multiset().insert(
                    pair(x),
                ));
                assert(t.to_multiset() =~= sa.take(i + 1).to_multiset().add(
                    sb.take(j as int).to_multiset(),
                ));
            } else {
                assert(sb.take(j + 1).to_multiset() =~= sb.take(j as int).to_multiset().insert(
                    pair(x),
                ));
                assert(t.to_multiset() =~= sa.take(i as int).to_multiset().add(
                    sb.take(j + 1).to_multiset(),
                ));
            }
            assert forall|m: int, n: int| 0 <= m < n < t.len() implies precedes(
                #[trigger] t[m],
                #[trigger] t[n],
            ) by {
                if n < before.len() {
                    assert(f(slots_of(before)[m], slots_of(before)[n]));
                } else {
                    assert(t[m] == slots_of(before)[m]);
                }
            }
            if left && i + 1 < a@.len() {
                assert(f(sa[i as int], sa[i + 1]));
            }
            if !left && j + 1 < b@.len() {
                assert(f(sb[j as int], sb[j + 1]));
            }
            assert forall|m: int| 0 <= m < r@.len() implies {
                &&& left && i + 1 < a@.len() ==> precedes(#[trigger] t[m], sa[i + 1])
                &&& !left && i < a@.len() ==> precedes(t[m], sa[i as int])
                &&& !left && j + 1 < b@.len() ==> precedes(t[m], sb[j + 1])
                &&& left && j < b@.len() ==> precedes(t[m], sb[j as int])
            } by {
                if m < before.len() {
                    assert(t[m] == slots_of(before)[m]);
                }
            }
        }
        if left {
            i = i + 1;
        } else {
            j = j + 1;
        }
    }
    proof {
        assert(sa.take(a@.len() as int) =~= sa);
        assert(sb.take(b@.len() as int) =~= sb);
    }
    r
}

fn sort_range(v: &Vec<(u64, usize)>, lo: usize, hi: usize) -> (r: Vec<(u64, usize)>)
    requires
        lo <= hi <= v@.len(),
    ensures
        in_order(slots_of(r@)),
        slots_of(r@).to_multiset() == slots_of(v@.subrange(lo as int, hi as int)).to_multiset(),
        r@.len() == hi - lo,
    decreases hi - lo,
{
    broadcast use vstd::seq_lib::group_to_multiset_ensures;

    if hi - lo <= 1 {
        let mut r: Vec<(u64, usize)> = Vec::new();
        if lo < hi {
            r.push(v[lo]);
        }
        assert(r@ =~= v@.subrange(lo as int, hi as int));
        return r;
    }
    let mid = lo + (hi - lo) / 2;
    let left = sort_range(v, lo, mid);
    let right = sort_range(v, mid, hi);
    let r = merge(&left, &right);
    proof {
        let x = v@.subrange(lo as int, mid as int);
        let y = v@.subrange(mid as int, hi as int);
        assert(v@.subrange(lo as int, hi as int) =~= x + y);
        assert(slots_of(x + y) =~= slots_of(x) + slots_of(y));
        vstd::seq_lib::lemma_multiset_commutative(slots_of(x), slots_of(y));
        assert(slots_of(r@).len() == slots_of(r@).to_multiset().len());
        assert(slots_of(x + y).len() == slots_of(x + y).to_multiset().len());
    }
    r
}

/// Orders tagged distances by distance, then by tag.
pub fn sort_by_distance(v: &Vec<(u64, usize)>) -> (r: Vec<(u64, usize)>)
    requires
        tags_ascend(slots_of(v@)),
    ensures
        slots_of(r@) == nearest::by_distance(slots_of(v@)),
{
    let r = sort_range(v, 0, v.len());
    proof {
        let s = slots_of(v@);
        assert(v@.subrange(0, v@.len() as int) =~= v@);
        lemma_by_distance_multiset(s);
        lemma_by_distance_in_order(s);
        let f = |a: (int, int), b: (int, int)| precedes(a, b);
        assert(relations::total_ordering(f));
        vstd::seq_lib::lemma_sorted_unique(slots_of(r@), nearest::by_distance(s), f);
    }
    r
}


/// Place of the first slot that holds the greatest distance.
pub fn worst_of(s: &Vec<(u64, usize)>) -> (r: usize)
    requires
        s@.len() > 0,
    ensures
        r == nearest::worst_slot(slots_of(s@)),
        r < s@.len(),
{
    let ghost t = slots_of(s@);
    let mut w: usize = 0;
    for i in 1..s.len()
        invariant
            t == slots_of(s@),
            w < i <= s@.len(),
            w == nearest::worst_slot(t.take(i as int)),
    {
        proof {
            assert(t.take(i + 1).drop_last() =~= t.take(i as int));
        }
        if s[i].0 > s[w].0 {
            w = i;
        }
    }
    assert(t.take(t.len() as int) =~= t);
    w
}

/// Puts the slots in order of distance, one after the other; equal distances
/// keep their order.
pub fn insertion_sort(s: &Vec<(u64, usize)>) -> (r: Vec<(u64, usize)>)
    ensures
        slots_of(r@) == nearest::by_distance(slots_of(s@)),
        r@.len() == s@.len(),
{
    let ghost t = slots_of(s@);
    let mut r: Vec<(u64, usize)> = Vec::new();
    assert(slots_of(r@) =~= t.take(0));
    for i in 0..s.len()
        invariant
            t == slots_of(s@),
            slots_of(r@) == nearest::by_distance(t.take(i as int)),
            r@.len() == i,
    {
        let ghost u = slots_of(r@);
        let x = s[i];
        let mut j: usize = i;
        while j > 0 && r[j - 1].0 > x.0
            invariant
                j <= i,
                r@.len() == i,
                u == slots_of(r@),
                forall|m: int| j <= m < i ==> (#[trigger] u[m]).0 > x.0,
            decreases j,
        {
            j = j - 1;
        }
        proof {
            nearest::lemma_rank_is(u, x.0 as int, j as int);
            assert(t.take(i + 1).drop_last() =~= t.take(i as int));
            assert(slots_of(r@.insert(j as int, x)) =~= u.insert(j as int, pair(x)));
        }
        r.insert(j, x);
    }
    assert(t.take(t.len() as int) =~= t);
    r
}

/// Sorting by distance keeps every slot, puts none before a nearer one, and
/// leaves slots at the same distance in the order that they had.
pub proof fn law_sorted_by_distance(s: Slots, i: int, j: int)
    requires
        0 <= i < j < s.len(),
    ensures
        nearest::by_distance(s).to_multiset() == s.to_multiset(),
        nearest::by_distance(s).len() == s.len(),
        nearest::by_distance(s)[i].0 <= nearest::by_distance(s)[j].0,
        tags_ascend(s) && nearest::by_distance(s)[i].0 == nearest::by_distance(s)[j].0
            ==> nearest::by_distance(s)[i].1 <= nearest::by_distance(s)[j].1,
{
    lemma_by_distance_multiset(s);
    nearest::lemma_by_distance_len(s);
    nearest::lemma_by_distance_sorted(s);
    let t = nearest::by_distance(s);
    assert(t[i].0 <= t[j].0);
    if tags_ascend(s) {
        lemma_by_distance_in_order(s);
        let f = |a: (int, int), b: (int, int)| precedes(a, b);
        assert(f(t[i], t[j]));
    }
}

/// The slot that gives way is the first of those that are farthest.
pub proof fn law_worst_is_farthest(s: Slots, i: int)
    requires
        0 <= i < s.len(),
    ensures
        0 <= nearest::worst_slot(s) < s.len(),
        s[i].0 <= s[nearest::worst_slot(s)].0,
        i < nearest::worst_slot(s) ==> s[i].0 < s[nearest::worst_slot(s)].0,
{
    nearest::lemma_worst_slot(s);
}

/// The slots of a list at the distance `d`, in their order.
pub open spec fn at_distance(s: Slots, d: int) -> Slots
    decreases s.len(),
{
    if s.len() == 0 {
        s
    } else if s.last().0 == d {
        at_distance(s.drop_last(), d).push(s.last())
    } else {
        at_distance(s.drop_last(), d)
    }
}

proof fn lemma_at_distance_far(s: Slots, d: int, n: int)
    requires
        0 <= n <= s.len(),
        forall|i: int| n <= i < s.len() ==> (#[trigger] s[i]).0 != d,
    ensures
        at_distance(s, d) == at_distance(s.take(n), d),
    decreases s.len(),
{
    if n < s.len() {
        let t = s.drop_last();
        assert forall|i: int| n <= i < t.len() implies (#[trigger] t[i]).0 != d by {
            assert(t[i] == s[i]);
        }
        assert(s[s.len() - 1].0 != d);
        lemma_at_distance_far(t, d, n);
        assert(t.take(n) =~= s.take(n));
    } else {
        assert(s.take(n) =~= s);
    }
}

/// A slot at another distance does not matter, wherever it is put.
proof fn lemma_at_distance_insert(s: Slots, d: int, n: int, x: (int, int))
    requires
        0 <= n <= s.len(),
        x.0 != d,
    ensures
        at_distance(s.insert(n, x), d) == at_distance(s, d),
    decreases s.len(),
{
    let t = s.insert(n, x);
    if n == s.len() {
        assert(t.drop_last() =~= s);
        assert(t.last() == x);
    } else {
        lemma_at_distance_insert(s.drop_last(), d, n, x);
        assert(t.drop_last() =~= s.drop_last().insert(n, x));
        assert(t.last() == s.last());
    }
}

/// Sorting by distance leaves the slots at each distance in the order that they
/// had.
pub proof fn law_sort_is_stable(s: Slots, d: int)
    ensures
        at_distance(nearest::by_distance(s), d) == at_distance(s, d),
    decreases s.len(),
{
    if s.len() > 0 {
        let t = nearest::by_distance(s.drop_last());
        let x = s.last();
        law_sort_is_stable(s.drop_last(), d);
        nearest::lemma_rank(t, x.0);
        let r = nearest::rank(t, x.0);
        if x.0 != d {
            lemma_at_distance_insert(t, d, r, x);
        } else {
            let u = t.insert(r, x);
            assert forall|i: int| r <= i < t.len() implies (#[trigger] t[i]).0 != d by {}
            lemma_at_distance_far(t, d, r);
            assert forall|i: int| r + 1 <= i < u.len() implies (#[trigger] u[i]).0 != d by {
                assert(u[i] == t[i - 1]);
            }
            lemma_at_distance_far(u, d, r + 1);
            let v = u.take(r + 1);
            assert(v.drop_last() =~= t.take(r));
            assert(v.last() == x);
        }
    }
}

} // verus!
