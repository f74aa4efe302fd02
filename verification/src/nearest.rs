//! Distances between vectors, and the short lists that keep the nearest of
//! what they are offered.
//!
//! A list is a sequence of slots, each a pair of a distance and a tag.
use vstd::prelude::*;

verus! {

pub type Slots = Seq<(int, int)>;

// ---------------------------------------------------------------------------
// Squared distances
// ---------------------------------------------------------------------------

pub open spec fn square(x: int) -> int {
    x * x
}

/// Sum of the squares of `xs`.
pub open spec fn square_sum(xs: Seq<int>) -> int
    decreases xs.len(),
{
    if xs.len() == 0 {
        0
    } else {
        square_sum(xs.drop_last()) + square(xs.last())
    }
}

pub open spec fn differences(q: Seq<i16>, v: Seq<int>) -> Seq<int> {
    Seq::new(14, |d: int| q[d] - v[d])
}

/// Squared distance between the query `q` and the vector `v`.
pub open spec fn distance(q: Seq<i16>, v: Seq<int>) -> int {
    square_sum(differences(q, v))
}

/// How far `x` lies outside `lo ..= hi`.
pub open spec fn gap(x: int, lo: int, hi: int) -> int {
    if x < lo {
        lo - x
    } else if x > hi {
        x - hi
    } else {
        0
    }
}

pub open spec fn gaps(q: Seq<i16>, lo: Seq<int>, hi: Seq<int>) -> Seq<int> {
    Seq::new(14, |d: int| gap(q[d] as int, lo[d], hi[d]))
}

/// Squared distance between the query `q` and the box from `lo` to `hi`.
pub open spec fn box_distance(q: Seq<i16>, lo: Seq<int>, hi: Seq<int>) -> int {
    square_sum(gaps(q, lo, hi))
}

pub proof fn lemma_square_nonnegative(x: int)
    ensures
        0 <= square(x),
{
    assert(0 <= x * x) by (nonlinear_arith);
}

/// Squares of numbers within `-b ..= b` are at most `b * b`.
pub proof fn lemma_square_bound(x: int, b: int)
    requires
        -b <= x <= b,
    ensures
        0 <= square(x) <= b * b,
{
    assert(0 <= x * x <= b * b) by (nonlinear_arith)
        requires
            -b <= x <= b,
    ;
}

pub proof fn lemma_square_sum_step(xs: Seq<int>, n: int)
    requires
        0 <= n < xs.len(),
    ensures
        square_sum(xs.take(n + 1)) == square_sum(xs.take(n)) + square(xs[n]),
{
    assert(xs.take(n + 1).drop_last() =~= xs.take(n));
}

pub proof fn lemma_square_sum_bound(xs: Seq<int>, b: int)
    requires
        forall|i: int| 0 <= i < xs.len() ==> -b <= #[trigger] xs[i] <= b,
    ensures
        0 <= square_sum(xs) <= xs.len() * (b * b),
    decreases xs.len(),
{
    if xs.len() > 0 {
        let ys = xs.drop_last();
        assert forall|i: int| 0 <= i < ys.len() implies -b <= #[trigger] ys[i] <= b by {
            assert(ys[i] == xs[i]);
        }
        lemma_square_sum_bound(ys, b);
        lemma_square_bound(xs.last(), b);
        assert(xs.len() * (b * b) == ys.len() * (b * b) + b * b) by (nonlinear_arith)
            requires
                xs.len() == ys.len() + 1,
        ;
    } else {
        assert(xs.len() * (b * b) == 0) by (nonlinear_arith)
            requires
                xs.len() == 0,
        ;
    }
}

/// A sum over a longer prefix is no smaller.
pub proof fn lemma_square_sum_monotone(xs: Seq<int>, n: int, m: int)
    requires
        0 <= n <= m <= xs.len(),
    ensures
        0 <= square_sum(xs.take(n)) <= square_sum(xs.take(m)),
    decreases m,
{
    if m > 0 {
        lemma_square_sum_step(xs, m - 1);
        lemma_square_nonnegative(xs[m - 1]);
        if n < m {
            lemma_square_sum_monotone(xs, n, m - 1);
        } else {
            lemma_square_sum_monotone(xs, n - 1, n - 1);
        }
    }
}

/// Terms that are each no larger in magnitude have a sum no larger.
pub proof fn lemma_square_sum_le(xs: Seq<int>, ys: Seq<int>)
    requires
        xs.len() == ys.len(),
        forall|i: int|
            0 <= i < xs.len() ==> 0 <= #[trigger] xs[i] && (xs[i] <= ys[i] || xs[i] <= -ys[i]),
    ensures
        square_sum(xs) <= square_sum(ys),
    decreases xs.len(),
{
    if xs.len() > 0 {
        let x = xs.last();
        let y = ys.last();
        assert forall|i: int| 0 <= i < xs.len() - 1 implies 0 <= #[trigger] xs.drop_last()[i] && (
        xs.drop_last()[i] <= ys.drop_last()[i] || xs.drop_last()[i] <= -ys.drop_last()[i]) by {
            assert(xs[i] == xs.drop_last()[i]);
        }
        lemma_square_sum_le(xs.drop_last(), ys.drop_last());
        assert(xs[xs.len() - 1] == x);
        assert(x * x <= y * y) by (nonlinear_arith)
            requires
                0 <= x,
                x <= y || x <= -y,
        ;
    }
}

/// A box lies no farther from a query than any vector inside the box.
pub proof fn lemma_box_distance(q: Seq<i16>, lo: Seq<int>, hi: Seq<int>, v: Seq<int>)
    requires
        q.len() == 14,
        v.len() == 14,
        lo.len() == 14,
        hi.len() == 14,
        forall|d: int| 0 <= d < 14 ==> lo[d] <= #[trigger] v[d] <= hi[d],
    ensures
        box_distance(q, lo, hi) <= distance(q, v),
{
    let g = gaps(q, lo, hi);
    let f = differences(q, v);
    assert forall|i: int| 0 <= i < g.len() implies 0 <= #[trigger] g[i] && (g[i] <= f[i] || g[i]
        <= -f[i]) by {
        assert(lo[i] <= v[i] <= hi[i]);
    }
    lemma_square_sum_le(g, f);
}

// ---------------------------------------------------------------------------
// A list that gives up its farthest slot
// ---------------------------------------------------------------------------

/// First of the slots that hold the greatest distance.
pub open spec fn worst_slot(s: Slots) -> int
    decreases s.len(),
{
    if s.len() <= 1 {
        0
    } else {
        let w = worst_slot(s.drop_last());
        if s.last().0 > s[w].0 {
            s.len() - 1
        } else {
            w
        }
    }
}

/// The greatest distance in the list.
pub open spec fn worst_distance(s: Slots) -> int {
    s[worst_slot(s)].0
}

/// What an offer leaves: a distance below the greatest takes the slot that
/// holds the greatest.
pub open spec fn offer(s: Slots, d: int, tag: int) -> Slots {
    if d < worst_distance(s) {
        s.update(worst_slot(s), (d, tag))
    } else {
        s
    }
}

/// What is left after each distance of `ds` in turn, tagged by its place in
/// `ds`.
pub open spec fn offer_all(s: Slots, ds: Seq<int>) -> Slots
    decreases ds.len(),
{
    if ds.len() == 0 {
        s
    } else {
        offer(offer_all(s, ds.drop_last()), ds.last(), ds.len() - 1)
    }
}

/// `n` slots that hold nothing yet: the distance `limit`, each tagged by its
/// own place.
pub open spec fn open_slots(n: int, limit: int) -> Slots {
    Seq::new(n as nat, |i: int| (limit, i))
}

pub proof fn lemma_worst_slot(s: Slots)
    requires
        s.len() > 0,
    ensures
        0 <= worst_slot(s) < s.len(),
        forall|i: int| 0 <= i < s.len() ==> (#[trigger] s[i]).0 <= worst_distance(s),
        forall|i: int| 0 <= i < worst_slot(s) ==> (#[trigger] s[i]).0 < worst_distance(s),
    decreases s.len(),
{
    if s.len() > 1 {
        let t = s.drop_last();
        lemma_worst_slot(t);
        assert forall|i: int| 0 <= i < s.len() implies (#[trigger] s[i]).0 <= worst_distance(s) by {
            if i < t.len() {
                assert(s[i] == t[i]);
            }
        }
        assert forall|i: int| 0 <= i < worst_slot(s) implies (#[trigger] s[i]).0 < worst_distance(
            s,
        ) by {
            if i < t.len() {
                assert(s[i] == t[i]);
            }
        }
    }
}

// ---------------------------------------------------------------------------
// Ordering by distance
// ---------------------------------------------------------------------------

/// How many leading slots stay in front of a slot at distance `d` that comes
/// in from the end.
pub open spec fn rank(s: Slots, d: int) -> int
    decreases s.len(),
{
    if s.len() == 0 {
        0
    } else if s.last().0 > d {
        rank(s.drop_last(), d)
    } else {
        s.len() as int
    }
}

/// `s` with the slot `x` put behind every slot that is no farther.
pub open spec fn place(s: Slots, x: (int, int)) -> Slots {
    s.insert(rank(s, x.0), x)
}

/// The slots of `s`, nearest first; equal distances keep their order.
pub open spec fn by_distance(s: Slots) -> Slots
    decreases s.len(),
{
    if s.len() == 0 {
        s
    } else {
        place(by_distance(s.drop_last()), s.last())
    }
}

pub proof fn lemma_rank(s: Slots, d: int)
    ensures
        0 <= rank(s, d) <= s.len(),
        forall|i: int| rank(s, d) <= i < s.len() ==> (#[trigger] s[i]).0 > d,
        rank(s, d) > 0 ==> s[rank(s, d) - 1].0 <= d,
    decreases s.len(),
{
    if s.len() > 0 && s.last().0 > d {
        let t = s.drop_last();
        lemma_rank(t, d);
        assert forall|i: int| rank(s, d) <= i < s.len() implies (#[trigger] s[i]).0 > d by {
            if i < t.len() {
                assert(s[i] == t[i]);
            }
        }
    }
}

/// The place of a slot is where all behind are farther and the one before is
/// not.
pub proof fn lemma_rank_is(s: Slots, d: int, j: int)
    requires
        0 <= j <= s.len(),
        forall|i: int| j <= i < s.len() ==> (#[trigger] s[i]).0 > d,
        j > 0 ==> s[j - 1].0 <= d,
    ensures
        rank(s, d) == j,
{
    lemma_rank(s, d);
    let r = rank(s, d);
    if r < j {
        assert(s[j - 1].0 > d);
    } else if j < r {
        assert(s[r - 1].0 > d);
    }
}

pub proof fn lemma_by_distance_len(s: Slots)
    ensures
        by_distance(s).len() == s.len(),
    decreases s.len(),
{
    if s.len() > 0 {
        lemma_by_distance_len(s.drop_last());
        lemma_rank(by_distance(s.drop_last()), s.last().0);
    }
}

pub open spec fn is_by_distance(s: Slots) -> bool {
    forall|i: int, j: int| 0 <= i < j < s.len() ==> (#[trigger] s[i]).0 <= (#[trigger] s[j]).0
}

pub proof fn lemma_place_sorted(s: Slots, x: (int, int))
    requires
        is_by_distance(s),
    ensures
        is_by_distance(place(s, x)),
        place(s, x).len() == s.len() + 1,
{
    lemma_rank(s, x.0);
    let r = rank(s, x.0);
    let t = place(s, x);
    assert forall|i: int, j: int| 0 <= i < j < t.len() implies (#[trigger] t[i]).0 <= (
    #[trigger] t[j]).0 by {
        if i < r {
            assert(t[i] == s[i]);
            if i < r - 1 {
                assert(s[i].0 <= s[r - 1].0);
            }
        } else if i > r {
            assert(t[i] == s[i - 1]);
        }
        if j < r {
            assert(t[j] == s[j]);
        } else if j > r {
            assert(t[j] == s[j - 1]);
            assert(s[j - 1].0 > x.0);
        }
    }
}

/// The order is one by distance.
pub proof fn lemma_by_distance_sorted(s: Slots)
    ensures
        is_by_distance(by_distance(s)),
    decreases s.len(),
{
    if s.len() > 0 {
        lemma_by_distance_sorted(s.drop_last());
        lemma_place_sorted(by_distance(s.drop_last()), s.last());
    }
}

} // verus!
