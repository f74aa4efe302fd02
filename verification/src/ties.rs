//! The order in which a search takes vectors: of those that are equally far it
//! keeps the ones that it came to first.
use vstd::prelude::*;
use crate::exact;
use crate::exact_wide;
use crate::image;
use crate::nearest::{self, Slots};
use crate::scalar;
use crate::search;
use crate::wide;

verus! {

/// Distance and label of the vectors of cluster `c`, in the order in which they
/// are stored.
pub open spec fn pairs_of(raw: Seq<u8>, q: Seq<i16>, c: int) -> Slots {
    Seq::new(
        image::count_at(raw, c) as nat,
        |pos: int|
            (
                nearest::distance(q, image::stored_vector(raw, c, pos)),
                image::stored_label(raw, c, pos),
            ),
    )
}

/// Those of the first `n` clusters of `order`, one cluster after the other.
pub open spec fn pairs_in_turn(raw: Seq<u8>, q: Seq<i16>, order: Slots, n: int) -> Slots
    decreases n,
{
    if n <= 0 {
        Seq::empty()
    } else {
        pairs_in_turn(raw, q, order, n - 1) + pairs_of(raw, q, order[n - 1].1)
    }
}

// ---------------------------------------------------------------------------
// One vector at a time
// ---------------------------------------------------------------------------

proof fn lemma_offered_add(s: Slots, a: Slots, b: Slots)
    ensures
        exact::offered(s, a + b) == exact::offered(exact::offered(s, a), b),
    decreases b.len(),
{
    if b.len() == 0 {
        assert(a + b =~= a);
    } else {
        lemma_offered_add(s, a, b.drop_last());
        assert((a + b).drop_last() =~= a + b.drop_last());
        assert((a + b).last() == b.last());
    }
}

/// Offers that are no nearer than the farthest slot change nothing.
proof fn lemma_offered_far(s: Slots, xs: Slots)
    requires
        forall|i: int|
            0 <= i < xs.len() ==> nearest::worst_distance(s) <= (#[trigger] xs[i]).0,
    ensures
        exact::offered(s, xs) == s,
    decreases xs.len(),
{
    if xs.len() > 0 {
        let ys = xs.drop_last();
        assert forall|i: int| 0 <= i < ys.len() implies nearest::worst_distance(s) <= (
        #[trigger] ys[i]).0 by {
            assert(ys[i] == xs[i]);
        }
        lemma_offered_far(s, ys);
        assert(nearest::worst_distance(s) <= xs[xs.len() - 1].0);
    }
}

/// A cluster is scanned by offering its vectors in turn.
pub proof fn law_scan_offers_in_turn(raw: Seq<u8>, q: Seq<i16>, c: int, n: int, s: Slots)
    requires
        0 <= n <= image::count_at(raw, c),
    ensures
        scalar::scan(raw, q, c, n, s) == exact::offered(s, pairs_of(raw, q, c).take(n)),
    decreases n,
{
    let xs = pairs_of(raw, q, c).take(n);
    if n > 0 {
        law_scan_offers_in_turn(raw, q, c, n - 1, s);
        assert(xs.drop_last() =~= pairs_of(raw, q, c).take(n - 1));
        assert(xs.last() == pairs_of(raw, q, c)[n - 1]);
    }
}

/// The probes of a search offer all vectors of the clusters in turn. To pass over
/// a cluster whose box is too far makes no difference.
pub proof fn law_probes_offer_in_turn(raw: Seq<u8>, q: Seq<i16>, order: Slots, n: int)
    requires
        q.len() == 14,
        exact::boxes_hold(raw),
        n <= order.len(),
        forall|i: int|
            0 <= i < order.len() ==> 0 <= (#[trigger] order[i]).1 < image::clusters(raw),
    ensures
        scalar::probe(raw, q, order, n, scalar::empty_five()) == exact::offered(
            scalar::empty_five(),
            pairs_in_turn(raw, q, order, n),
        ),
    decreases n,
{
    let e = scalar::empty_five();
    if n > 0 {
        law_probes_offer_in_turn(raw, q, order, n - 1);
        let s = scalar::probe(raw, q, order, n - 1, e);
        let c = order[n - 1].1;
        let xs = pairs_of(raw, q, c);
        lemma_offered_add(e, pairs_in_turn(raw, q, order, n - 1), xs);
        law_scan_offers_in_turn(raw, q, c, image::count_at(raw, c), s);
        assert(xs.take(image::count_at(raw, c)) =~= xs);
        if n > 1 && search::cluster_bound(raw, q, c) >= nearest::worst_distance(s) {
            exact::lemma_bound_is_far(raw, q, c, nearest::worst_distance(s));
            assert forall|i: int| 0 <= i < xs.len() implies nearest::worst_distance(s) <= (
            #[trigger] xs[i]).0 by {
                assert(nearest::worst_distance(s) <= nearest::distance(
                    q,
                    image::stored_vector(raw, c, i),
                ));
            }
            lemma_offered_far(s, xs);
        }
    }
}

/// Centroids are offered in the order of the clusters.
pub proof fn law_centroids_are_offered_in_turn(s: Slots, ds: Seq<int>, d: int)
    ensures
        nearest::offer_all(s, Seq::empty()) == s,
        nearest::offer_all(s, ds.push(d)) == nearest::offer(
            nearest::offer_all(s, ds),
            d,
            ds.len() as int,
        ),
{
    assert(ds.push(d).drop_last() =~= ds);
}

// ---------------------------------------------------------------------------
// Lanes side by side
// ---------------------------------------------------------------------------

/// What is no nearer than the last of five slots, not even if it is just as far,
/// changes nothing. Anything else takes its place behind all that are no farther
/// and pushes the last one out.
pub proof fn law_keep_is_by_rank(s: Slots, d: int, tag: int, i: int)
    requires
        s.len() == 5,
        nearest::is_by_distance(s),
        0 <= i < 4,
    ensures
        d >= s[4].0 ==> wide::keep(s, d, tag) == s,
        d < s[4].0 ==> {
            let t = wide::keep(s, d, tag);
            &&& t.len() == 5
            &&& s[i].0 <= d ==> t[i] == s[i]
            &&& s[i].0 > d ==> t[i + 1] == s[i]
            &&& d < s[0].0 ==> t[0] == (d, tag)
            &&& s[i].0 <= d < s[i + 1].0 ==> t[i + 1] == (d, tag)
        },
{
    let u = s.drop_last();
    nearest::lemma_rank(u, d);
    let r = nearest::rank(u, d);
    if d < s[4].0 {
        if r > 0 {
            assert(u[r - 1] == s[r - 1]);
        }
        if i < r {
            assert(s[i].0 <= d) by {
                if i < r - 1 {
                    assert(s[i].0 <= s[r - 1].0);
                }
            }
        } else {
            assert(u[i].0 > d);
        }
        if r < 4 {
            assert(u[r].0 > d);
        }
        if d < s[0].0 && r > 0 {
            if 0 < r - 1 {
                assert(s[0].0 <= s[r - 1].0);
            }
        }
        if s[i].0 <= d < s[i + 1].0 {
            if i + 1 < r {
                if i + 1 < r - 1 {
                    assert(s[i + 1].0 <= s[r - 1].0);
                }
            }
            assert(r == i + 1);
        }
    }
}

/// What five slots in order hold after each pair of distance and tag in turn.
pub open spec fn kept_in_turn(s: Slots, xs: Slots) -> Slots
    decreases xs.len(),
{
    if xs.len() == 0 {
        s
    } else {
        wide::keep(kept_in_turn(s, xs.drop_last()), xs.last().0, xs.last().1)
    }
}

proof fn lemma_kept_add(s: Slots, a: Slots, b: Slots)
    ensures
        kept_in_turn(s, a + b) == kept_in_turn(kept_in_turn(s, a), b),
    decreases b.len(),
{
    if b.len() == 0 {
        assert(a + b =~= a);
    } else {
        lemma_kept_add(s, a, b.drop_last());
        assert((a + b).drop_last() =~= a + b.drop_last());
        assert((a + b).last() == b.last());
    }
}

proof fn lemma_kept_far(s: Slots, xs: Slots)
    requires
        forall|i: int| 0 <= i < xs.len() ==> s.last().0 <= (#[trigger] xs[i]).0,
    ensures
        kept_in_turn(s, xs) == s,
    decreases xs.len(),
{
    if xs.len() > 0 {
        let ys = xs.drop_last();
        assert forall|i: int| 0 <= i < ys.len() implies s.last().0 <= (#[trigger] ys[i]).0 by {
            assert(ys[i] == xs[i]);
        }
        lemma_kept_far(s, ys);
        assert(s.last().0 <= xs[xs.len() - 1].0);
    }
}

proof fn lemma_keep_range(raw: Seq<u8>, q: Seq<i16>, c: int, from: int, to: int, s: Slots)
    requires
        q.len() == 14,
        exact_wide::is_calm(raw, q),
        0 <= c < image::clusters(raw),
        0 <= from <= to <= image::count_at(raw, c),
    ensures
        wide::keep_range(raw, q, c, from, to, s) == kept_in_turn(
            s,
            pairs_of(raw, q, c).subrange(from, to),
        ),
    decreases to - from,
{
    let xs = pairs_of(raw, q, c);
    if from < to {
        lemma_keep_range(raw, q, c, from, to - 1, s);
        let v = image::stored_vector(raw, c, to - 1);
        assert(exact_wide::fits(q, v));
        exact_wide::lemma_lane_distance(q, v, 14);
        assert(xs.subrange(from, to).drop_last() =~= xs.subrange(from, to - 1));
        assert(xs.subrange(from, to).last() == xs[to - 1]);
    }
}

proof fn lemma_block(raw: Seq<u8>, q: Seq<i16>, c: int, i: int, s: Slots)
    requires
        q.len() == 14,
        exact_wide::is_calm(raw, q),
        0 <= c < image::clusters(raw),
        0 <= i < image::blocks_for(image::count_at(raw, c)),
    ensures
        wide::scan_block(raw, q, c, i, s) == kept_in_turn(
            s,
            pairs_of(raw, q, c).subrange(
                i * 8,
                exact_wide::up_to(i + 1, image::count_at(raw, c)),
            ),
        ),
{
    let to = exact_wide::up_to(i + 1, image::count_at(raw, c));
    let xs = pairs_of(raw, q, c).subrange(i * 8, to);
    let b = image::start_at(raw, c) + i;
    let limit = s.last().0;
    let early = wide::all_reach(raw, q, b, 6, limit);
    lemma_keep_range(raw, q, c, i * 8, to, s);
    if early || wide::all_reach(raw, q, b, 10, limit) {
        let n: int = if early {
            6
        } else {
            10
        };
        assert forall|j: int| 0 <= j < xs.len() implies limit <= (#[trigger] xs[j]).0 by {
            let pos = i * 8 + j;
            assert(pos / 8 == i && pos % 8 == j);
            let v = image::stored_vector(raw, c, pos);
            assert(v == image::lane_vector(raw, b, j));
            assert(exact_wide::fits(q, v));
            exact_wide::lemma_lane_distance(q, v, n);
            assert(wide::reaches(wide::lane_prefix(q, image::lane_vector(raw, b, j), n), limit));
        }
        lemma_kept_far(s, xs);
    }
}

proof fn lemma_blocks(raw: Seq<u8>, q: Seq<i16>, c: int, n: int, s: Slots)
    requires
        q.len() == 14,
        exact_wide::is_calm(raw, q),
        0 <= c < image::clusters(raw),
        0 <= n <= image::blocks_for(image::count_at(raw, c)),
        image::count_at(raw, c) >= 0,
    ensures
        wide::scan_blocks(raw, q, c, n, s) == kept_in_turn(
            s,
            pairs_of(raw, q, c).take(exact_wide::up_to(n, image::count_at(raw, c))),
        ),
    decreases n,
{
    let xs = pairs_of(raw, q, c);
    let count = image::count_at(raw, c);
    if n > 0 {
        lemma_blocks(raw, q, c, n - 1, s);
        lemma_block(raw, q, c, n - 1, wide::scan_blocks(raw, q, c, n - 1, s));
        let (a, z) = (exact_wide::up_to(n - 1, count), exact_wide::up_to(n, count));
        assert(a == (n - 1) * 8);
        lemma_kept_add(s, xs.take(a), xs.subrange(a, z));
        assert(xs.take(a) + xs.subrange(a, z) =~= xs.take(z));
    }
}

/// A cluster is scanned with lanes side by side as if its vectors were taken in
/// turn. To pass over a block that is too far makes no difference.
pub proof fn law_wide_scan_keeps_in_turn(raw: Seq<u8>, q: Seq<i16>, c: int, s: Slots)
    requires
        q.len() == 14,
        exact_wide::is_calm(raw, q),
        0 <= c < image::clusters(raw),
    ensures
        wide::scan(raw, q, c, s) == kept_in_turn(s, pairs_of(raw, q, c)),
{
    let count = image::count_at(raw, c);
    let blocks = image::blocks_for(count);
    assert(count >= 0);
    lemma_blocks(raw, q, c, blocks, s);
    assert(exact_wide::up_to(blocks, count) == count);
    assert(pairs_of(raw, q, c).take(count) =~= pairs_of(raw, q, c));
}

/// The probes of a search with lanes side by side take all vectors of the
/// clusters in turn.
pub proof fn law_wide_probes_keep_in_turn(raw: Seq<u8>, q: Seq<i16>, order: Slots, n: int)
    requires
        q.len() == 14,
        exact_wide::is_calm(raw, q),
        n <= order.len(),
        forall|i: int|
            0 <= i < order.len() ==> 0 <= (#[trigger] order[i]).1 < image::clusters(raw),
    ensures
        wide::probe(raw, q, order, n, wide::empty_five()) == kept_in_turn(
            wide::empty_five(),
            pairs_in_turn(raw, q, order, n),
        ),
    decreases n,
{
    if n > 0 {
        law_wide_probes_keep_in_turn(raw, q, order, n - 1);
        let c = order[n - 1].1;
        law_wide_scan_keeps_in_turn(
            raw,
            q,
            c,
            wide::probe(raw, q, order, n - 1, wide::empty_five()),
        );
        lemma_kept_add(
            wide::empty_five(),
            pairs_in_turn(raw, q, order, n - 1),
            pairs_of(raw, q, c),
        );
    }
}

} // verus!
