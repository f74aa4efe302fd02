//! What an evaluation counts, and where thresholds lie.
use vstd::prelude::*;
use vstd::string::*;
use crate::answers;
use crate::ascii::{self, COMMA, PLUS};
use crate::balance;
use crate::conn::{self, Settings};
use crate::gate;
use crate::json;
use crate::kmeans;
use crate::nearest;
use crate::normalize;
use crate::scalar;
use crate::tune;

verus! {

/// For how many of the first `n` numbers `f` holds.
pub open spec fn how_many(n: int, f: spec_fn(int) -> bool) -> int
    decreases n,
{
    if n <= 0 {
        0
    } else if f(n - 1) {
        how_many(n - 1, f) + 1
    } else {
        how_many(n - 1, f)
    }
}

/// The transaction of an entry.
pub open spec fn request_of(e: Seq<u8>) -> Seq<u8> {
    json::json_member(e, "request"@)
}

/// An entry expects its transaction to be approved unless it says otherwise.
pub open spec fn says_no(e: Seq<u8>) -> bool {
    json::json_member(e, "expected_approved"@) == "false".spec_bytes()
}

/// Fewer than half of the five neighbours of the transaction of an entry are
/// fraudulent.
pub open spec fn few(s: Settings, e: Seq<u8>) -> bool {
    2 * conn::score(s, request_of(e)) < 5
}

/// What an entry expects is what it says. One that does not say expects that
/// its transaction is approved, and a score of zero.
pub proof fn law_expectations(e: Seq<u8>)
    ensures
        gate::expects(e) == !says_no(e),
        json::json_number(json::json_member(e, "expected_fraud_score"@)) matches Some(x)
            ==> gate::expected_score(e) == x,
        json::json_number(json::json_member(e, "expected_fraud_score"@)) is None
            ==> gate::expected_score(e) == 0,
{
    reveal_strlit("true");
    is_ascii_spec_bytes("true");
    reveal_strlit("false");
    is_ascii_spec_bytes("false");
    assert("true".spec_bytes().len() == 4 && "false".spec_bytes().len() == 5);
}

/// An evaluation counts every entry once. It counts as false positives those
/// that it denies against what they expect, as false negatives those that it
/// approves against what they expect, and as matches all others; as malformed
/// those without a vector; as exact those whose expected score, five times over,
/// is nearest to the count of fraudulent neighbours; and in each place of the
/// histogram those with as many fraudulent neighbours.
#[verifier::spinoff_prover]
pub proof fn law_counts_count(s: Settings, entries: Seq<Seq<u8>>, n: int)
    requires
        0 <= n <= entries.len(),
        gate::tallied(s, entries, n) is Some,
    ensures
        ({
            let t = gate::tallied(s, entries, n)->0;
            &&& t.total == n
            &&& t.fp == how_many(n, |i: int| !few(s, entries[i]) && !says_no(entries[i]))
            &&& t.fn_ == how_many(n, |i: int| few(s, entries[i]) && says_no(entries[i]))
            &&& t.approve_match == how_many(n, |i: int| few(s, entries[i]) != says_no(entries[i]))
            &&& t.parse_fail == how_many(
                n,
                |i: int| normalize::normalized(request_of(entries[i])) is None,
            )
            &&& t.exact == how_many(
                n,
                |i: int|
                    gate::fifths(gate::expected_score(entries[i])) == Some(
                        conn::score(s, request_of(entries[i])),
                    ),
            )
            &&& t.score_hist.len() == 6
            &&& forall|c: int|
                0 <= c < 6 ==> #[trigger] t.score_hist[c] == how_many(
                    n,
                    |i: int| conn::score(s, request_of(entries[i])) == c,
                )
        }),
    decreases n,
{
    if n > 0 {
        law_counts_count(s, entries, n - 1);
        let e = entries[n - 1];
        law_expectations(e);
        let t = gate::tallied(s, entries, n)->0;
        let u = gate::tallied(s, entries, n - 1)->0;
        let count = conn::score(s, request_of(e));
        lemma_score_nonnegative(s, request_of(e));
        assert forall|c: int| 0 <= c < 6 implies #[trigger] t.score_hist[c] == how_many(
            n,
            |i: int| conn::score(s, request_of(entries[i])) == c,
        ) by {
            assert(u.score_hist[c] == how_many(
                n - 1,
                |i: int| conn::score(s, request_of(entries[i])) == c,
            ));
        }
    } else {
        assert forall|c: int| 0 <= c < 6 implies #[trigger] gate::tallied(
            s,
            entries,
            n,
        )->0.score_hist[c] == how_many(
            n,
            |i: int| conn::score(s, request_of(entries[i])) == c,
        ) by {}
    }
}

proof fn lemma_score_nonnegative(s: Settings, body: Seq<u8>)
    ensures
        0 <= conn::score(s, body) < 256,
{
}

/// There are counts exactly if every entry can be scored, by at most five.
pub proof fn law_counts_exist(s: Settings, entries: Seq<Seq<u8>>, n: int)
    requires
        0 <= n <= entries.len(),
    ensures
        gate::tallied(s, entries, n) is Some <==> forall|i: int|
            0 <= i < n ==> conn::can_score(s, request_of(#[trigger] entries[i])) && conn::score(
                s,
                request_of(entries[i]),
            ) <= 5,
    decreases n,
{
    if n > 0 {
        law_counts_exist(s, entries, n - 1);
        let e = entries[n - 1];
        assert(conn::can_score(s, request_of(e)) == conn::can_score(
            s,
            json::json_member(e, "request"@),
        ));
    }
}

/// The entries of test data are those that the document holds under their name.
/// There are none where it is no JSON, or where they are no list.
pub proof fn law_entries_are_read(document: Seq<u8>, text: Seq<u8>)
    ensures
        json::json_parsed(document) == Some(text) ==> gate::entries_of(document)
            == json::json_elements(json::json_member(text, "entries"@)),
        json::json_parsed(document) is None ==> gate::entries_of(document) is None,
{
}

// ---------------------------------------------------------------------------
// Thresholds
// ---------------------------------------------------------------------------

/// The query that an entry makes.
pub open spec fn query(e: Seq<u8>) -> Seq<i16> {
    let v = normalize::normalized(request_of(e))->0;
    Seq::new(14, |i: int| v[i] as i16)
}

/// The probes for the transaction of the entry find `count` fraudulent
/// neighbours.
pub open spec fn has_count(s: Settings, e: Seq<u8>, count: int) -> bool {
    normalize::normalized(request_of(e)) is Some && scalar::tag_sum(
        scalar::probed(s.raw, query(e), s.nprobe),
    ) == count
}

/// How far the farthest neighbour is that the probes find.
pub open spec fn reach(s: Settings, e: Seq<u8>) -> int {
    nearest::worst_distance(scalar::probed(s.raw, query(e), s.nprobe))
}

/// `x` is the least distance of the farthest neighbour among those of the first
/// `n` entries that have `count` fraudulent neighbours and expect otherwise, or
/// the greatest number there is.
pub open spec fn is_least(
    s: Settings,
    entries: Seq<Seq<u8>>,
    n: int,
    count: int,
    against: bool,
    x: int,
) -> bool {
    &&& x <= u64::MAX
    &&& forall|i: int|
        0 <= i < n && has_count(s, #[trigger] entries[i], count) && says_no(entries[i]) == against
            ==> x <= reach(s, entries[i])
    &&& x == u64::MAX || exists|i: int|
        0 <= i < n && has_count(s, #[trigger] entries[i], count) && says_no(entries[i]) == against
            && reach(s, entries[i]) == x
}

/// Of the transactions without fraudulent neighbours those are wrong that are
/// expected to be denied, of those with five fraudulent neighbours those that
/// are expected to be approved. All are counted, and the least distance of the
/// farthest neighbour among the wrong ones is kept. No other transaction counts.
#[verifier::spinoff_prover]
pub proof fn law_extremes_are_least(s: Settings, entries: Seq<Seq<u8>>, n: int)
    requires
        0 <= n <= entries.len(),
        tune::extremes(s, entries, n) is Some,
    ensures
        ({
            let x = tune::extremes(s, entries, n)->0;
            &&& x.none.total == how_many(n, |i: int| has_count(s, entries[i], 0))
            &&& x.none.wrong == how_many(
                n,
                |i: int| has_count(s, entries[i], 0) && says_no(entries[i]),
            )
            &&& is_least(s, entries, n, 0, true, x.none.least)
            &&& x.five.total == how_many(n, |i: int| has_count(s, entries[i], 5))
            &&& x.five.wrong == how_many(
                n,
                |i: int| has_count(s, entries[i], 5) && !says_no(entries[i]),
            )
            &&& is_least(s, entries, n, 5, false, x.five.least)
        }),
    decreases n,
{
    if n > 0 {
        law_extremes_are_least(s, entries, n - 1);
        let e = entries[n - 1];
        law_expectations(e);
        let x = tune::extremes(s, entries, n)->0;
        let y = tune::extremes(s, entries, n - 1)->0;
        lemma_least_step(s, entries, n, 0, true, y.none.least, x.none.least);
        lemma_least_step(s, entries, n, 5, false, y.five.least, x.five.least);
    }
}

proof fn lemma_least_step(
    s: Settings,
    entries: Seq<Seq<u8>>,
    n: int,
    count: int,
    against: bool,
    y: int,
    x: int,
)
    requires
        0 < n <= entries.len(),
        is_least(s, entries, n - 1, count, against, y),
        ({
            let e = entries[n - 1];
            x == if has_count(s, e, count) && says_no(e) == against && reach(s, e) < y {
                reach(s, e)
            } else {
                y
            }
        }),
    ensures
        is_least(s, entries, n, count, against, x),
{
    let e = entries[n - 1];
    if x == y && y != u64::MAX {
        let i = choose|i: int|
            0 <= i < n - 1 && has_count(s, #[trigger] entries[i], count) && says_no(entries[i])
                == against && reach(s, entries[i]) == y;
        assert(0 <= i < n && has_count(s, entries[i], count));
    }
    if x != y {
        assert(has_count(s, entries[n - 1], count) && reach(s, entries[n - 1]) == x);
    }
}

/// Something is seen exactly if the probes for every transaction that is not
/// malformed can be done.
pub proof fn law_extremes_exist(s: Settings, entries: Seq<Seq<u8>>, n: int)
    requires
        0 <= n <= entries.len(),
    ensures
        tune::extremes(s, entries, n) is Some <==> forall|i: int|
            0 <= i < n && normalize::normalized(request_of(#[trigger] entries[i])) is Some
                ==> scalar::probed_within(s.raw, query(entries[i]), s.nprobe),
    decreases n,
{
    if n > 0 {
        law_extremes_exist(s, entries, n - 1);
        let e = entries[n - 1];
        assert(request_of(e) == json::json_member(e, "request"@));
    }
}

/// A threshold is the least distance itself where that has thirty-two bits, and
/// never greater than it.
pub proof fn law_limit_is_least(least: int)
    requires
        0 <= least,
    ensures
        least <= 0xffff_ffff ==> tune::limit(least) == least,
        least > 0xffff_ffff ==> tune::limit(least) == 0xffff_ffff,
{
}

/// Mistakes weigh one each, and those that let fraud pass three.
pub proof fn law_mistakes_weigh(t: gate::Counts, a: int, b: int)
    ensures
        gate::weight(gate::Counts { fp: t.fp + a, fn_: t.fn_ + b, ..t }) == gate::weight(t) + a + 3
            * b,
        gate::weight(gate::no_counts()) == 0,
{
}

proof fn lemma_numeral_value(n: nat)
    ensures
        tune::value(answers::numeral(n)) == n,
        tune::all_digits(answers::numeral(n)),
        answers::numeral(n).len() > 0,
    decreases n,
{
    let t = answers::numeral(n);
    if n < 10 {
        assert(t.drop_last().len() == 0);
        assert(tune::value(t.drop_last()) == 0);
    } else {
        lemma_numeral_value(n / 10);
        let u = answers::numeral(n / 10);
        assert(t.drop_last() =~= u);
        assert forall|i: int| 0 <= i < t.len() implies ascii::is_digit(#[trigger] t[i]) by {
            if i < u.len() {
                assert(t[i] == u[i]);
            }
        }
    }
}

/// The numeral of a number of thirty-two bits, with or without a plus sign, is
/// read as the number, and that of a greater one as none; so is a text that is
/// empty or has anything but digits in it.
pub proof fn law_threshold_is_read(n: nat, s: Seq<u8>, i: int)
    ensures
        n <= 0xffff_ffff ==> tune::threshold(answers::numeral(n)) == n,
        n <= 0xffff_ffff ==> tune::threshold(seq![PLUS] + answers::numeral(n)) == n,
        n > 0xffff_ffff ==> tune::threshold(answers::numeral(n)) == 0xffff_ffff,
        s.len() == 0 ==> tune::threshold(s) == 0xffff_ffff,
        0 <= i < s.len() && !(0x30 <= s[i] <= 0x39) && (i > 0 || s[0] != PLUS) ==> tune::threshold(s)
            == 0xffff_ffff,
{
    let t = answers::numeral(n);
    lemma_numeral_value(n);
    assert(ascii::is_digit(t[0]));
    let u = seq![PLUS] + t;
    assert(u.subrange(1, u.len() as int) =~= t);
    if 0 <= i < s.len() && !(0x30 <= s[i] <= 0x39) && (i > 0 || s[0] != PLUS) {
        let d = tune::unsigned(s);
        if s[0] == PLUS {
            assert(d[i - 1] == s[i]);
            assert(!ascii::is_digit(d[i - 1]));
        } else {
            assert(!ascii::is_digit(d[i]));
        }
    }
}

/// A list of six numbers of thirty-two bits, with commas between them, is read as
/// the numbers. A list of any other length is not read.
pub proof fn law_thresholds_are_read(ns: Seq<nat>, i: int)
    requires
        ns.len() > 0,
        0 <= i < ns.len(),
        forall|j: int| 0 <= j < ns.len() ==> #[trigger] ns[j] <= 0xffff_ffff,
    ensures
        ({
            let text = balance::joined(
                Seq::new(ns.len(), |j: int| answers::numeral(ns[j])),
            );
            &&& tune::thresholds_in(text) is Some <==> ns.len() == 6
            &&& ns.len() == 6 ==> tune::thresholds_in(text)->0.len() == 6
                && tune::thresholds_in(text)->0[i] == ns[i]
        }),
{
    let ps = Seq::new(ns.len(), |j: int| answers::numeral(ns[j]));
    assert forall|j: int, k: int|
        0 <= j < ps.len() && 0 <= k < ps[j].len() implies #[trigger] ps[j][k] != COMMA by {
        lemma_numeral_value(ns[j]);
        assert(ascii::is_digit(answers::numeral(ns[j])[k]));
    }
    balance::law_joined_parts(ps);
    law_threshold_is_read(ns[i], Seq::empty(), 0);
}

// ---------------------------------------------------------------------------
// Clusters
// ---------------------------------------------------------------------------

/// The sum of `g` over those of the first `n` numbers for which `f` holds.
pub open spec fn sum_where(n: int, f: spec_fn(int) -> bool, g: spec_fn(int) -> int) -> int
    decreases n,
{
    if n <= 0 {
        0
    } else if f(n - 1) {
        sum_where(n - 1, f, g) + g(n - 1)
    } else {
        sum_where(n - 1, f, g)
    }
}

/// A new assignment changes as many entries as differ.
pub proof fn law_changes_are_counted(a: Seq<u32>, b: Seq<u32>, n: int)
    ensures
        kmeans::differing(a, b, n) == how_many(n, |i: int| a[i] != b[i]),
    decreases n,
{
    if n > 0 {
        law_changes_are_counted(a, b, n - 1);
    }
}

/// As many clusters are empty as have a count of zero.
pub proof fn law_empties_are_counted(counts: Seq<u32>, n: int)
    ensures
        kmeans::empties(counts, n) == how_many(n, |i: int| counts[i] == 0),
    decreases n,
{
    if n > 0 {
        law_empties_are_counted(counts, n - 1);
    }
}

/// The count of a cluster is how many members of the sample are assigned to it,
/// and its sums are over the coordinates of those.
pub proof fn law_totals_are_of_members(
    vecs: Seq<i16>,
    sample: Seq<u32>,
    assign: Seq<u32>,
    c: int,
    d: int,
    n: int,
)
    ensures
        kmeans::count_of(assign, c, n) == how_many(n, |i: int| assign[i] == c),
        kmeans::sum_of(vecs, sample, assign, c, d, n) == sum_where(
            n,
            |i: int| assign[i] == c,
            |i: int| vecs[14 * sample[i] + d] as int,
        ),
    decreases n,
{
    if n > 0 {
        law_totals_are_of_members(vecs, sample, assign, c, d, n - 1);
    }
}

/// The states of a source of numbers lie at equal steps around the circle of
/// sixty-four bits.
pub proof fn law_states_step(seed: u64, i: int)
    requires
        0 <= i,
    ensures
        kmeans::state_after(seed, i) == (seed + i * 0x9E37_79B9_7F4A_7C15)
            % 0x1_0000_0000_0000_0000,
    decreases i,
{
    if i > 0 {
        law_states_step(seed, i - 1);
        let m = 0x1_0000_0000_0000_0000int;
        let c = 0x9E37_79B9_7F4A_7C15int;
        let x = seed + (i - 1) * c;
        vstd::arithmetic::div_mod::lemma_add_mod_noop(x, c, m);
        assert(c % m == c);
        assert(x + c == seed + i * c) by (nonlinear_arith)
            requires
                x == seed + (i - 1) * c,
        ;
        let y = kmeans::state_after(seed, i - 1);
        assert((y + c) % m == if y + c >= m {
            y + c - m
        } else {
            y + c
        });
    }
}

/// The first numbers of a source are followed by those of one that starts where
/// they end.
pub proof fn law_states_follow(seed: u64, i: int, j: int)
    requires
        0 <= i,
        0 <= j,
    ensures
        kmeans::state_after(seed, i + j) == kmeans::state_after(kmeans::state_after(seed, i), j),
    decreases j,
{
    if j > 0 {
        law_states_follow(seed, i, j - 1);
    }
}

/// The first of the least keys is least, and all before it are greater; so there
/// is only one.
pub proof fn law_first_least_is_one(keys: Seq<u32>, a: int, b: int)
    requires
        kmeans::is_first_least(keys, a),
        kmeans::is_first_least(keys, b),
    ensures
        a == b,
        forall|i: int| 0 <= i < keys.len() ==> keys[a] <= #[trigger] keys[i],
        forall|i: int| 0 <= i < a ==> keys[a] < #[trigger] keys[i],
{
    if a < b {
        assert(keys[b] < keys[a]);
    } else if b < a {
        assert(keys[a] < keys[b]);
    }
}

/// The first key that reaches a target is the only one such that none before it
/// does; the last key stands in where none does.
pub proof fn law_first_reaching_is_one(keys: Seq<u64>, target: u64, a: int, b: int)
    requires
        kmeans::is_first_reaching(keys, target, a),
        kmeans::is_first_reaching(keys, target, b),
    ensures
        a == b,
        forall|i: int| 0 <= i < a ==> #[trigger] keys[i] < target,
        a < keys.len() - 1 ==> keys[a] >= target,
{
    if a < b {
        assert(keys[a] < target);
    } else if b < a {
        assert(keys[b] < target);
    }
}

/// The lesser of two keys is one of them, and greater than neither.
pub proof fn law_lesser_is_least(a: u32, b: u32)
    ensures
        kmeans::lesser(a, b) == a || kmeans::lesser(a, b) == b,
        kmeans::lesser(a, b) <= a && kmeans::lesser(a, b) <= b,
{
}

} // verus!
