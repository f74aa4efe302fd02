//! Thresholds on the distance of the farthest neighbour: below them the probes
//! of a search alone were never wrong.
use vstd::prelude::*;
use crate::ascii::{self, NINE, PLUS, ZERO};
use crate::balance::{self, split_list};
use crate::conn::{self, Scorer};
use crate::gate;
use crate::json::{self, as_array, as_bool, from_slice, member, to_vec};
use crate::nearest;
use crate::normalize::{self, normalize};
use crate::scalar;

verus! {

/// What was seen of transactions with one count of fraudulent neighbours.
pub ghost struct Seen {
    pub total: int,
    /// How many were approved or denied otherwise than expected.
    pub wrong: int,
    /// The least distance of the farthest neighbour among those.
    pub least: int,
}

/// What was seen of transactions with no fraudulent neighbour, and of those
/// with five. All others are looked at more closely in any case.
pub ghost struct Extremes {
    pub none: Seen,
    pub five: Seen,
}

pub open spec fn nothing_seen() -> Seen {
    Seen { total: 0, wrong: 0, least: u64::MAX as int }
}

/// After one more transaction.
pub open spec fn seen(s: Seen, worst: int, wrong: bool) -> Seen {
    Seen {
        total: s.total + 1,
        wrong: s.wrong + gate::one_if(wrong),
        least: if wrong && worst < s.least {
            worst
        } else {
            s.least
        },
    }
}

/// After one more transaction with `count` fraudulent neighbours, the farthest
/// of five at the distance `worst`.
pub open spec fn noted(e: Extremes, count: int, worst: int, approved: bool) -> Extremes {
    let wrong = gate::is_approved(count) != approved;
    if count == 0 {
        Extremes { none: seen(e.none, worst, wrong), five: e.five }
    } else if count == 5 {
        Extremes { none: e.none, five: seen(e.five, worst, wrong) }
    } else {
        e
    }
}

/// What was seen of one count.
#[derive(Clone, Copy, Debug)]
pub struct Extreme {
    pub total: u64,
    pub wrong: u64,
    pub least: u64,
}

impl View for Extreme {
    type V = Seen;

    open spec fn view(&self) -> Seen {
        Seen { total: self.total as int, wrong: self.wrong as int, least: self.least as int }
    }
}

impl Extreme {
    fn new() -> (r: Extreme)
        ensures
            r@ == nothing_seen(),
    {
        Extreme { total: 0, wrong: 0, least: u64::MAX }
    }

    fn note(&mut self, worst: u64, wrong: bool)
        requires
            old(self).wrong <= old(self).total < u64::MAX,
        ensures
            final(self)@ == seen(old(self)@, worst as int, wrong),
            final(self).wrong <= final(self).total,
            final(self).total == old(self).total + 1,
    {
        self.total = self.total + 1;
        if wrong {
            self.wrong = self.wrong + 1;
            if worst < self.least {
                self.least = worst;
            }
        }
    }

    /// The least distance at which a transaction was wrong, in thirty-two bits.
    pub fn threshold(&self) -> (r: u32)
        ensures
            r == (if self@.least < u32::MAX {
                self@.least
            } else {
                u32::MAX as int
            }),
    {
        if self.least < u32::MAX as u64 {
            self.least as u32
        } else {
            u32::MAX
        }
    }
}

/// The threshold that a least distance stands for, in thirty-two bits.
pub open spec fn limit(least: int) -> int {
    if least >= u32::MAX {
        u32::MAX as int
    } else {
        least
    }
}

pub struct Tuning {
    pub none: Extreme,
    pub five: Extreme,
}

impl View for Tuning {
    type V = Extremes;

    open spec fn view(&self) -> Extremes {
        Extremes { none: self.none@, five: self.five@ }
    }
}

impl Tuning {
    /// No more than `n` transactions were seen.
    pub open spec fn within(&self, n: int) -> bool {
        &&& self.none.wrong <= self.none.total <= n
        &&& self.five.wrong <= self.five.total <= n
    }

    pub fn new() -> (r: Tuning)
        ensures
            r@ == (Extremes { none: nothing_seen(), five: nothing_seen() }),
            r.within(0),
    {
        Tuning { none: Extreme::new(), five: Extreme::new() }
    }

    /// Takes note of a transaction with `count` fraudulent neighbours, the
    /// farthest of five at the distance `worst`.
    pub fn add(&mut self, count: u8, worst: u64, approved: bool)
        requires
            old(self).within(u64::MAX - 1),
        ensures
            final(self)@ == noted(old(self)@, count as int, worst as int, approved),
            forall|n: int| old(self).within(n) ==> #[trigger] final(self).within(n + 1),
    {
        let wrong = (count <= 2) != approved;
        if count == 0 {
            self.none.note(worst, wrong);
        } else if count == 5 {
            self.five.note(worst, wrong);
        }
    }

    /// A threshold for each count of fraudulent neighbours: only for none and
    /// for five are there any.
    pub fn thresholds(&self) -> (r: [u32; 6])
        ensures
            r[0] == (if self@.none.least < u32::MAX {
                self@.none.least
            } else {
                u32::MAX as int
            }),
            r[5] == (if self@.five.least < u32::MAX {
                self@.five.least
            } else {
                u32::MAX as int
            }),
            forall|i: int| 1 <= i < 5 ==> #[trigger] r[i] == u32::MAX,
            r[0] == limit(self@.none.least),
            r[5] == limit(self@.five.least),
    {
        let none = self.none.threshold();
        let five = self.five.threshold();
        [none, u32::MAX, u32::MAX, u32::MAX, u32::MAX, five]
    }
}

/// What is seen after one more entry with the compact text `e`. A malformed
/// transaction is passed over. There is nothing where its probes do not stay
/// inside the index.
pub open spec fn seen_after(s: conn::Settings, before: Extremes, e: Seq<u8>) -> Option<Extremes> {
    match normalize::normalized(json::json_member(e, "request"@)) {
        Some(v) => {
            let q = Seq::new(14, |i: int| v[i] as i16);
            let slots = scalar::probed(s.raw, q, s.nprobe);
            if scalar::probed_within(s.raw, q, s.nprobe) {
                Some(
                    noted(
                        before,
                        scalar::tag_sum(slots),
                        nearest::worst_distance(slots),
                        gate::expects(e),
                    ),
                )
            } else {
                None
            }
        },
        None => Some(before),
    }
}

/// What is seen of the first `n` entries with the probes of a search alone.
pub open spec fn extremes(s: conn::Settings, entries: Seq<Seq<u8>>, n: int) -> Option<Extremes>
    decreases n,
{
    if n <= 0 {
        Some(Extremes { none: nothing_seen(), five: nothing_seen() })
    } else {
        match extremes(s, entries, n - 1) {
            Some(before) => seen_after(s, before, entries[n - 1]),
            None => None,
        }
    }
}

proof fn lemma_extremes_none(s: conn::Settings, entries: Seq<Seq<u8>>, n: int, m: int)
    requires
        n <= m,
        extremes(s, entries, n) is None,
    ensures
        extremes(s, entries, m) is None,
    decreases m,
{
    if n < m {
        lemma_extremes_none(s, entries, n, m - 1);
    }
}

/// Takes note of the entry `e`. Whether that could be done is the result.
fn note_entry(tuning: &mut Tuning, scorer: &Scorer, e: &serde_json::Value) -> (ok: bool)
    requires
        scorer.wf(),
        old(tuning).within(u64::MAX - 1),
    ensures
        ok ==> forall|n: int| old(tuning).within(n) ==> #[trigger] final(tuning).within(n + 1),
        seen_after(scorer@, old(tuning)@, json::json_text(*e)) == (if ok {
            Some(final(tuning)@)
        } else {
            None
        }),
{
    let body = to_vec(member(e, "request"));
    let approved = match as_bool(member(e, "expected_approved")) {
        Some(b) => b,
        None => true,
    };
    if let Some(q) = normalize(body.as_slice()) {
        assert(Seq::new(14, |i: int| normalize::normalized(body@)->0[i] as i16) =~= q@);
        match scorer.index.search_fast(&q, scorer.nprobe) {
            Some((count, worst)) => {
                tuning.add(count, worst, approved);
            },
            None => {
                return false;
            },
        }
    }
    true
}

/// Searches for the entries of the test data in `document` with probes alone and
/// notes where that is wrong. There is nothing to note where the document is no
/// JSON, has no list of entries, or has one whose probes do not stay inside the
/// index.
pub fn tune(document: &[u8], scorer: &Scorer) -> (r: Option<Tuning>)
    requires
        scorer.wf(),
    ensures
        ({
            let entries = match json::json_parsed(document@) {
                Some(text) => json::json_elements(json::json_member(text, "entries"@)),
                None => None,
            };
            match r {
                Some(t) => entries is Some && Some(t@) == extremes(
                    scorer@,
                    entries->0,
                    entries->0.len() as int,
                ),
                None => entries matches Some(es) ==> extremes(scorer@, es, es.len() as int) is None,
            }
        }),
        r matches Some(t) ==> gate::entries_of(document@) matches Some(es) && extremes(
            scorer@,
            es,
            es.len() as int,
        ) == Some(t@),
        r is None ==> (gate::entries_of(document@) matches Some(es) ==> extremes(
            scorer@,
            es,
            es.len() as int,
        ) is None),
{
    let data = match from_slice(document) {
        Some(v) => v,
        None => {
            return None;
        },
    };
    let list = match as_array(member(&data, "entries")) {
        Some(a) => a,
        None => {
            return None;
        },
    };
    let ghost es = Seq::new(list@.len(), |i: int| json::json_text(list@[i]));
    let mut tuning = Tuning::new();
    for i in 0..list.len()
        invariant
            scorer.wf(),
            es == Seq::new(list@.len(), |j: int| json::json_text(list@[j])),
            es.len() == list.len(),
            tuning.within(i as int),
            Some(tuning@) == extremes(scorer@, es, i as int),
            json::json_parsed(document@) is Some,
            json::json_elements(
                json::json_member(json::json_parsed(document@)->0, "entries"@),
            ) == Some(es),
    {
        if !note_entry(&mut tuning, scorer, &list[i]) {
            proof {
                assert(extremes(scorer@, es, i + 1) is None);
                lemma_extremes_none(scorer@, es, i + 1, es.len() as int);
            }
            return None;
        }
        assert(tuning.within(i + 1));
    }
    Some(tuning)
}

// ---------------------------------------------------------------------------
// Thresholds as text
// ---------------------------------------------------------------------------

pub open spec fn all_digits(s: Seq<u8>) -> bool {
    forall|i: int| 0 <= i < s.len() ==> ascii::is_digit(#[trigger] s[i])
}

/// The decimal number that `s` is.
pub open spec fn value(s: Seq<u8>) -> int
    decreases s.len(),
{
    if s.len() == 0 {
        0
    } else {
        10 * value(s.drop_last()) + (s.last() - ZERO)
    }
}

/// The digits of a number that may have a plus sign.
pub open spec fn unsigned(s: Seq<u8>) -> Seq<u8> {
    if s.len() > 0 && s[0] == PLUS {
        s.subrange(1, s.len() as int)
    } else {
        s
    }
}

/// The threshold that `s` spells; the greatest number if it spells none of
/// thirty-two bits.
pub open spec fn threshold(s: Seq<u8>) -> int {
    let d = unsigned(s);
    if d.len() > 0 && all_digits(d) && value(d) <= u32::MAX {
        value(d)
    } else {
        u32::MAX as int
    }
}

proof fn lemma_value_grows(s: Seq<u8>, n: int)
    requires
        all_digits(s),
        0 <= n <= s.len(),
    ensures
        0 <= value(s.take(n)) <= value(s),
    decreases s.len() - n, n,
{
    if n < s.len() {
        lemma_value_grows(s, n + 1);
        assert(s.take(n + 1).drop_last() =~= s.take(n));
        assert(ascii::is_digit(s[n]));
        lemma_value_nonnegative(s.take(n));
    } else {
        assert(s.take(n) =~= s);
        lemma_value_nonnegative(s);
    }
}

proof fn lemma_value_nonnegative(s: Seq<u8>)
    requires
        all_digits(s),
    ensures
        value(s) >= 0,
    decreases s.len(),
{
    if s.len() > 0 {
        assert(ascii::is_digit(s[s.len() - 1]));
        assert forall|i: int| 0 <= i < s.len() - 1 implies ascii::is_digit(
            #[trigger] s.drop_last()[i],
        ) by {
            assert(ascii::is_digit(s[i]));
        }
        lemma_value_nonnegative(s.drop_last());
    }
}

fn digits_value(d: &[u8]) -> (r: u32)
    ensures
        r == if d@.len() > 0 && all_digits(d@) && value(d@) <= u32::MAX {
            value(d@)
        } else {
            u32::MAX as int
        },
{
    if d.len() == 0 {
        return u32::MAX;
    }
    for i in 0..d.len()
        invariant
            forall|j: int| 0 <= j < i ==> ascii::is_digit(#[trigger] d@[j]),
    {
        if d[i] < ZERO || d[i] > NINE {
            assert(!ascii::is_digit(d@[i as int]));
            return u32::MAX;
        }
    }
    let mut v: u32 = 0;
    for i in 0..d.len()
        invariant
            d@.len() > 0,
            all_digits(d@),
            v == value(d@.take(i as int)),
    {
        assert(ascii::is_digit(d@[i as int]));
        let w: u64 = v as u64 * 10 + (d[i] - ZERO) as u64;
        proof {
            assert(d@.take(i + 1).drop_last() =~= d@.take(i as int));
            lemma_value_grows(d@, i + 1);
        }
        if w > u32::MAX as u64 {
            return u32::MAX;
        }
        v = w as u32;
    }
    assert(d@.take(d@.len() as int) =~= d@);
    v
}

/// The thresholds that a list of six parts spells.
pub open spec fn thresholds_in(text: Seq<u8>) -> Option<Seq<int>> {
    let ps = balance::parts(text, 0);
    if ps.len() == 6 {
        Some(Seq::new(6, |i: int| threshold(ps[i])))
    } else {
        None
    }
}

/// The six thresholds that a list spells. There are none where it has not six
/// parts.
pub fn parse_thresholds(text: &[u8]) -> (r: Option<[u32; 6]>)
    ensures
        match r {
            Some(t) => balance::parts(text@, 0).len() == 6 && forall|i: int|
                0 <= i < 6 ==> #[trigger] t[i] == threshold(balance::parts(text@, 0)[i]),
            None => balance::parts(text@, 0).len() != 6,
        },
        match r {
            Some(t) => thresholds_in(text@) == Some(Seq::new(6, |i: int| t[i] as int)),
            None => thresholds_in(text@) is None,
        },
{
    let parts = split_list(text);
    let ghost ps = balance::parts(text@, 0);
    assert(ps.len() == parts@.len());
    if parts.len() != 6 {
        return None;
    }
    let mut t: [u32; 6] = [u32::MAX;6];
    for i in 0..6usize
        invariant
            parts@.len() == 6,
            ps == balance::parts(text@, 0),
            ps == Seq::new(
                parts@.len(),
                |j: int| text@.subrange(parts@[j].0 as int, parts@[j].1 as int),
            ),
            forall|j: int| 0 <= j < 6 ==> (#[trigger] parts@[j]).0 <= parts@[j].1 <= text@.len(),
            forall|j: int| 0 <= j < i ==> #[trigger] t[j] == threshold(ps[j]),
    {
        let (a, b) = parts[i];
        assert(parts@[i as int].0 <= parts@[i as int].1 <= text@.len());
        let part = &text[a..b];
        assert(part@ == ps[i as int]);
        let from: usize = if part.len() > 0 && part[0] == PLUS {
            1
        } else {
            0
        };
        let d = &part[from..part.len()];
        assert(d@ =~= unsigned(part@));
        t[i] = digits_value(d);
    }
    assert(Seq::new(6, |i: int| threshold(ps[i])) =~= Seq::new(6, |i: int| t[i] as int));
    Some(t)
}

} // verus!
