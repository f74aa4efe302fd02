//! How well the scores of an index agree with expected ones.
use vstd::prelude::*;
use vstd::arithmetic::power2;
use crate::binary::{self, round_ratio};
use crate::conn::{self, Finding, Scorer};
use crate::json::{self, as_array, as_bool, from_slice, member, number_bits, to_vec};
use crate::normalize;
use crate::quant;

verus! {

/// Five times the binary64 number in `bits`, rounded to the nearest integer,
/// halves away from zero. The product is rounded to fifty-three bits first. A
/// number that is not one, and one below the normal range, gives zero; there is
/// no such integer for an infinite one.
pub open spec fn fifths(bits: int) -> Option<int> {
    let exponent = bits / 0x10_0000_0000_0000 % 0x800;
    let fraction = bits % 0x10_0000_0000_0000;
    if exponent == 0x7ff {
        if fraction == 0 {
            None
        } else {
            Some(0)
        }
    } else if exponent == 0 {
        Some(0)
    } else {
        let p = binary::rounded((0x10_0000_0000_0000 + fraction) * 5, 1, 53);
        let e = p.1 + exponent - 1075;
        Some(
            quant::signed(
                bits >= 0x8000_0000_0000_0000,
                binary::half_up(binary::lowered(p.0, e), binary::raised(1, e)),
            ),
        )
    }
}

/// Whether five times the number in `bits` rounds to `count`.
pub fn is_fifths(bits: u64, count: u8) -> (r: bool)
    ensures
        r == (fifths(bits as int) == Some(count as int)),
{
    let exponent: u64 = bits / 0x10_0000_0000_0000 % 0x800;
    let fraction: u64 = bits % 0x10_0000_0000_0000;
    if exponent == 0x7ff {
        return fraction != 0 && count == 0;
    }
    if exponent == 0 {
        return count == 0;
    }
    proof {
        power2::lemma2_to64();
        power2::lemma2_to64_rest();
    }
    let n: u64 = 0x10_0000_0000_0000 + fraction;
    let p = round_ratio(n as u128 * 5, 1, 0x20_0000_0000_0000, Ghost(53nat));
    let r = quant::cell(p.0, p.1 + exponent as i32 - 1075);
    if bits >= 0x8000_0000_0000_0000 {
        r == 0 && count == 0
    } else {
        r == count as i16
    }
}

/// What was counted.
#[verifier::ext_equal]
pub ghost struct Counts {
    pub total: int,
    pub parse_fail: int,
    /// Approved transactions that were expected to be, denied ones too.
    pub approve_match: int,
    /// Denied, but expected to be approved.
    pub fp: int,
    /// Approved, but expected to be denied.
    pub fn_: int,
    /// Scores that are exactly as expected.
    pub exact: int,
    /// How many transactions have each count of fraudulent neighbours.
    pub score_hist: Seq<int>,
}

pub open spec fn no_counts() -> Counts {
    Counts {
        total: 0,
        parse_fail: 0,
        approve_match: 0,
        fp: 0,
        fn_: 0,
        exact: 0,
        score_hist: seq![0, 0, 0, 0, 0, 0],
    }
}

pub open spec fn one_if(b: bool) -> int {
    if b {
        1
    } else {
        0
    }
}

/// A transaction is approved with up to two fraudulent neighbours.
pub open spec fn is_approved(count: int) -> bool {
    count <= 2
}

/// The counts after one more transaction.
pub open spec fn counted(
    t: Counts,
    malformed: bool,
    count: int,
    approved: bool,
    score: int,
) -> Counts {
    Counts {
        total: t.total + 1,
        parse_fail: t.parse_fail + one_if(malformed),
        approve_match: t.approve_match + one_if(is_approved(count) == approved),
        fp: t.fp + one_if(!is_approved(count) && approved),
        fn_: t.fn_ + one_if(is_approved(count) && !approved),
        exact: t.exact + one_if(fifths(score) == Some(count)),
        score_hist: t.score_hist.update(count, t.score_hist[count] + 1),
    }
}

pub struct Tally {
    pub total: u64,
    pub parse_fail: u64,
    pub approve_match: u64,
    pub fp: u64,
    pub fn_: u64,
    pub exact: u64,
    pub score_hist: [u64; 6],
}

impl View for Tally {
    type V = Counts;

    open spec fn view(&self) -> Counts {
        Counts {
            total: self.total as int,
            parse_fail: self.parse_fail as int,
            approve_match: self.approve_match as int,
            fp: self.fp as int,
            fn_: self.fn_ as int,
            exact: self.exact as int,
            score_hist: Seq::new(6, |i: int| self.score_hist[i] as int),
        }
    }
}

/// How bad the mistakes are: a false negative is as bad as three false
/// positives.
pub open spec fn weight(t: Counts) -> int {
    t.fp + 3 * t.fn_
}

/// Every transaction is either as expected, a false positive or a false
/// negative, and has one count.
pub open spec fn adds_up(t: Counts) -> bool {
    &&& t.total == t.approve_match + t.fp + t.fn_
    &&& t.score_hist.len() == 6
    &&& t.total == t.score_hist[0] + t.score_hist[1] + t.score_hist[2] + t.score_hist[3]
        + t.score_hist[4] + t.score_hist[5]
    &&& 0 <= t.parse_fail <= t.total
    &&& 0 <= t.exact <= t.total
    &&& 0 <= t.approve_match
    &&& 0 <= t.fp
    &&& 0 <= t.fn_
    &&& forall|i: int| 0 <= i < 6 ==> 0 <= #[trigger] t.score_hist[i]
}

impl Tally {
    pub fn new() -> (r: Tally)
        ensures
            r@ == no_counts(),
            adds_up(r@),
    {
        let r = Tally {
            total: 0,
            parse_fail: 0,
            approve_match: 0,
            fp: 0,
            fn_: 0,
            exact: 0,
            score_hist: [0;6],
        };
        assert(r@.score_hist =~= no_counts().score_hist);
        r
    }

    /// Counts one transaction: its count of fraudulent neighbours, or none for
    /// one that is malformed; whether it was expected to be approved; and the
    /// binary64 bits of the score that was expected. A malformed one counts as
    /// one without fraudulent neighbours.
    pub fn add(&mut self, found: Option<u8>, approved: bool, score: u64)
        requires
            adds_up(old(self)@),
            old(self).total < u64::MAX,
            found matches Some(count) ==> count <= 5,
        ensures
            adds_up(final(self)@),
            final(self)@ == counted(
                old(self)@,
                found is None,
                match found {
                    Some(count) => count as int,
                    None => 0,
                },
                approved,
                score as int,
            ),
    {
        let ghost before = self@;
        let count: u8 = match found {
            Some(c) => c,
            None => 0,
        };
        let h = count as usize;
        assert(before.score_hist[h as int] == self.score_hist[h as int]);
        assert(before.score_hist[0] >= 0 && before.score_hist[1] >= 0 && before.score_hist[2] >= 0
            && before.score_hist[3] >= 0 && before.score_hist[4] >= 0 && before.score_hist[5] >= 0);
        self.total = self.total + 1;
        if found.is_none() {
            self.parse_fail = self.parse_fail + 1;
        }
        let more = self.score_hist[h] + 1;
        self.score_hist[h] = more;
        let accepted = count <= 2;
        if is_fifths(score, count) {
            self.exact = self.exact + 1;
        }
        if accepted == approved {
            self.approve_match = self.approve_match + 1;
        }
        if !accepted && approved {
            self.fp = self.fp + 1;
        }
        if accepted && !approved {
            self.fn_ = self.fn_ + 1;
        }
        assert(self@.score_hist =~= before.score_hist.update(
            h as int,
            before.score_hist[h as int] + 1,
        ));
    }

    /// False positives, and false negatives three times.
    pub fn weighted(&self) -> (r: u128)
        ensures
            r == self@.fp + 3 * self@.fn_,
            r == weight(self@),
    {
        self.fp as u128 + 3 * self.fn_ as u128
    }

    /// Whether every transaction was approved or denied as expected.
    pub fn passed(&self) -> (r: bool)
        requires
            adds_up(self@),
        ensures
            r == (self@.fp == 0 && self@.fn_ == 0),
            r == (self@.approve_match == self@.total),
    {
        self.fp == 0 && self.fn_ == 0
    }
}

/// Whether the entry with the compact text `e` was expected to be approved; yes
/// if it does not say.
pub open spec fn expects(e: Seq<u8>) -> bool {
    match json::json_bool(json::json_member(e, "expected_approved"@)) {
        Some(b) => b,
        None => true,
    }
}

/// The bits of the score that the entry expects; those of zero if it does not
/// say.
pub open spec fn expected_score(e: Seq<u8>) -> int {
    match json::json_number(json::json_member(e, "expected_fraud_score"@)) {
        Some(x) => x as int,
        None => 0,
    }
}

/// The counts of the first `n` entries. There are none where a transaction has
/// more than five fraudulent neighbours, or the search for them cannot be done.
pub open spec fn tallied(s: conn::Settings, entries: Seq<Seq<u8>>, n: int) -> Option<Counts>
    decreases n,
{
    if n <= 0 {
        Some(no_counts())
    } else {
        let e = entries[n - 1];
        let request = json::json_member(e, "request"@);
        let count = conn::score(s, request);
        match tallied(s, entries, n - 1) {
            Some(t) => if conn::can_score(s, request) && count <= 5 {
                Some(
                    counted(
                        t,
                        normalize::normalized(request) is None,
                        count,
                        expects(e),
                        expected_score(e),
                    ),
                )
            } else {
                None
            },
            None => None,
        }
    }
}

proof fn lemma_tallied_none(s: conn::Settings, entries: Seq<Seq<u8>>, n: int, m: int)
    requires
        n <= m,
        tallied(s, entries, n) is None,
    ensures
        tallied(s, entries, m) is None,
    decreases m,
{
    if n < m {
        lemma_tallied_none(s, entries, n, m - 1);
    }
}

/// Counts the entry `e`. Whether it could be counted is the result.
fn add_entry(tally: &mut Tally, scorer: &Scorer, e: &serde_json::Value) -> (ok: bool)
    requires
        scorer.wf(),
        adds_up(old(tally)@),
        old(tally).total < u64::MAX,
    ensures
        ({
            let text = json::json_text(*e);
            let request = json::json_member(text, "request"@);
            let count = conn::score(scorer@, request);
            &&& ok == (conn::can_score(scorer@, request) && count <= 5)
            &&& ok ==> adds_up(final(tally)@) && final(tally)@ == counted(
                old(tally)@,
                normalize::normalized(request) is None,
                count,
                expects(text),
                expected_score(text),
            )
        }),
{
    let body = to_vec(member(e, "request"));
    let approved = match as_bool(member(e, "expected_approved")) {
        Some(b) => b,
        None => true,
    };
    let score = match number_bits(member(e, "expected_fraud_score")) {
        Some(x) => x,
        None => 0,
    };
    match scorer.score_of(body.as_slice()) {
        Finding::Count { count } => {
            if count > 5 {
                return false;
            }
            tally.add(Some(count), approved, score);
        },
        Finding::Malformed => {
            tally.add(None, approved, score);
        },
        Finding::Unreadable => {
            return false;
        },
    }
    true
}

/// The compact texts of the entries of the test data in `document`.
pub open spec fn entries_of(document: Seq<u8>) -> Option<Seq<Seq<u8>>> {
    match json::json_parsed(document) {
        None => None,
        Some(text) => json::json_elements(json::json_member(text, "entries"@)),
    }
}

/// Scores the entries of the test data in `document` and counts how the scores
/// agree with the expected ones. There are no counts where the document is no
/// JSON, has no list of entries, or has one with more than five fraudulent
/// neighbours or one for which the search cannot be done.
pub fn evaluate(document: &[u8], scorer: &Scorer) -> (r: Option<Tally>)
    requires
        scorer.wf(),
    ensures
        ({
            let entries = match json::json_parsed(document@) {
                Some(text) => json::json_elements(json::json_member(text, "entries"@)),
                None => None,
            };
            match r {
                Some(t) => entries matches Some(es) && tallied(scorer@, es, es.len() as int)
                    == Some(t@) && adds_up(t@) && t@.total == es.len(),
                None => entries matches Some(es) ==> tallied(scorer@, es, es.len() as int) is None,
            }
        }),
        r matches Some(t) ==> entries_of(document@) matches Some(es) && tallied(
            scorer@,
            es,
            es.len() as int,
        ) == Some(t@),
        r is None ==> (entries_of(document@) matches Some(es) ==> tallied(
            scorer@,
            es,
            es.len() as int,
        ) is None),
{
    let data = match from_slice(document) {
        Some(v) => v,
        None => {
            return None;
        },
    };
    let list = match as_array(member(&data, "entries")) {
        Some(a) => a,
        None => {
            return None;
        },
    };
    let ghost es = Seq::new(list@.len(), |i: int| json::json_text(list@[i]));
    let mut tally = Tally::new();
    for i in 0..list.len()
        invariant
            scorer.wf(),
            es == Seq::new(list@.len(), |j: int| json::json_text(list@[j])),
            es.len() == list.len(),
            adds_up(tally@),
            tally.total == i,
            tallied(scorer@, es, i as int) == Some(tally@),
            json::json_parsed(document@) is Some,
            json::json_elements(
                json::json_member(json::json_parsed(document@)->0, "entries"@),
            ) == Some(es),
    {
        let ok = add_entry(&mut tally, scorer, &list[i]);
        if !ok {
            proof {
                assert(tallied(scorer@, es, i + 1) is None);
                lemma_tallied_none(scorer@, es, i + 1, es.len() as int);
            }
            return None;
        }
    }
    Some(tally)
}

} // verus!
