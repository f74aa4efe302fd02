//! The reference set: vectors with labels, read off its JSON text.
//!
//! The text is taken apart here; what a decimal number is worth is for the
//! caller to say.
use vstd::prelude::*;
use vstd::string::*;
use crate::ascii::{
    CLOSE_BRACE, CLOSE_BRACKET, COMMA, CR, LF, OPEN_BRACE, OPEN_BRACKET, SPACE, TAB,
};
use crate::format::DIMS;
use crate::quant::{self, quantize};

verus! {

/// The first place from `p` on where an object opens or the list closes.
pub open spec fn next_object(buf: Seq<u8>, p: int) -> int
    decreases buf.len() - p,
{
    if p >= buf.len() || buf[p] == OPEN_BRACE || buf[p] == CLOSE_BRACKET {
        p
    } else {
        next_object(buf, p + 1)
    }
}

/// Where the object that is `depth` braces deep at `q` closes; the end if it
/// does not.
pub open spec fn object_close(buf: Seq<u8>, q: int, depth: int) -> int
    decreases buf.len() - q,
{
    if q >= buf.len() {
        q
    } else if buf[q] == OPEN_BRACE {
        object_close(buf, q + 1, depth + 1)
    } else if buf[q] == CLOSE_BRACE {
        if depth - 1 == 0 {
            q
        } else {
            object_close(buf, q + 1, depth - 1)
        }
    } else {
        object_close(buf, q + 1, depth)
    }
}

/// The end of the object that opens at `p`.
pub open spec fn object_end(buf: Seq<u8>, p: int) -> int {
    if object_close(buf, p, 0) < buf.len() {
        object_close(buf, p, 0) + 1
    } else {
        buf.len() as int
    }
}

/// The first place from `p` up to `e` where a list opens.
pub open spec fn list_open(buf: Seq<u8>, p: int, e: int) -> int
    decreases e - p,
{
    if p >= e || buf[p] == OPEN_BRACKET {
        p
    } else {
        list_open(buf, p + 1, e)
    }
}

pub open spec fn is_separator(c: u8) -> bool {
    c == SPACE || c == TAB || c == CR || c == LF || c == COMMA
}

pub open spec fn past_separators(buf: Seq<u8>, p: int, e: int) -> int
    decreases e - p,
{
    if p < e && is_separator(buf[p]) {
        past_separators(buf, p + 1, e)
    } else {
        p
    }
}

pub open spec fn token_end(buf: Seq<u8>, p: int, e: int) -> int
    decreases e - p,
{
    if p < e && !is_separator(buf[p]) && buf[p] != CLOSE_BRACKET {
        token_end(buf, p + 1, e)
    } else {
        p
    }
}

/// Where up to `n` numbers of a list stand, from `p` up to `e`.
pub open spec fn tokens(buf: Seq<u8>, p: int, e: int, n: int) -> Seq<(int, int)>
    decreases n,
{
    let s = past_separators(buf, p, e);
    if n <= 0 || s >= e || buf[s] == CLOSE_BRACKET {
        Seq::empty()
    } else {
        seq![(s, token_end(buf, s, e))] + tokens(buf, token_end(buf, s, e), e, n - 1)
    }
}

/// The word `fraud` stands somewhere from `p` up to `e`.
pub open spec fn says_fraud(buf: Seq<u8>, p: int, e: int) -> bool {
    exists|i: int| p <= i && i + 5 <= e && #[trigger] fraud_at(buf, i)
}

pub open spec fn fraud_at(buf: Seq<u8>, i: int) -> bool {
    buf.subrange(i, i + 5) == "fraud".spec_bytes()
}

/// Where the numbers of the vector of the object from `p` up to `e` stand.
pub open spec fn vector_of(buf: Seq<u8>, p: int, e: int) -> Seq<(int, int)> {
    let a = list_open(buf, p, e);
    if a >= e {
        Seq::empty()
    } else {
        tokens(buf, a + 1, e, 14)
    }
}

/// Where the numbers of all vectors stand, and the labels.
#[verifier::ext_equal]
pub ghost struct Records {
    pub tokens: Seq<(int, int)>,
    pub labels: Seq<u8>,
}

pub proof fn lemma_next_object(buf: Seq<u8>, p: int)
    requires
        0 <= p <= buf.len(),
    ensures
        p <= next_object(buf, p) <= buf.len(),
    decreases buf.len() - p,
{
    if p < buf.len() && buf[p] != OPEN_BRACE && buf[p] != CLOSE_BRACKET {
        lemma_next_object(buf, p + 1);
    }
}

pub proof fn lemma_object_close(buf: Seq<u8>, q: int, depth: int)
    requires
        0 <= q <= buf.len(),
    ensures
        q <= object_close(buf, q, depth) <= buf.len(),
    decreases buf.len() - q,
{
    if q < buf.len() {
        if buf[q] == OPEN_BRACE {
            lemma_object_close(buf, q + 1, depth + 1);
        } else if buf[q] == CLOSE_BRACE {
            if depth - 1 != 0 {
                lemma_object_close(buf, q + 1, depth - 1);
            }
        } else {
            lemma_object_close(buf, q + 1, depth);
        }
    }
}

/// The object from `p` up to `e` adds its vector, if that has all of its
/// numbers, and its label.
pub open spec fn record(buf: Seq<u8>, p: int, e: int) -> Records {
    if vector_of(buf, p, e).len() == 14 {
        Records {
            tokens: vector_of(buf, p, e),
            labels: seq![
                if says_fraud(buf, p, e) {
                    1u8
                } else {
                    0
                },
            ],
        }
    } else {
        Records { tokens: Seq::empty(), labels: Seq::empty() }
    }
}

/// The records from `p` on.
pub open spec fn records(buf: Seq<u8>, p: int) -> Records
    decreases buf.len() - p,
{
    let s = next_object(buf, p);
    if p < 0 || s >= buf.len() || buf[s] == CLOSE_BRACKET {
        Records { tokens: Seq::empty(), labels: Seq::empty() }
    } else {
        proof {
            lemma_next_object(buf, p);
            lemma_object_close(buf, s, 0);
        }
        let first = record(buf, s, object_end(buf, s));
        let rest = records(buf, object_end(buf, s));
        Records { tokens: first.tokens + rest.tokens, labels: first.labels + rest.labels }
    }
}

// ---------------------------------------------------------------------------
// Reading
// ---------------------------------------------------------------------------

fn find_object(buf: &[u8], from: usize) -> (r: usize)
    requires
        from <= buf.len(),
    ensures
        r == next_object(buf@, from as int),
        from <= r <= buf@.len(),
{
    let mut p = from;
    while p < buf.len() && buf[p] != OPEN_BRACE && buf[p] != CLOSE_BRACKET
        invariant
            from <= p <= buf@.len(),
            next_object(buf@, p as int) == next_object(buf@, from as int),
        decreases buf@.len() - p,
    {
        p = p + 1;
    }
    p
}

fn find_close(buf: &[u8], from: usize) -> (r: usize)
    requires
        from <= buf.len(),
    ensures
        r == object_close(buf@, from as int, 0),
        from <= r <= buf@.len(),
{
    let mut q = from;
    let mut depth: i128 = 0;
    while q < buf.len()
        invariant
            from <= q <= buf.len(),
            from - q <= depth <= q - from,
            object_close(buf@, q as int, depth as int) == object_close(buf@, from as int, 0),
        decreases buf@.len() - q,
    {
        let c = buf[q];
        if c == OPEN_BRACE {
            depth = depth + 1;
        } else if c == CLOSE_BRACE {
            depth = depth - 1;
            if depth == 0 {
                return q;
            }
        }
        q = q + 1;
    }
    q
}

fn find_list(buf: &[u8], from: usize, end: usize) -> (r: usize)
    requires
        from <= end <= buf.len(),
    ensures
        r == list_open(buf@, from as int, end as int),
        from <= r <= end,
{
    let mut p = from;
    while p < end && buf[p] != OPEN_BRACKET
        invariant
            from <= p <= end <= buf@.len(),
            list_open(buf@, p as int, end as int) == list_open(buf@, from as int, end as int),
        decreases end - p,
    {
        p = p + 1;
    }
    p
}

fn separates(c: u8) -> (r: bool)
    ensures
        r == is_separator(c),
{
    c == SPACE || c == TAB || c == CR || c == LF || c == COMMA
}

fn skip_separators(buf: &[u8], from: usize, end: usize) -> (r: usize)
    requires
        from <= end <= buf.len(),
    ensures
        r == past_separators(buf@, from as int, end as int),
        from <= r <= end,
{
    let mut p = from;
    while p < end && separates(buf[p])
        invariant
            from <= p <= end <= buf@.len(),
            past_separators(buf@, p as int, end as int) == past_separators(
                buf@,
                from as int,
                end as int,
            ),
        decreases end - p,
    {
        p = p + 1;
    }
    p
}

fn skip_token(buf: &[u8], from: usize, end: usize) -> (r: usize)
    requires
        from <= end <= buf.len(),
    ensures
        r == token_end(buf@, from as int, end as int),
        from <= r <= end,
{
    let mut p = from;
    while p < end && !separates(buf[p]) && buf[p] != CLOSE_BRACKET
        invariant
            from <= p <= end <= buf@.len(),
            token_end(buf@, p as int, end as int) == token_end(buf@, from as int, end as int),
        decreases end - p,
    {
        p = p + 1;
    }
    p
}

/// The places as mathematical integers.
pub open spec fn places(s: Seq<(usize, usize)>) -> Seq<(int, int)> {
    s.map_values(|x: (usize, usize)| (x.0 as int, x.1 as int))
}

/// Every place lies in a text of length `n`.
pub open spec fn in_text(s: Seq<(usize, usize)>, n: int) -> bool {
    forall|i: int| 0 <= i < s.len() ==> (#[trigger] s[i]).0 <= s[i].1 <= n
}

fn take_tokens(buf: &[u8], from: usize, end: usize) -> (r: Vec<(usize, usize)>)
    requires
        from <= end <= buf.len(),
    ensures
        places(r@) == tokens(buf@, from as int, end as int, 14),
        in_text(r@, buf@.len() as int),
{
    let mut r: Vec<(usize, usize)> = Vec::new();
    let mut p = from;
    let ghost goal = tokens(buf@, from as int, end as int, 14);
    assert(places(r@) + goal =~= goal);
    while r.len() < DIMS
        invariant
            from <= p <= end <= buf@.len(),
            r@.len() <= 14,
            in_text(r@, buf@.len() as int),
            goal == tokens(buf@, from as int, end as int, 14),
            places(r@) + tokens(buf@, p as int, end as int, 14 - r@.len()) == goal,
        decreases 14 - r@.len(),
    {
        let s = skip_separators(buf, p, end);
        if s >= end || buf[s] == CLOSE_BRACKET {
            assert(places(r@) + Seq::<(int, int)>::empty() =~= places(r@));
            return r;
        }
        let t = skip_token(buf, s, end);
        let ghost before = r@;
        let ghost rest = tokens(buf@, t as int, end as int, 14 - r@.len() - 1);
        let ghost one = (s as int, t as int);
        r.push((s, t));
        assert(places(r@) =~= places(before).push(one));
        assert(places(before) + (seq![one] + rest) =~= places(r@) + rest);
        p = t;
    }
    assert(places(r@) + Seq::<(int, int)>::empty() =~= places(r@));
    r
}

fn has_fraud(buf: &[u8], from: usize, end: usize) -> (r: bool)
    requires
        from <= end <= buf.len(),
    ensures
        r == says_fraud(buf@, from as int, end as int),
{
    let word = "fraud".as_bytes();
    proof {
        reveal_strlit("fraud");
        is_ascii_spec_bytes("fraud");
    }
    let mut i = from;
    while i < end && end - i >= 5
        invariant
            from <= i <= end <= buf.len(),
            word@ == "fraud".spec_bytes(),
            word@.len() == 5,
            forall|j: int| from <= j < i && j + 5 <= end ==> !#[trigger] fraud_at(buf@, j),
        decreases end - i,
    {
        if crate::ascii::same_bytes(&buf[i..i + 5], word) {
            assert(fraud_at(buf@, i as int));
            return true;
        }
        i = i + 1;
    }
    false
}

/// Where the numbers of a vector stand, and the label that goes with it.
pub struct References {
    /// Fourteen places for each record, one record behind the other.
    pub tokens: Vec<(usize, usize)>,
    /// The label of each record: one for fraud, zero if not.
    pub labels: Vec<u8>,
}

impl View for References {
    type V = Records;

    open spec fn view(&self) -> Records {
        Records { tokens: places(self.tokens@), labels: self.labels@ }
    }
}

impl References {
    /// Adds the object from `s` up to `e`.
    fn add(&mut self, buf: &[u8], s: usize, e: usize)
        requires
            s <= e <= buf.len(),
            in_text(old(self).tokens@, buf@.len() as int),
        ensures
            in_text(final(self).tokens@, buf@.len() as int),
            final(self)@.tokens == old(self)@.tokens + record(buf@, s as int, e as int).tokens,
            final(self)@.labels == old(self)@.labels + record(buf@, s as int, e as int).labels,
    {
        let ghost before = self@;
        let a = find_list(buf, s, e);
        if a >= e {
            assert(before.tokens + Seq::<(int, int)>::empty() =~= before.tokens);
            assert(before.labels + Seq::<u8>::empty() =~= before.labels);
            return ;
        }
        let found = take_tokens(buf, a + 1, e);
        if found.len() < DIMS {
            assert(before.tokens + Seq::<(int, int)>::empty() =~= before.tokens);
            assert(before.labels + Seq::<u8>::empty() =~= before.labels);
            return ;
        }
        proof {
            lemma_tokens_len(buf@, a + 1, e as int, 14);
        }
        for i in 0..found.len()
            invariant
                in_text(found@, buf@.len() as int),
                in_text(self.tokens@, buf@.len() as int),
                self@.tokens == before.tokens + places(found@).take(i as int),
                self@.labels == before.labels,
        {
            let ghost now = self.tokens@;
            self.tokens.push(found[i]);
            assert(places(self.tokens@) =~= places(now).push(places(found@)[i as int]));
            assert(places(found@).take(i + 1) =~= places(found@).take(i as int).push(
                places(found@)[i as int],
            ));
        }
        assert(places(found@).take(found@.len() as int) =~= places(found@));
        let fraud = has_fraud(buf, s, e);
        self.labels.push(if fraud {
            1
        } else {
            0
        });
        assert(self@.labels =~= before.labels + record(buf@, s as int, e as int).labels);
    }
}

proof fn lemma_tokens_len(buf: Seq<u8>, p: int, e: int, n: int)
    requires
        0 <= n,
    ensures
        tokens(buf, p, e, n).len() <= n,
    decreases n,
{
    let s = past_separators(buf, p, e);
    if n > 0 && s < e && buf[s] != CLOSE_BRACKET {
        lemma_tokens_len(buf, token_end(buf, s, e), e, n - 1);
    }
}

/// The records of the text `buf`: up to the first bracket that closes outside
/// an object, each object whose first list begins with fourteen numbers.
pub fn parse_references(buf: &[u8]) -> (r: References)
    ensures
        r@ == records(buf@, 0),
        in_text(r.tokens@, buf@.len() as int),
        r.tokens@.len() == 14 * r.labels@.len(),
{
    let mut r = References { tokens: Vec::new(), labels: Vec::new() };
    let ghost goal = records(buf@, 0);
    let mut p: usize = 0;
    assert(r@.tokens + goal.tokens =~= goal.tokens);
    assert(r@.labels + goal.labels =~= goal.labels);
    loop
        invariant
            p <= buf.len(),
            goal == records(buf@, 0),
            in_text(r.tokens@, buf@.len() as int),
            r.tokens@.len() == 14 * r.labels@.len(),
            r@.tokens + records(buf@, p as int).tokens == goal.tokens,
            r@.labels + records(buf@, p as int).labels == goal.labels,
        decreases buf@.len() - p,
    {
        let s = find_object(buf, p);
        if s >= buf.len() || buf[s] == CLOSE_BRACKET {
            assert(r@.tokens + Seq::<(int, int)>::empty() =~= r@.tokens);
            assert(r@.labels + Seq::<u8>::empty() =~= r@.labels);
            return r;
        }
        let q = find_close(buf, s);
        let e = if q < buf.len() {
            q + 1
        } else {
            q
        };
        let ghost before = r@;
        let ghost one = record(buf@, s as int, e as int);
        let ghost rest = records(buf@, e as int);
        r.add(buf, s, e);
        assert(before.tokens + (one.tokens + rest.tokens) =~= (before.tokens + one.tokens)
            + rest.tokens);
        assert(before.labels + (one.labels + rest.labels) =~= (before.labels + one.labels)
            + rest.labels);
        p = e;
    }
}

/// The vectors whose numbers have the binary64 bits `bits`.
pub fn quantize_all(bits: &[u64]) -> (r: Vec<i16>)
    ensures
        r@.len() == bits@.len(),
        forall|i: int|
            0 <= i < r@.len() ==> #[trigger] r@[i] == quant::quantized(bits@[i] as int),
{
    let mut r: Vec<i16> = Vec::new();
    for i in 0..bits.len()
        invariant
            r@.len() == i,
            forall|j: int| 0 <= j < i ==> #[trigger] r@[j] == quant::quantized(bits@[j] as int),
    {
        r.push(quantize(bits[i]));
    }
    r
}

} // verus!
