//! The reference set object by object: its numbers and its labels.
use vstd::prelude::*;
use vstd::string::*;
use crate::ascii::{CLOSE_BRACE, CLOSE_BRACKET, OPEN_BRACE, OPEN_BRACKET};
use crate::members;
use crate::references;

verus! {

/// The word `fraud` stands somewhere in the text.
pub open spec fn says_fraud(t: Seq<u8>) -> bool {
    exists|a: Seq<u8>, b: Seq<u8>| t == #[trigger] (a + "fraud".spec_bytes() + b)
}

/// An object is fraud if and only if the word stands somewhere in its text,
/// however long what stands before it and behind it is.
pub proof fn law_label_is_word(buf: Seq<u8>, p: int, e: int)
    requires
        0 <= p <= e <= buf.len(),
        references::vector_of(buf, p, e).len() == 14,
    ensures
        references::record(buf, p, e).labels.len() == 1,
        references::record(buf, p, e).labels[0] == 1 <==> says_fraud(buf.subrange(p, e)),
        references::record(buf, p, e).labels[0] == 0 <==> !says_fraud(buf.subrange(p, e)),
{
    let word = "fraud".spec_bytes();
    let t = buf.subrange(p, e);
    reveal_strlit("fraud");
    is_ascii_spec_bytes("fraud");
    assert(word.len() == 5);
    if references::says_fraud(buf, p, e) {
        let i = choose|i: int| p <= i && i + 5 <= e && #[trigger] references::fraud_at(buf, i);
        let a = buf.subrange(p, i);
        let b = buf.subrange(i + 5, e);
        assert forall|k: int| 0 <= k < 5 implies buf[i + k] == #[trigger] word[k] by {
            assert(buf.subrange(i, i + 5)[k] == word[k]);
        }
        assert(t =~= a + word + b) by {
            assert forall|k: int| 0 <= k < t.len() implies #[trigger] t[k] == (a + word + b)[k] by {
                if a.len() <= k < a.len() + 5 {
                    assert(buf[i + (k - a.len())] == word[k - a.len()]);
                }
            }
        }
    }
    if says_fraud(t) {
        let (a, b) = choose|a: Seq<u8>, b: Seq<u8>| t == #[trigger] (a + word + b);
        let i = p + a.len();
        assert(buf.subrange(i, i + 5) =~= word) by {
            assert forall|k: int| 0 <= k < 5 implies #[trigger] buf.subrange(i, i + 5)[k]
                == word[k] by {
                assert(t[a.len() + k] == (a + word + b)[a.len() + k]);
            }
        }
        assert(references::fraud_at(buf, i));
    }
}

// ---------------------------------------------------------------------------
// Objects
// ---------------------------------------------------------------------------

/// A number in a list, with what stands before it.
pub ghost struct Number {
    pub gap: Seq<u8>,
    pub text: Seq<u8>,
}

/// An object with a list of numbers.
pub ghost struct Entry {
    /// What stands before the object.
    pub lead: Seq<u8>,
    /// What stands in the object before the list.
    pub head: Seq<u8>,
    pub numbers: Seq<Number>,
    /// What stands behind the last number.
    pub end: Seq<u8>,
    /// What stands in the object behind the list.
    pub rest: Seq<u8>,
}

pub open spec fn numbers_text(ns: Seq<Number>) -> Seq<u8>
    decreases ns.len(),
{
    if ns.len() == 0 {
        Seq::empty()
    } else {
        ns[0].gap + ns[0].text + numbers_text(ns.drop_first())
    }
}

/// What stands between the braces of the object.
pub open spec fn inside(x: Entry) -> Seq<u8> {
    x.head + seq![OPEN_BRACKET] + (numbers_text(x.numbers) + x.end + seq![CLOSE_BRACKET]) + x.rest
}

pub open spec fn object_text(x: Entry) -> Seq<u8> {
    seq![OPEN_BRACE] + inside(x) + seq![CLOSE_BRACE]
}

pub open spec fn entries_text(xs: Seq<Entry>) -> Seq<u8>
    decreases xs.len(),
{
    if xs.len() == 0 {
        Seq::empty()
    } else {
        xs[0].lead + object_text(xs[0]) + entries_text(xs.drop_first())
    }
}

/// How many more braces open than close.
pub open spec fn net(t: Seq<u8>) -> int
    decreases t.len(),
{
    if t.len() == 0 {
        0
    } else {
        net(t.drop_last()) + if t.last() == OPEN_BRACE {
            1int
        } else if t.last() == CLOSE_BRACE {
            -1
        } else {
            0
        }
    }
}

/// No brace closes that has not opened.
pub open spec fn is_inner(t: Seq<u8>) -> bool {
    forall|i: int| 0 <= i <= t.len() ==> #[trigger] net(t.take(i)) >= 0
}

/// Every brace that opens closes, and none closes that has not opened.
pub open spec fn is_balanced(t: Seq<u8>) -> bool {
    net(t) == 0 && is_inner(t)
}

/// White space and commas.
pub open spec fn is_gap(g: Seq<u8>) -> bool {
    members::is_gap(g)
}

pub open spec fn is_number(x: Number) -> bool {
    &&& is_gap(x.gap)
    &&& x.text.len() > 0
    &&& forall|i: int|
        0 <= i < x.text.len() ==> !#[trigger] members::is_gap(seq![x.text[i]]) && x.text[i]
            != CLOSE_BRACKET
}

/// What stands where no object opens and the list does not end.
pub open spec fn is_between(t: Seq<u8>) -> bool {
    forall|i: int| 0 <= i < t.len() ==> (#[trigger] t[i]) != OPEN_BRACE && t[i] != CLOSE_BRACKET
}

pub open spec fn are_numbers(ns: Seq<Number>) -> bool {
    &&& forall|i: int| 0 <= i < ns.len() ==> is_number(#[trigger] ns[i])
    &&& forall|i: int| 1 <= i < ns.len() ==> (#[trigger] ns[i]).gap.len() > 0
}

pub open spec fn is_entry(x: Entry) -> bool {
    &&& is_between(x.lead)
    &&& forall|i: int| 0 <= i < x.head.len() ==> #[trigger] x.head[i] != OPEN_BRACKET
    &&& are_numbers(x.numbers)
    &&& is_gap(x.end)
    &&& is_balanced(inside(x))
}

/// The labels of the objects that have fourteen numbers: one where the word
/// `fraud` stands in the object, else zero.
pub open spec fn labels_told(xs: Seq<Entry>) -> Seq<u8>
    decreases xs.len(),
{
    if xs.len() == 0 {
        Seq::empty()
    } else {
        let rest = labels_told(xs.drop_first());
        if xs[0].numbers.len() < 14 {
            rest
        } else if says_fraud(object_text(xs[0])) {
            seq![1u8] + rest
        } else {
            seq![0u8] + rest
        }
    }
}

/// The first fourteen numbers of the objects that have as many.
pub open spec fn numbers_told(xs: Seq<Entry>) -> Seq<Seq<u8>>
    decreases xs.len(),
{
    if xs.len() == 0 {
        Seq::empty()
    } else {
        let rest = numbers_told(xs.drop_first());
        if xs[0].numbers.len() < 14 {
            rest
        } else {
            Seq::new(14, |i: int| xs[0].numbers[i].text) + rest
        }
    }
}

/// What stands at the places.
pub open spec fn texts(buf: Seq<u8>, places: Seq<(int, int)>) -> Seq<Seq<u8>> {
    Seq::new(places.len(), |i: int| buf.subrange(places[i].0, places[i].1))
}

// ---------------------------------------------------------------------------
// Reading them
// ---------------------------------------------------------------------------

proof fn lemma_separators(g: Seq<u8>, c: u8)
    ensures
        is_gap(g) ==> forall|i: int| 0 <= i < g.len() ==> references::is_separator(#[trigger] g[i]),
        !members::is_gap(seq![c]) ==> !references::is_separator(c),
{
    if references::is_separator(c) {
        assert(members::is_gap(seq![c]));
    }
}

proof fn lemma_next_is(buf: Seq<u8>, p: int, s: int)
    requires
        0 <= p <= s < buf.len(),
        forall|i: int|
            p <= i < s ==> (#[trigger] buf[i]) != OPEN_BRACE && buf[i] != CLOSE_BRACKET,
        buf[s] == OPEN_BRACE || buf[s] == CLOSE_BRACKET,
    ensures
        references::next_object(buf, p) == s,
    decreases s - p,
{
    if p < s {
        assert(buf[p] != OPEN_BRACE);
        lemma_next_is(buf, p + 1, s);
    }
}

proof fn lemma_list_is(buf: Seq<u8>, p: int, a: int, e: int)
    requires
        0 <= p <= a < e <= buf.len(),
        forall|i: int| p <= i < a ==> #[trigger] buf[i] != OPEN_BRACKET,
        buf[a] == OPEN_BRACKET,
    ensures
        references::list_open(buf, p, e) == a,
    decreases a - p,
{
    if p < a {
        lemma_list_is(buf, p + 1, a, e);
    }
}

proof fn lemma_past_is(buf: Seq<u8>, p: int, s: int, e: int)
    requires
        0 <= p <= s < e <= buf.len(),
        forall|i: int| p <= i < s ==> references::is_separator(#[trigger] buf[i]),
        !references::is_separator(buf[s]),
    ensures
        references::past_separators(buf, p, e) == s,
    decreases s - p,
{
    if p < s {
        lemma_past_is(buf, p + 1, s, e);
    }
}

proof fn lemma_token_is(buf: Seq<u8>, p: int, t: int, e: int)
    requires
        0 <= p <= t < e <= buf.len(),
        forall|i: int|
            p <= i < t ==> !references::is_separator(#[trigger] buf[i]) && buf[i] != CLOSE_BRACKET,
        references::is_separator(buf[t]) || buf[t] == CLOSE_BRACKET,
    ensures
        references::token_end(buf, p, e) == t,
    decreases t - p,
{
    if p < t {
        lemma_token_is(buf, p + 1, t, e);
    }
}

/// The braces inside an object lead back to its own depth.
proof fn lemma_inside(buf: Seq<u8>, q: int, t: Seq<u8>, i: int)
    requires
        members::at(buf, q, t),
        is_inner(t),
        0 <= i <= t.len(),
    ensures
        references::object_close(buf, q, 1) == references::object_close(
            buf,
            q + i,
            1 + net(t.take(i)),
        ),
    decreases i,
{
    if i == 0 {
        assert(net(t.take(0)) == 0);
    } else {
        lemma_inside(buf, q, t, i - 1);
        members::lemma_at(buf, q, t);
        let u = t.take(i);
        assert(u.drop_last() =~= t.take(i - 1));
        assert(u.last() == t[i - 1]);
        assert(buf[q + i - 1] == t[i - 1]);
        assert(net(t.take(i - 1)) >= 0 && net(t.take(i)) >= 0);
    }
}

proof fn lemma_object(buf: Seq<u8>, s: int, x: Entry)
    requires
        members::at(buf, s, object_text(x)),
        is_balanced(inside(x)),
    ensures
        references::object_end(buf, s) == s + object_text(x).len(),
{
    let t = inside(x);
    let o = object_text(x);
    members::lemma_at(buf, s, o);
    members::lemma_split(buf, s, seq![OPEN_BRACE] + t, seq![CLOSE_BRACE]);
    members::lemma_split(buf, s, seq![OPEN_BRACE], t);
    lemma_inside(buf, s + 1, t, t.len() as int);
    assert(t.take(t.len() as int) =~= t);
    assert(buf[s] == o[0] && o[0] == OPEN_BRACE);
    let e = s + 1 + t.len();
    assert(buf[e] == o[e - s] && o[e - s] == CLOSE_BRACE);
    assert(references::object_close(buf, s, 0) == references::object_close(buf, s + 1, 1));
    assert(references::object_close(buf, e, 1) == e);
}

/// The numbers of a list are found where they stand.
proof fn lemma_numbers(buf: Seq<u8>, p: int, ns: Seq<Number>, end: Seq<u8>, e: int, n: int)
    requires
        0 <= n,
        are_numbers(ns),
        is_gap(end),
        members::at(buf, p, numbers_text(ns) + end + seq![CLOSE_BRACKET]),
        p + (numbers_text(ns) + end + seq![CLOSE_BRACKET]).len() <= e <= buf.len(),
    ensures
        ({
            let ts = references::tokens(buf, p, e, n);
            &&& ts.len() == if n < ns.len() {
                n
            } else {
                ns.len() as int
            }
            &&& forall|i: int| 0 <= i < ts.len() ==> #[trigger] texts(buf, ts)[i] == ns[i].text
        }),
    decreases ns.len(),
{
    let t = numbers_text(ns) + end + seq![CLOSE_BRACKET];
    members::lemma_at(buf, p, t);
    if n == 0 {
    } else if ns.len() == 0 {
        let s = p + end.len();
        lemma_separators(end, CLOSE_BRACKET);
        assert forall|i: int| p <= i < s implies references::is_separator(#[trigger] buf[i]) by {
            assert(buf[i] == t[i - p] && t[i - p] == end[i - p]);
        }
        assert(buf[s] == t[s - p] && t[s - p] == CLOSE_BRACKET);
        lemma_past_is(buf, p, s, e);
    } else {
        let x = ns[0];
        let rest = ns.drop_first();
        let more = numbers_text(rest) + end + seq![CLOSE_BRACKET];
        assert(is_number(x));
        assert(t =~= x.gap + x.text + more);
        members::lemma_split(buf, p, x.gap + x.text, more);
        let s = p + x.gap.len();
        let q = s + x.text.len();
        lemma_separators(x.gap, 0);
        assert forall|i: int| p <= i < s implies references::is_separator(#[trigger] buf[i]) by {
            assert(buf[i] == t[i - p] && t[i - p] == x.gap[i - p]);
        }
        assert forall|i: int| s <= i < q implies !references::is_separator(#[trigger] buf[i])
            && buf[i] != CLOSE_BRACKET by {
            assert(buf[i] == t[i - p] && t[i - p] == x.text[i - s]);
            assert(!members::is_gap(seq![x.text[i - s]]));
            lemma_separators(x.gap, x.text[i - s]);
        }
        assert(!references::is_separator(buf[s]));
        lemma_past_is(buf, p, s, e);
        assert(buf[q] == more[0]) by {
            assert(buf[q] == t[q - p]);
        }
        assert(references::is_separator(buf[q]) || buf[q] == CLOSE_BRACKET) by {
            if rest.len() > 0 {
                assert(rest[0] == ns[1]);
                assert(ns[1].gap.len() > 0 && is_number(ns[1]));
                lemma_separators(ns[1].gap, 0);
                assert(more[0] == ns[1].gap[0]);
            } else if end.len() > 0 {
                lemma_separators(end, 0);
                assert(more[0] == end[0]);
            } else {
                assert(more[0] == CLOSE_BRACKET);
            }
        }
        lemma_token_is(buf, s, q, e);
        assert(buf.subrange(s, q) =~= x.text) by {
            assert forall|i: int| 0 <= i < x.text.len() implies #[trigger] buf.subrange(s, q)[i]
                == x.text[i] by {
                assert(buf[s + i] == t[s + i - p]);
            }
        }
        assert forall|i: int| 0 <= i < rest.len() implies is_number(#[trigger] rest[i]) by {
            assert(rest[i] == ns[i + 1]);
        }
        assert forall|i: int| 1 <= i < rest.len() implies (#[trigger] rest[i]).gap.len() > 0 by {
            assert(rest[i] == ns[i + 1]);
        }
        lemma_numbers(buf, q, rest, end, e, n - 1);
        let us = references::tokens(buf, q, e, n - 1);
        let ts = references::tokens(buf, p, e, n);
        assert(ts == seq![(s, q)] + us);
        assert forall|i: int| 0 <= i < ts.len() implies #[trigger] texts(buf, ts)[i]
            == ns[i].text by {
            if i > 0 {
                assert(ts[i] == us[i - 1]);
                assert(texts(buf, us)[i - 1] == rest[i - 1].text);
            }
        }
    }
}

/// What an object adds.
proof fn lemma_entry(buf: Seq<u8>, s: int, x: Entry)
    requires
        is_entry(x),
        members::at(buf, s, object_text(x)),
    ensures
        ({
            let e = s + object_text(x).len();
            let r = references::record(buf, s, e);
            &&& references::object_end(buf, s) == e
            &&& r.labels == if x.numbers.len() < 14 {
                Seq::empty()
            } else if says_fraud(object_text(x)) {
                seq![1u8]
            } else {
                seq![0u8]
            }
            &&& texts(buf, r.tokens) == if x.numbers.len() < 14 {
                Seq::empty()
            } else {
                Seq::new(14, |i: int| x.numbers[i].text)
            }
        }),
{
    let o = object_text(x);
    let e = s + o.len();
    let list = numbers_text(x.numbers) + x.end + seq![CLOSE_BRACKET];
    lemma_object(buf, s, x);
    members::lemma_at(buf, s, o);
    members::lemma_split(buf, s, seq![OPEN_BRACE] + inside(x), seq![CLOSE_BRACE]);
    members::lemma_split(buf, s, seq![OPEN_BRACE], inside(x));
    members::lemma_split(buf, s + 1, x.head + seq![OPEN_BRACKET] + list, x.rest);
    members::lemma_split(buf, s + 1, x.head + seq![OPEN_BRACKET], list);
    let a = s + 1 + x.head.len();
    assert forall|i: int| s <= i < a implies #[trigger] buf[i] != OPEN_BRACKET by {
        assert(buf[i] == o[i - s]);
        if i > s {
            assert(o[i - s] == x.head[i - s - 1]);
        }
    }
    assert(buf[a] == o[a - s] && o[a - s] == OPEN_BRACKET);
    lemma_list_is(buf, s, a, e);
    lemma_numbers(buf, a + 1, x.numbers, x.end, e, 14);
    assert(buf.subrange(s, e) == o);
    let r = references::record(buf, s, e);
    if x.numbers.len() >= 14 {
        law_label_is_word(buf, s, e);
        assert(r.labels =~= if says_fraud(o) {
            seq![1u8]
        } else {
            seq![0u8]
        });
        assert(texts(buf, r.tokens) =~= Seq::new(14, |i: int| x.numbers[i].text));
    } else {
        assert(texts(buf, r.tokens) =~= Seq::empty());
    }
}

proof fn lemma_entries(buf: Seq<u8>, p: int, xs: Seq<Entry>, close: Seq<u8>)
    requires
        forall|i: int| 0 <= i < xs.len() ==> is_entry(#[trigger] xs[i]),
        is_between(close),
        members::at(buf, p, entries_text(xs) + (close + seq![CLOSE_BRACKET])),
    ensures
        references::records(buf, p).labels == labels_told(xs),
        texts(buf, references::records(buf, p).tokens) == numbers_told(xs),
    decreases xs.len(),
{
    let back = close + seq![CLOSE_BRACKET];
    let t = entries_text(xs) + back;
    members::lemma_at(buf, p, t);
    if xs.len() == 0 {
        let s = p + close.len();
        assert forall|i: int| p <= i < s implies (#[trigger] buf[i]) != OPEN_BRACE && buf[i]
            != CLOSE_BRACKET by {
            assert(buf[i] == t[i - p] && t[i - p] == close[i - p]);
        }
        assert(buf[s] == t[s - p] && t[s - p] == CLOSE_BRACKET);
        lemma_next_is(buf, p, s);
        assert(texts(buf, references::records(buf, p).tokens) =~= numbers_told(xs));
    } else {
        let x = xs[0];
        let rest = xs.drop_first();
        let o = object_text(x);
        let more = entries_text(rest) + back;
        assert(is_entry(x));
        assert(t =~= x.lead + o + more);
        members::lemma_split(buf, p, x.lead + o, more);
        members::lemma_split(buf, p, x.lead, o);
        let s = p + x.lead.len();
        let e = s + o.len();
        assert forall|i: int| p <= i < s implies (#[trigger] buf[i]) != OPEN_BRACE && buf[i]
            != CLOSE_BRACKET by {
            assert(buf[i] == t[i - p] && t[i - p] == x.lead[i - p]);
        }
        members::lemma_at(buf, s, o);
        assert(buf[s] == o[0] && o[0] == OPEN_BRACE);
        lemma_next_is(buf, p, s);
        lemma_entry(buf, s, x);
        assert forall|i: int| 0 <= i < rest.len() implies is_entry(#[trigger] rest[i]) by {
            assert(rest[i] == xs[i + 1]);
        }
        lemma_entries(buf, e, rest, close);
        let one = references::record(buf, s, e);
        let others = references::records(buf, e);
        let all = references::records(buf, p);
        assert(all.tokens == one.tokens + others.tokens);
        assert(texts(buf, all.tokens) =~= texts(buf, one.tokens) + texts(buf, others.tokens));
        assert(texts(buf, all.tokens) =~= numbers_told(xs));
        assert(all.labels =~= labels_told(xs));
    }
}

/// The records of a set are those of its objects, one after the other: the
/// first fourteen numbers of each, as they are written, and a label that says
/// whether the word `fraud` stands in the object. An object with fewer numbers
/// is none, and what stands behind the list does not count.
pub proof fn law_references_read(xs: Seq<Entry>, close: Seq<u8>, after: Seq<u8>)
    requires
        forall|i: int| 0 <= i < xs.len() ==> is_entry(#[trigger] xs[i]),
        is_between(close),
    ensures
        ({
            let buf = entries_text(xs) + (close + seq![CLOSE_BRACKET]) + after;
            let r = references::records(buf, 0);
            &&& r.labels == labels_told(xs)
            &&& texts(buf, r.tokens) == numbers_told(xs)
        }),
{
    let t = entries_text(xs) + (close + seq![CLOSE_BRACKET]);
    let buf = t + after;
    assert(buf.subrange(0, t.len() as int) =~= t);
    lemma_entries(buf, 0, xs, close);
}

/// An object that does not close goes on to the end.
pub proof fn law_open_object_ends_last(buf: Seq<u8>, s: int, t: Seq<u8>)
    requires
        members::at(buf, s, seq![OPEN_BRACE] + t),
        s + 1 + t.len() == buf.len(),
        is_inner(t),
    ensures
        references::object_end(buf, s) == buf.len(),
{
    members::lemma_split(buf, s, seq![OPEN_BRACE], t);
    members::lemma_at(buf, s, seq![OPEN_BRACE]);
    lemma_inside(buf, s + 1, t, t.len() as int);
    assert(buf[s] == OPEN_BRACE);
    assert(references::object_close(buf, s, 0) == references::object_close(buf, s + 1, 1));
}

/// An object without a list is no record.
pub proof fn law_no_list_no_record(buf: Seq<u8>, p: int, e: int)
    requires
        0 <= p <= e <= buf.len(),
        forall|i: int| p <= i < e ==> #[trigger] buf[i] != OPEN_BRACKET,
    ensures
        references::record(buf, p, e).labels.len() == 0,
        references::record(buf, p, e).tokens.len() == 0,
{
    lemma_no_list(buf, p, e);
}

proof fn lemma_no_list(buf: Seq<u8>, p: int, e: int)
    requires
        0 <= p <= e <= buf.len(),
        forall|i: int| p <= i < e ==> #[trigger] buf[i] != OPEN_BRACKET,
    ensures
        references::list_open(buf, p, e) == e,
    decreases e - p,
{
    if p < e {
        lemma_no_list(buf, p + 1, e);
    }
}

} // verus!
