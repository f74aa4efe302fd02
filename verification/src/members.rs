//! Documents member by member: the order of the members does not matter.
//!
//! A document is an object of members. Most members are objects of fields, each
//! with a word, a text or a list of texts for a value.
use vstd::prelude::*;
use vstd::string::*;
use crate::ascii::{
    self, CLOSE_BRACE, CLOSE_BRACKET, COLON, COMMA, CR, LF, OPEN_BRACE, OPEN_BRACKET, POINT, QUOTE,
    SPACE, TAB,
};
use crate::fields::{self, Sec};
use crate::normalize;
use crate::quant::SCALE;

verus! {

// ---------------------------------------------------------------------------
// Documents
// ---------------------------------------------------------------------------

/// White space and commas, as they stand between members, fields and items.
pub open spec fn is_gap(g: Seq<u8>) -> bool {
    forall|i: int|
        0 <= i < g.len() ==> (#[trigger] g[i]) == COMMA || g[i] == SPACE || g[i] == TAB || g[i]
            == LF || g[i] == CR
}

/// Spaces and tabs, as they stand around colons.
pub open spec fn is_blank(b: Seq<u8>) -> bool {
    forall|i: int| 0 <= i < b.len() ==> (#[trigger] b[i]) == SPACE || b[i] == TAB
}

/// What can stand between quotation marks.
pub open spec fn is_text(t: Seq<u8>) -> bool {
    forall|i: int| 0 <= i < t.len() ==> #[trigger] t[i] != QUOTE
}

/// A number, `true`, `false` or `null`.
pub open spec fn is_word(w: Seq<u8>) -> bool {
    &&& w.len() > 0
    &&& forall|i: int|
        0 <= i < w.len() ==> (#[trigger] w[i]) != QUOTE && w[i] != OPEN_BRACE && w[i] != CLOSE_BRACE
            && w[i] != OPEN_BRACKET && w[i] != SPACE && w[i] != TAB
}

/// A text in a list, with what stands before it.
pub ghost struct Item {
    pub gap: Seq<u8>,
    pub text: Seq<u8>,
}

pub ghost enum Datum {
    Word(Seq<u8>),
    Text(Seq<u8>),
    /// The items, and what stands behind the last.
    List(Seq<Item>, Seq<u8>),
}

/// A field with the blanks before and behind its colon, and what stands behind
/// its value.
pub ghost struct Field {
    pub key: Seq<u8>,
    pub before: Seq<u8>,
    pub after: Seq<u8>,
    pub value: Datum,
    pub gap: Seq<u8>,
}

pub ghost enum Content {
    Flat(Datum),
    /// What stands before the first field, and the fields.
    Object(Seq<u8>, Seq<Field>),
}

/// A member of a document with the blanks before and behind its colon.
pub ghost struct Member {
    pub key: Seq<u8>,
    pub before: Seq<u8>,
    pub after: Seq<u8>,
    pub content: Content,
}

pub open spec fn list_text(items: Seq<Item>, end: Seq<u8>) -> Seq<u8>
    decreases items.len(),
{
    if items.len() == 0 {
        end + seq![CLOSE_BRACKET]
    } else {
        items[0].gap + seq![QUOTE] + items[0].text + seq![QUOTE] + list_text(
            items.drop_first(),
            end,
        )
    }
}

pub open spec fn value_text(v: Datum) -> Seq<u8> {
    match v {
        Datum::Word(w) => w,
        Datum::Text(t) => seq![QUOTE] + t + seq![QUOTE],
        Datum::List(items, end) => seq![OPEN_BRACKET] + list_text(items, end),
    }
}

/// A name and the colon behind it.
pub open spec fn head(key: Seq<u8>, before: Seq<u8>, after: Seq<u8>) -> Seq<u8> {
    seq![QUOTE] + key + seq![QUOTE] + before + seq![COLON] + after
}

pub open spec fn fields_text(fs: Seq<Field>) -> Seq<u8>
    decreases fs.len(),
{
    if fs.len() == 0 {
        Seq::empty()
    } else {
        head(fs[0].key, fs[0].before, fs[0].after) + value_text(fs[0].value) + fs[0].gap
            + fields_text(fs.drop_first())
    }
}

pub open spec fn content_text(c: Content) -> Seq<u8> {
    match c {
        Content::Flat(v) => value_text(v),
        Content::Object(lead, fs) => seq![OPEN_BRACE] + lead + fields_text(fs) + seq![CLOSE_BRACE],
    }
}

/// The members in turn, each with what stands behind it.
pub open spec fn members_text(ms: Seq<Member>, gaps: Seq<Seq<u8>>) -> Seq<u8>
    decreases ms.len(),
{
    if ms.len() == 0 {
        Seq::empty()
    } else {
        head(ms[0].key, ms[0].before, ms[0].after) + content_text(ms[0].content) + gaps[0]
            + members_text(ms.drop_first(), gaps.drop_first())
    }
}

/// What stands between the members of a document, and around it.
pub ghost struct Spacing {
    pub front: Seq<u8>,
    pub lead: Seq<u8>,
    /// What stands behind each member.
    pub gaps: Seq<Seq<u8>>,
    pub back: Seq<u8>,
}

pub open spec fn document(ms: Seq<Member>, g: Spacing) -> Seq<u8> {
    g.front + seq![OPEN_BRACE] + g.lead + members_text(ms, g.gaps) + seq![CLOSE_BRACE] + g.back
}

/// The value of the field is read as a text.
pub open spec fn is_quoted_field(sec: Sec, key: Seq<u8>) -> bool {
    match sec {
        Sec::Tx => key == "requested_at".spec_bytes(),
        Sec::Last => key == "timestamp".spec_bytes(),
        Sec::Merch => key == "id".spec_bytes() || key == "mcc".spec_bytes(),
        _ => false,
    }
}

/// The value of the field is read as a moment.
pub open spec fn is_moment_field(sec: Sec, key: Seq<u8>) -> bool {
    is_quoted_field(sec, key) && sec != Sec::Merch
}

/// The value has a form that the field can have: a text for a name or a moment,
/// with room for the moment, and a list for none but the known merchants.
pub open spec fn is_value(sec: Sec, key: Seq<u8>, v: Datum) -> bool {
    match v {
        Datum::Word(w) => is_word(w) && !is_quoted_field(sec, key),
        Datum::Text(t) => is_text(t) && (is_moment_field(sec, key) ==> t.len() >= 19),
        Datum::List(items, end) => {
            &&& sec == Sec::Cust
            &&& key == "known_merchants".spec_bytes()
            &&& is_gap(end)
            &&& forall|i: int|
                0 <= i < items.len() ==> is_gap((#[trigger] items[i]).gap) && is_text(items[i].text)
        },
    }
}

pub open spec fn is_field(sec: Sec, f: Field) -> bool {
    is_text(f.key) && is_blank(f.before) && is_blank(f.after) && is_gap(f.gap) && is_value(
        sec,
        f.key,
        f.value,
    )
}

/// The part of the document that the member is.
pub open spec fn part_of(m: Member) -> Sec {
    match m.content {
        Content::Flat(_) => Sec::Root,
        Content::Object(_, _) => fields::section(m.key, OPEN_BRACE),
    }
}

/// An object is one of the parts of a document; any other member is none, as a
/// last transaction of `null` is.
pub open spec fn is_member(m: Member) -> bool {
    &&& is_text(m.key)
    &&& is_blank(m.before)
    &&& is_blank(m.after)
    &&& match m.content {
        Content::Flat(v) => is_value(Sec::Root, m.key, v) && fields::section(
            m.key,
            value_text(v)[0],
        ) == Sec::Root,
        Content::Object(lead, fs) => {
            &&& part_of(m) != Sec::Root
            &&& is_gap(lead)
            &&& forall|i: int| 0 <= i < fs.len() ==> is_field(part_of(m), #[trigger] fs[i])
        },
    }
}

pub open spec fn keys_differ(ms: Seq<Member>) -> bool {
    forall|i: int, j: int| 0 <= i < j < ms.len() ==> (#[trigger] ms[i]).key != (#[trigger] ms[j]).key
}

/// Members as a document can have them, each at most once.
pub open spec fn are_members(ms: Seq<Member>) -> bool {
    keys_differ(ms) && forall|i: int| 0 <= i < ms.len() ==> is_member(#[trigger] ms[i])
}

pub open spec fn is_spacing(g: Spacing, n: int) -> bool {
    &&& g.gaps.len() == n
    &&& is_gap(g.front)
    &&& is_gap(g.lead)
    &&& is_gap(g.back)
    &&& forall|i: int| 0 <= i < n ==> is_gap(#[trigger] g.gaps[i])
}

// ---------------------------------------------------------------------------
// What is found, without where it was found
// ---------------------------------------------------------------------------

/// What was found in a text, with the moments themselves in place of where they
/// are.
pub ghost struct Sight {
    pub found: fields::Fields,
    pub requested: Option<Option<normalize::Stamp>>,
    pub last: Option<Option<normalize::Stamp>>,
}

pub open spec fn moment(js: Seq<u8>, p: Option<int>) -> Option<Option<normalize::Stamp>> {
    match p {
        Some(p) => Some(normalize::stamp(js, p)),
        None => None,
    }
}

pub open spec fn seen(js: Seq<u8>, f: fields::Fields) -> Sight {
    Sight {
        found: fields::Fields { requested: None, last: None, ..f },
        requested: moment(js, f.requested),
        last: moment(js, f.last),
    }
}

pub open spec fn since(s: Sight, now: normalize::Stamp) -> Option<(int, int)> {
    if !s.found.has_last || s.last is None {
        Some((-SCALE as int, -SCALE as int))
    } else {
        match s.last->0 {
            Some(then) => Some(
                (
                    normalize::elapsed(normalize::epoch(now) - normalize::epoch(then)),
                    normalize::share(s.found.km_cur, 1000),
                ),
            ),
            None => None,
        }
    }
}

pub open spec fn outcome(s: Sight) -> Option<Seq<int>> {
    if s.requested is None || s.found.merchant is None {
        None
    } else {
        match s.requested->0 {
            Some(now) => if 1 <= now.month <= 12 {
                match since(s, now) {
                    Some(x) => Some(normalize::features(s.found, s.found.merchant->0, now, x)),
                    None => None,
                }
            } else {
                None
            },
            None => None,
        }
    }
}

proof fn lemma_outcome(js: Seq<u8>, f: fields::Fields)
    requires
        fields::fields(js) == Some(f),
    ensures
        normalize::normalized(js) == outcome(seen(js, f)),
{
    let s = seen(js, f);
    if f.requested is Some && f.merchant is Some {
        if let Some(now) = normalize::stamp(js, f.requested->0) {
            if let Some(x) = since(s, now) {
                assert(normalize::features(s.found, f.merchant->0, now, x) =~= normalize::features(
                    f,
                    f.merchant->0,
                    now,
                    x,
                ));
            }
        }
    }
}

// ---------------------------------------------------------------------------
// Texts inside texts
// ---------------------------------------------------------------------------

/// The text `t` stands at `a`.
pub open spec fn at(js: Seq<u8>, a: int, t: Seq<u8>) -> bool {
    0 <= a && a + t.len() <= js.len() && js.subrange(a, a + t.len()) == t
}

pub proof fn lemma_at(js: Seq<u8>, a: int, t: Seq<u8>)
    requires
        at(js, a, t),
    ensures
        forall|i: int| a <= i < a + t.len() ==> #[trigger] js[i] == t[i - a],
{
    let u = js.subrange(a, a + t.len());
    assert forall|i: int| a <= i < a + t.len() implies #[trigger] js[i] == t[i - a] by {
        assert(u[i - a] == js[i]);
    }
}

pub proof fn lemma_split(js: Seq<u8>, a: int, x: Seq<u8>, y: Seq<u8>)
    requires
        at(js, a, x + y),
    ensures
        at(js, a, x),
        at(js, a + x.len(), y),
{
    lemma_at(js, a, x + y);
    assert(js.subrange(a, a + x.len()) =~= x);
    assert(js.subrange(a + x.len(), a + x.len() + y.len()) =~= y);
}

proof fn lemma_seek_is(js: Seq<u8>, p: int, e: int, c: u8)
    requires
        0 <= p <= e < js.len(),
        js[e] == c,
        forall|i: int| p <= i < e ==> #[trigger] js[i] != c,
    ensures
        fields::seek(js, p, c) == e,
    decreases e - p,
{
    if p < e {
        lemma_seek_is(js, p + 1, e, c);
    }
}

proof fn lemma_either_is(js: Seq<u8>, p: int, e: int)
    requires
        0 <= p <= e < js.len(),
        js[e] == QUOTE || js[e] == CLOSE_BRACKET,
        forall|i: int| p <= i < e ==> #[trigger] js[i] != QUOTE && js[i] != CLOSE_BRACKET,
    ensures
        fields::either(js, p) == e,
    decreases e - p,
{
    if p < e {
        lemma_either_is(js, p + 1, e);
    }
}

proof fn lemma_blanks_is(js: Seq<u8>, p: int, e: int)
    requires
        0 <= p <= e < js.len(),
        js[e] != SPACE && js[e] != TAB,
        forall|i: int| p <= i < e ==> #[trigger] js[i] == SPACE || js[i] == TAB,
    ensures
        fields::past_blanks(js, p) == e,
    decreases e - p,
{
    if p < e {
        lemma_blanks_is(js, p + 1, e);
    }
}

/// Blanks end where something else stands.
proof fn lemma_blanks_within(js: Seq<u8>, p: int, e: int)
    requires
        0 <= p <= e <= js.len(),
        e < js.len() ==> js[e] != SPACE && js[e] != TAB,
    ensures
        p <= fields::past_blanks(js, p) <= e,
    decreases e - p,
{
    if p < e {
        lemma_blanks_within(js, p + 1, e);
    }
}

// ---------------------------------------------------------------------------
// Numbers
// ---------------------------------------------------------------------------

/// Digits of a text that stands in another end where those of the text end, if
/// no digit follows.
proof fn lemma_digits_local(js: Seq<u8>, v: int, t: Seq<u8>, i: int)
    requires
        at(js, v, t),
        v + t.len() < js.len() ==> !ascii::is_digit(js[v + t.len()]),
        0 <= i <= t.len(),
    ensures
        fields::past_digits(js, v + i) == v + fields::past_digits(t, i),
        i <= fields::past_digits(t, i) <= t.len(),
    decreases t.len() - i,
{
    lemma_at(js, v, t);
    if i < t.len() {
        assert(js[v + i] == t[i]);
        lemma_digits_local(js, v, t, i + 1);
    }
}

proof fn lemma_decimal_local(js: Seq<u8>, v: int, t: Seq<u8>, i: int, j: int)
    requires
        at(js, v, t),
        0 <= i,
        j <= t.len(),
    ensures
        fields::decimal(js, v + i, v + j) == fields::decimal(t, i, j),
    decreases j - i,
{
    lemma_at(js, v, t);
    if i < j {
        lemma_decimal_local(js, v, t, i, j - 1);
        assert(js[v + j - 1] == t[j - 1]);
    }
}

/// The number of a text that stands in another is its own, if it does not go on
/// behind.
proof fn lemma_number_local(js: Seq<u8>, v: int, t: Seq<u8>)
    requires
        at(js, v, t),
        v + t.len() < js.len() ==> !ascii::is_digit(js[v + t.len()]) && js[v + t.len()] != POINT,
    ensures
        fields::number(js, v) == fields::number(t, 0),
{
    lemma_at(js, v, t);
    lemma_digits_local(js, v, t, 0);
    let q = fields::past_digits(t, 0);
    lemma_decimal_local(js, v, t, 0, q);
    if q < t.len() {
        assert(js[v + q] == t[q]);
        if t[q] == POINT {
            lemma_digits_local(js, v, t, q + 1);
            let r = fields::fraction_end(t, q);
            assert(fields::fraction_end(js, v + q) == v + r);
            lemma_decimal_local(js, v, t, q + 1, r);
        }
    }
}

// ---------------------------------------------------------------------------
// Lists
// ---------------------------------------------------------------------------

pub open spec fn items_of(items: Seq<Item>) -> Seq<Seq<u8>>
    decreases items.len(),
{
    if items.len() == 0 {
        Seq::empty()
    } else {
        seq![items[0].text] + items_of(items.drop_first())
    }
}

pub open spec fn are_items(items: Seq<Item>) -> bool {
    forall|i: int|
        0 <= i < items.len() ==> is_gap((#[trigger] items[i]).gap) && is_text(items[i].text)
}

spec fn item_text(x: Item) -> Seq<u8> {
    x.gap + seq![QUOTE] + x.text + seq![QUOTE]
}

/// Where an item of a list is.
#[verifier::spinoff_prover]
proof fn lemma_item(js: Seq<u8>, p: int, x: Item)
    requires
        at(js, p, item_text(x)),
        is_gap(x.gap),
        is_text(x.text),
    ensures
        ({
            let a = p + x.gap.len();
            let e = a + 1 + x.text.len();
            &&& e < js.len()
            &&& fields::either(js, p) == a
            &&& js[a] == QUOTE
            &&& fields::seek(js, a + 1, QUOTE) == e
            &&& fields::quoted(js, a + 1) == x.text
            &&& e + 1 == p + item_text(x).len()
        }),
{
    let front = item_text(x);
    lemma_at(js, p, front);
    let a = p + x.gap.len();
    let e = a + 1 + x.text.len();
    assert(front[a - p] == QUOTE && front[e - p] == QUOTE);
    assert(js[a] == QUOTE && js[e] == QUOTE);
    assert forall|i: int| p <= i < a implies #[trigger] js[i] != QUOTE && js[i]
        != CLOSE_BRACKET by {
        assert(front[i - p] == x.gap[i - p]);
    }
    lemma_either_is(js, p, a);
    assert forall|i: int| a + 1 <= i < e implies #[trigger] js[i] == x.text[i - a - 1] by {
        assert(front[i - p] == x.text[i - a - 1]);
    }
    lemma_seek_is(js, a + 1, e, QUOTE);
    assert(fields::quoted(js, a + 1) =~= x.text);
}

/// The strings of a list are its items.
#[verifier::spinoff_prover]
pub proof fn lemma_list(js: Seq<u8>, p: int, items: Seq<Item>, end: Seq<u8>)
    requires
        at(js, p, list_text(items, end)),
        are_items(items),
        is_gap(end),
    ensures
        fields::strings(js, p) == items_of(items),
        fields::strings_end(js, p) == p + list_text(items, end).len() - 1,
        list_text(items, end).len() > 0,
    decreases items.len(),
{
    let t = list_text(items, end);
    if items.len() == 0 {
        lemma_at(js, p, t);
        let e = p + end.len();
        assert(js[e] == t[e - p]);
        assert forall|i: int| p <= i < e implies #[trigger] js[i] != QUOTE && js[i]
            != CLOSE_BRACKET by {
            assert(js[i] == end[i - p]);
        }
        lemma_either_is(js, p, e);
    } else {
        let x = items[0];
        let others = items.drop_first();
        let rest = list_text(others, end);
        assert(t == item_text(x) + rest);
        lemma_split(js, p, item_text(x), rest);
        assert(is_gap(x.gap) && is_text(x.text));
        lemma_item(js, p, x);
        assert forall|i: int| 0 <= i < others.len() implies is_gap((#[trigger] others[i]).gap)
            && is_text(others[i].text) by {
            assert(others[i] == items[i + 1]);
        }
        lemma_list(js, p + item_text(x).len(), others, end);
    }
}

// ---------------------------------------------------------------------------
// The pass
// ---------------------------------------------------------------------------

spec fn here(p: int, sec: Sec, depth: int, found: fields::Fields) -> fields::Scan {
    fields::Scan { p, sec, depth, found }
}

/// The pass takes no notice of what is neither a quotation mark nor a brace.
proof fn lemma_skip(js: Seq<u8>, p: int, q: int, sec: Sec, depth: int, f: fields::Fields)
    requires
        0 <= p <= q <= js.len(),
        forall|i: int|
            p <= i < q ==> #[trigger] js[i] != QUOTE && js[i] != OPEN_BRACE && js[i] != CLOSE_BRACE,
    ensures
        fields::scanned(js, here(p, sec, depth, f)) == fields::scanned(js, here(q, sec, depth, f)),
    decreases q - p,
{
    if p < q {
        lemma_skip(js, p + 1, q, sec, depth, f);
        assert(js[p] != QUOTE);
        assert(fields::step(js, here(p, sec, depth, f)) == Some(here(p + 1, sec, depth, f)));
    }
}

/// What stands at `e` ends a gap: a name, the end of an object, or the end of
/// the text.
spec fn is_stop(js: Seq<u8>, e: int) -> bool {
    e == js.len() || e < js.len() && (js[e] == QUOTE || js[e] == CLOSE_BRACE)
}

proof fn lemma_skip_gap(js: Seq<u8>, p: int, g: Seq<u8>, sec: Sec, depth: int, f: fields::Fields)
    requires
        at(js, p, g),
        is_gap(g),
    ensures
        fields::scanned(js, here(p, sec, depth, f)) == fields::scanned(
            js,
            here(p + g.len(), sec, depth, f),
        ),
{
    lemma_at(js, p, g);
    assert forall|i: int| p <= i < p + g.len() implies #[trigger] js[i] != QUOTE && js[i]
        != OPEN_BRACE && js[i] != CLOSE_BRACE by {
        assert(js[i] == g[i - p]);
    }
    lemma_skip(js, p, p + g.len(), sec, depth, f);
}

/// The pass goes on behind a text that no colon follows.
proof fn lemma_pass_text(
    js: Seq<u8>,
    v: int,
    t: Seq<u8>,
    g: Seq<u8>,
    sec: Sec,
    depth: int,
    f: fields::Fields,
)
    requires
        is_text(t),
        is_gap(g),
        at(js, v, seq![QUOTE] + t + seq![QUOTE]),
        at(js, v + t.len() + 2, g),
        is_stop(js, v + t.len() + 2 + g.len()),
    ensures
        fields::scanned(js, here(v, sec, depth, f)) == fields::scanned(
            js,
            here(v + t.len() + 2 + g.len(), sec, depth, f),
        ),
{
    let q = seq![QUOTE] + t + seq![QUOTE];
    let e = v + 1 + t.len();
    let end = e + 1 + g.len();
    lemma_at(js, v, q);
    lemma_at(js, e + 1, g);
    assert(q[0] == QUOTE && q[e - v] == QUOTE);
    assert forall|i: int| v + 1 <= i < e implies #[trigger] js[i] != QUOTE by {
        assert(q[i - v] == t[i - v - 1]);
    }
    lemma_seek_is(js, v + 1, e, QUOTE);
    lemma_blanks_within(js, e + 1, end);
    let b = fields::past_blanks(js, e + 1);
    if b < end {
        assert(js[b] == g[b - e - 1]);
    }
    assert(fields::step(js, here(v, sec, depth, f)) == Some(here(b, sec, depth, f)));
    assert forall|i: int| b <= i < end implies #[trigger] js[i] != QUOTE && js[i] != OPEN_BRACE
        && js[i] != CLOSE_BRACE by {
        assert(js[i] == g[i - e - 1]);
    }
    lemma_skip(js, b, end, sec, depth, f);
}

/// The pass goes on behind a word or a text.
proof fn lemma_pass(
    js: Seq<u8>,
    v: int,
    x: Datum,
    g: Seq<u8>,
    sec: Sec,
    depth: int,
    f: fields::Fields,
)
    requires
        match x {
            Datum::Word(w) => is_word(w),
            Datum::Text(t) => is_text(t),
            Datum::List(_, _) => false,
        },
        is_gap(g),
        at(js, v, value_text(x)),
        at(js, v + value_text(x).len(), g),
        is_stop(js, v + value_text(x).len() + g.len()),
    ensures
        fields::scanned(js, here(v, sec, depth, f)) == fields::scanned(
            js,
            here(v + value_text(x).len() + g.len(), sec, depth, f),
        ),
{
    match x {
        Datum::Word(w) => {
            lemma_at(js, v, w);
            assert forall|i: int| v <= i < v + w.len() implies #[trigger] js[i] != QUOTE && js[i]
                != OPEN_BRACE && js[i] != CLOSE_BRACE by {
                assert(js[i] == w[i - v]);
            }
            lemma_skip(js, v, v + w.len(), sec, depth, f);
            lemma_skip_gap(js, v + w.len(), g, sec, depth, f);
        },
        Datum::Text(t) => {
            lemma_pass_text(js, v, t, g, sec, depth, f);
        },
        Datum::List(_, _) => {},
    }
}

/// The state after a name with its value at `v`.
spec fn after_name(
    js: Seq<u8>,
    sec: Sec,
    depth: int,
    f: fields::Fields,
    key: Seq<u8>,
    v: int,
) -> Option<fields::Scan> {
    match fields::taken(js, sec, key, v, f) {
        None => None,
        Some(g) => Some(
            here(
                fields::resume(js, sec, key, v),
                if sec == Sec::Root {
                    fields::section(key, js[v])
                } else {
                    sec
                },
                depth,
                g,
            ),
        ),
    }
}

/// Where a name and its value are.
proof fn lemma_head(js: Seq<u8>, a: int, key: Seq<u8>, before: Seq<u8>, after: Seq<u8>)
    requires
        is_text(key),
        is_blank(before),
        is_blank(after),
        at(js, a, head(key, before, after)),
        a + head(key, before, after).len() < js.len(),
        js[a + head(key, before, after).len()] != SPACE,
        js[a + head(key, before, after).len()] != TAB,
    ensures
        js[a] == QUOTE,
        fields::quoted(js, a + 1) == key,
        ({
            let e = fields::seek(js, a + 1, QUOTE);
            let b = fields::past_blanks(js, fields::after(js, e));
            &&& 0 <= a < b < js.len()
            &&& js[b] == COLON
            &&& fields::past_blanks(js, b + 1) == a + head(key, before, after).len()
        }),
{
    let h = head(key, before, after);
    lemma_at(js, a, h);
    let e = a + 1 + key.len();
    let b = e + 1 + before.len();
    let v = b + 1 + after.len();
    assert(v == a + h.len());
    assert(h[0] == QUOTE && h[e - a] == QUOTE && h[b - a] == COLON);
    assert forall|i: int| a + 1 <= i < e implies #[trigger] js[i] == key[i - a - 1] by {
        assert(h[i - a] == key[i - a - 1]);
    }
    lemma_seek_is(js, a + 1, e, QUOTE);
    assert(fields::quoted(js, a + 1) =~= key);
    assert forall|i: int| e + 1 <= i < b implies #[trigger] js[i] == SPACE || js[i] == TAB by {
        assert(h[i - a] == before[i - e - 1]);
    }
    lemma_blanks_is(js, e + 1, b);
    assert forall|i: int| b + 1 <= i < v implies #[trigger] js[i] == SPACE || js[i] == TAB by {
        assert(h[i - a] == after[i - b - 1]);
    }
    lemma_blanks_is(js, b + 1, v);
}

/// The pass reads a name.
proof fn lemma_name(
    js: Seq<u8>,
    a: int,
    key: Seq<u8>,
    before: Seq<u8>,
    after: Seq<u8>,
    sec: Sec,
    depth: int,
    f: fields::Fields,
)
    requires
        is_text(key),
        is_blank(before),
        is_blank(after),
        at(js, a, head(key, before, after)),
        a + head(key, before, after).len() < js.len(),
        js[a + head(key, before, after).len()] != SPACE,
        js[a + head(key, before, after).len()] != TAB,
    ensures
        fields::scanned(js, here(a, sec, depth, f)) == match after_name(
            js,
            sec,
            depth,
            f,
            key,
            a + head(key, before, after).len(),
        ) {
            None => None,
            Some(s) => fields::scanned(js, s),
        },
{
    let v = a + head(key, before, after).len();
    lemma_head(js, a, key, before, after);
    let s = here(a, sec, depth, f);
    assert(fields::step(js, s) == fields::named(js, s));
    assert(fields::named(js, s) == after_name(js, sec, depth, f, key, v));
}

// ---------------------------------------------------------------------------
// Fields
// ---------------------------------------------------------------------------

/// What is known after a field with the value `t`.
pub open spec fn read(sec: Sec, key: Seq<u8>, t: Seq<u8>, s: Sight) -> Option<Sight> {
    match fields::taken(t, sec, key, 0, s.found) {
        None => None,
        Some(g) => {
            let x = seen(t, g);
            Some(
                Sight {
                    found: x.found,
                    requested: if x.requested is Some {
                        x.requested
                    } else {
                        s.requested
                    },
                    last: if x.last is Some {
                        x.last
                    } else {
                        s.last
                    },
                },
            )
        },
    }
}

proof fn lemma_stamp_local(js: Seq<u8>, v: int, t: Seq<u8>)
    requires
        at(js, v, t),
        20 <= t.len(),
    ensures
        normalize::stamp(js, v + 1) == normalize::stamp(t, 1),
{
    lemma_at(js, v, t);
}

/// A text between quotation marks is what they hold.
pub proof fn lemma_quoted(js: Seq<u8>, v: int, t: Seq<u8>)
    requires
        is_text(t),
        at(js, v, seq![QUOTE] + t + seq![QUOTE]),
    ensures
        fields::quoted(js, v + 1) == t,
{
    let q = seq![QUOTE] + t + seq![QUOTE];
    let e = v + 1 + t.len();
    lemma_at(js, v, q);
    assert(q[e - v] == QUOTE);
    assert forall|i: int| v + 1 <= i < e implies #[trigger] js[i] == t[i - v - 1] by {
        assert(q[i - v] == t[i - v - 1]);
    }
    lemma_seek_is(js, v + 1, e, QUOTE);
    assert(fields::quoted(js, v + 1) =~= t);
}

/// What a field gives is the same wherever its value is read alike.
#[verifier::spinoff_prover]
#[verifier::rlimit(30)]
proof fn lemma_read_alike(
    js: Seq<u8>,
    v: int,
    t: Seq<u8>,
    sec: Sec,
    key: Seq<u8>,
    f: fields::Fields,
)
    requires
        sec != Sec::Root,
        js[v] == t[0],
        fields::number(js, v) == fields::number(t, 0),
        sec == Sec::Merch && is_quoted_field(sec, key) ==> fields::quoted(js, v + 1)
            == fields::quoted(t, 1),
        is_moment_field(sec, key) ==> normalize::stamp(js, v + 1) == normalize::stamp(t, 1),
        t[0] == OPEN_BRACKET ==> fields::strings(js, v + 1) == fields::strings(t, 1),
    ensures
        match fields::taken(js, sec, key, v, f) {
            None => read(sec, key, t, seen(js, f)) is None,
            Some(g) => read(sec, key, t, seen(js, f)) == Some(seen(js, g)),
        },
{
    match sec {
        Sec::Root => {},
        Sec::Tx => {},
        Sec::Cust => {},
        Sec::Merch => {},
        Sec::Term => {},
        Sec::Last => {},
    }
}

/// What a field gives does not depend on where it stands.
proof fn lemma_read(js: Seq<u8>, v: int, sec: Sec, key: Seq<u8>, x: Datum, f: fields::Fields)
    requires
        sec != Sec::Root,
        is_value(sec, key, x),
        at(js, v, value_text(x)),
        v + value_text(x).len() < js.len(),
        !ascii::is_digit(js[v + value_text(x).len()]),
        js[v + value_text(x).len()] != POINT,
    ensures
        match fields::taken(js, sec, key, v, f) {
            None => read(sec, key, value_text(x), seen(js, f)) is None,
            Some(g) => read(sec, key, value_text(x), seen(js, f)) == Some(seen(js, g)),
        },
{
    let t = value_text(x);
    lemma_alike(js, v, sec, key, x);
    lemma_read_alike(js, v, t, sec, key, f);
}

/// A value is read alike wherever it stands.
proof fn lemma_alike(js: Seq<u8>, v: int, sec: Sec, key: Seq<u8>, x: Datum)
    requires
        is_value(sec, key, x),
        at(js, v, value_text(x)),
        v + value_text(x).len() < js.len(),
        !ascii::is_digit(js[v + value_text(x).len()]),
        js[v + value_text(x).len()] != POINT,
    ensures
        value_text(x).len() > 0,
        js[v] == value_text(x)[0],
        js[v] != SPACE && js[v] != TAB,
        fields::number(js, v) == fields::number(value_text(x), 0),
        is_quoted_field(sec, key) ==> fields::quoted(js, v + 1) == fields::quoted(
            value_text(x),
            1,
        ),
        is_moment_field(sec, key) ==> normalize::stamp(js, v + 1) == normalize::stamp(
            value_text(x),
            1,
        ),
        value_text(x)[0] == OPEN_BRACKET ==> x is List && fields::strings(js, v + 1)
            == fields::strings(value_text(x), 1) && fields::strings_end(js, v + 1) == v
            + value_text(x).len() - 1,
        x is List ==> value_text(x)[0] == OPEN_BRACKET,
{
    let t = value_text(x);
    lemma_at(js, v, t);
    assert(at(t, 0, t)) by {
        assert(t.subrange(0, t.len() as int) =~= t);
    }
    lemma_number_local(js, v, t);
    match x {
        Datum::Word(w) => {
            assert(js[v] == w[0]);
        },
        Datum::Text(c) => {
            assert(t[0] == QUOTE && js[v] == QUOTE);
            lemma_quoted(js, v, c);
            lemma_quoted(t, 0, c);
            if is_moment_field(sec, key) {
                lemma_stamp_local(js, v, t);
            }
        },
        Datum::List(items, end) => {
            assert(t[0] == OPEN_BRACKET && js[v] == OPEN_BRACKET);
            lemma_split(js, v, seq![OPEN_BRACKET], list_text(items, end));
            lemma_split(t, 0, seq![OPEN_BRACKET], list_text(items, end));
            lemma_list(js, v + 1, items, end);
            lemma_list(t, 1, items, end);
        },
    }
}

/// The pass over one field.
proof fn lemma_field(
    js: Seq<u8>,
    a: int,
    x: Field,
    sec: Sec,
    depth: int,
    f: fields::Fields,
) -> (g: fields::Fields)
    requires
        sec != Sec::Root,
        is_field(sec, x),
        at(js, a, head(x.key, x.before, x.after) + value_text(x.value) + x.gap),
        a + (head(x.key, x.before, x.after) + value_text(x.value) + x.gap).len() < js.len(),
        is_stop(js, a + (head(x.key, x.before, x.after) + value_text(x.value) + x.gap).len()),
    ensures
        match read(sec, x.key, value_text(x.value), seen(js, f)) {
            None => fields::scanned(js, here(a, sec, depth, f)) is None,
            Some(s) => s == seen(js, g) && fields::scanned(js, here(a, sec, depth, f))
                == fields::scanned(
                js,
                here(
                    a + (head(x.key, x.before, x.after) + value_text(x.value) + x.gap).len(),
                    sec,
                    depth,
                    g,
                ),
            ),
        },
{
    let h = head(x.key, x.before, x.after);
    let t = value_text(x.value);
    let v = a + h.len();
    let e = v + t.len();
    lemma_split(js, a, h + t, x.gap);
    lemma_split(js, a, h, t);
    lemma_at(js, e, x.gap);
    if x.gap.len() > 0 {
        assert(js[e] == x.gap[0]);
    }
    lemma_alike(js, v, sec, x.key, x.value);
    lemma_name(js, a, x.key, x.before, x.after, sec, depth, f);
    lemma_read(js, v, sec, x.key, x.value, f);
    match fields::taken(js, sec, x.key, v, f) {
        None => f,
        Some(g) => {
            if x.value is List {
                lemma_skip_gap(js, e, x.gap, sec, depth, g);
            } else {
                lemma_pass(js, v, x.value, x.gap, sec, depth, g);
            }
            g
        },
    }
}

/// What is known after the fields.
pub open spec fn read_all(sec: Sec, fs: Seq<Field>, s: Sight) -> Option<Sight>
    decreases fs.len(),
{
    if fs.len() == 0 {
        Some(s)
    } else {
        match read(sec, fs[0].key, value_text(fs[0].value), s) {
            None => None,
            Some(t) => read_all(sec, fs.drop_first(), t),
        }
    }
}

spec fn are_fields(sec: Sec, fs: Seq<Field>) -> bool {
    forall|i: int| 0 <= i < fs.len() ==> is_field(sec, #[trigger] fs[i])
}

/// The pass over the fields of an object.
proof fn lemma_fields(
    js: Seq<u8>,
    a: int,
    fs: Seq<Field>,
    sec: Sec,
    depth: int,
    f: fields::Fields,
) -> (g: fields::Fields)
    requires
        sec != Sec::Root,
        are_fields(sec, fs),
        at(js, a, fields_text(fs)),
        a + fields_text(fs).len() < js.len(),
        js[a + fields_text(fs).len()] == CLOSE_BRACE,
    ensures
        match read_all(sec, fs, seen(js, f)) {
            None => fields::scanned(js, here(a, sec, depth, f)) is None,
            Some(s) => s == seen(js, g) && fields::scanned(js, here(a, sec, depth, f))
                == fields::scanned(js, here(a + fields_text(fs).len(), sec, depth, g)),
        },
    decreases fs.len(),
{
    if fs.len() == 0 {
        f
    } else {
        let x = fs[0];
        let rest = fs.drop_first();
        let one = head(x.key, x.before, x.after) + value_text(x.value) + x.gap;
        assert(is_field(sec, fs[0]));
        assert(fields_text(fs) == one + fields_text(rest));
        lemma_split(js, a, one, fields_text(rest));
        let b = a + one.len();
        assert forall|i: int| 0 <= i < rest.len() implies is_field(sec, #[trigger] rest[i]) by {
            assert(rest[i] == fs[i + 1]);
        }
        if rest.len() > 0 {
            lemma_at(js, b, fields_text(rest));
            assert(fields_text(rest)[0] == QUOTE);
            assert(js[b] == QUOTE);
        }
        let g = lemma_field(js, a, x, sec, depth, f);
        if read(sec, x.key, value_text(x.value), seen(js, f)) is Some {
            lemma_fields(js, b, rest, sec, depth, g)
        } else {
            f
        }
    }
}

// ---------------------------------------------------------------------------
// Members
// ---------------------------------------------------------------------------

/// What is known when a part of the document begins.
pub open spec fn opened(sec: Sec, s: Sight) -> Sight {
    if sec == Sec::Last {
        Sight { found: fields::Fields { has_last: true, ..s.found }, ..s }
    } else {
        s
    }
}

/// What is known after the member.
pub open spec fn read_member(m: Member, s: Sight) -> Option<Sight> {
    match m.content {
        Content::Flat(_) => Some(s),
        Content::Object(_, fs) => read_all(part_of(m), fs, opened(part_of(m), s)),
    }
}

spec fn member_text(m: Member) -> Seq<u8> {
    head(m.key, m.before, m.after) + content_text(m.content)
}

/// The pass over an object from its opening brace on.
proof fn lemma_object(
    js: Seq<u8>,
    v: int,
    lead: Seq<u8>,
    fs: Seq<Field>,
    sec: Sec,
    f: fields::Fields,
) -> (g: fields::Fields)
    requires
        sec != Sec::Root,
        is_gap(lead),
        are_fields(sec, fs),
        at(js, v, content_text(Content::Object(lead, fs))),
    ensures
        match read_all(sec, fs, seen(js, f)) {
            None => fields::scanned(js, here(v, sec, 1, f)) is None,
            Some(s) => s == seen(js, g) && fields::scanned(js, here(v, sec, 1, f))
                == fields::scanned(
                js,
                here(v + content_text(Content::Object(lead, fs)).len(), Sec::Root, 1, g),
            ),
        },
{
    let inner = fields_text(fs);
    lemma_split(js, v, seq![OPEN_BRACE] + lead + inner, seq![CLOSE_BRACE]);
    lemma_split(js, v, seq![OPEN_BRACE] + lead, inner);
    lemma_split(js, v, seq![OPEN_BRACE], lead);
    let a = v + 1 + lead.len();
    let e = a + inner.len();
    lemma_at(js, v, seq![OPEN_BRACE]);
    lemma_at(js, e, seq![CLOSE_BRACE]);
    assert(js[v] == OPEN_BRACE && js[e] == CLOSE_BRACE);
    assert(fields::step(js, here(v, sec, 1, f)) == Some(here(v + 1, sec, 2, f)));
    lemma_skip_gap(js, v + 1, lead, sec, 2, f);
    let g = lemma_fields(js, a, fs, sec, 2, f);
    assert(fields::step(js, here(e, sec, 2, g)) == Some(here(e + 1, Sec::Root, 1, g)));
    g
}

/// The pass over one member.
#[verifier::spinoff_prover]
proof fn lemma_member(
    js: Seq<u8>,
    a: int,
    m: Member,
    gap: Seq<u8>,
    f: fields::Fields,
) -> (g: fields::Fields)
    requires
        is_member(m),
        is_gap(gap),
        at(js, a, member_text(m) + gap),
        a + (member_text(m) + gap).len() < js.len(),
        is_stop(js, a + (member_text(m) + gap).len()),
    ensures
        match read_member(m, seen(js, f)) {
            None => fields::scanned(js, here(a, Sec::Root, 1, f)) is None,
            Some(s) => s == seen(js, g) && fields::scanned(js, here(a, Sec::Root, 1, f))
                == fields::scanned(
                js,
                here(a + (member_text(m) + gap).len(), Sec::Root, 1, g),
            ),
        },
{
    let h = head(m.key, m.before, m.after);
    let t = content_text(m.content);
    let v = a + h.len();
    let e = v + t.len();
    lemma_split(js, a, member_text(m), gap);
    lemma_split(js, a, h, t);
    lemma_at(js, e, gap);
    lemma_at(js, v, t);
    if gap.len() > 0 {
        assert(js[e] == gap[0]);
    }
    match m.content {
        Content::Flat(x) => {
            lemma_alike(js, v, Sec::Root, m.key, x);
            lemma_name(js, a, m.key, m.before, m.after, Sec::Root, 1, f);
            assert(after_name(js, Sec::Root, 1, f, m.key, v) == Some(here(v, Sec::Root, 1, f)));
            lemma_pass(js, v, x, gap, Sec::Root, 1, f);
            f
        },
        Content::Object(lead, fs) => {
            let sec = part_of(m);
            assert(t[0] == OPEN_BRACE);
            assert(js[v] == OPEN_BRACE);
            lemma_name(js, a, m.key, m.before, m.after, Sec::Root, 1, f);
            let o = if sec == Sec::Last {
                fields::Fields { has_last: true, ..f }
            } else {
                f
            };
            assert(after_name(js, Sec::Root, 1, f, m.key, v) == Some(here(v, sec, 1, o)));
            assert(seen(js, o) == opened(sec, seen(js, f)));
            let g = lemma_object(js, v, lead, fs, sec, o);
            lemma_skip_gap(js, e, gap, Sec::Root, 1, g);
            g
        },
    }
}

/// What is known after the members.
pub open spec fn read_members(ms: Seq<Member>, s: Sight) -> Option<Sight>
    decreases ms.len(),
{
    if ms.len() == 0 {
        Some(s)
    } else {
        match read_member(ms[0], s) {
            None => None,
            Some(t) => read_members(ms.drop_first(), t),
        }
    }
}

/// The pass over the members of a document.
proof fn lemma_members(
    js: Seq<u8>,
    a: int,
    ms: Seq<Member>,
    gaps: Seq<Seq<u8>>,
    f: fields::Fields,
) -> (g: fields::Fields)
    requires
        forall|i: int| 0 <= i < ms.len() ==> is_member(#[trigger] ms[i]),
        gaps.len() == ms.len(),
        forall|i: int| 0 <= i < gaps.len() ==> is_gap(#[trigger] gaps[i]),
        at(js, a, members_text(ms, gaps)),
        a + members_text(ms, gaps).len() < js.len(),
        js[a + members_text(ms, gaps).len()] == CLOSE_BRACE,
    ensures
        match read_members(ms, seen(js, f)) {
            None => fields::scanned(js, here(a, Sec::Root, 1, f)) is None,
            Some(s) => s == seen(js, g) && fields::scanned(js, here(a, Sec::Root, 1, f))
                == fields::scanned(js, here(a + members_text(ms, gaps).len(), Sec::Root, 1, g)),
        },
    decreases ms.len(),
{
    if ms.len() == 0 {
        f
    } else {
        let rest = ms.drop_first();
        let others = gaps.drop_first();
        let one = member_text(ms[0]) + gaps[0];
        assert(is_member(ms[0]) && is_gap(gaps[0]));
        assert(members_text(ms, gaps) == one + members_text(rest, others));
        lemma_split(js, a, one, members_text(rest, others));
        let b = a + one.len();
        assert forall|i: int| 0 <= i < rest.len() implies is_member(#[trigger] rest[i]) by {
            assert(rest[i] == ms[i + 1]);
        }
        assert forall|i: int| 0 <= i < others.len() implies is_gap(#[trigger] others[i]) by {
            assert(others[i] == gaps[i + 1]);
        }
        if rest.len() > 0 {
            lemma_at(js, b, members_text(rest, others));
            assert(members_text(rest, others)[0] == QUOTE);
            assert(js[b] == QUOTE);
        }
        let g = lemma_member(js, a, ms[0], gaps[0], f);
        if read_member(ms[0], seen(js, f)) is Some {
            lemma_members(js, b, rest, others, g)
        } else {
            f
        }
    }
}

pub open spec fn nothing_seen() -> Sight {
    Sight { found: fields::nothing_found(), requested: None, last: None }
}

/// The vector of a document is that of its members.
pub proof fn lemma_document(ms: Seq<Member>, g: Spacing)
    requires
        are_members(ms),
        is_spacing(g, ms.len() as int),
    ensures
        normalize::normalized(document(ms, g)) == match read_members(ms, nothing_seen()) {
            None => None,
            Some(s) => outcome(s),
        },
{
    let js = document(ms, g);
    let t = members_text(ms, g.gaps);
    assert(at(js, 0, js)) by {
        assert(js.subrange(0, js.len() as int) =~= js);
    }
    let front = g.front + seq![OPEN_BRACE] + g.lead + t;
    lemma_split(js, 0, front + seq![CLOSE_BRACE], g.back);
    lemma_split(js, 0, front, seq![CLOSE_BRACE]);
    lemma_split(js, 0, g.front + seq![OPEN_BRACE] + g.lead, t);
    lemma_split(js, 0, g.front + seq![OPEN_BRACE], g.lead);
    lemma_split(js, 0, g.front, seq![OPEN_BRACE]);
    let o = g.front.len() as int;
    let a = o + 1 + g.lead.len();
    let e = a + t.len();
    let f = fields::nothing_found();
    lemma_at(js, o, seq![OPEN_BRACE]);
    lemma_at(js, e, seq![CLOSE_BRACE]);
    assert(js[o] == OPEN_BRACE && js[e] == CLOSE_BRACE);
    lemma_skip_gap(js, 0, g.front, Sec::Root, 0, f);
    assert(fields::step(js, here(o, Sec::Root, 0, f)) == Some(here(o + 1, Sec::Root, 1, f)));
    lemma_skip_gap(js, o + 1, g.lead, Sec::Root, 1, f);
    assert(seen(js, f) == nothing_seen());
    let x = lemma_members(js, a, ms, g.gaps, f);
    if read_members(ms, nothing_seen()) is Some {
        assert(fields::step(js, here(e, Sec::Root, 1, x)) == Some(here(e + 1, Sec::Root, 0, x)));
        lemma_skip_gap(js, e + 1, g.back, Sec::Root, 0, x);
        assert(fields::scanned(js, here(js.len() as int, Sec::Root, 0, x)) == Some(x));
        assert(fields::fields(js) == Some(x));
        lemma_outcome(js, x);
    }
}

// ---------------------------------------------------------------------------
// The order of members
// ---------------------------------------------------------------------------

/// What `a` knows, but of the part `sec` what `b` knows.
pub open spec fn graft(sec: Sec, a: Sight, b: Sight) -> Sight {
    let f = a.found;
    let g = b.found;
    match sec {
        Sec::Root => a,
        Sec::Tx => Sight {
            found: fields::Fields { tx_amount: g.tx_amount, tx_inst: g.tx_inst, ..f },
            requested: b.requested,
            ..a
        },
        Sec::Cust => Sight {
            found: fields::Fields { cust_avg: g.cust_avg, cnt24: g.cnt24, known: g.known, ..f },
            ..a
        },
        Sec::Merch => Sight {
            found: fields::Fields {
                merch_avg: g.merch_avg,
                merchant: g.merchant,
                mcc: g.mcc,
                ..f
            },
            ..a
        },
        Sec::Term => Sight {
            found: fields::Fields {
                km_home: g.km_home,
                is_online: g.is_online,
                card_present: g.card_present,
                ..f
            },
            ..a
        },
        Sec::Last => Sight {
            found: fields::Fields { km_cur: g.km_cur, has_last: g.has_last, ..f },
            last: b.last,
            ..a
        },
    }
}

/// No position is kept.
pub open spec fn is_placeless(s: Sight) -> bool {
    s.found.requested is None && s.found.last is None
}

/// What `b` knows of the part `sec`, `a` knows.
pub open spec fn agree(sec: Sec, a: Sight, b: Sight) -> bool {
    graft(sec, a, b) == a
}

/// The result for `a` is that for `b` as far as the part goes, and otherwise
/// `a`.
pub open spec fn is_framed(sec: Sec, a: Sight, x: Option<Sight>, y: Option<Sight>) -> bool {
    match x {
        None => y is None,
        Some(x) => y is Some && is_placeless(x) && is_placeless(y->0) && x == graft(sec, a, y->0),
    }
}

/// A field changes only the part that it belongs to, and only that part decides
/// how.
#[verifier::spinoff_prover]
#[verifier::rlimit(30)]
pub proof fn lemma_read_framed(sec: Sec, key: Seq<u8>, t: Seq<u8>, a: Sight, b: Sight)
    requires
        sec != Sec::Root,
        is_placeless(a),
        is_placeless(b),
        agree(sec, a, b),
    ensures
        is_framed(sec, a, read(sec, key, t, a), read(sec, key, t, b)),
{
    match sec {
        Sec::Root => {},
        Sec::Tx => {},
        Sec::Cust => {},
        Sec::Merch => {},
        Sec::Term => {},
        Sec::Last => {},
    }
}

proof fn lemma_read_all_framed(sec: Sec, fs: Seq<Field>, a: Sight, b: Sight)
    requires
        sec != Sec::Root,
        is_placeless(a),
        is_placeless(b),
        agree(sec, a, b),
    ensures
        is_framed(sec, a, read_all(sec, fs, a), read_all(sec, fs, b)),
    decreases fs.len(),
{
    if fs.len() > 0 {
        let key = fs[0].key;
        let t = value_text(fs[0].value);
        lemma_read_framed(sec, key, t, a, b);
        if let Some(x) = read(sec, key, t, a) {
            let y = read(sec, key, t, b)->0;
            assert(agree(sec, x, y));
            lemma_read_all_framed(sec, fs.drop_first(), x, y);
            if let Some(z) = read_all(sec, fs.drop_first(), x) {
                let w = read_all(sec, fs.drop_first(), y)->0;
                assert(graft(sec, x, w) == graft(sec, a, w));
            }
        }
    }
}

pub proof fn lemma_member_framed(m: Member, a: Sight, b: Sight)
    requires
        is_member(m),
        is_placeless(a),
        is_placeless(b),
        agree(part_of(m), a, b),
    ensures
        is_framed(part_of(m), a, read_member(m, a), read_member(m, b)),
{
    if let Content::Object(_, fs) = m.content {
        let sec = part_of(m);
        lemma_read_all_framed(sec, fs, opened(sec, a), opened(sec, b));
        if let Some(w) = read_all(sec, fs, opened(sec, b)) {
            assert(graft(sec, opened(sec, a), w) == graft(sec, a, w));
        }
    }
}

/// Two members with different names can be read in either order.
proof fn lemma_commute(m: Member, n: Member, s: Sight)
    requires
        is_member(m),
        is_member(n),
        m.key != n.key,
        is_placeless(s),
    ensures
        ({
            let x = match read_member(m, s) {
                None => None,
                Some(t) => read_member(n, t),
            };
            let y = match read_member(n, s) {
                None => None,
                Some(t) => read_member(m, t),
            };
            x == y
        }),
        read_member(m, s) matches Some(t) ==> is_placeless(t),
{
    let a = part_of(m);
    let b = part_of(n);
    assert(a != b || a == Sec::Root);
    assert(agree(a, s, s) && agree(b, s, s));
    lemma_member_framed(m, s, s);
    lemma_member_framed(n, s, s);
    if let Some(x) = read_member(m, s) {
        assert(x == graft(a, s, x));
        assert(agree(b, x, s));
        lemma_member_framed(n, x, s);
    }
    if let Some(y) = read_member(n, s) {
        assert(y == graft(b, s, y));
        assert(agree(a, y, s));
        lemma_member_framed(m, y, s);
    }
    if read_member(m, s) is Some && read_member(n, s) is Some {
        let x = read_member(m, s)->0;
        let y = read_member(n, s)->0;
        assert(graft(b, x, y) == graft(a, y, x));
    }
}

/// A member can be read before those that stand in front of it.
pub proof fn lemma_to_front(ms: Seq<Member>, j: int, s: Sight)
    requires
        are_members(ms),
        0 <= j < ms.len(),
        is_placeless(s),
    ensures
        read_members(ms, s) == match read_member(ms[j], s) {
            None => None,
            Some(t) => read_members(ms.remove(j), t),
        },
    decreases j,
{
    if j == 0 {
        assert(ms.remove(0) =~= ms.drop_first());
    } else {
        let first = ms[0];
        let m = ms[j];
        let rest = ms.drop_first();
        assert(is_member(first) && is_member(m) && first.key != m.key);
        lemma_rest(ms);
        assert(rest[j - 1] == m);
        lemma_commute(first, m, s);
        lemma_commute(m, first, s);
        if let Some(t) = read_member(first, s) {
            lemma_to_front(rest, j - 1, t);
        }
        let others = ms.remove(j);
        assert(others.drop_first() =~= rest.remove(j - 1));
        assert(others[0] == first);
    }
}

pub proof fn lemma_rest(ms: Seq<Member>)
    requires
        are_members(ms),
        ms.len() > 0,
    ensures
        are_members(ms.drop_first()),
{
    let rest = ms.drop_first();
    assert forall|i: int| 0 <= i < rest.len() implies is_member(#[trigger] rest[i]) by {
        assert(rest[i] == ms[i + 1]);
    }
    assert forall|i: int, j: int| 0 <= i < j < rest.len() implies (#[trigger] rest[i]).key != (
    #[trigger] rest[j]).key by {
        assert(rest[i] == ms[i + 1] && rest[j] == ms[j + 1]);
    }
}

pub proof fn lemma_without(ms: Seq<Member>, k: int)
    requires
        are_members(ms),
        0 <= k < ms.len(),
    ensures
        are_members(ms.remove(k)),
{
    let rest = ms.remove(k);
    assert forall|i: int| 0 <= i < rest.len() implies is_member(#[trigger] rest[i]) by {
        assert(rest[i] == if i < k {
            ms[i]
        } else {
            ms[i + 1]
        });
    }
    assert forall|i: int, j: int| 0 <= i < j < rest.len() implies (#[trigger] rest[i]).key != (
    #[trigger] rest[j]).key by {
        let a = if i < k {
            i
        } else {
            i + 1
        };
        let b = if j < k {
            j
        } else {
            j + 1
        };
        assert(rest[i] == ms[a] && rest[j] == ms[b]);
        assert(ms[a].key != ms[b].key);
    }
}

proof fn lemma_any_order(ms: Seq<Member>, ns: Seq<Member>, s: Sight)
    requires
        are_members(ms),
        are_members(ns),
        ms.to_multiset() == ns.to_multiset(),
        is_placeless(s),
    ensures
        read_members(ms, s) == read_members(ns, s),
    decreases ms.len(),
{
    broadcast use vstd::seq_lib::group_to_multiset_ensures;
    broadcast use vstd::multiset::group_multiset_axioms;

    assert(ms.to_multiset().len() == ms.len() && ns.to_multiset().len() == ns.len());
    if ms.len() > 0 {
        let m = ms[0];
        assert(ms.contains(m));
        assert(ns.to_multiset().contains(m));
        assert(ns.contains(m));
        let j = choose|j: int| 0 <= j < ns.len() && ns[j] == m;
        lemma_to_front(ns, j, s);
        let rest = ms.drop_first();
        let others = ns.remove(j);
        vstd::seq_lib::to_multiset_remove(ns, j);
        vstd::seq_lib::to_multiset_remove(ms, 0);
        assert(ms.remove(0) =~= rest);
        lemma_rest(ms);
        lemma_without(ns, j);
        assert(is_member(m));
        assert(agree(part_of(m), s, s));
        lemma_member_framed(m, s, s);
        if let Some(t) = read_member(m, s) {
            lemma_any_order(rest, others, t);
        }
    }
}

/// The order of the members of a document does not change its vector, nor
/// whether it has one, and neither does what stands between them.
pub proof fn law_member_order(ms: Seq<Member>, g: Spacing, ns: Seq<Member>, h: Spacing)
    requires
        are_members(ms),
        are_members(ns),
        ms.to_multiset() == ns.to_multiset(),
        is_spacing(g, ms.len() as int),
        is_spacing(h, ns.len() as int),
    ensures
        normalize::normalized(document(ms, g)) == normalize::normalized(document(ns, h)),
{
    lemma_document(ms, g);
    lemma_document(ns, h);
    lemma_any_order(ms, ns, nothing_seen());
}

} // verus!
