//! What each value in a document does to the vector.
use vstd::prelude::*;
use vstd::string::*;
use crate::ascii::{self, LOWER_N, OPEN_BRACKET, ZERO};
use crate::fields::{self, Sec};
use crate::members::{self, Content, Datum, Field, Item, Member, Spacing};
use crate::normalize;
use crate::precision;

verus! {

// ---------------------------------------------------------------------------
// Documents
// ---------------------------------------------------------------------------

/// The part of a document that has the name.
pub open spec fn part_named(name: Seq<u8>) -> Sec {
    if name == "transaction".spec_bytes() {
        Sec::Tx
    } else if name == "customer".spec_bytes() {
        Sec::Cust
    } else if name == "merchant".spec_bytes() {
        Sec::Merch
    } else if name == "terminal".spec_bytes() {
        Sec::Term
    } else if name == "last_transaction".spec_bytes() {
        Sec::Last
    } else {
        Sec::Root
    }
}

/// The fields of the member, if it is an object.
pub open spec fn fields_of(m: Member) -> Seq<Field> {
    match m.content {
        Content::Flat(_) => Seq::empty(),
        Content::Object(_, fs) => fs,
    }
}

/// A part of a document is an object, and no other member is one. A last
/// transaction can also be `null`.
pub open spec fn is_plain_member(m: Member) -> bool {
    &&& members::is_text(m.key)
    &&& members::is_blank(m.before)
    &&& members::is_blank(m.after)
    &&& match m.content {
        Content::Flat(v) => {
            &&& members::is_value(Sec::Root, m.key, v)
            &&& part_named(m.key) == Sec::Root || m.key == "last_transaction".spec_bytes() && v
                == Datum::Word("null".spec_bytes())
        },
        Content::Object(lead, fs) => {
            &&& part_named(m.key) != Sec::Root
            &&& members::is_gap(lead)
            &&& forall|i: int|
                0 <= i < fs.len() ==> members::is_field(part_named(m.key), #[trigger] fs[i])
        },
    }
}

/// No two members have the same name, nor two fields of one member.
pub open spec fn is_plain(ms: Seq<Member>) -> bool {
    &&& forall|i: int| 0 <= i < ms.len() ==> is_plain_member(#[trigger] ms[i])
    &&& members::keys_differ(ms)
    &&& forall|i: int| 0 <= i < ms.len() ==> names_differ(fields_of(#[trigger] ms[i]))
}

pub open spec fn names_differ(fs: Seq<Field>) -> bool {
    forall|a: int, b: int| 0 <= a < b < fs.len() ==> (#[trigger] fs[a]).key != (#[trigger] fs[b]).key
}

/// The field `name` in the part `part` stands at place `j` of member `i`.
pub open spec fn stands(ms: Seq<Member>, part: Seq<u8>, name: Seq<u8>, i: int, j: int) -> bool {
    0 <= i < ms.len() && ms[i].key == part && 0 <= j < fields_of(ms[i]).len() && fields_of(
        ms[i],
    )[j].key == name
}

/// The field `name` in the part `part` has the value `v`.
pub open spec fn has(ms: Seq<Member>, part: Seq<u8>, name: Seq<u8>, v: Datum) -> bool {
    exists|i: int, j: int| #[trigger]
        stands(ms, part, name, i, j) && fields_of(ms[i])[j].value == v
}

/// There is no field `name` in the part `part`.
pub open spec fn lacks(ms: Seq<Member>, part: Seq<u8>, name: Seq<u8>) -> bool {
    forall|i: int, j: int| !#[trigger] stands(ms, part, name, i, j)
}

/// The names of the parts are what they say.
#[verifier::spinoff_prover]
proof fn lemma_part_names()
    ensures
        part_named("transaction".spec_bytes()) == Sec::Tx,
        part_named("customer".spec_bytes()) == Sec::Cust,
        part_named("merchant".spec_bytes()) == Sec::Merch,
        part_named("terminal".spec_bytes()) == Sec::Term,
        part_named("last_transaction".spec_bytes()) == Sec::Last,
{
    reveal_strlit("transaction");
    is_ascii_spec_bytes("transaction");
    reveal_strlit("customer");
    is_ascii_spec_bytes("customer");
    reveal_strlit("merchant");
    is_ascii_spec_bytes("merchant");
    reveal_strlit("terminal");
    is_ascii_spec_bytes("terminal");
    reveal_strlit("last_transaction");
    is_ascii_spec_bytes("last_transaction");
    assert("customer".spec_bytes()[0] == 0x63);
    assert("merchant".spec_bytes()[0] == 0x6d);
    assert("terminal".spec_bytes()[0] == 0x74);
    assert("transaction".spec_bytes().len() == 11);
    assert("last_transaction".spec_bytes().len() == 16);
}

/// A plain member is one that a document can have.
proof fn lemma_plain_member(m: Member)
    requires
        is_plain_member(m),
    ensures
        members::is_member(m),
        m.content is Object ==> members::part_of(m) == part_named(m.key),
{
    reveal_strlit("null");
    is_ascii_spec_bytes("null");
    reveal_strlit("last_transaction");
    assert("null".spec_bytes()[0] == LOWER_N);
    lemma_part_names();
}

proof fn lemma_plain(ms: Seq<Member>)
    requires
        is_plain(ms),
    ensures
        members::are_members(ms),
{
    assert forall|i: int| 0 <= i < ms.len() implies members::is_member(#[trigger] ms[i]) by {
        lemma_plain_member(ms[i]);
    }
}

// ---------------------------------------------------------------------------
// What stays
// ---------------------------------------------------------------------------

/// What the field `name` of the part `sec` is about is the same in both.
spec fn same(sec: Sec, name: Seq<u8>, a: members::Sight, b: members::Sight) -> bool {
    let f = a.found;
    let g = b.found;
    match sec {
        Sec::Root => true,
        Sec::Tx => {
            &&& name == "amount".spec_bytes() ==> f.tx_amount == g.tx_amount
            &&& name == "installments".spec_bytes() ==> f.tx_inst == g.tx_inst
            &&& name == "requested_at".spec_bytes() ==> a.requested == b.requested
        },
        Sec::Cust => {
            &&& name == "avg_amount".spec_bytes() ==> f.cust_avg == g.cust_avg
            &&& name == "tx_count_24h".spec_bytes() ==> f.cnt24 == g.cnt24
            &&& name == "known_merchants".spec_bytes() ==> f.known == g.known
        },
        Sec::Merch => {
            &&& name == "id".spec_bytes() ==> f.merchant == g.merchant
            &&& name == "mcc".spec_bytes() ==> f.mcc == g.mcc
            &&& name == "avg_amount".spec_bytes() ==> f.merch_avg == g.merch_avg
        },
        Sec::Term => {
            &&& name == "is_online".spec_bytes() ==> f.is_online == g.is_online
            &&& name == "card_present".spec_bytes() ==> f.card_present == g.card_present
            &&& name == "km_from_home".spec_bytes() ==> f.km_home == g.km_home
        },
        Sec::Last => {
            &&& name == "timestamp".spec_bytes() ==> a.last == b.last
            &&& name == "km_from_current".spec_bytes() ==> f.km_cur == g.km_cur
        },
    }
}

/// A field changes nothing that another one is about.
#[verifier::spinoff_prover]
#[verifier::rlimit(30)]
proof fn lemma_read_keeps(sec: Sec, other: Seq<u8>, t: Seq<u8>, name: Seq<u8>, a: members::Sight)
    requires
        other != name,
        members::is_placeless(a),
        members::read(sec, other, t, a) is Some,
    ensures
        same(sec, name, a, members::read(sec, other, t, a)->0),
        members::is_placeless(members::read(sec, other, t, a)->0),
{
    match sec {
        Sec::Root => {},
        Sec::Tx => {},
        Sec::Cust => {},
        Sec::Merch => {},
        Sec::Term => {},
        Sec::Last => {},
    }
}

proof fn lemma_read_placeless(sec: Sec, name: Seq<u8>, t: Seq<u8>, a: members::Sight)
    requires
        members::is_placeless(a),
        members::read(sec, name, t, a) is Some,
    ensures
        members::is_placeless(members::read(sec, name, t, a)->0),
{
}

/// Fields change nothing that another one is about.
proof fn lemma_all_keep(sec: Sec, fs: Seq<Field>, name: Seq<u8>, a: members::Sight)
    requires
        forall|j: int| 0 <= j < fs.len() ==> (#[trigger] fs[j]).key != name,
        members::is_placeless(a),
        members::read_all(sec, fs, a) is Some,
    ensures
        same(sec, name, a, members::read_all(sec, fs, a)->0),
    decreases fs.len(),
{
    if fs.len() > 0 {
        let t = members::value_text(fs[0].value);
        lemma_read_keeps(sec, fs[0].key, t, name, a);
        let rest = fs.drop_first();
        assert forall|j: int| 0 <= j < rest.len() implies (#[trigger] rest[j]).key != name by {
            assert(rest[j] == fs[j + 1]);
        }
        lemma_all_keep(sec, rest, name, members::read(sec, fs[0].key, t, a)->0);
    }
}

/// What a field is about is, at the end, what it was just after the field, and
/// just before the field what it was at first.
proof fn lemma_one_of_all(sec: Sec, fs: Seq<Field>, j: int, a: members::Sight) -> (b: members::Sight)
    requires
        names_differ(fs),
        0 <= j < fs.len(),
        members::is_placeless(a),
        members::read_all(sec, fs, a) is Some,
    ensures
        ({
            let x = fs[j];
            let y = members::read(sec, x.key, members::value_text(x.value), b);
            &&& same(sec, x.key, a, b)
            &&& y is Some
            &&& same(sec, x.key, y->0, members::read_all(sec, fs, a)->0)
        }),
    decreases fs.len(),
{
    let t = members::value_text(fs[0].value);
    let rest = fs.drop_first();
    let c = members::read(sec, fs[0].key, t, a)->0;
    lemma_read_placeless(sec, fs[0].key, t, a);
    if j == 0 {
        assert forall|i: int| 0 <= i < rest.len() implies (#[trigger] rest[i]).key
            != fs[0].key by {
            assert(rest[i] == fs[i + 1]);
        }
        lemma_all_keep(sec, rest, fs[0].key, c);
        a
    } else {
        assert(fs[0].key != fs[j].key);
        lemma_read_keeps(sec, fs[0].key, t, fs[j].key, a);
        assert forall|x: int, y: int| 0 <= x < y < rest.len() implies (#[trigger] rest[x]).key != (
        #[trigger] rest[y]).key by {
            assert(rest[x] == fs[x + 1] && rest[y] == fs[y + 1]);
        }
        assert(rest[j - 1] == fs[j]);
        lemma_one_of_all(sec, rest, j - 1, c)
    }
}

/// Members change nothing of a part that they are not.
proof fn lemma_others_keep(ms: Seq<Member>, sec: Sec, a: members::Sight)
    requires
        forall|i: int|
            0 <= i < ms.len() ==> members::is_member(#[trigger] ms[i]) && members::part_of(ms[i])
                != sec,
        members::is_placeless(a),
        members::read_members(ms, a) is Some,
    ensures
        members::agree(sec, members::read_members(ms, a)->0, a),
    decreases ms.len(),
{
    if ms.len() > 0 {
        let m = ms[0];
        assert(members::is_member(m));
        assert(members::agree(members::part_of(m), a, a));
        members::lemma_member_framed(m, a, a);
        let b = members::read_member(m, a)->0;
        assert(members::agree(sec, b, a));
        let rest = ms.drop_first();
        assert forall|i: int| 0 <= i < rest.len() implies members::is_member(#[trigger] rest[i])
            && members::part_of(rest[i]) != sec by {
            assert(rest[i] == ms[i + 1]);
        }
        lemma_others_keep(rest, sec, b);
        let r = members::read_members(ms, a)->0;
        assert(members::agree(sec, r, b) && members::agree(sec, b, a));
        assert(members::graft(sec, r, a) == members::graft(sec, r, b));
    }
}

proof fn lemma_agree_same(sec: Sec, name: Seq<u8>, a: members::Sight, b: members::Sight)
    requires
        members::agree(sec, a, b),
    ensures
        same(sec, name, a, b),
{
}

/// What a document says of a part is what the member that is the part says.
proof fn lemma_part(ms: Seq<Member>, i: int)
    requires
        is_plain(ms),
        0 <= i < ms.len(),
        ms[i].content is Object,
        members::read_members(ms, members::nothing_seen()) is Some,
    ensures
        ({
            let sec = part_named(ms[i].key);
            let t = members::read_member(ms[i], members::nothing_seen());
            &&& t is Some
            &&& members::agree(
                sec,
                members::read_members(ms, members::nothing_seen())->0,
                t->0,
            )
        }),
{
    let a = members::nothing_seen();
    let sec = part_named(ms[i].key);
    lemma_plain(ms);
    members::lemma_to_front(ms, i, a);
    members::lemma_without(ms, i);
    let rest = ms.remove(i);
    let t = members::read_member(ms[i], a)->0;
    assert(is_plain_member(ms[i]));
    lemma_plain_member(ms[i]);
    assert forall|k: int| 0 <= k < rest.len() implies members::is_member(#[trigger] rest[k])
        && members::part_of(rest[k]) != sec by {
        let n = if k < i {
            k
        } else {
            k + 1
        };
        assert(rest[k] == ms[n]);
        assert(is_plain_member(ms[n]));
        lemma_plain_member(ms[n]);
        assert(ms[n].key != ms[i].key);
    }
    assert(members::agree(sec, a, a));
    members::lemma_member_framed(ms[i], a, a);
    lemma_others_keep(rest, sec, t);
}

/// What is said of the field at place `j` of member `i` is what its value says.
proof fn lemma_field_read(ms: Seq<Member>, i: int, j: int) -> (b: members::Sight)
    requires
        is_plain(ms),
        0 <= i < ms.len(),
        0 <= j < fields_of(ms[i]).len(),
        members::read_members(ms, members::nothing_seen()) is Some,
    ensures
        ({
            let sec = part_named(ms[i].key);
            let x = fields_of(ms[i])[j];
            let y = members::read(sec, x.key, members::value_text(x.value), b);
            &&& members::is_field(sec, x)
            &&& same(sec, x.key, members::nothing_seen(), b)
            &&& y is Some
            &&& same(sec, x.key, y->0, members::read_members(ms, members::nothing_seen())->0)
        }),
{
    let a = members::nothing_seen();
    let sec = part_named(ms[i].key);
    let fs = fields_of(ms[i]);
    let r = members::read_members(ms, a)->0;
    assert(is_plain_member(ms[i]));
    lemma_plain_member(ms[i]);
    lemma_part(ms, i);
    let t = members::read_member(ms[i], a)->0;
    let o = members::opened(sec, a);
    let b = lemma_one_of_all(sec, fs, j, o);
    lemma_agree_same(sec, fs[j].key, r, t);
    assert(members::is_field(sec, fs[j]));
    b
}

/// Of a field that is not there nothing is said.
proof fn lemma_field_missing(ms: Seq<Member>, part: Seq<u8>, name: Seq<u8>)
    requires
        is_plain(ms),
        part_named(part) != Sec::Root,
        lacks(ms, part, name),
        members::read_members(ms, members::nothing_seen()) is Some,
    ensures
        same(
            part_named(part),
            name,
            members::nothing_seen(),
            members::read_members(ms, members::nothing_seen())->0,
        ),
{
    let a = members::nothing_seen();
    let sec = part_named(part);
    let r = members::read_members(ms, a)->0;
    lemma_plain(ms);
    if exists|i: int| 0 <= i < ms.len() && (#[trigger] ms[i]).key == part && ms[i].content is Object {
        let i = choose|i: int|
            0 <= i < ms.len() && (#[trigger] ms[i]).key == part && ms[i].content is Object;
        let fs = fields_of(ms[i]);
        assert forall|j: int| 0 <= j < fs.len() implies (#[trigger] fs[j]).key != name by {
            assert(!stands(ms, part, name, i, j));
        }
        assert(is_plain_member(ms[i]));
        lemma_plain_member(ms[i]);
        lemma_part(ms, i);
        let o = members::opened(sec, a);
        lemma_all_keep(sec, fs, name, o);
        lemma_agree_same(sec, name, r, members::read_member(ms[i], a)->0);
    } else {
        assert forall|i: int| 0 <= i < ms.len() implies members::is_member(#[trigger] ms[i])
            && members::part_of(ms[i]) != sec by {
            assert(is_plain_member(ms[i]));
            lemma_plain_member(ms[i]);
            lemma_part_names();
        }
        lemma_others_keep(ms, sec, a);
        lemma_agree_same(sec, name, r, a);
    }
}

// ---------------------------------------------------------------------------
// Values
// ---------------------------------------------------------------------------

/// The names of the fields are different ones.
#[verifier::spinoff_prover]
proof fn lemma_field_names()
    ensures
        "installments".spec_bytes() != "amount".spec_bytes(),
        "requested_at".spec_bytes() != "amount".spec_bytes(),
        "requested_at".spec_bytes() != "installments".spec_bytes(),
        "tx_count_24h".spec_bytes() != "avg_amount".spec_bytes(),
        "known_merchants".spec_bytes() != "avg_amount".spec_bytes(),
        "known_merchants".spec_bytes() != "tx_count_24h".spec_bytes(),
        "mcc".spec_bytes() != "id".spec_bytes(),
        "avg_amount".spec_bytes() != "id".spec_bytes(),
        "avg_amount".spec_bytes() != "mcc".spec_bytes(),
        "card_present".spec_bytes() != "is_online".spec_bytes(),
        "km_from_home".spec_bytes() != "is_online".spec_bytes(),
        "km_from_home".spec_bytes() != "card_present".spec_bytes(),
        "km_from_current".spec_bytes() != "timestamp".spec_bytes(),
{
    reveal_strlit("amount");
    is_ascii_spec_bytes("amount");
    reveal_strlit("installments");
    is_ascii_spec_bytes("installments");
    reveal_strlit("requested_at");
    is_ascii_spec_bytes("requested_at");
    reveal_strlit("avg_amount");
    is_ascii_spec_bytes("avg_amount");
    reveal_strlit("tx_count_24h");
    is_ascii_spec_bytes("tx_count_24h");
    reveal_strlit("known_merchants");
    is_ascii_spec_bytes("known_merchants");
    reveal_strlit("id");
    is_ascii_spec_bytes("id");
    reveal_strlit("mcc");
    is_ascii_spec_bytes("mcc");
    reveal_strlit("is_online");
    is_ascii_spec_bytes("is_online");
    reveal_strlit("card_present");
    is_ascii_spec_bytes("card_present");
    reveal_strlit("km_from_home");
    is_ascii_spec_bytes("km_from_home");
    reveal_strlit("timestamp");
    is_ascii_spec_bytes("timestamp");
    reveal_strlit("km_from_current");
    is_ascii_spec_bytes("km_from_current");
    assert("requested_at".spec_bytes()[0] == 0x72 && "installments".spec_bytes()[0] == 0x69);
    assert("card_present".spec_bytes()[0] == 0x63 && "km_from_home".spec_bytes()[0] == 0x6b);
}

/// What was read of a document that has a vector.
proof fn lemma_vector(ms: Seq<Member>, g: Spacing)
    requires
        is_plain(ms),
        members::is_spacing(g, ms.len() as int),
        normalize::normalized(members::document(ms, g)) is Some,
    ensures
        members::read_members(ms, members::nothing_seen()) is Some,
        ({
            let r = members::read_members(ms, members::nothing_seen())->0;
            members::outcome(r) == normalize::normalized(members::document(ms, g))
        }),
{
    lemma_plain(ms);
    members::lemma_document(ms, g);
}

/// The features that do not come from numbers.
proof fn lemma_shape(ms: Seq<Member>, g: Spacing)
    requires
        is_plain(ms),
        members::is_spacing(g, ms.len() as int),
        normalize::normalized(members::document(ms, g)) is Some,
    ensures
        members::read_members(ms, members::nothing_seen()) is Some,
        ({
            let v = normalize::normalized(members::document(ms, g))->0;
            let f = members::read_members(ms, members::nothing_seen())->0.found;
            &&& v.len() == 14
            &&& f.merchant is Some
            &&& v[9] == if f.is_online {
                10000int
            } else {
                0
            }
            &&& v[10] == if f.card_present {
                10000int
            } else {
                0
            }
            &&& v[11] == if f.known.contains(f.merchant->0) {
                0int
            } else {
                10000
            }
            &&& v[12] == match f.mcc {
                Some(code) => normalize::risk(code),
                None => 5000,
            }
        }),
{
    lemma_vector(ms, g);
}

proof fn lemma_items(items: Seq<Item>, t: Seq<u8>)
    ensures
        members::items_of(items).contains(t) <==> exists|k: int|
            0 <= k < items.len() && (#[trigger] items[k]).text == t,
    decreases items.len(),
{
    if items.len() > 0 {
        let rest = items.drop_first();
        let a = members::items_of(items);
        let b = members::items_of(rest);
        lemma_items(rest, t);
        assert(a == seq![items[0].text] + b);
        if a.contains(t) {
            let k = choose|k: int| 0 <= k < a.len() && a[k] == t;
            if k == 0 {
                assert(items[0].text == t);
            } else {
                assert(b[k - 1] == t);
                assert(b.contains(t));
                let m = choose|m: int| 0 <= m < rest.len() && (#[trigger] rest[m]).text == t;
                assert(items[m + 1].text == t);
            }
        }
        if exists|k: int| 0 <= k < items.len() && (#[trigger] items[k]).text == t {
            let k = choose|k: int| 0 <= k < items.len() && (#[trigger] items[k]).text == t;
            if k == 0 {
                assert(a[0] == t);
            } else {
                assert(rest[k - 1].text == t);
                let m = choose|m: int| 0 <= m < b.len() && b[m] == t;
                assert(a[m + 1] == t);
            }
            assert(a.contains(t));
        }
    }
}

/// A text is read as it stands between its quotation marks, and a list as its
/// items.
proof fn lemma_value_read(v: Datum)
    ensures
        v matches Datum::Text(t) ==> (members::is_text(t) ==> fields::quoted(
            members::value_text(v),
            1,
        ) == t),
        v matches Datum::List(items, end) ==> members::value_text(v)[0] == OPEN_BRACKET && (
        members::are_items(items) && members::is_gap(end) ==> fields::strings(
            members::value_text(v),
            1,
        ) == members::items_of(items)),
{
    let t = members::value_text(v);
    assert(members::at(t, 0, t)) by {
        assert(t.subrange(0, t.len() as int) =~= t);
    }
    match v {
        Datum::Word(_) => {},
        Datum::Text(x) => {
            if members::is_text(x) {
                members::lemma_quoted(t, 0, x);
            }
        },
        Datum::List(items, end) => {
            members::lemma_split(t, 0, seq![OPEN_BRACKET], members::list_text(items, end));
            if members::are_items(items) && members::is_gap(end) {
                members::lemma_list(t, 1, items, end);
            }
        },
    }
}

proof fn lemma_merchant(ms: Seq<Member>, t: Seq<u8>)
    requires
        is_plain(ms),
        has(ms, "merchant".spec_bytes(), "id".spec_bytes(), Datum::Text(t)),
        members::read_members(ms, members::nothing_seen()) is Some,
    ensures
        members::read_members(ms, members::nothing_seen())->0.found.merchant == Some(t),
{
    let (part, name) = ("merchant".spec_bytes(), "id".spec_bytes());
    let (i, j) = choose|i: int, j: int| #[trigger]
        stands(ms, part, name, i, j) && fields_of(ms[i])[j].value == Datum::Text(t);
    lemma_part_names();
    let b = lemma_field_read(ms, i, j);
    lemma_value_read(Datum::Text(t));
}

proof fn lemma_known(ms: Seq<Member>, items: Seq<Item>, end: Seq<u8>)
    requires
        is_plain(ms),
        members::read_members(ms, members::nothing_seen()) is Some,
    ensures
        ({
            let f = members::read_members(ms, members::nothing_seen())->0.found;
            let (part, name) = ("customer".spec_bytes(), "known_merchants".spec_bytes());
            &&& has(ms, part, name, Datum::List(items, end)) ==> f.known == members::items_of(items)
            &&& lacks(ms, part, name) ==> f.known.len() == 0
        }),
{
    let (part, name) = ("customer".spec_bytes(), "known_merchants".spec_bytes());
    let r = members::read_members(ms, members::nothing_seen())->0;
    lemma_part_names();
    lemma_field_names();
    if has(ms, part, name, Datum::List(items, end)) {
        let (i, j) = choose|i: int, j: int| #[trigger]
            stands(ms, part, name, i, j) && fields_of(ms[i])[j].value == Datum::List(items, end);
        let b = lemma_field_read(ms, i, j);
        lemma_value_read(Datum::List(items, end));
        assert(b.found.known.len() == 0);
        assert(r.found.known =~= members::items_of(items));
    }
    if lacks(ms, part, name) {
        lemma_field_missing(ms, part, name);
    }
}

/// The twelfth feature says that the merchant is not known: it is zero if the
/// name of the merchant is any of the names of known merchants, wherever it
/// stands among them, and the full scale if it is none of them.
pub proof fn law_unknown_merchant(
    ms: Seq<Member>,
    g: Spacing,
    t: Seq<u8>,
    items: Seq<Item>,
    end: Seq<u8>,
)
    requires
        is_plain(ms),
        members::is_spacing(g, ms.len() as int),
        has(ms, "merchant".spec_bytes(), "id".spec_bytes(), Datum::Text(t)),
        normalize::normalized(members::document(ms, g)) is Some,
    ensures
        ({
            let v = normalize::normalized(members::document(ms, g))->0;
            let (part, name) = ("customer".spec_bytes(), "known_merchants".spec_bytes());
            &&& v.len() == 14
            &&& has(ms, part, name, Datum::List(items, end)) && (exists|k: int|
                0 <= k < items.len() && (#[trigger] items[k]).text == t) ==> v[11] == 0
            &&& has(ms, part, name, Datum::List(items, end)) && (forall|k: int|
                0 <= k < items.len() ==> (#[trigger] items[k]).text != t) ==> v[11] == 10000
            &&& lacks(ms, part, name) ==> v[11] == 10000
        }),
{
    lemma_shape(ms, g);
    lemma_merchant(ms, t);
    lemma_known(ms, items, end);
    lemma_items(items, t);
}

/// The order of the known merchants does not matter, nor how often one of them
/// is named, nor what stands between them.
pub proof fn law_known_in_any_order(
    ms: Seq<Member>,
    g: Spacing,
    items: Seq<Item>,
    end: Seq<u8>,
    ns: Seq<Member>,
    h: Spacing,
    others: Seq<Item>,
    close: Seq<u8>,
    t: Seq<u8>,
)
    requires
        is_plain(ms),
        is_plain(ns),
        members::is_spacing(g, ms.len() as int),
        members::is_spacing(h, ns.len() as int),
        has(ms, "merchant".spec_bytes(), "id".spec_bytes(), Datum::Text(t)),
        has(ns, "merchant".spec_bytes(), "id".spec_bytes(), Datum::Text(t)),
        has(
            ms,
            "customer".spec_bytes(),
            "known_merchants".spec_bytes(),
            Datum::List(items, end),
        ),
        has(
            ns,
            "customer".spec_bytes(),
            "known_merchants".spec_bytes(),
            Datum::List(others, close),
        ),
        forall|k: int|
            0 <= k < items.len() ==> exists|l: int|
                0 <= l < others.len() && (#[trigger] others[l]).text == (#[trigger] items[k]).text,
        forall|l: int|
            0 <= l < others.len() ==> exists|k: int|
                0 <= k < items.len() && (#[trigger] items[k]).text == (#[trigger] others[l]).text,
        normalize::normalized(members::document(ms, g)) is Some,
        normalize::normalized(members::document(ns, h)) is Some,
    ensures
        normalize::normalized(members::document(ms, g))->0[11] == normalize::normalized(
            members::document(ns, h),
        )->0[11],
{
    law_unknown_merchant(ms, g, t, items, end);
    law_unknown_merchant(ns, h, t, others, close);
}

/// The tenth and eleventh feature are the full scale if the terminal is online
/// and the card present, and zero if not, or if the document does not say.
pub proof fn law_terminal_flags(ms: Seq<Member>, g: Spacing)
    requires
        is_plain(ms),
        members::is_spacing(g, ms.len() as int),
        normalize::normalized(members::document(ms, g)) is Some,
    ensures
        ({
            let v = normalize::normalized(members::document(ms, g))->0;
            let part = "terminal".spec_bytes();
            let yes = Datum::Word("true".spec_bytes());
            let no = Datum::Word("false".spec_bytes());
            &&& has(ms, part, "is_online".spec_bytes(), yes) ==> v[9] == 10000
            &&& has(ms, part, "is_online".spec_bytes(), no) ==> v[9] == 0
            &&& lacks(ms, part, "is_online".spec_bytes()) ==> v[9] == 0
            &&& has(ms, part, "card_present".spec_bytes(), yes) ==> v[10] == 10000
            &&& has(ms, part, "card_present".spec_bytes(), no) ==> v[10] == 0
            &&& lacks(ms, part, "card_present".spec_bytes()) ==> v[10] == 0
        }),
{
    let part = "terminal".spec_bytes();
    let yes = Datum::Word("true".spec_bytes());
    let no = Datum::Word("false".spec_bytes());
    reveal_strlit("true");
    is_ascii_spec_bytes("true");
    reveal_strlit("false");
    is_ascii_spec_bytes("false");
    assert("true".spec_bytes()[0] == ascii::LOWER_T);
    assert("false".spec_bytes()[0] == 0x66);
    lemma_shape(ms, g);
    lemma_flag(ms, "is_online".spec_bytes(), yes);
    lemma_flag(ms, "is_online".spec_bytes(), no);
    lemma_flag(ms, "card_present".spec_bytes(), yes);
    lemma_flag(ms, "card_present".spec_bytes(), no);
}

proof fn lemma_flag(ms: Seq<Member>, name: Seq<u8>, v: Datum)
    requires
        is_plain(ms),
        members::read_members(ms, members::nothing_seen()) is Some,
    ensures
        ({
            let f = members::read_members(ms, members::nothing_seen())->0.found;
            let part = "terminal".spec_bytes();
            let t = members::value_text(v)[0] == ascii::LOWER_T;
            &&& name == "is_online".spec_bytes() ==> {
                &&& has(ms, part, name, v) ==> f.is_online == t
                &&& lacks(ms, part, name) ==> !f.is_online
            }
            &&& name == "card_present".spec_bytes() ==> {
                &&& has(ms, part, name, v) ==> f.card_present == t
                &&& lacks(ms, part, name) ==> !f.card_present
            }
        }),
{
    let part = "terminal".spec_bytes();
    lemma_part_names();
    lemma_field_names();
    if has(ms, part, name, v) {
        let (i, j) = choose|i: int, j: int| #[trigger]
            stands(ms, part, name, i, j) && fields_of(ms[i])[j].value == v;
        let b = lemma_field_read(ms, i, j);
    }
    if lacks(ms, part, name) {
        lemma_field_missing(ms, part, name);
    }
}

/// The categories of merchants and their risks, in hundredths.
pub open spec fn categories() -> Seq<(Seq<u8>, int)> {
    seq![
        ("5411".spec_bytes(), 15int),
        ("5812".spec_bytes(), 30),
        ("5912".spec_bytes(), 20),
        ("5944".spec_bytes(), 45),
        ("7801".spec_bytes(), 80),
        ("7802".spec_bytes(), 75),
        ("7995".spec_bytes(), 85),
        ("4511".spec_bytes(), 35),
        ("5311".spec_bytes(), 25),
    ]
}

/// The codes of the categories are different ones.
#[verifier::spinoff_prover]
proof fn lemma_codes()
    ensures
        forall|a: int, b: int|
            0 <= a < b < 9 ==> (#[trigger] categories()[a]).0 != (#[trigger] categories()[b]).0,
{
    reveal_strlit("5411");
    is_ascii_spec_bytes("5411");
    reveal_strlit("5812");
    is_ascii_spec_bytes("5812");
    reveal_strlit("5912");
    is_ascii_spec_bytes("5912");
    reveal_strlit("5944");
    is_ascii_spec_bytes("5944");
    reveal_strlit("7801");
    is_ascii_spec_bytes("7801");
    reveal_strlit("7802");
    is_ascii_spec_bytes("7802");
    reveal_strlit("7995");
    is_ascii_spec_bytes("7995");
    reveal_strlit("4511");
    is_ascii_spec_bytes("4511");
    reveal_strlit("5311");
    is_ascii_spec_bytes("5311");
    let c = categories();
    assert(number_of(c[0].0) == 5411 && number_of(c[1].0) == 5812 && number_of(c[2].0) == 5912);
    assert(number_of(c[3].0) == 5944 && number_of(c[4].0) == 7801 && number_of(c[5].0) == 7802);
    assert(number_of(c[6].0) == 7995 && number_of(c[7].0) == 4511 && number_of(c[8].0) == 5311);
}

spec fn number_of(t: Seq<u8>) -> int {
    1000 * (t[0] - ZERO) + 100 * (t[1] - ZERO) + 10 * (t[2] - ZERO) + (t[3] - ZERO)
}

/// The thirteenth feature is the risk of the category of the merchant. A
/// category that is not listed, or not given, is at one half.
#[verifier::spinoff_prover]
pub proof fn law_category_risk(ms: Seq<Member>, g: Spacing, code: Seq<u8>)
    requires
        is_plain(ms),
        members::is_spacing(g, ms.len() as int),
        normalize::normalized(members::document(ms, g)) is Some,
    ensures
        ({
            let v = normalize::normalized(members::document(ms, g))->0;
            let (part, name) = ("merchant".spec_bytes(), "mcc".spec_bytes());
            &&& has(ms, part, name, Datum::Text(code)) ==> {
                &&& forall|i: int|
                    0 <= i < 9 && (#[trigger] categories()[i]).0 == code ==> v[12] == 100
                        * categories()[i].1
                &&& (forall|i: int| 0 <= i < 9 ==> (#[trigger] categories()[i]).0 != code)
                    ==> v[12] == 5000
            }
            &&& lacks(ms, part, name) ==> v[12] == 5000
        }),
{
    lemma_shape(ms, g);
    lemma_category(ms, code);
    lemma_risk(code);
}

proof fn lemma_category(ms: Seq<Member>, code: Seq<u8>)
    requires
        is_plain(ms),
        members::read_members(ms, members::nothing_seen()) is Some,
    ensures
        ({
            let f = members::read_members(ms, members::nothing_seen())->0.found;
            let (part, name) = ("merchant".spec_bytes(), "mcc".spec_bytes());
            &&& has(ms, part, name, Datum::Text(code)) ==> f.mcc == Some(code)
            &&& lacks(ms, part, name) ==> f.mcc is None
        }),
{
    let (part, name) = ("merchant".spec_bytes(), "mcc".spec_bytes());
    lemma_part_names();
    lemma_field_names();
    if has(ms, part, name, Datum::Text(code)) {
        let (i, j) = choose|i: int, j: int| #[trigger]
            stands(ms, part, name, i, j) && fields_of(ms[i])[j].value == Datum::Text(code);
        let b = lemma_field_read(ms, i, j);
        lemma_value_read(Datum::Text(code));
    }
    if lacks(ms, part, name) {
        lemma_field_missing(ms, part, name);
    }
}

#[verifier::spinoff_prover]
proof fn lemma_risk(code: Seq<u8>)
    ensures
        forall|i: int|
            0 <= i < 9 && (#[trigger] categories()[i]).0 == code ==> normalize::risk(code) == 100
                * categories()[i].1,
        (forall|i: int| 0 <= i < 9 ==> (#[trigger] categories()[i]).0 != code) ==> normalize::risk(
            code,
        ) == 5000,
{
    lemma_codes();
    let c = categories();
    assert(c[0].0 == "5411".spec_bytes() && c[1].0 == "5812".spec_bytes());
    assert(c[2].0 == "5912".spec_bytes() && c[3].0 == "5944".spec_bytes());
    assert(c[4].0 == "7801".spec_bytes() && c[5].0 == "7802".spec_bytes());
    assert(c[6].0 == "7995".spec_bytes() && c[7].0 == "4511".spec_bytes());
    assert(c[8].0 == "5311".spec_bytes());
}

// ---------------------------------------------------------------------------
// Numbers and moments
// ---------------------------------------------------------------------------

/// What the document says about numbers.
pub ghost enum Amount {
    Amount,
    Installments,
    CustomerAverage,
    Count,
    MerchantAverage,
    FromHome,
    FromCurrent,
}

/// The part and the name of the field with the number.
pub open spec fn place_of(a: Amount) -> (Seq<u8>, Seq<u8>) {
    match a {
        Amount::Amount => ("transaction".spec_bytes(), "amount".spec_bytes()),
        Amount::Installments => ("transaction".spec_bytes(), "installments".spec_bytes()),
        Amount::CustomerAverage => ("customer".spec_bytes(), "avg_amount".spec_bytes()),
        Amount::Count => ("customer".spec_bytes(), "tx_count_24h".spec_bytes()),
        Amount::MerchantAverage => ("merchant".spec_bytes(), "avg_amount".spec_bytes()),
        Amount::FromHome => ("terminal".spec_bytes(), "km_from_home".spec_bytes()),
        Amount::FromCurrent => (
            "last_transaction".spec_bytes(),
            "km_from_current".spec_bytes(),
        ),
    }
}

spec fn found_of(a: Amount, f: fields::Fields) -> (int, int) {
    match a {
        Amount::Amount => f.tx_amount,
        Amount::Installments => f.tx_inst,
        Amount::CustomerAverage => f.cust_avg,
        Amount::Count => f.cnt24,
        Amount::MerchantAverage => f.merch_avg,
        Amount::FromHome => f.km_home,
        Amount::FromCurrent => f.km_cur,
    }
}

/// A document says that a number is `n / d`, in up to eight places; nothing
/// said is zero.
pub open spec fn says(ms: Seq<Member>, a: Amount, n: int, d: int) -> bool {
    let (part, name) = place_of(a);
    ||| lacks(ms, part, name) && n == 0 && d == 1
    ||| exists|whole: Seq<u8>, fraction: Seq<u8>|
        #![trigger precision::decimal_text(whole, fraction)]
        has(ms, part, name, Datum::Word(precision::decimal_text(whole, fraction)))
            && precision::are_digits(whole) && precision::are_digits(fraction) && fraction.len()
            <= 8 && d == precision::ten_power(fraction.len()) && n == precision::digits_value(whole)
            * d + precision::digits_value(fraction)
}

#[verifier::spinoff_prover]
#[verifier::rlimit(30)]
proof fn lemma_amount_read(ms: Seq<Member>, a: Amount, w: Seq<u8>)
    requires
        is_plain(ms),
        members::read_members(ms, members::nothing_seen()) is Some,
    ensures
        ({
            let f = members::read_members(ms, members::nothing_seen())->0.found;
            let (part, name) = place_of(a);
            &&& has(ms, part, name, Datum::Word(w)) ==> fields::number(w, 0) == Some(found_of(a, f))
            &&& lacks(ms, part, name) ==> found_of(a, f) == (0int, 0int)
        }),
{
    let (part, name) = place_of(a);
    lemma_part_names();
    lemma_field_names();
    if has(ms, part, name, Datum::Word(w)) {
        let (i, j) = choose|i: int, j: int| #[trigger]
            stands(ms, part, name, i, j) && fields_of(ms[i])[j].value == Datum::Word(w);
        let b = lemma_field_read(ms, i, j);
        match a {
            Amount::Amount => {},
            Amount::Installments => {},
            Amount::CustomerAverage => {},
            Amount::Count => {},
            Amount::MerchantAverage => {},
            Amount::FromHome => {},
            Amount::FromCurrent => {},
        }
    }
    if lacks(ms, part, name) {
        lemma_field_missing(ms, part, name);
    }
}

/// What is found is near to what the document says.
proof fn lemma_amount(ms: Seq<Member>, a: Amount, n: int, d: int)
    requires
        is_plain(ms),
        members::read_members(ms, members::nothing_seen()) is Some,
        says(ms, a, n, d),
    ensures
        ({
            let x = found_of(a, members::read_members(ms, members::nothing_seen())->0.found);
            &&& crate::binary::is_single(x)
            &&& -60 <= x.1 <= 20
            &&& precision::is_near(x, n, d, 8)
        }),
{
    let (part, name) = place_of(a);
    let x = found_of(a, members::read_members(ms, members::nothing_seen())->0.found);
    if lacks(ms, part, name) && n == 0 && d == 1 {
        lemma_amount_read(ms, a, Seq::empty());
        precision::lemma_zero();
    } else {
        let (whole, fraction) = choose|whole: Seq<u8>, fraction: Seq<u8>|
            #![trigger precision::decimal_text(whole, fraction)]
            has(ms, part, name, Datum::Word(precision::decimal_text(whole, fraction)))
                && precision::are_digits(whole) && precision::are_digits(fraction) && fraction.len()
                <= 8 && d == precision::ten_power(fraction.len()) && n == precision::digits_value(
                whole,
            ) * d + precision::digits_value(fraction);
        lemma_amount_read(ms, a, precision::decimal_text(whole, fraction));
        precision::law_number_is_read(whole, fraction);
    }
}

/// The features that come from numbers.
proof fn lemma_number_shape(ms: Seq<Member>, g: Spacing)
    requires
        is_plain(ms),
        members::is_spacing(g, ms.len() as int),
        normalize::normalized(members::document(ms, g)) is Some,
    ensures
        members::read_members(ms, members::nothing_seen()) is Some,
        ({
            let v = normalize::normalized(members::document(ms, g))->0;
            let f = members::read_members(ms, members::nothing_seen())->0.found;
            &&& v.len() == 14
            &&& v[0] == normalize::share(f.tx_amount, 10000)
            &&& v[1] == normalize::share(f.tx_inst, 12)
            &&& v[2] == normalize::share(
                crate::binary::quotient(f.tx_amount, normalize::divisor(f.cust_avg)),
                10,
            )
            &&& v[7] == normalize::share(f.km_home, 1000)
            &&& v[8] == normalize::share(f.cnt24, 20)
            &&& v[13] == normalize::share(f.merch_avg, 10000)
        }),
{
    lemma_vector(ms, g);
}

/// Features that come from numbers are shares of a limit, at most all of it: of
/// ten thousand for amounts, of twelve installments, of ten times the average of
/// the customer, of a thousand kilometres from home, and of twenty transactions
/// in a day. An average of zero stands for one.
pub proof fn law_amounts_are_shares(ms: Seq<Member>, g: Spacing, a: Amount, n: int, d: int, k: int, l: int)
    requires
        is_plain(ms),
        members::is_spacing(g, ms.len() as int),
        normalize::normalized(members::document(ms, g)) is Some,
        says(ms, a, n, d),
    ensures
        ({
            let v = normalize::normalized(members::document(ms, g))->0;
            match a {
                Amount::Amount => {
                    &&& precision::is_share(v[0], n, d * 10000)
                    &&& says(ms, Amount::CustomerAverage, k, l) && k > 0 ==> precision::is_share(
                        v[2],
                        n * l,
                        d * k * 10,
                    )
                    &&& says(ms, Amount::CustomerAverage, k, l) && k == 0 ==> precision::is_share(
                        v[2],
                        n,
                        d * 10,
                    )
                },
                Amount::Installments => precision::is_share(v[1], n, d * 12),
                Amount::FromHome => precision::is_share(v[7], n, d * 1000),
                Amount::Count => precision::is_share(v[8], n, d * 20),
                Amount::MerchantAverage => precision::is_share(v[13], n, d * 10000),
                _ => true,
            }
        }),
{
    lemma_number_shape(ms, g);
    lemma_amount(ms, a, n, d);
    let f = members::read_members(ms, members::nothing_seen())->0.found;
    match a {
        Amount::Amount => {
            precision::law_share_is_exact(f.tx_amount, n, d, 8, 10000);
            if says(ms, Amount::CustomerAverage, k, l) {
                lemma_amount(ms, Amount::CustomerAverage, k, l);
                precision::lemma_loosen(f.tx_amount, n, d, 8, 20);
                precision::lemma_loosen(f.cust_avg, k, l, 8, 20);
                precision::law_ratio_is_share(f.tx_amount, n, d, f.cust_avg, k, l);
            }
        },
        Amount::Installments => {
            precision::law_share_is_exact(f.tx_inst, n, d, 8, 12);
        },
        Amount::FromHome => {
            precision::law_share_is_exact(f.km_home, n, d, 8, 1000);
        },
        Amount::Count => {
            precision::law_share_is_exact(f.cnt24, n, d, 8, 20);
        },
        Amount::MerchantAverage => {
            precision::law_share_is_exact(f.merch_avg, n, d, 8, 10000);
        },
        _ => {},
    }
}

// ---------------------------------------------------------------------------
// Moments
// ---------------------------------------------------------------------------

/// The number of `n` digits at place `p` of a text.
pub open spec fn number_at(t: Seq<u8>, p: int, n: int) -> int {
    precision::digits_value(t.subrange(p, p + n))
}

/// The moment that a text begins with, as `YYYY-MM-DDThh:mm:ss`.
pub open spec fn moment_at_start(t: Seq<u8>) -> normalize::Stamp {
    normalize::Stamp {
        year: number_at(t, 0, 4),
        month: number_at(t, 5, 2),
        day: number_at(t, 8, 2),
        hour: number_at(t, 11, 2),
        minute: number_at(t, 14, 2),
        second: number_at(t, 17, 2),
    }
}

proof fn lemma_two_digits(t: Seq<u8>, p: int)
    requires
        0 <= p,
        p + 2 <= t.len(),
    ensures
        number_at(t, p, 2) == 10 * (t[p] - 0x30) + (t[p + 1] - 0x30),
{
    let a = t.subrange(p, p + 2);
    reveal_with_fuel(precision::digits_value, 3);
    assert(a.drop_last().drop_last().len() == 0);
    assert(a.last() == t[p + 1] && a.drop_last().last() == t[p]);
}

proof fn lemma_four_digits(t: Seq<u8>)
    requires
        4 <= t.len(),
    ensures
        number_at(t, 0, 4) == 1000 * (t[0] - 0x30) + 100 * (t[1] - 0x30) + 10 * (t[2] - 0x30) + (t[3]
            - 0x30),
{
    let a = t.subrange(0, 4);
    reveal_with_fuel(precision::digits_value, 5);
    let b = a.drop_last();
    let c = b.drop_last();
    let d = c.drop_last();
    assert(d.drop_last().len() == 0);
    assert(a.last() == t[3] && b.last() == t[2] && c.last() == t[1] && d.last() == t[0]);
}

/// A moment between quotation marks is the one that the text begins with.
#[verifier::spinoff_prover]
proof fn lemma_stamp(t: Seq<u8>)
    requires
        t.len() >= 19,
        normalize::stamp(members::value_text(Datum::Text(t)), 1) is Some,
    ensures
        normalize::stamp(members::value_text(Datum::Text(t)), 1) == Some(moment_at_start(t)),
{
    let v = members::value_text(Datum::Text(t));
    assert forall|i: int| 0 <= i < t.len() implies #[trigger] v[i + 1] == t[i] by {}
    assert(v[1] == t[0] && v[2] == t[1] && v[3] == t[2] && v[4] == t[3]);
    assert(v[6] == t[5] && v[7] == t[6] && v[9] == t[8] && v[10] == t[9]);
    assert(v[12] == t[11] && v[13] == t[12] && v[15] == t[14] && v[16] == t[15]);
    assert(v[18] == t[17] && v[19] == t[18]);
    lemma_four_digits(t);
    lemma_two_digits(t, 5);
    lemma_two_digits(t, 8);
    lemma_two_digits(t, 11);
    lemma_two_digits(t, 14);
    lemma_two_digits(t, 17);
}

#[verifier::spinoff_prover]
proof fn lemma_moments(ms: Seq<Member>, t: Seq<u8>)
    requires
        is_plain(ms),
        members::read_members(ms, members::nothing_seen()) is Some,
    ensures
        ({
            let r = members::read_members(ms, members::nothing_seen())->0;
            let x = normalize::stamp(members::value_text(Datum::Text(t)), 1);
            let (last, time) = ("last_transaction".spec_bytes(), "timestamp".spec_bytes());
            &&& has(
                ms,
                "transaction".spec_bytes(),
                "requested_at".spec_bytes(),
                Datum::Text(t),
            ) ==> t.len() >= 19 && r.requested == Some(x)
            &&& lacks(ms, "transaction".spec_bytes(), "requested_at".spec_bytes())
                ==> r.requested is None
            &&& has(ms, last, time, Datum::Text(t)) ==> t.len() >= 19 && r.last == Some(x)
                && r.found.has_last
            &&& lacks(ms, last, time) ==> r.last is None
        }),
{
    let v = Datum::Text(t);
    lemma_part_names();
    lemma_field_names();
    let (part, name) = ("transaction".spec_bytes(), "requested_at".spec_bytes());
    if has(ms, part, name, v) {
        let (i, j) = choose|i: int, j: int| #[trigger]
            stands(ms, part, name, i, j) && fields_of(ms[i])[j].value == v;
        let b = lemma_field_read(ms, i, j);
    }
    if lacks(ms, part, name) {
        lemma_field_missing(ms, part, name);
    }
    let (part, name) = ("last_transaction".spec_bytes(), "timestamp".spec_bytes());
    if has(ms, part, name, v) {
        let (i, j) = choose|i: int, j: int| #[trigger]
            stands(ms, part, name, i, j) && fields_of(ms[i])[j].value == v;
        let b = lemma_field_read(ms, i, j);
        lemma_has_last(ms, i);
    }
    if lacks(ms, part, name) {
        lemma_field_missing(ms, part, name);
    }
}

proof fn lemma_has_last(ms: Seq<Member>, i: int)
    requires
        is_plain(ms),
        0 <= i < ms.len(),
        ms[i].key == "last_transaction".spec_bytes(),
        ms[i].content is Object,
        members::read_members(ms, members::nothing_seen()) is Some,
    ensures
        members::read_members(ms, members::nothing_seen())->0.found.has_last,
{
    let a = members::nothing_seen();
    lemma_part_names();
    lemma_part(ms, i);
    assert(is_plain_member(ms[i]));
    lemma_plain_member(ms[i]);
    lemma_stays_last(fields_of(ms[i]), members::opened(Sec::Last, a));
}

proof fn lemma_stays_last(fs: Seq<Field>, a: members::Sight)
    requires
        a.found.has_last,
        members::read_all(Sec::Last, fs, a) is Some,
    ensures
        members::read_all(Sec::Last, fs, a)->0.found.has_last,
    decreases fs.len(),
{
    if fs.len() > 0 {
        let b = members::read(Sec::Last, fs[0].key, members::value_text(fs[0].value), a)->0;
        assert(b.found.has_last);
        lemma_stays_last(fs.drop_first(), b);
    }
}

/// The features that come from moments.
proof fn lemma_moment_shape(ms: Seq<Member>, g: Spacing)
    requires
        is_plain(ms),
        members::is_spacing(g, ms.len() as int),
        normalize::normalized(members::document(ms, g)) is Some,
    ensures
        members::read_members(ms, members::nothing_seen()) is Some,
        ({
            let v = normalize::normalized(members::document(ms, g))->0;
            let r = members::read_members(ms, members::nothing_seen())->0;
            let now = r.requested->0->0;
            &&& v.len() == 14
            &&& r.requested is Some && r.requested->0 is Some
            &&& 1 <= now.month <= 12
            &&& v[3] == normalize::part(now.hour, 23)
            &&& v[4] == normalize::part(normalize::weekday(now.year, now.month, now.day), 6)
            &&& r.last is None ==> v[5] == -10000 && v[6] == -10000
            &&& r.last is Some && r.found.has_last ==> {
                let then = r.last->0->0;
                &&& r.last->0 is Some
                &&& v[5] == normalize::elapsed(normalize::epoch(now) - normalize::epoch(then))
                &&& v[6] == normalize::share(r.found.km_cur, 1000)
            }
        }),
{
    lemma_vector(ms, g);
}

/// The hour of the request is a share of twenty-three, and the day of its week
/// a share of six, counted from Monday; the first of January 1970 was a
/// Thursday.
pub proof fn law_request_time(ms: Seq<Member>, g: Spacing, t: Seq<u8>)
    requires
        is_plain(ms),
        members::is_spacing(g, ms.len() as int),
        normalize::normalized(members::document(ms, g)) is Some,
        has(ms, "transaction".spec_bytes(), "requested_at".spec_bytes(), Datum::Text(t)),
    ensures
        ({
            let v = normalize::normalized(members::document(ms, g))->0;
            let now = moment_at_start(t);
            &&& 1 <= now.month <= 12
            &&& precision::is_share(v[3], now.hour, 23)
            &&& now.year > 0 ==> precision::is_share(
                v[4],
                (normalize::days(now.year, now.month, now.day) + 3) % 7,
                6,
            )
        }),
{
    lemma_moment_shape(ms, g);
    lemma_moments(ms, t);
    lemma_stamp(t);
    let now = moment_at_start(t);
    lemma_moment_within(t);
    precision::law_part_is_exact(now.hour, 23);
    if now.year > 0 {
        normalize::law_weekday_follows_days(now.year, now.month, now.day);
        precision::law_part_is_exact(
            normalize::weekday(now.year, now.month, now.day),
            6,
        );
    }
}

/// The numbers of a moment that can be read are not negative.
#[verifier::spinoff_prover]
proof fn lemma_moment_within(t: Seq<u8>)
    requires
        t.len() >= 19,
        normalize::stamp(members::value_text(Datum::Text(t)), 1) is Some,
    ensures
        ({
            let x = moment_at_start(t);
            &&& 0 <= x.year <= 9999
            &&& 0 <= x.month <= 99
            &&& 0 <= x.day <= 99
            &&& 0 <= x.hour <= 99
            &&& 0 <= x.minute <= 99
            &&& 0 <= x.second <= 99
        }),
{
    lemma_stamp(t);
}

/// The time since the last transaction is a share of a day, and the distance
/// from it one of a thousand kilometres. Without a last transaction both are
/// minus the scale.
pub proof fn law_last_transaction(
    ms: Seq<Member>,
    g: Spacing,
    now: Seq<u8>,
    then: Seq<u8>,
    n: int,
    d: int,
)
    requires
        is_plain(ms),
        members::is_spacing(g, ms.len() as int),
        normalize::normalized(members::document(ms, g)) is Some,
        has(ms, "transaction".spec_bytes(), "requested_at".spec_bytes(), Datum::Text(now)),
    ensures
        ({
            let v = normalize::normalized(members::document(ms, g))->0;
            let (last, time) = ("last_transaction".spec_bytes(), "timestamp".spec_bytes());
            let passed = normalize::epoch(moment_at_start(now)) - normalize::epoch(
                moment_at_start(then),
            );
            &&& has(ms, last, time, Datum::Text(then)) ==> {
                &&& passed <= 0 ==> v[5] == 0
                &&& passed > 0 ==> precision::is_share(v[5], passed, 86400)
                &&& says(ms, Amount::FromCurrent, n, d) ==> precision::is_share(v[6], n, d * 1000)
            }
            &&& lacks(ms, last, time) ==> v[5] == -10000 && v[6] == -10000
        }),
{
    lemma_moment_shape(ms, g);
    lemma_moments(ms, now);
    lemma_moments(ms, then);
    lemma_stamp(now);
    lemma_moment_within(now);
    let (last, time) = ("last_transaction".spec_bytes(), "timestamp".spec_bytes());
    if has(ms, last, time, Datum::Text(then)) {
        lemma_stamp(then);
        lemma_moment_within(then);
        let passed = normalize::epoch(moment_at_start(now)) - normalize::epoch(
            moment_at_start(then),
        );
        lemma_passed(moment_at_start(now), moment_at_start(then));
        precision::law_elapsed_is_share_of_day(passed);
        if says(ms, Amount::FromCurrent, n, d) {
            lemma_amount(ms, Amount::FromCurrent, n, d);
            let f = members::read_members(ms, members::nothing_seen())->0.found;
            precision::law_share_is_exact(f.km_cur, n, d, 8, 1000);
        }
    }
}

#[verifier::spinoff_prover]
proof fn lemma_passed(a: normalize::Stamp, b: normalize::Stamp)
    requires
        0 <= a.year <= 9999 && 0 <= b.year <= 9999,
        0 <= a.month <= 99 && 0 <= b.month <= 99,
        0 <= a.day <= 99 && 0 <= b.day <= 99,
        0 <= a.hour <= 99 && 0 <= b.hour <= 99,
        0 <= a.minute <= 99 && 0 <= b.minute <= 99,
        0 <= a.second <= 99 && 0 <= b.second <= 99,
    ensures
        normalize::epoch(a) - normalize::epoch(b) <= u64::MAX,
{
}

// ---------------------------------------------------------------------------
// Which documents have a vector
// ---------------------------------------------------------------------------

/// The document says nothing of a number, or one in up to eight places whose
/// whole part fits thirty-two bits.
pub open spec fn is_fitting(ms: Seq<Member>, a: Amount) -> bool {
    let (part, name) = place_of(a);
    ||| lacks(ms, part, name)
    ||| exists|whole: Seq<u8>, fraction: Seq<u8>|
        #![trigger precision::decimal_text(whole, fraction)]
        has(ms, part, name, Datum::Word(precision::decimal_text(whole, fraction)))
            && precision::are_digits(whole) && precision::are_digits(fraction) && fraction.len()
            <= 8 && precision::digits_value(whole) <= 0xffff_ffff
}

/// A text begins with a moment: digits stand in all the places for them.
pub open spec fn is_moment(t: Seq<u8>) -> bool {
    &&& t.len() >= 19
    &&& forall|i: int|
        0 <= i < 19 && i != 4 && i != 7 && i != 10 && i != 13 && i != 16 ==> 0x30
            <= #[trigger] t[i] <= 0x39
}

#[verifier::spinoff_prover]
proof fn lemma_is_moment(t: Seq<u8>)
    requires
        t.len() >= 19,
    ensures
        normalize::stamp(members::value_text(Datum::Text(t)), 1) is Some <==> is_moment(t),
{
    let v = members::value_text(Datum::Text(t));
    assert forall|i: int| 0 <= i < t.len() implies #[trigger] v[i + 1] == t[i] by {}
    assert(v[1] == t[0] && v[2] == t[1] && v[3] == t[2] && v[4] == t[3]);
    assert(v[6] == t[5] && v[7] == t[6] && v[9] == t[8] && v[10] == t[9]);
    assert(v[12] == t[11] && v[13] == t[12] && v[15] == t[14] && v[16] == t[15]);
    assert(v[18] == t[17] && v[19] == t[18]);
    if normalize::stamp(v, 1) is Some {
        assert forall|i: int|
            0 <= i < 19 && i != 4 && i != 7 && i != 10 && i != 13 && i != 16 implies 0x30
            <= #[trigger] t[i] <= 0x39 by {
            assert(v[i + 1] == t[i]);
            assert(ascii::is_digit(v[i + 1]));
        }
    }
}

/// The number that a field is about, if it is about one.
spec fn amount_at(sec: Sec, name: Seq<u8>) -> Option<Amount> {
    match sec {
        Sec::Tx => if name == "amount".spec_bytes() {
            Some(Amount::Amount)
        } else if name == "installments".spec_bytes() {
            Some(Amount::Installments)
        } else {
            None
        },
        Sec::Cust => if name == "avg_amount".spec_bytes() {
            Some(Amount::CustomerAverage)
        } else if name == "tx_count_24h".spec_bytes() {
            Some(Amount::Count)
        } else {
            None
        },
        Sec::Merch => if name == "avg_amount".spec_bytes() {
            Some(Amount::MerchantAverage)
        } else {
            None
        },
        Sec::Term => if name == "km_from_home".spec_bytes() {
            Some(Amount::FromHome)
        } else {
            None
        },
        Sec::Last => if name == "km_from_current".spec_bytes() {
            Some(Amount::FromCurrent)
        } else {
            None
        },
        Sec::Root => None,
    }
}

#[verifier::spinoff_prover]
#[verifier::rlimit(30)]
proof fn lemma_read_some(sec: Sec, name: Seq<u8>, t: Seq<u8>, a: members::Sight)
    requires
        amount_at(sec, name) is Some ==> fields::number(t, 0) is Some,
    ensures
        members::read(sec, name, t, a) is Some,
{
    match sec {
        Sec::Root => {},
        Sec::Tx => {},
        Sec::Cust => {},
        Sec::Merch => {},
        Sec::Term => {},
        Sec::Last => {},
    }
}

spec fn fields_fit(sec: Sec, fs: Seq<Field>) -> bool {
    forall|j: int|
        0 <= j < fs.len() && amount_at(sec, (#[trigger] fs[j]).key) is Some ==> fields::number(
            members::value_text(fs[j].value),
            0,
        ) is Some
}

proof fn lemma_all_some(sec: Sec, fs: Seq<Field>, a: members::Sight)
    requires
        fields_fit(sec, fs),
    ensures
        members::read_all(sec, fs, a) is Some,
    decreases fs.len(),
{
    if fs.len() > 0 {
        let t = members::value_text(fs[0].value);
        lemma_read_some(sec, fs[0].key, t, a);
        let rest = fs.drop_first();
        assert forall|j: int|
            0 <= j < rest.len() && amount_at(sec, (#[trigger] rest[j]).key) is Some implies fields::number(
            members::value_text(rest[j].value),
            0,
        ) is Some by {
            assert(rest[j] == fs[j + 1]);
        }
        lemma_all_some(sec, rest, members::read(sec, fs[0].key, t, a)->0);
    }
}

proof fn lemma_members_some(ms: Seq<Member>, a: members::Sight)
    requires
        forall|i: int| 0 <= i < ms.len() ==> is_plain_member(#[trigger] ms[i]),
        forall|i: int|
            0 <= i < ms.len() ==> fields_fit(
                part_named((#[trigger] ms[i]).key),
                fields_of(ms[i]),
            ),
    ensures
        members::read_members(ms, a) is Some,
    decreases ms.len(),
{
    if ms.len() > 0 {
        let m = ms[0];
        assert(is_plain_member(m));
        lemma_plain_member(m);
        if m.content is Object {
            let sec = part_named(m.key);
            assert(fields_fit(sec, fields_of(m)));
            lemma_all_some(sec, fields_of(m), members::opened(sec, a));
        }
        let rest = ms.drop_first();
        assert forall|i: int| 0 <= i < rest.len() implies is_plain_member(#[trigger] rest[i])
            && fields_fit(part_named(rest[i].key), fields_of(rest[i])) by {
            assert(rest[i] == ms[i + 1]);
        }
        lemma_members_some(rest, members::read_member(m, a)->0);
    }
}

/// A field stands in one place.
proof fn lemma_stands_once(
    ms: Seq<Member>,
    part: Seq<u8>,
    name: Seq<u8>,
    i: int,
    j: int,
    k: int,
    l: int,
)
    requires
        is_plain(ms),
        stands(ms, part, name, i, j),
        stands(ms, part, name, k, l),
    ensures
        i == k && j == l,
{
    if i < k {
        assert(ms[i].key != ms[k].key);
    } else if k < i {
        assert(ms[k].key != ms[i].key);
    }
    let fs = fields_of(ms[i]);
    assert(names_differ(fs));
    if j < l {
        assert(fs[j].key != fs[l].key);
    } else if l < j {
        assert(fs[l].key != fs[j].key);
    }
}

proof fn lemma_fitting_read(ms: Seq<Member>)
    requires
        is_plain(ms),
        forall|a: Amount| #[trigger] is_fitting(ms, a),
    ensures
        members::read_members(ms, members::nothing_seen()) is Some,
{
    lemma_part_names();
    assert forall|i: int| 0 <= i < ms.len() implies fields_fit(
        part_named((#[trigger] ms[i]).key),
        fields_of(ms[i]),
    ) by {
        let sec = part_named(ms[i].key);
        let fs = fields_of(ms[i]);
        assert forall|j: int|
            0 <= j < fs.len() && amount_at(sec, (#[trigger] fs[j]).key) is Some implies fields::number(
            members::value_text(fs[j].value),
            0,
        ) is Some by {
            let a = amount_at(sec, fs[j].key)->0;
            let (part, name) = place_of(a);
            assert(stands(ms, part, name, i, j));
            assert(is_fitting(ms, a));
            let (whole, fraction) = choose|whole: Seq<u8>, fraction: Seq<u8>|
                #![trigger precision::decimal_text(whole, fraction)]
                has(ms, part, name, Datum::Word(precision::decimal_text(whole, fraction)))
                    && precision::are_digits(whole) && precision::are_digits(fraction)
                    && fraction.len() <= 8 && precision::digits_value(whole) <= 0xffff_ffff;
            let w = precision::decimal_text(whole, fraction);
            let (k, l) = choose|k: int, l: int| #[trigger]
                stands(ms, part, name, k, l) && fields_of(ms[k])[l].value == Datum::Word(w);
            lemma_stands_once(ms, part, name, i, j, k, l);
            precision::law_number_is_read(whole, fraction);
        }
    }
    lemma_members_some(ms, members::nothing_seen());
}

proof fn lemma_no_merchant(ms: Seq<Member>)
    requires
        is_plain(ms),
        lacks(ms, "merchant".spec_bytes(), "id".spec_bytes()),
        members::read_members(ms, members::nothing_seen()) is Some,
    ensures
        members::read_members(ms, members::nothing_seen())->0.found.merchant is None,
{
    lemma_part_names();
    lemma_field_missing(ms, "merchant".spec_bytes(), "id".spec_bytes());
}

/// A document has a vector if it names the merchant and gives the moment of the
/// request, in a month of the year, if its numbers fit, and if the moment of the
/// last transaction, where there is one, can be read. It has none if it does not
/// name the merchant, or if a moment is missing or cannot be read.
pub proof fn law_has_vector(
    ms: Seq<Member>,
    g: Spacing,
    id: Seq<u8>,
    now: Seq<u8>,
    then: Seq<u8>,
)
    requires
        is_plain(ms),
        members::is_spacing(g, ms.len() as int),
        forall|a: Amount| #[trigger] is_fitting(ms, a),
    ensures
        ({
            let v = normalize::normalized(members::document(ms, g));
            let named = has(ms, "merchant".spec_bytes(), "id".spec_bytes(), Datum::Text(id));
            let nameless = lacks(ms, "merchant".spec_bytes(), "id".spec_bytes());
            let (tx, at) = ("transaction".spec_bytes(), "requested_at".spec_bytes());
            let (last, time) = ("last_transaction".spec_bytes(), "timestamp".spec_bytes());
            let fits = is_moment(now) && 1 <= moment_at_start(now).month <= 12;
            &&& nameless ==> v is None
            &&& lacks(ms, tx, at) ==> v is None
            &&& has(ms, tx, at, Datum::Text(now)) && !fits ==> v is None
            &&& has(ms, last, time, Datum::Text(then)) && !is_moment(then) ==> v is None
            &&& named && has(ms, tx, at, Datum::Text(now)) && fits && (lacks(ms, last, time) || has(
                ms,
                last,
                time,
                Datum::Text(then),
            ) && is_moment(then)) ==> v is Some
        }),
{
    let (tx, at) = ("transaction".spec_bytes(), "requested_at".spec_bytes());
    let (last, time) = ("last_transaction".spec_bytes(), "timestamp".spec_bytes());
    lemma_fitting_read(ms);
    lemma_plain(ms);
    members::lemma_document(ms, g);
    lemma_moments(ms, now);
    lemma_moments(ms, then);
    if lacks(ms, "merchant".spec_bytes(), "id".spec_bytes()) {
        lemma_no_merchant(ms);
    }
    if has(ms, "merchant".spec_bytes(), "id".spec_bytes(), Datum::Text(id)) {
        lemma_merchant(ms, id);
    }
    if has(ms, tx, at, Datum::Text(now)) {
        lemma_is_moment(now);
        if is_moment(now) {
            lemma_stamp(now);
        }
    }
    if has(ms, last, time, Datum::Text(then)) {
        lemma_is_moment(then);
    }
}

} // verus!
