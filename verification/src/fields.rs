//! The fields of a transaction, read off its JSON text in one pass.
//!
//! The pass looks for quoted names that a colon follows. The section it is in
//! and the name decide what becomes of the value.
use vstd::prelude::*;
use vstd::string::*;
use crate::ascii::{
    self, same_bytes, CLOSE_BRACE, CLOSE_BRACKET, COLON, LOWER_N, LOWER_T, NINE, OPEN_BRACE,
    OPEN_BRACKET, POINT, QUOTE, SPACE, TAB, ZERO,
};
use crate::binary::{self, Single};

verus! {

/// Where in the document the pass is.
#[derive(Clone, Copy, PartialEq, Eq, Structural, Debug)]
pub enum Sec {
    Root,
    Tx,
    Cust,
    Merch,
    Term,
    Last,
}

/// What the pass has found so far.
pub ghost struct Fields {
    pub tx_amount: (int, int),
    pub tx_inst: (int, int),
    pub cust_avg: (int, int),
    pub cnt24: (int, int),
    pub merch_avg: (int, int),
    pub km_home: (int, int),
    pub km_cur: (int, int),
    pub is_online: bool,
    pub card_present: bool,
    pub has_last: bool,
    pub requested: Option<int>,
    pub last: Option<int>,
    pub merchant: Option<Seq<u8>>,
    pub mcc: Option<Seq<u8>>,
    pub known: Seq<Seq<u8>>,
}

/// The first place from `p` on that holds `c`; the end where none does.
pub open spec fn seek(js: Seq<u8>, p: int, c: u8) -> int
    decreases js.len() - p,
{
    if p >= js.len() || js[p] == c {
        p
    } else {
        seek(js, p + 1, c)
    }
}

/// The first place from `p` on that holds neither a space nor a tab.
pub open spec fn past_blanks(js: Seq<u8>, p: int) -> int
    decreases js.len() - p,
{
    if p < js.len() && (js[p] == SPACE || js[p] == TAB) {
        past_blanks(js, p + 1)
    } else {
        p
    }
}

/// The first place from `p` on that holds no digit.
pub open spec fn past_digits(js: Seq<u8>, p: int) -> int
    decreases js.len() - p,
{
    if p < js.len() && ascii::is_digit(js[p]) {
        past_digits(js, p + 1)
    } else {
        p
    }
}

/// The decimal number written from `p` up to `q`.
pub open spec fn decimal(js: Seq<u8>, p: int, q: int) -> int
    decreases q - p,
{
    if q <= p {
        0
    } else {
        10 * decimal(js, p, q - 1) + (js[q - 1] - ZERO)
    }
}

pub open spec fn ten_to(n: int) -> int
    decreases n,
{
    if n <= 0 {
        1
    } else {
        10 * ten_to(n - 1)
    }
}

/// The end of the digits that count after a point at `q`: at most eight.
pub open spec fn fraction_end(js: Seq<u8>, q: int) -> int {
    if past_digits(js, q + 1) > q + 9 {
        q + 9
    } else {
        past_digits(js, q + 1)
    }
}

/// The number written from `p` on: the whole part, and the quotient of the
/// digits after the point and a power of ten, each rounded to single precision
/// and then added. There is none where the whole part exceeds thirty-two bits.
pub open spec fn number(js: Seq<u8>, p: int) -> Option<(int, int)> {
    let q = past_digits(js, p);
    let w = decimal(js, p, q);
    if w > u32::MAX {
        None
    } else if q >= js.len() || js[q] != POINT {
        Some(binary::single_of(w, 1, 0))
    } else {
        let r = fraction_end(js, q);
        Some(
            binary::sum(
                binary::single_of(w, 1, 0),
                binary::quotient(
                    binary::single_of(decimal(js, q + 1, r), 1, 0),
                    binary::single_of(ten_to(r - q - 1), 1, 0),
                ),
            ),
        )
    }
}

/// Exponents of the numbers that can be written.
pub open spec fn is_amount(a: (int, int)) -> bool {
    binary::is_single(a) && -56 <= a.1 <= 12
}

/// The text from `p` up to the next quotation mark.
pub open spec fn quoted(js: Seq<u8>, p: int) -> Seq<u8> {
    js.subrange(p, seek(js, p, QUOTE))
}

pub open spec fn either(js: Seq<u8>, p: int) -> int
    decreases js.len() - p,
{
    if p >= js.len() || js[p] == QUOTE || js[p] == CLOSE_BRACKET {
        p
    } else {
        either(js, p + 1)
    }
}

/// The place behind `p`, or the end.
pub open spec fn after(js: Seq<u8>, p: int) -> int {
    if p < js.len() {
        p + 1
    } else {
        p
    }
}

pub proof fn lemma_seek(js: Seq<u8>, p: int, c: u8)
    requires
        0 <= p <= js.len(),
    ensures
        p <= seek(js, p, c) <= js.len(),
    decreases js.len() - p,
{
    if p < js.len() && js[p] != c {
        lemma_seek(js, p + 1, c);
    }
}

pub proof fn lemma_either(js: Seq<u8>, p: int)
    requires
        0 <= p <= js.len(),
    ensures
        p <= either(js, p) <= js.len(),
    decreases js.len() - p,
{
    if p < js.len() && js[p] != QUOTE && js[p] != CLOSE_BRACKET {
        lemma_either(js, p + 1);
    }
}

pub proof fn lemma_past_blanks(js: Seq<u8>, p: int)
    requires
        0 <= p <= js.len(),
    ensures
        p <= past_blanks(js, p) <= js.len(),
    decreases js.len() - p,
{
    if p < js.len() && (js[p] == SPACE || js[p] == TAB) {
        lemma_past_blanks(js, p + 1);
    }
}

/// The strings of a list from `p` up to its closing bracket.
pub open spec fn strings(js: Seq<u8>, p: int) -> Seq<Seq<u8>>
    decreases js.len() - p,
{
    let a = either(js, p);
    if p < 0 || a >= js.len() || js[a] == CLOSE_BRACKET {
        Seq::empty()
    } else {
        proof {
            lemma_either(js, p);
            lemma_seek(js, a + 1, QUOTE);
        }
        seq![quoted(js, a + 1)] + strings(js, after(js, seek(js, a + 1, QUOTE)))
    }
}

/// Where the list that goes on at `p` ends.
pub open spec fn strings_end(js: Seq<u8>, p: int) -> int
    decreases js.len() - p,
{
    let a = either(js, p);
    if p < 0 || a >= js.len() || js[a] == CLOSE_BRACKET {
        a
    } else {
        proof {
            lemma_either(js, p);
            lemma_seek(js, a + 1, QUOTE);
        }
        strings_end(js, after(js, seek(js, a + 1, QUOTE)))
    }
}

/// The state of the pass at one place of the text.
pub ghost struct Scan {
    pub p: int,
    pub sec: Sec,
    pub depth: int,
    pub found: Fields,
}

pub open spec fn nothing_found() -> Fields {
    Fields {
        tx_amount: (0, 0),
        tx_inst: (0, 0),
        cust_avg: (0, 0),
        cnt24: (0, 0),
        merch_avg: (0, 0),
        km_home: (0, 0),
        km_cur: (0, 0),
        is_online: false,
        card_present: false,
        has_last: false,
        requested: None,
        last: None,
        merchant: None,
        mcc: None,
        known: Seq::empty(),
    }
}

/// What a name at the top level opens.
pub open spec fn section(key: Seq<u8>, c: u8) -> Sec {
    if key == "transaction".spec_bytes() {
        Sec::Tx
    } else if key == "customer".spec_bytes() {
        Sec::Cust
    } else if key == "merchant".spec_bytes() {
        Sec::Merch
    } else if key == "terminal".spec_bytes() {
        Sec::Term
    } else if key == "last_transaction".spec_bytes() && c != LOWER_N {
        Sec::Last
    } else {
        Sec::Root
    }
}

/// The fields after the name `key` with its value at `v`. There are none where
/// the value should be a number and is too long for one.
pub open spec fn taken(js: Seq<u8>, sec: Sec, key: Seq<u8>, v: int, f: Fields) -> Option<Fields> {
    match sec {
        Sec::Root => Some(
            if section(key, js[v]) == Sec::Last {
                Fields { has_last: true, ..f }
            } else {
                f
            },
        ),
        Sec::Tx => if key == "amount".spec_bytes() {
            match number(js, v) {
                Some(x) => Some(Fields { tx_amount: x, ..f }),
                None => None,
            }
        } else if key == "installments".spec_bytes() {
            match number(js, v) {
                Some(x) => Some(Fields { tx_inst: x, ..f }),
                None => None,
            }
        } else if key == "requested_at".spec_bytes() {
            Some(Fields { requested: Some(v + 1), ..f })
        } else {
            Some(f)
        },
        Sec::Cust => if key == "avg_amount".spec_bytes() {
            match number(js, v) {
                Some(x) => Some(Fields { cust_avg: x, ..f }),
                None => None,
            }
        } else if key == "tx_count_24h".spec_bytes() {
            match number(js, v) {
                Some(x) => Some(Fields { cnt24: x, ..f }),
                None => None,
            }
        } else if key == "known_merchants".spec_bytes() && js[v] == OPEN_BRACKET {
            Some(Fields { known: f.known + strings(js, v + 1), ..f })
        } else {
            Some(f)
        },
        Sec::Merch => if key == "id".spec_bytes() {
            Some(Fields { merchant: Some(quoted(js, v + 1)), ..f })
        } else if key == "mcc".spec_bytes() {
            Some(Fields { mcc: Some(quoted(js, v + 1)), ..f })
        } else if key == "avg_amount".spec_bytes() {
            match number(js, v) {
                Some(x) => Some(Fields { merch_avg: x, ..f }),
                None => None,
            }
        } else {
            Some(f)
        },
        Sec::Term => if key == "is_online".spec_bytes() {
            Some(Fields { is_online: js[v] == LOWER_T, ..f })
        } else if key == "card_present".spec_bytes() {
            Some(Fields { card_present: js[v] == LOWER_T, ..f })
        } else if key == "km_from_home".spec_bytes() {
            match number(js, v) {
                Some(x) => Some(Fields { km_home: x, ..f }),
                None => None,
            }
        } else {
            Some(f)
        },
        Sec::Last => if key == "timestamp".spec_bytes() {
            Some(Fields { last: Some(v + 1), ..f })
        } else if key == "km_from_current".spec_bytes() {
            match number(js, v) {
                Some(x) => Some(Fields { km_cur: x, ..f }),
                None => None,
            }
        } else {
            Some(f)
        },
    }
}

/// Where the pass goes on after the name `key` with its value at `v`: behind a
/// list of known merchants, else at the value.
pub open spec fn resume(js: Seq<u8>, sec: Sec, key: Seq<u8>, v: int) -> int {
    if sec == Sec::Cust && key == "known_merchants".spec_bytes() && js[v] == OPEN_BRACKET {
        after(js, strings_end(js, v + 1))
    } else {
        v
    }
}

/// The state after the quotation mark at `s.p`. There is none where the text
/// ends before a value.
pub open spec fn named(js: Seq<u8>, s: Scan) -> Option<Scan> {
    let key = quoted(js, s.p + 1);
    let b = past_blanks(js, after(js, seek(js, s.p + 1, QUOTE)));
    if b >= js.len() || js[b] != COLON {
        Some(Scan { p: b, ..s })
    } else {
        let v = past_blanks(js, b + 1);
        if v >= js.len() {
            None
        } else {
            match taken(js, s.sec, key, v, s.found) {
                None => None,
                Some(f) => Some(
                    Scan {
                        p: resume(js, s.sec, key, v),
                        sec: if s.sec == Sec::Root {
                            section(key, js[v])
                        } else {
                            s.sec
                        },
                        depth: s.depth,
                        found: f,
                    },
                ),
            }
        }
    }
}

/// The state after the character at `s.p`.
pub open spec fn step(js: Seq<u8>, s: Scan) -> Option<Scan> {
    let c = js[s.p];
    if c == OPEN_BRACE {
        Some(Scan { p: s.p + 1, depth: s.depth + 1, ..s })
    } else if c == CLOSE_BRACE {
        Some(
            Scan {
                p: s.p + 1,
                depth: s.depth - 1,
                sec: if s.depth - 1 == 1 {
                    Sec::Root
                } else {
                    s.sec
                },
                ..s
            },
        )
    } else if c != QUOTE {
        Some(Scan { p: s.p + 1, ..s })
    } else {
        named(js, s)
    }
}

pub proof fn lemma_strings_end(js: Seq<u8>, p: int)
    requires
        0 <= p <= js.len(),
    ensures
        p <= strings_end(js, p) <= js.len(),
    decreases js.len() - p,
{
    lemma_either(js, p);
    let a = either(js, p);
    if a < js.len() && js[a] != CLOSE_BRACKET {
        lemma_seek(js, a + 1, QUOTE);
        lemma_strings_end(js, after(js, seek(js, a + 1, QUOTE)));
    }
}

/// A step moves forward and stays in the text.
pub proof fn lemma_step(js: Seq<u8>, s: Scan)
    requires
        0 <= s.p < js.len(),
        step(js, s) is Some,
    ensures
        s.p < step(js, s)->0.p <= js.len(),
{
    if js[s.p] == QUOTE {
        lemma_seek(js, s.p + 1, QUOTE);
        let a = after(js, seek(js, s.p + 1, QUOTE));
        lemma_past_blanks(js, a);
        let b = past_blanks(js, a);
        if b < js.len() && js[b] == COLON {
            lemma_past_blanks(js, b + 1);
            let v = past_blanks(js, b + 1);
            if v < js.len() {
                lemma_strings_end(js, v + 1);
            }
        }
    }
}

/// The fields of the whole text, from a state on.
pub open spec fn scanned(js: Seq<u8>, s: Scan) -> Option<Fields>
    decreases js.len() - s.p,
{
    if s.p < 0 || s.p >= js.len() {
        Some(s.found)
    } else {
        match step(js, s) {
            None => None,
            Some(t) => {
                proof {
                    lemma_step(js, s);
                }
                scanned(js, t)
            },
        }
    }
}

/// The fields of the text.
pub open spec fn fields(js: Seq<u8>) -> Option<Fields> {
    scanned(js, Scan { p: 0, sec: Sec::Root, depth: 0, found: nothing_found() })
}

// ---------------------------------------------------------------------------
// Reading
// ---------------------------------------------------------------------------

fn find(js: &[u8], from: usize, c: u8) -> (r: usize)
    requires
        from <= js@.len(),
    ensures
        r == seek(js@, from as int, c),
        from <= r <= js@.len(),
{
    let mut p = from;
    while p < js.len() && js[p] != c
        invariant
            from <= p <= js@.len(),
            seek(js@, p as int, c) == seek(js@, from as int, c),
        decreases js@.len() - p,
    {
        p = p + 1;
    }
    p
}

fn find_either(js: &[u8], from: usize) -> (r: usize)
    requires
        from <= js@.len(),
    ensures
        r == either(js@, from as int),
        from <= r <= js@.len(),
{
    let mut p = from;
    while p < js.len() && js[p] != QUOTE && js[p] != CLOSE_BRACKET
        invariant
            from <= p <= js@.len(),
            either(js@, p as int) == either(js@, from as int),
        decreases js@.len() - p,
    {
        p = p + 1;
    }
    p
}

fn skip_blanks(js: &[u8], from: usize) -> (r: usize)
    requires
        from <= js@.len(),
    ensures
        r == past_blanks(js@, from as int),
        from <= r <= js@.len(),
{
    let mut p = from;
    while p < js.len() && (js[p] == SPACE || js[p] == TAB)
        invariant
            from <= p <= js@.len(),
            past_blanks(js@, p as int) == past_blanks(js@, from as int),
        decreases js@.len() - p,
    {
        p = p + 1;
    }
    p
}

/// More digits make no lesser number.
proof fn lemma_decimal_grows(js: Seq<u8>, p: int, q: int)
    requires
        0 <= p <= q <= js.len(),
        forall|i: int| p <= i < q ==> ascii::is_digit(#[trigger] js[i]),
    ensures
        0 <= decimal(js, p, q) <= decimal(js, p, past_digits(js, q)),
        q <= past_digits(js, q) <= js.len(),
    decreases js.len() - q,
{
    lemma_decimal_bounds(js, p, q);
    if q < js.len() && ascii::is_digit(js[q]) {
        lemma_decimal_grows(js, p, q + 1);
        assert(decimal(js, p, q + 1) == 10 * decimal(js, p, q) + (js[q] - ZERO));
    }
}

proof fn lemma_decimal_bounds(js: Seq<u8>, p: int, q: int)
    requires
        0 <= p <= q <= js.len(),
        forall|i: int| p <= i < q ==> ascii::is_digit(#[trigger] js[i]),
    ensures
        0 <= decimal(js, p, q) < ten_to(q - p),
    decreases q - p,
{
    if p < q {
        lemma_decimal_bounds(js, p, q - 1);
        assert(ascii::is_digit(js[q - 1]));
    }
}

fn whole_part(js: &[u8], from: usize) -> (r: Option<(u32, usize)>)
    requires
        from <= js@.len(),
    ensures
        match r {
            Some(x) => x.1 == past_digits(js@, from as int) && x.0 == decimal(
                js@,
                from as int,
                x.1 as int,
            ) && from <= x.1 <= js@.len(),
            None => decimal(js@, from as int, past_digits(js@, from as int)) > u32::MAX,
        },
{
    let mut p = from;
    let mut w: u32 = 0;
    while p < js.len() && ZERO <= js[p] && js[p] <= NINE
        invariant
            from <= p <= js@.len(),
            past_digits(js@, p as int) == past_digits(js@, from as int),
            forall|i: int| from <= i < p ==> ascii::is_digit(#[trigger] js@[i]),
            w == decimal(js@, from as int, p as int),
        decreases js@.len() - p,
    {
        let wider: u64 = w as u64 * 10 + (js[p] - ZERO) as u64;
        if wider > u32::MAX as u64 {
            proof {
                assert(ascii::is_digit(js@[p as int]));
                lemma_decimal_grows(js@, from as int, p + 1);
            }
            return None;
        }
        w = wider as u32;
        p = p + 1;
    }
    Some((w, p))
}

fn fraction_part(js: &[u8], point: usize) -> (r: (u32, u32))
    requires
        point < js.len(),
    ensures
        r.0 == decimal(js@, point + 1, fraction_end(js@, point as int)),
        r.1 == ten_to(fraction_end(js@, point as int) - point - 1),
        r.1 > 0,
{
    let mut p = point + 1;
    let mut f: u32 = 0;
    let mut d: u32 = 1;
    proof {
        reveal_with_fuel(ten_to, 9);
    }
    assert(ten_to(8) == 100_000_000);
    while p < js.len() && ZERO <= js[p] && js[p] <= NINE && d < 100_000_000
        invariant
            point < p <= js@.len(),
            p <= point + 9,
            past_digits(js@, p as int) == past_digits(js@, point + 1),
            forall|i: int| point < i < p ==> ascii::is_digit(#[trigger] js@[i]),
            f == decimal(js@, point + 1, p as int),
            d == ten_to(p - point - 1),
            f < d,
            0 < d <= 100_000_000,
            d < 100_000_000 ==> p < point + 9,
            p < point + 9 ==> d <= 10_000_000,
            d < 100_000_000 ==> d <= 10_000_000,
            ten_to(8) == 100_000_000,
        decreases js@.len() - p,
    {
        proof {
            assert(ascii::is_digit(js@[p as int]));
            reveal_with_fuel(ten_to, 9);
        }
        f = f * 10 + (js[p] - ZERO) as u32;
        d = d * 10;
        p = p + 1;
    }
    proof {
        lemma_decimal_grows(js@, point + 1, p as int);
    }
    (f, d)
}

/// The number written from `from` on.
pub(crate) fn fast_f32(js: &[u8], from: usize) -> (r: Option<Single>)
    requires
        from <= js@.len(),
    ensures
        match r {
            Some(x) => number(js@, from as int) == Some(x@) && is_amount(x@),
            None => number(js@, from as int) is None,
        },
{
    let (w, q) = match whole_part(js, from) {
        None => {
            return None;
        },
        Some(x) => x,
    };
    let whole = Single::from_whole(w as u64);
    if q >= js.len() || js[q] != POINT {
        return Some(whole);
    }
    let (f, d) = fraction_part(js, q);
    Some(whole.plus(Single::from_whole(f as u64).over(Single::from_whole(d as u64))))
}

/// The fields of a transaction. Texts are parts of the document.
pub struct Body<'a> {
    pub tx_amount: Single,
    pub tx_inst: Single,
    pub cust_avg: Single,
    pub cnt24: Single,
    pub merch_avg: Single,
    pub km_home: Single,
    pub km_cur: Single,
    pub is_online: bool,
    pub card_present: bool,
    pub has_last: bool,
    pub requested: Option<usize>,
    pub last: Option<usize>,
    pub merchant: Option<&'a [u8]>,
    pub mcc: Option<&'a [u8]>,
    pub known: Vec<&'a [u8]>,
}

pub open spec fn place(p: Option<usize>) -> Option<int> {
    match p {
        Some(x) => Some(x as int),
        None => None,
    }
}

pub open spec fn text(t: Option<&[u8]>) -> Option<Seq<u8>> {
    match t {
        Some(x) => Some(x@),
        None => None,
    }
}

impl<'a> View for Body<'a> {
    type V = Fields;

    open spec fn view(&self) -> Fields {
        Fields {
            tx_amount: self.tx_amount@,
            tx_inst: self.tx_inst@,
            cust_avg: self.cust_avg@,
            cnt24: self.cnt24@,
            merch_avg: self.merch_avg@,
            km_home: self.km_home@,
            km_cur: self.km_cur@,
            is_online: self.is_online,
            card_present: self.card_present,
            has_last: self.has_last,
            requested: place(self.requested),
            last: place(self.last),
            merchant: text(self.merchant),
            mcc: text(self.mcc),
            known: Seq::new(self.known@.len(), |i: int| self.known@[i]@),
        }
    }
}

/// The places lie in the text and the numbers are ones that can be written.
pub open spec fn in_text(js: Seq<u8>, f: Fields) -> bool {
    &&& is_amount(f.tx_amount)
    &&& is_amount(f.tx_inst)
    &&& is_amount(f.cust_avg)
    &&& is_amount(f.cnt24)
    &&& is_amount(f.merch_avg)
    &&& is_amount(f.km_home)
    &&& is_amount(f.km_cur)
    &&& f.requested matches Some(p) ==> 0 <= p <= js.len()
    &&& f.last matches Some(p) ==> 0 <= p <= js.len()
}

impl<'a> Body<'a> {
    fn new() -> (r: Self)
        ensures
            r@ == nothing_found(),
    {
        let zero = Single { m: 0, e: 0 };
        let r = Body {
            tx_amount: zero,
            tx_inst: zero,
            cust_avg: zero,
            cnt24: zero,
            merch_avg: zero,
            km_home: zero,
            km_cur: zero,
            is_online: false,
            card_present: false,
            has_last: false,
            requested: None,
            last: None,
            merchant: None,
            mcc: None,
            known: Vec::new(),
        };
        assert(r@.known =~= Seq::<Seq<u8>>::empty());
        r
    }

    /// Adds the strings of the list that goes on at `from`.
    fn take_known(&mut self, js: &'a [u8], from: usize) -> (end: usize)
        requires
            from <= js.len(),
        ensures
            end == strings_end(js@, from as int),
            from <= end <= js@.len(),
            final(self)@ == (Fields {
                known: old(self)@.known + strings(js@, from as int),
                ..old(self)@
            }),
    {
        let ghost before = self@;
        let mut p = find_either(js, from);
        proof {
            lemma_strings_from(js@, from as int);
        }
        while p < js.len() && js[p] != CLOSE_BRACKET
            invariant
                from <= p <= js.len(),
                p == either(js@, p as int),
                strings_end(js@, p as int) == strings_end(js@, from as int),
                self@ == (Fields { known: self@.known, ..before }),
                self@.known + strings(js@, p as int) == before.known + strings(js@, from as int),
            decreases js@.len() - p,
        {
            let q = find(js, p + 1, QUOTE);
            let ghost earlier = self@;
            self.known.push(&js[p + 1..q]);
            assert(self@.known =~= earlier.known.push(quoted(js@, p + 1)));
            let next = if q < js.len() {
                q + 1
            } else {
                q
            };
            let ghost rest = strings(js@, next as int);
            assert(earlier.known + (seq![quoted(js@, p + 1)] + rest) =~= self@.known + rest);
            proof {
                lemma_strings_from(js@, next as int);
            }
            p = find_either(js, next);
        }
        assert(self@.known + Seq::<Seq<u8>>::empty() =~= self@.known);
        p
    }
    /// Takes a field of the transaction.
    fn take_tx(&mut self, js: &'a [u8], key: &[u8], v: usize) -> (ok: bool)
        requires
            v < js.len(),
            in_text(js@, old(self)@),
        ensures
            ok == taken(js@, Sec::Tx, key@, v as int, old(self)@) is Some,
            ok ==> taken(js@, Sec::Tx, key@, v as int, old(self)@) == Some(final(self)@),
            ok ==> in_text(js@, final(self)@),
    {
        let ghost before = self@;
        if same_bytes(key, "amount".as_bytes()) {
            match fast_f32(js, v) {
                Some(x) => {
                    self.tx_amount = x;
                },
                None => {
                    return false;
                },
            }
        } else if same_bytes(key, "installments".as_bytes()) {
            match fast_f32(js, v) {
                Some(x) => {
                    self.tx_inst = x;
                },
                None => {
                    return false;
                },
            }
        } else if same_bytes(key, "requested_at".as_bytes()) {
            self.requested = Some(v + 1);
        }
        assert(self@.known =~= before.known);
        true
    }

    /// Takes a field of the merchant.
    fn take_merchant(&mut self, js: &'a [u8], key: &[u8], v: usize) -> (ok: bool)
        requires
            v < js.len(),
            in_text(js@, old(self)@),
        ensures
            ok == taken(js@, Sec::Merch, key@, v as int, old(self)@) is Some,
            ok ==> taken(js@, Sec::Merch, key@, v as int, old(self)@) == Some(final(self)@),
            ok ==> in_text(js@, final(self)@),
    {
        let ghost before = self@;
        if same_bytes(key, "id".as_bytes()) {
            let q = find(js, v + 1, QUOTE);
            self.merchant = Some(&js[v + 1..q]);
        } else if same_bytes(key, "mcc".as_bytes()) {
            let q = find(js, v + 1, QUOTE);
            self.mcc = Some(&js[v + 1..q]);
        } else if same_bytes(key, "avg_amount".as_bytes()) {
            match fast_f32(js, v) {
                Some(x) => {
                    self.merch_avg = x;
                },
                None => {
                    return false;
                },
            }
        }
        assert(self@.known =~= before.known);
        true
    }

    /// Takes a field of the terminal.
    fn take_terminal(&mut self, js: &'a [u8], key: &[u8], v: usize) -> (ok: bool)
        requires
            v < js.len(),
            in_text(js@, old(self)@),
        ensures
            ok == taken(js@, Sec::Term, key@, v as int, old(self)@) is Some,
            ok ==> taken(js@, Sec::Term, key@, v as int, old(self)@) == Some(final(self)@),
            ok ==> in_text(js@, final(self)@),
    {
        let ghost before = self@;
        if same_bytes(key, "is_online".as_bytes()) {
            self.is_online = js[v] == LOWER_T;
        } else if same_bytes(key, "card_present".as_bytes()) {
            self.card_present = js[v] == LOWER_T;
        } else if same_bytes(key, "km_from_home".as_bytes()) {
            match fast_f32(js, v) {
                Some(x) => {
                    self.km_home = x;
                },
                None => {
                    return false;
                },
            }
        }
        assert(self@.known =~= before.known);
        true
    }

    /// Takes a field of the last transaction.
    fn take_last(&mut self, js: &'a [u8], key: &[u8], v: usize) -> (ok: bool)
        requires
            v < js.len(),
            in_text(js@, old(self)@),
        ensures
            ok == taken(js@, Sec::Last, key@, v as int, old(self)@) is Some,
            ok ==> taken(js@, Sec::Last, key@, v as int, old(self)@) == Some(final(self)@),
            ok ==> in_text(js@, final(self)@),
    {
        let ghost before = self@;
        if same_bytes(key, "timestamp".as_bytes()) {
            self.last = Some(v + 1);
        } else if same_bytes(key, "km_from_current".as_bytes()) {
            match fast_f32(js, v) {
                Some(x) => {
                    self.km_cur = x;
                },
                None => {
                    return false;
                },
            }
        }
        assert(self@.known =~= before.known);
        true
    }

    /// Takes a field of the customer. The place is where the pass goes on.
    fn take_customer(&mut self, js: &'a [u8], key: &[u8], v: usize) -> (r: Option<usize>)
        requires
            v < js.len(),
            in_text(js@, old(self)@),
        ensures
            r is Some == taken(js@, Sec::Cust, key@, v as int, old(self)@) is Some,
            r matches Some(p) ==> {
                &&& taken(js@, Sec::Cust, key@, v as int, old(self)@) == Some(final(self)@)
                &&& in_text(js@, final(self)@)
                &&& p == resume(js@, Sec::Cust, key@, v as int)
                &&& v <= p <= js@.len()
            },
    {
        let ghost before = self@;
        proof {
            lemma_customer_names();
        }
        let mut p = v;
        if same_bytes(key, "avg_amount".as_bytes()) {
            match fast_f32(js, v) {
                Some(x) => {
                    self.cust_avg = x;
                },
                None => {
                    return None;
                },
            }
        } else if same_bytes(key, "tx_count_24h".as_bytes()) {
            match fast_f32(js, v) {
                Some(x) => {
                    self.cnt24 = x;
                },
                None => {
                    return None;
                },
            }
        } else if same_bytes(key, "known_merchants".as_bytes()) && js[v] == OPEN_BRACKET {
            let end = self.take_known(js, v + 1);
            p = if end < js.len() {
                end + 1
            } else {
                end
            };
            return Some(p);
        }
        assert(self@.known =~= before.known);
        Some(p)
    }
    /// Takes what a name at the top level opens.
    fn take_root(&mut self, key: &[u8], c: u8) -> (r: Sec)
        ensures
            r == section(key@, c),
            final(self)@ == (if r == Sec::Last {
                Fields { has_last: true, ..old(self)@ }
            } else {
                old(self)@
            }),
    {
        if same_bytes(key, "transaction".as_bytes()) {
            Sec::Tx
        } else if same_bytes(key, "customer".as_bytes()) {
            Sec::Cust
        } else if same_bytes(key, "merchant".as_bytes()) {
            Sec::Merch
        } else if same_bytes(key, "terminal".as_bytes()) {
            Sec::Term
        } else if same_bytes(key, "last_transaction".as_bytes()) && c != LOWER_N {
            let ghost before = self@;
            self.has_last = true;
            assert(self@.known =~= before.known);
            Sec::Last
        } else {
            Sec::Root
        }
    }

    /// Takes the value at `v` of the name `key`. The result is the section and
    /// the place to go on with.
    fn take(&mut self, js: &'a [u8], sec: Sec, key: &[u8], v: usize) -> (r: Option<(Sec, usize)>)
        requires
            v < js.len(),
            in_text(js@, old(self)@),
        ensures
            r is Some == taken(js@, sec, key@, v as int, old(self)@) is Some,
            r matches Some(t) ==> {
                &&& taken(js@, sec, key@, v as int, old(self)@) == Some(final(self)@)
                &&& in_text(js@, final(self)@)
                &&& t.0 == (if sec == Sec::Root {
                    section(key@, js@[v as int])
                } else {
                    sec
                })
                &&& t.1 == resume(js@, sec, key@, v as int)
                &&& v <= t.1 <= js@.len()
            },
    {
        match sec {
            Sec::Root => {
                let next = self.take_root(key, js[v]);
                Some((next, v))
            },
            Sec::Cust => match self.take_customer(js, key, v) {
                Some(p) => Some((sec, p)),
                None => None,
            },
            _ => {
                let ok = match sec {
                    Sec::Tx => self.take_tx(js, key, v),
                    Sec::Merch => self.take_merchant(js, key, v),
                    Sec::Term => self.take_terminal(js, key, v),
                    _ => self.take_last(js, key, v),
                };
                if ok {
                    Some((sec, v))
                } else {
                    None
                }
            },
        }
    }

    /// Goes on behind the quotation mark at `at`.
    fn named(&mut self, js: &'a [u8], at: usize, sec: Sec, Ghost(depth): Ghost<int>) -> (r: Option<
        (Sec, usize),
    >)
        requires
            at < js.len(),
            in_text(js@, old(self)@),
        ensures
            match (
                r,
                named(js@, Scan { p: at as int, sec: sec, depth: depth, found: old(self)@ }),
            ) {
                (None, None) => true,
                (Some(t), Some(s)) => s == (Scan {
                    p: t.1 as int,
                    sec: t.0,
                    depth: depth,
                    found: final(self)@,
                }) && in_text(js@, final(self)@) && at < t.1 <= js@.len(),
                _ => false,
            },
    {
        let q = find(js, at + 1, QUOTE);
        let key = &js[at + 1..q];
        let a = if q < js.len() {
            q + 1
        } else {
            q
        };
        let b = skip_blanks(js, a);
        if b >= js.len() || js[b] != COLON {
            return Some((sec, b));
        }
        let v = skip_blanks(js, b + 1);
        if v >= js.len() {
            return None;
        }
        self.take(js, sec, key, v)
    }
}

/// The fields of the text `js`.
pub(crate) fn scan(js: &[u8]) -> (r: Option<Body<'_>>)
    ensures
        match r {
            Some(body) => fields(js@) == Some(body@) && in_text(js@, body@),
            None => fields(js@) is None,
        },
{
    let mut body = Body::new();
    let mut sec = Sec::Root;
    let mut depth: i128 = 0;
    let mut p: usize = 0;
    while p < js.len()
        invariant
            p <= js.len(),
            -p <= depth <= p,
            in_text(js@, body@),
            fields(js@) == scanned(
                js@,
                Scan { p: p as int, sec: sec, depth: depth as int, found: body@ },
            ),
        decreases js@.len() - p,
    {
        let c = js[p];
        if c == OPEN_BRACE {
            depth = depth + 1;
            p = p + 1;
        } else if c == CLOSE_BRACE {
            depth = depth - 1;
            if depth == 1 {
                sec = Sec::Root;
            }
            p = p + 1;
        } else if c != QUOTE {
            p = p + 1;
        } else {
            match body.named(js, p, sec, Ghost(depth as int)) {
                Some(t) => {
                    sec = t.0;
                    p = t.1;
                },
                None => {
                    return None;
                },
            }
        }
    }
    Some(body)
}

proof fn lemma_customer_names()
    ensures
        "avg_amount".spec_bytes() != "known_merchants".spec_bytes(),
        "tx_count_24h".spec_bytes() != "known_merchants".spec_bytes(),
{
    reveal_strlit("avg_amount");
    reveal_strlit("tx_count_24h");
    reveal_strlit("known_merchants");
    is_ascii_spec_bytes("avg_amount");
    is_ascii_spec_bytes("tx_count_24h");
    is_ascii_spec_bytes("known_merchants");
    assert("avg_amount".spec_bytes().len() == 10);
    assert("tx_count_24h".spec_bytes().len() == 12);
    assert("known_merchants".spec_bytes().len() == 15);
}

/// Nothing before the next string or bracket counts.
proof fn lemma_strings_from(js: Seq<u8>, p: int)
    requires
        0 <= p <= js.len(),
    ensures
        either(js, either(js, p)) == either(js, p),
        strings(js, either(js, p)) == strings(js, p),
        strings_end(js, either(js, p)) == strings_end(js, p),
    decreases js.len() - p,
{
    lemma_either(js, p);
    if either(js, p) != p {
        lemma_strings_from(js, p + 1);
    }
}

} // verus!
