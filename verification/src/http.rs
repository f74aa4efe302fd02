//! The little of HTTP/1.1 that the service speaks: where a request ends, and
//! the few responses there are.
use vstd::prelude::*;
use vstd::string::*;
use crate::ascii::{self, same_bytes, CR, LF, NINE, SPACE, ZERO};

verus! {

// ---------------------------------------------------------------------------
// Responses
// ---------------------------------------------------------------------------

/// The response to a request with `count` fraudulent neighbours out of five.
pub open spec fn score_text(count: int) -> &'static str {
    if count == 0 {
        "HTTP/1.1 200 OK\r\nContent-Type: application/json\r\nConnection: keep-alive\r\nContent-Length: 39\r\n\r\n{\"approved\": true, \"fraud_score\": 0.00}"
    } else if count == 1 {
        "HTTP/1.1 200 OK\r\nContent-Type: application/json\r\nConnection: keep-alive\r\nContent-Length: 39\r\n\r\n{\"approved\": true, \"fraud_score\": 0.20}"
    } else if count == 2 {
        "HTTP/1.1 200 OK\r\nContent-Type: application/json\r\nConnection: keep-alive\r\nContent-Length: 39\r\n\r\n{\"approved\": true, \"fraud_score\": 0.40}"
    } else if count == 3 {
        "HTTP/1.1 200 OK\r\nContent-Type: application/json\r\nConnection: keep-alive\r\nContent-Length: 40\r\n\r\n{\"approved\": false, \"fraud_score\": 0.60}"
    } else if count == 4 {
        "HTTP/1.1 200 OK\r\nContent-Type: application/json\r\nConnection: keep-alive\r\nContent-Length: 40\r\n\r\n{\"approved\": false, \"fraud_score\": 0.80}"
    } else {
        "HTTP/1.1 200 OK\r\nContent-Type: application/json\r\nConnection: keep-alive\r\nContent-Length: 40\r\n\r\n{\"approved\": false, \"fraud_score\": 1.00}"
    }
}

/// The response to a request for readiness.
pub open spec fn ready_text() -> &'static str {
    "HTTP/1.1 200 OK\r\nContent-Length: 2\r\nConnection: keep-alive\r\n\r\nOK"
}

/// The response to a request that is none.
pub open spec fn bad_text() -> &'static str {
    "HTTP/1.1 400 Bad Request\r\nContent-Length: 0\r\nConnection: close\r\n\r\n"
}

/// The response for `count` fraudulent neighbours; five stands for more.
pub fn score_resp(count: u8) -> (r: &'static [u8])
    ensures
        r@ == score_text(count as int).spec_bytes(),
{
    if count == 0 {
        "HTTP/1.1 200 OK\r\nContent-Type: application/json\r\nConnection: keep-alive\r\nContent-Length: 39\r\n\r\n{\"approved\": true, \"fraud_score\": 0.00}".as_bytes()
    } else if count == 1 {
        "HTTP/1.1 200 OK\r\nContent-Type: application/json\r\nConnection: keep-alive\r\nContent-Length: 39\r\n\r\n{\"approved\": true, \"fraud_score\": 0.20}".as_bytes()
    } else if count == 2 {
        "HTTP/1.1 200 OK\r\nContent-Type: application/json\r\nConnection: keep-alive\r\nContent-Length: 39\r\n\r\n{\"approved\": true, \"fraud_score\": 0.40}".as_bytes()
    } else if count == 3 {
        "HTTP/1.1 200 OK\r\nContent-Type: application/json\r\nConnection: keep-alive\r\nContent-Length: 40\r\n\r\n{\"approved\": false, \"fraud_score\": 0.60}".as_bytes()
    } else if count == 4 {
        "HTTP/1.1 200 OK\r\nContent-Type: application/json\r\nConnection: keep-alive\r\nContent-Length: 40\r\n\r\n{\"approved\": false, \"fraud_score\": 0.80}".as_bytes()
    } else {
        "HTTP/1.1 200 OK\r\nContent-Type: application/json\r\nConnection: keep-alive\r\nContent-Length: 40\r\n\r\n{\"approved\": false, \"fraud_score\": 1.00}".as_bytes()
    }
}

pub fn ready_resp() -> (r: &'static [u8])
    ensures
        r@ == ready_text().spec_bytes(),
{
    "HTTP/1.1 200 OK\r\nContent-Length: 2\r\nConnection: keep-alive\r\n\r\nOK".as_bytes()
}

pub fn bad_resp() -> (r: &'static [u8])
    ensures
        r@ == bad_text().spec_bytes(),
{
    "HTTP/1.1 400 Bad Request\r\nContent-Length: 0\r\nConnection: close\r\n\r\n".as_bytes()
}

// ---------------------------------------------------------------------------
// Requests
// ---------------------------------------------------------------------------

/// What stands at the start of a buffer.
#[derive(Debug, PartialEq, Eq, Structural, Clone, Copy)]
pub enum Parsed {
    /// Bytes are missing.
    Incomplete,
    /// `GET /ready`, without a body.
    Ready { consumed: usize },
    /// `POST /fraud-score`, and where its body is.
    Fraud { body_start: usize, body_len: usize, consumed: usize },
    /// A request that is none of these.
    Bad { consumed: usize },
}

/// A line break and an empty line stand at `p`.
pub open spec fn is_blank_line(buf: Seq<u8>, p: int) -> bool {
    buf[p] == CR && buf[p + 1] == LF && buf[p + 2] == CR && buf[p + 3] == LF
}

/// Where the first empty line from `p` on is.
pub open spec fn blank_line(buf: Seq<u8>, p: int) -> Option<int>
    decreases buf.len() - p,
{
    if p + 4 > buf.len() {
        None
    } else if is_blank_line(buf, p) {
        Some(p)
    } else {
        blank_line(buf, p + 1)
    }
}

pub open spec fn lower(c: u8) -> u8 {
    if 0x41 <= c <= 0x5a {
        (c + 0x20) as u8
    } else {
        c
    }
}

/// The text `name`, in whatever case, stands at `i`.
pub open spec fn is_named(headers: Seq<u8>, i: int, name: Seq<u8>) -> bool {
    forall|j: int| 0 <= j < name.len() ==> lower(#[trigger] headers[i + j]) == lower(name[j])
}

pub open spec fn length_name() -> Seq<u8> {
    "Content-Length:".spec_bytes()
}

pub open spec fn past_spaces(s: Seq<u8>, p: int) -> int
    decreases s.len() - p,
{
    if p < s.len() && s[p] == SPACE {
        past_spaces(s, p + 1)
    } else {
        p
    }
}

/// The decimal number that begins with `v` and goes on with the digits at `p`.
pub open spec fn digits(s: Seq<u8>, p: int, v: int) -> int
    decreases s.len() - p,
{
    if p < s.len() && ascii::is_digit(s[p]) {
        digits(s, p + 1, 10 * v + (s[p] - ZERO))
    } else {
        v
    }
}

/// The number behind the first name of a body length from `i` on; zero where
/// there is no such name.
pub open spec fn length_from(headers: Seq<u8>, i: int) -> int
    decreases headers.len() - i,
{
    if i + 15 > headers.len() {
        0
    } else if is_named(headers, i, length_name()) {
        digits(headers, past_spaces(headers, i + 15), 0)
    } else {
        length_from(headers, i + 1)
    }
}

/// The request at the start of `buf`: for a score or for readiness, as its
/// method and path say. Any other is a bad one, and so is one whose end has no
/// place in memory.
pub open spec fn parsed(buf: Seq<u8>) -> Parsed {
    match blank_line(buf, 0) {
        None => Parsed::Incomplete,
        Some(p) => {
            let h = p + 4;
            let headers = buf.take(h);
            if "POST /fraud-score".spec_bytes().is_prefix_of(headers) {
                let length = length_from(headers, 0);
                if h + length > usize::MAX {
                    Parsed::Bad { consumed: h as usize }
                } else if h + length > buf.len() {
                    Parsed::Incomplete
                } else {
                    Parsed::Fraud {
                        body_start: h as usize,
                        body_len: length as usize,
                        consumed: (h + length) as usize,
                    }
                }
            } else if "GET /ready".spec_bytes().is_prefix_of(headers) {
                Parsed::Ready { consumed: h as usize }
            } else {
                Parsed::Bad { consumed: h as usize }
            }
        },
    }
}

pub proof fn lemma_blank_line(buf: Seq<u8>, p: int)
    requires
        0 <= p,
    ensures
        blank_line(buf, p) matches Some(h) ==> p <= h && h + 4 <= buf.len() && is_blank_line(
            buf,
            h,
        ),
    decreases buf.len() - p,
{
    if p + 4 <= buf.len() && !is_blank_line(buf, p) {
        lemma_blank_line(buf, p + 1);
    }
}

fn find_crlfcrlf(buf: &[u8]) -> (r: Option<usize>)
    ensures
        match r {
            Some(p) => blank_line(buf@, 0) == Some(p as int) && p + 4 <= buf.len(),
            None => blank_line(buf@, 0) is None,
        },
{
    let n = buf.len();
    if n < 4 {
        return None;
    }
    let mut p: usize = 0;
    while p <= n - 4
        invariant
            n == buf@.len(),
            4 <= n,
            p <= n - 3,
            blank_line(buf@, p as int) == blank_line(buf@, 0),
        decreases n - p,
    {
        if buf[p] == CR && buf[p + 1] == LF && buf[p + 2] == CR && buf[p + 3] == LF {
            return Some(p);
        }
        p = p + 1;
    }
    None
}

fn lower_case(c: u8) -> (r: u8)
    ensures
        r == lower(c),
{
    if 0x41 <= c && c <= 0x5a {
        c + 0x20
    } else {
        c
    }
}

fn name_at(headers: &[u8], i: usize, name: &[u8]) -> (r: bool)
    requires
        i + name.len() <= headers.len(),
    ensures
        r == is_named(headers@, i as int, name@),
{
    let mut j: usize = 0;
    while j < name.len()
        invariant
            i + name@.len() <= headers.len(),
            j <= name@.len(),
            forall|m: int| 0 <= m < j ==> lower(#[trigger] headers@[i + m]) == lower(name@[m]),
        decreases name@.len() - j,
    {
        if lower_case(headers[i + j]) != lower_case(name[j]) {
            assert(lower(headers@[i + j]) != lower(name@[j as int]));
            return false;
        }
        j = j + 1;
    }
    true
}

/// More digits make no lesser number.
proof fn lemma_digits_grow(s: Seq<u8>, p: int, v: int)
    requires
        0 <= v,
        0 <= p,
    ensures
        digits(s, p, v) >= v,
    decreases s.len() - p,
{
    if p < s.len() && ascii::is_digit(s[p]) {
        lemma_digits_grow(s, p + 1, 10 * v + (s[p] - ZERO));
    }
}

fn number_at(headers: &[u8], at: usize) -> (r: Option<usize>)
    requires
        at <= headers.len(),
    ensures
        match r {
            Some(v) => v == digits(headers@, past_spaces(headers@, at as int), 0),
            None => digits(headers@, past_spaces(headers@, at as int), 0) > usize::MAX,
        },
{
    let mut p = at;
    while p < headers.len() && headers[p] == SPACE
        invariant
            p <= headers@.len(),
            past_spaces(headers@, p as int) == past_spaces(headers@, at as int),
        decreases headers@.len() - p,
    {
        p = p + 1;
    }
    let ghost start = p as int;
    let mut v: usize = 0;
    while p < headers.len() && ZERO <= headers[p] && headers[p] <= NINE
        invariant
            p <= headers@.len(),
            start == past_spaces(headers@, at as int),
            digits(headers@, p as int, v as int) == digits(headers@, start, 0),
        decreases headers@.len() - p,
    {
        let d = (headers[p] - ZERO) as usize;
        if v > (usize::MAX - d) / 10 {
            proof {
                lemma_digits_grow(headers@, p + 1, 10 * v + d);
            }
            return None;
        }
        v = v * 10 + d;
        p = p + 1;
    }
    Some(v)
}

fn content_length(headers: &[u8]) -> (r: Option<usize>)
    ensures
        match r {
            Some(v) => v == length_from(headers@, 0),
            None => length_from(headers@, 0) > usize::MAX,
        },
{
    let name = "Content-Length:".as_bytes();
    proof {
        reveal_strlit("Content-Length:");
        is_ascii_spec_bytes("Content-Length:");
    }
    let n = headers.len();
    if n < 15 {
        return Some(0);
    }
    let mut i: usize = 0;
    while i <= n - 15
        invariant
            n == headers.len(),
            15 <= n,
            i <= n - 14,
            name@ == length_name(),
            name@.len() == 15,
            length_from(headers@, i as int) == length_from(headers@, 0),
        decreases n - i,
    {
        if name_at(headers, i, name) {
            return number_at(headers, i + 15);
        }
        i = i + 1;
    }
    Some(0)
}

fn begins_with(headers: &[u8], word: &[u8]) -> (r: bool)
    ensures
        r == word@.is_prefix_of(headers@),
{
    if word.len() > headers.len() {
        return false;
    }
    let r = same_bytes(&headers[0..word.len()], word);
    assert(headers@.subrange(0, word@.len() as int) =~= headers@.take(word@.len() as int));
    r
}

/// The request at the start of `buf`. Another method or path, or a body whose
/// length has no place in memory, makes it a bad one.
pub fn parse(buf: &[u8]) -> (r: Parsed)
    ensures
        r == parsed(buf@),
        match r {
            Parsed::Incomplete => true,
            Parsed::Ready { consumed } => 0 < consumed <= buf@.len(),
            Parsed::Fraud { body_start, body_len, consumed } => consumed == body_start + body_len
                && 0 < consumed <= buf@.len(),
            Parsed::Bad { consumed } => 0 < consumed <= buf@.len(),
        },
{
    let h = match find_crlfcrlf(buf) {
        Some(p) => p + 4,
        None => {
            return Parsed::Incomplete;
        },
    };
    let headers = &buf[0..h];
    assert(headers@ =~= buf@.take(h as int));
    if begins_with(headers, "POST /fraud-score".as_bytes()) {
        let length = match content_length(headers) {
            Some(v) => v,
            None => {
                return Parsed::Bad { consumed: h };
            },
        };
        if length > usize::MAX - h {
            return Parsed::Bad { consumed: h };
        }
        if length > buf.len() - h {
            return Parsed::Incomplete;
        }
        Parsed::Fraud { body_start: h, body_len: length, consumed: h + length }
    } else if begins_with(headers, "GET /ready".as_bytes()) {
        Parsed::Ready { consumed: h }
    } else {
        Parsed::Bad { consumed: h }
    }
}

// ---------------------------------------------------------------------------
// Laws
// ---------------------------------------------------------------------------

proof fn lemma_blank_line_stable(a: Seq<u8>, b: Seq<u8>, p: int)
    requires
        0 <= p,
        blank_line(a, p) is Some,
    ensures
        blank_line(a + b, p) == blank_line(a, p),
    decreases a.len() - p,
{
    if !is_blank_line(a, p) {
        lemma_blank_line_stable(a, b, p + 1);
    }
}

/// What comes behind a request does not change it: once it can be told, more
/// bytes do not matter.
pub proof fn law_parse_stable(a: Seq<u8>, b: Seq<u8>)
    requires
        parsed(a) != Parsed::Incomplete,
    ensures
        parsed(a + b) == parsed(a),
{
    lemma_blank_line_stable(a, b, 0);
    lemma_blank_line(a, 0);
    let h = blank_line(a, 0)->0 + 4;
    assert((a + b).take(h) =~= a.take(h));
}

/// How many bytes the request takes.
pub open spec fn taken(p: Parsed) -> int {
    match p {
        Parsed::Incomplete => 0,
        Parsed::Ready { consumed } => consumed as int,
        Parsed::Fraud { body_start, body_len, consumed } => consumed as int,
        Parsed::Bad { consumed } => consumed as int,
    }
}

proof fn lemma_blank_line_prefix(buf: Seq<u8>, p: int, h: int, n: int)
    requires
        0 <= p,
        blank_line(buf, p) == Some(h),
        h + 4 <= n <= buf.len(),
    ensures
        blank_line(buf.take(n), p) == Some(h),
    decreases buf.len() - p,
{
    lemma_blank_line(buf, p);
    if !is_blank_line(buf, p) {
        lemma_blank_line_prefix(buf, p + 1, h, n);
    }
}

/// A request ends as soon as it can be told: the bytes that it takes give the
/// same, and fewer are not complete.
pub proof fn law_parse_shortest(buf: Seq<u8>, n: int)
    requires
        buf.len() <= usize::MAX,
        parsed(buf) != Parsed::Incomplete,
        0 <= n <= taken(parsed(buf)),
    ensures
        parsed(buf.take(n)) == (if n == taken(parsed(buf)) {
            parsed(buf)
        } else {
            Parsed::Incomplete
        }),
{
    lemma_blank_line(buf, 0);
    law_parse_progress(buf);
    let p = blank_line(buf, 0)->0;
    let h = p + 4;
    let a = buf.take(n);
    lemma_length_nonnegative(buf.take(h), 0);
    if n < h {
        if blank_line(a, 0) is Some {
            let rest = buf.subrange(n, buf.len() as int);
            lemma_blank_line(a, 0);
            lemma_blank_line_stable(a, rest, 0);
            assert(a + rest =~= buf);
        }
    } else {
        lemma_blank_line_prefix(buf, 0, p, n);
        assert(a.take(h) =~= buf.take(h));
    }
}

/// Every request that can be told takes some of the bytes, and none but those
/// there are.
pub proof fn law_parse_progress(buf: Seq<u8>)
    requires
        buf.len() <= usize::MAX,
    ensures
        match parsed(buf) {
            Parsed::Incomplete => true,
            Parsed::Ready { consumed } => 0 < consumed <= buf.len(),
            Parsed::Fraud { body_start, body_len, consumed } => consumed == body_start + body_len
                && 0 < consumed <= buf.len(),
            Parsed::Bad { consumed } => 0 < consumed <= buf.len(),
        },
{
    lemma_blank_line(buf, 0);
    if let Some(p) = blank_line(buf, 0) {
        lemma_length_nonnegative(buf.take(p + 4), 0);
    }
}

proof fn lemma_length_nonnegative(headers: Seq<u8>, i: int)
    requires
        0 <= i,
    ensures
        length_from(headers, i) >= 0,
    decreases headers.len() - i,
{
    if i + 15 <= headers.len() {
        if is_named(headers, i, length_name()) {
            lemma_past_spaces(headers, i + 15);
            lemma_digits_grow(headers, past_spaces(headers, i + 15), 0);
        } else {
            lemma_length_nonnegative(headers, i + 1);
        }
    }
}

proof fn lemma_past_spaces(s: Seq<u8>, p: int)
    ensures
        p <= past_spaces(s, p),
    decreases s.len() - p,
{
    if p < s.len() && s[p] == SPACE {
        lemma_past_spaces(s, p + 1);
    }
}

/// The text says how long its body is, and has a body of that length.
pub open spec fn is_framed(text: Seq<u8>) -> bool {
    blank_line(text, 0) matches Some(p) && length_from(text.take(p + 4), 0) == text.len() - (p
        + 4)
}

proof fn lemma_first_blank_line(text: Seq<u8>, p: int, h: int)
    requires
        0 <= p <= h,
        h + 4 <= text.len(),
        is_blank_line(text, h),
        forall|i: int| p <= i < h ==> !#[trigger] is_blank_line(text, i),
    ensures
        blank_line(text, p) == Some(h),
    decreases h - p,
{
    if p < h {
        assert(!is_blank_line(text, p));
        lemma_first_blank_line(text, p + 1, h);
    }
}

/// The name of a body length does not stand at `i`, as four of its letters show.
spec fn no_name_at(text: Seq<u8>, i: int) -> bool {
    lower(text[i]) != 0x63 || lower(text[i + 1]) != 0x6f || lower(text[i + 3]) != 0x74 || lower(
        text[i + 8],
    ) != 0x6c
}

proof fn lemma_length_name()
    ensures
        length_name() == seq![
            0x43u8,
            0x6f,
            0x6e,
            0x74,
            0x65,
            0x6e,
            0x74,
            0x2d,
            0x4c,
            0x65,
            0x6e,
            0x67,
            0x74,
            0x68,
            0x3a,
        ],
{
    reveal_strlit("Content-Length:");
    is_ascii_spec_bytes("Content-Length:");
    assert(length_name() =~= seq![
        0x43u8,
        0x6f,
        0x6e,
        0x74,
        0x65,
        0x6e,
        0x74,
        0x2d,
        0x4c,
        0x65,
        0x6e,
        0x67,
        0x74,
        0x68,
        0x3a,
    ]);
}

proof fn lemma_first_name(headers: Seq<u8>, i: int, k: int)
    requires
        0 <= i <= k,
        k + 15 <= headers.len(),
        is_named(headers, k, length_name()),
        forall|j: int| i <= j < k ==> #[trigger] no_name_at(headers, j),
    ensures
        length_from(headers, i) == digits(headers, past_spaces(headers, k + 15), 0),
    decreases k - i,
{
    if i < k {
        lemma_length_name();
        let n = length_name();
        assert(no_name_at(headers, i));
        assert(!is_named(headers, i, n)) by {
            if is_named(headers, i, n) {
                assert(lower(headers[i + 0]) == lower(n[0]));
                assert(lower(headers[i + 1]) == lower(n[1]));
                assert(lower(headers[i + 3]) == lower(n[3]));
                assert(lower(headers[i + 8]) == lower(n[8]));
            }
        }
        lemma_first_name(headers, i + 1, k);
    }
}

/// A text whose first empty line is at `h`, and whose first name of a body
/// length is at `k`, is framed if the number there is right.
proof fn lemma_framed(b: Seq<u8>, h: int, k: int)
    requires
        0 <= k && k + 20 <= h + 4 <= b.len(),
        is_blank_line(b, h),
        forall|i: int| 0 <= i < h ==> !#[trigger] is_blank_line(b, i),
        forall|i: int| 0 <= i < k ==> #[trigger] no_name_at(b, i),
        forall|j: int|
            0 <= j < 15 ==> lower(#[trigger] b[k + j]) == lower(length_name()[j]),
        b[k + 15] == SPACE,
        ascii::is_digit(b[k + 16]),
        ascii::is_digit(b[k + 17]) ==> !ascii::is_digit(b[k + 18]) && b.len() - (h + 4) == 10 * (b[k
            + 16] - ZERO) + (b[k + 17] - ZERO),
        !ascii::is_digit(b[k + 17]) ==> b.len() - (h + 4) == b[k + 16] - ZERO,
    ensures
        is_framed(b),
{
    lemma_first_blank_line(b, 0, h);
    let hs = b.take(h + 4);
    lemma_length_name();
    assert(is_named(hs, k, length_name())) by {
        assert forall|j: int| 0 <= j < length_name().len() implies lower(#[trigger] hs[k + j])
            == lower(length_name()[j]) by {
            assert(hs[k + j] == b[k + j]);
        }
    }
    assert forall|i: int| 0 <= i < k implies #[trigger] no_name_at(hs, i) by {
        assert(no_name_at(b, i));
    }
    lemma_first_name(hs, 0, k);
    reveal_with_fuel(past_spaces, 3);
    reveal_with_fuel(digits, 4);
    assert(hs[k + 15] == SPACE && hs[k + 16] == b[k + 16] && hs[k + 17] == b[k + 17] && hs[k + 18]
        == b[k + 18]);
    assert(past_spaces(hs, k + 15) == k + 16);
}

#[verifier::spinoff_prover]
proof fn lemma_score_zero_framed()
    ensures
        is_framed(score_text(0).spec_bytes()),
{
    reveal_strlit(
        "HTTP/1.1 200 OK\r\nContent-Type: application/json\r\nConnection: keep-alive\r\nContent-Length: 39\r\n\r\n{\"approved\": true, \"fraud_score\": 0.00}",
    );
    is_ascii_spec_bytes(score_text(0));
    lemma_length_name();
    let b = score_text(0).spec_bytes();
    assert(b.len() == 134);
    assert forall|i: int| 0 <= i < 91 implies !#[trigger] is_blank_line(b, i) by {}
    assert forall|i: int| 0 <= i < 73 implies #[trigger] no_name_at(b, i) by {}
    lemma_framed(b, 91, 73);
}

#[verifier::spinoff_prover]
proof fn lemma_score_one_framed()
    ensures
        is_framed(score_text(1).spec_bytes()),
{
    reveal_strlit(
        "HTTP/1.1 200 OK\r\nContent-Type: application/json\r\nConnection: keep-alive\r\nContent-Length: 39\r\n\r\n{\"approved\": true, \"fraud_score\": 0.20}",
    );
    is_ascii_spec_bytes(score_text(1));
    lemma_length_name();
    let b = score_text(1).spec_bytes();
    assert(b.len() == 134);
    assert forall|i: int| 0 <= i < 91 implies !#[trigger] is_blank_line(b, i) by {}
    assert forall|i: int| 0 <= i < 73 implies #[trigger] no_name_at(b, i) by {}
    lemma_framed(b, 91, 73);
}

#[verifier::spinoff_prover]
proof fn lemma_score_two_framed()
    ensures
        is_framed(score_text(2).spec_bytes()),
{
    reveal_strlit(
        "HTTP/1.1 200 OK\r\nContent-Type: application/json\r\nConnection: keep-alive\r\nContent-Length: 39\r\n\r\n{\"approved\": true, \"fraud_score\": 0.40}",
    );
    is_ascii_spec_bytes(score_text(2));
    lemma_length_name();
    let b = score_text(2).spec_bytes();
    assert(b.len() == 134);
    assert forall|i: int| 0 <= i < 91 implies !#[trigger] is_blank_line(b, i) by {}
    assert forall|i: int| 0 <= i < 73 implies #[trigger] no_name_at(b, i) by {}
    lemma_framed(b, 91, 73);
}

#[verifier::spinoff_prover]
proof fn lemma_score_three_framed()
    ensures
        is_framed(score_text(3).spec_bytes()),
{
    reveal_strlit(
        "HTTP/1.1 200 OK\r\nContent-Type: application/json\r\nConnection: keep-alive\r\nContent-Length: 40\r\n\r\n{\"approved\": false, \"fraud_score\": 0.60}",
    );
    is_ascii_spec_bytes(score_text(3));
    lemma_length_name();
    let b = score_text(3).spec_bytes();
    assert(b.len() == 135);
    assert forall|i: int| 0 <= i < 91 implies !#[trigger] is_blank_line(b, i) by {}
    assert forall|i: int| 0 <= i < 73 implies #[trigger] no_name_at(b, i) by {}
    lemma_framed(b, 91, 73);
}

#[verifier::spinoff_prover]
proof fn lemma_score_four_framed()
    ensures
        is_framed(score_text(4).spec_bytes()),
{
    reveal_strlit(
        "HTTP/1.1 200 OK\r\nContent-Type: application/json\r\nConnection: keep-alive\r\nContent-Length: 40\r\n\r\n{\"approved\": false, \"fraud_score\": 0.80}",
    );
    is_ascii_spec_bytes(score_text(4));
    lemma_length_name();
    let b = score_text(4).spec_bytes();
    assert(b.len() == 135);
    assert forall|i: int| 0 <= i < 91 implies !#[trigger] is_blank_line(b, i) by {}
    assert forall|i: int| 0 <= i < 73 implies #[trigger] no_name_at(b, i) by {}
    lemma_framed(b, 91, 73);
}

#[verifier::spinoff_prover]
proof fn lemma_score_five_framed()
    ensures
        is_framed(score_text(5).spec_bytes()),
{
    reveal_strlit(
        "HTTP/1.1 200 OK\r\nContent-Type: application/json\r\nConnection: keep-alive\r\nContent-Length: 40\r\n\r\n{\"approved\": false, \"fraud_score\": 1.00}",
    );
    is_ascii_spec_bytes(score_text(5));
    lemma_length_name();
    let b = score_text(5).spec_bytes();
    assert(b.len() == 135);
    assert forall|i: int| 0 <= i < 91 implies !#[trigger] is_blank_line(b, i) by {}
    assert forall|i: int| 0 <= i < 73 implies #[trigger] no_name_at(b, i) by {}
    lemma_framed(b, 91, 73);
}

#[verifier::spinoff_prover]
proof fn lemma_ready_framed()
    ensures
        is_framed(ready_text().spec_bytes()),
{
    reveal_strlit(
        "HTTP/1.1 200 OK\r\nContent-Length: 2\r\nConnection: keep-alive\r\n\r\nOK",
    );
    is_ascii_spec_bytes(ready_text());
    lemma_length_name();
    let b = ready_text().spec_bytes();
    assert(b.len() == 64);
    assert forall|i: int| 0 <= i < 58 implies !#[trigger] is_blank_line(b, i) by {}
    assert forall|i: int| 0 <= i < 17 implies #[trigger] no_name_at(b, i) by {}
    lemma_framed(b, 58, 17);
}

#[verifier::spinoff_prover]
proof fn lemma_bad_framed()
    ensures
        is_framed(bad_text().spec_bytes()),
{
    reveal_strlit(
        "HTTP/1.1 400 Bad Request\r\nContent-Length: 0\r\nConnection: close\r\n\r\n",
    );
    is_ascii_spec_bytes(bad_text());
    lemma_length_name();
    let b = bad_text().spec_bytes();
    assert(b.len() == 66);
    assert forall|i: int| 0 <= i < 62 implies !#[trigger] is_blank_line(b, i) by {}
    assert forall|i: int| 0 <= i < 26 implies #[trigger] no_name_at(b, i) by {}
    lemma_framed(b, 62, 26);
}

/// Every response says how long its body is.
pub proof fn law_responses_framed(count: int)
    requires
        0 <= count,
    ensures
        is_framed(score_text(count).spec_bytes()),
        is_framed(ready_text().spec_bytes()),
        is_framed(bad_text().spec_bytes()),
{
    lemma_score_zero_framed();
    lemma_score_one_framed();
    lemma_score_two_framed();
    lemma_score_three_framed();
    lemma_score_four_framed();
    lemma_score_five_framed();
    lemma_ready_framed();
    lemma_bad_framed();
}

} // verus!
