//! What responses say, and how requests are read.
use vstd::prelude::*;
use vstd::string::*;
use crate::ascii::{CLOSE_BRACE, CR, LF, POINT, SPACE, ZERO};
use crate::conn::{self, After, Answer, Reply};
use crate::gate;
use crate::http::{self, Parsed};

verus! {

// ---------------------------------------------------------------------------
// Responses
// ---------------------------------------------------------------------------

/// A number of hundredths below a thousand, as a decimal with two places.
pub open spec fn hundredths(n: int) -> Seq<u8> {
    seq![
        (ZERO + n / 100) as u8,
        POINT,
        (ZERO + n / 10 % 10) as u8,
        (ZERO + n % 10) as u8,
    ]
}

/// A number below a hundred, in two digits.
pub open spec fn two_digits(n: int) -> Seq<u8> {
    seq![(ZERO + n / 10) as u8, (ZERO + n % 10) as u8]
}

/// The body of the response for `count` out of five: approved if fewer than
/// half are fraudulent, and the share of those that are.
pub open spec fn verdict(count: int) -> Seq<u8> {
    "{\"approved\": ".spec_bytes() + (if 2 * count < 5 {
        "true".spec_bytes()
    } else {
        "false".spec_bytes()
    }) + ", \"fraud_score\": ".spec_bytes() + hundredths(100 * count / 5) + seq![CLOSE_BRACE]
}

/// A response that keeps the connection, with the body `body`.
pub open spec fn response(body: Seq<u8>) -> Seq<u8> {
    "HTTP/1.1 200 OK\r\nContent-Type: application/json\r\nConnection: keep-alive\r\nContent-Length: ".spec_bytes()
        + two_digits(body.len() as int) + "\r\n\r\n".spec_bytes() + body
}

proof fn lemma_parts()
    ensures
        "{\"approved\": ".spec_bytes() =~= seq![
            0x7bu8,
            0x22,
            0x61,
            0x70,
            0x70,
            0x72,
            0x6f,
            0x76,
            0x65,
            0x64,
            0x22,
            0x3a,
            0x20,
        ],
        "true".spec_bytes() =~= seq![0x74u8, 0x72, 0x75, 0x65],
        "false".spec_bytes() =~= seq![0x66u8, 0x61, 0x6c, 0x73, 0x65],
        ", \"fraud_score\": ".spec_bytes() =~= seq![
            0x2cu8,
            0x20,
            0x22,
            0x66,
            0x72,
            0x61,
            0x75,
            0x64,
            0x5f,
            0x73,
            0x63,
            0x6f,
            0x72,
            0x65,
            0x22,
            0x3a,
            0x20,
        ],
        "\r\n\r\n".spec_bytes() =~= seq![CR, LF, CR, LF],
{
    reveal_strlit("{\"approved\": ");
    is_ascii_spec_bytes("{\"approved\": ");
    reveal_strlit("true");
    is_ascii_spec_bytes("true");
    reveal_strlit("false");
    is_ascii_spec_bytes("false");
    reveal_strlit(", \"fraud_score\": ");
    is_ascii_spec_bytes(", \"fraud_score\": ");
    reveal_strlit("\r\n\r\n");
    is_ascii_spec_bytes("\r\n\r\n");
}

#[verifier::spinoff_prover]
proof fn lemma_zero()
    ensures
        http::score_text(0).spec_bytes() == response(verdict(0)),
{
    lemma_parts();
    reveal_strlit("HTTP/1.1 200 OK\r\nContent-Type: application/json\r\nConnection: keep-alive\r\nContent-Length: ");
    is_ascii_spec_bytes("HTTP/1.1 200 OK\r\nContent-Type: application/json\r\nConnection: keep-alive\r\nContent-Length: ");
    reveal_strlit(
        "HTTP/1.1 200 OK\r\nContent-Type: application/json\r\nConnection: keep-alive\r\nContent-Length: 39\r\n\r\n{\"approved\": true, \"fraud_score\": 0.00}",
    );
    is_ascii_spec_bytes(http::score_text(0));
    assert(verdict(0).len() == 39);
    assert(http::score_text(0).spec_bytes() =~= response(verdict(0)));
}

#[verifier::spinoff_prover]
proof fn lemma_one()
    ensures
        http::score_text(1).spec_bytes() == response(verdict(1)),
{
    lemma_parts();
    reveal_strlit("HTTP/1.1 200 OK\r\nContent-Type: application/json\r\nConnection: keep-alive\r\nContent-Length: ");
    is_ascii_spec_bytes("HTTP/1.1 200 OK\r\nContent-Type: application/json\r\nConnection: keep-alive\r\nContent-Length: ");
    reveal_strlit(
        "HTTP/1.1 200 OK\r\nContent-Type: application/json\r\nConnection: keep-alive\r\nContent-Length: 39\r\n\r\n{\"approved\": true, \"fraud_score\": 0.20}",
    );
    is_ascii_spec_bytes(http::score_text(1));
    assert(verdict(1).len() == 39);
    assert(http::score_text(1).spec_bytes() =~= response(verdict(1)));
}

#[verifier::spinoff_prover]
proof fn lemma_two()
    ensures
        http::score_text(2).spec_bytes() == response(verdict(2)),
{
    lemma_parts();
    reveal_strlit("HTTP/1.1 200 OK\r\nContent-Type: application/json\r\nConnection: keep-alive\r\nContent-Length: ");
    is_ascii_spec_bytes("HTTP/1.1 200 OK\r\nContent-Type: application/json\r\nConnection: keep-alive\r\nContent-Length: ");
    reveal_strlit(
        "HTTP/1.1 200 OK\r\nContent-Type: application/json\r\nConnection: keep-alive\r\nContent-Length: 39\r\n\r\n{\"approved\": true, \"fraud_score\": 0.40}",
    );
    is_ascii_spec_bytes(http::score_text(2));
    assert(verdict(2).len() == 39);
    assert(http::score_text(2).spec_bytes() =~= response(verdict(2)));
}

#[verifier::spinoff_prover]
proof fn lemma_three()
    ensures
        http::score_text(3).spec_bytes() == response(verdict(3)),
{
    lemma_parts();
    reveal_strlit("HTTP/1.1 200 OK\r\nContent-Type: application/json\r\nConnection: keep-alive\r\nContent-Length: ");
    is_ascii_spec_bytes("HTTP/1.1 200 OK\r\nContent-Type: application/json\r\nConnection: keep-alive\r\nContent-Length: ");
    reveal_strlit(
        "HTTP/1.1 200 OK\r\nContent-Type: application/json\r\nConnection: keep-alive\r\nContent-Length: 40\r\n\r\n{\"approved\": false, \"fraud_score\": 0.60}",
    );
    is_ascii_spec_bytes(http::score_text(3));
    assert(verdict(3).len() == 40);
    assert(http::score_text(3).spec_bytes() =~= response(verdict(3)));
}

#[verifier::spinoff_prover]
proof fn lemma_four()
    ensures
        http::score_text(4).spec_bytes() == response(verdict(4)),
{
    lemma_parts();
    reveal_strlit("HTTP/1.1 200 OK\r\nContent-Type: application/json\r\nConnection: keep-alive\r\nContent-Length: ");
    is_ascii_spec_bytes("HTTP/1.1 200 OK\r\nContent-Type: application/json\r\nConnection: keep-alive\r\nContent-Length: ");
    reveal_strlit(
        "HTTP/1.1 200 OK\r\nContent-Type: application/json\r\nConnection: keep-alive\r\nContent-Length: 40\r\n\r\n{\"approved\": false, \"fraud_score\": 0.80}",
    );
    is_ascii_spec_bytes(http::score_text(4));
    assert(verdict(4).len() == 40);
    assert(http::score_text(4).spec_bytes() =~= response(verdict(4)));
}

#[verifier::spinoff_prover]
proof fn lemma_five()
    ensures
        http::score_text(5).spec_bytes() == response(verdict(5)),
{
    lemma_parts();
    reveal_strlit("HTTP/1.1 200 OK\r\nContent-Type: application/json\r\nConnection: keep-alive\r\nContent-Length: ");
    is_ascii_spec_bytes("HTTP/1.1 200 OK\r\nContent-Type: application/json\r\nConnection: keep-alive\r\nContent-Length: ");
    reveal_strlit(
        "HTTP/1.1 200 OK\r\nContent-Type: application/json\r\nConnection: keep-alive\r\nContent-Length: 40\r\n\r\n{\"approved\": false, \"fraud_score\": 1.00}",
    );
    is_ascii_spec_bytes(http::score_text(5));
    assert(verdict(5).len() == 40);
    assert(http::score_text(5).spec_bytes() =~= response(verdict(5)));
}

/// The count that a response is for: more than five are five.
pub open spec fn out_of_five(count: int) -> int {
    if count < 5 {
        count
    } else {
        5
    }
}

/// The reply to a transaction with `count` fraudulent neighbours says that it is
/// approved exactly if fewer than half of the five are, and gives the share of
/// those that are as a decimal.
pub proof fn law_score_says(count: u8)
    ensures
        (Reply::Score { count }).text() == response(verdict(out_of_five(count as int))),
        http::score_text(count as int).spec_bytes() == response(
            verdict(out_of_five(count as int)),
        ),
{
    lemma_zero();
    lemma_one();
    lemma_two();
    lemma_three();
    lemma_four();
    lemma_five();
}

/// A transaction counts as approved exactly if the reply to it says so, and as
/// denied exactly if the reply says that.
pub proof fn law_approval_agrees_with_replies(count: u8)
    requires
        count <= 5,
    ensures
        ({
            let text = (Reply::Score { count }).text();
            &&& gate::is_approved(count as int) == exists|b: Seq<u8>|
                "{\"approved\": true".spec_bytes().is_prefix_of(b) && text == #[trigger] response(b)
            &&& !gate::is_approved(count as int) == exists|b: Seq<u8>|
                "{\"approved\": false".spec_bytes().is_prefix_of(b) && text == #[trigger] response(b)
        }),
{
    law_score_says(count);
    lemma_parts();
    reveal_strlit("{\"approved\": true");
    is_ascii_spec_bytes("{\"approved\": true");
    reveal_strlit("{\"approved\": false");
    is_ascii_spec_bytes("{\"approved\": false");
    let t = "{\"approved\": true".spec_bytes();
    let f = "{\"approved\": false".spec_bytes();
    let v = verdict(count as int);
    let text = response(v);
    assert(2 * count < 5 ==> t =~= v.take(t.len() as int));
    assert(2 * count >= 5 ==> f =~= v.take(f.len() as int));
    assert forall|b: Seq<u8>| text == #[trigger] response(b) implies b == v by {
        lemma_response_body(b, v);
    }
    assert(v[13] == t[13] || v[13] == f[13]);
    assert(t[13] != f[13]);
}

proof fn lemma_response_body(a: Seq<u8>, b: Seq<u8>)
    requires
        response(a) == response(b),
    ensures
        a == b,
{
    let h = "HTTP/1.1 200 OK\r\nContent-Type: application/json\r\nConnection: keep-alive\r\nContent-Length: ".spec_bytes();
    let m = "\r\n\r\n".spec_bytes();
    let k = h.len() + 2 + m.len();
    assert(response(a).skip(k as int) =~= a);
    assert(response(b).skip(k as int) =~= b);
}

/// Approval is a threshold: with fewer fraudulent neighbours a transaction is
/// approved all the more, and it takes a majority of the five to deny one.
pub proof fn law_approval_is_by_majority(a: int, b: int)
    requires
        0 <= a <= b <= 5,
    ensures
        gate::is_approved(b) ==> gate::is_approved(a),
        gate::is_approved(a) != gate::is_approved(5 - a),
{
}

/// The line stands in the text at `i`, behind the end of another.
pub open spec fn line_at(text: Seq<u8>, line: Seq<u8>, i: int) -> bool {
    0 <= i && i + line.len() + 4 <= text.len() && text.subrange(i, i + line.len() + 4) == seq![
        CR,
        LF,
    ] + line + seq![CR, LF]
}

pub open spec fn has_line(text: Seq<u8>, line: Seq<u8>) -> bool {
    exists|i: int| #[trigger] line_at(text, line, i)
}

/// A worker that is ready says so and keeps the connection; a bad request is
/// refused and ends it.
#[verifier::spinoff_prover]
pub proof fn law_other_replies()
    ensures
        "HTTP/1.1 200 ".spec_bytes().is_prefix_of(Reply::Ready.text()),
        has_line(Reply::Ready.text(), "Connection: keep-alive".spec_bytes()),
        "OK".spec_bytes().is_suffix_of(Reply::Ready.text()),
        "HTTP/1.1 400 ".spec_bytes().is_prefix_of(Reply::Bad.text()),
        has_line(Reply::Bad.text(), "Connection: close".spec_bytes()),
        has_line(Reply::Bad.text(), "Content-Length: 0".spec_bytes()),
{
    let r = Reply::Ready.text();
    let b = Reply::Bad.text();
    reveal_strlit("HTTP/1.1 200 OK\r\nContent-Length: 2\r\nConnection: keep-alive\r\n\r\nOK");
    is_ascii_spec_bytes(http::ready_text());
    reveal_strlit("HTTP/1.1 400 Bad Request\r\nContent-Length: 0\r\nConnection: close\r\n\r\n");
    is_ascii_spec_bytes(http::bad_text());
    reveal_strlit("HTTP/1.1 200 ");
    is_ascii_spec_bytes("HTTP/1.1 200 ");
    reveal_strlit("HTTP/1.1 400 ");
    is_ascii_spec_bytes("HTTP/1.1 400 ");
    reveal_strlit("Connection: keep-alive");
    is_ascii_spec_bytes("Connection: keep-alive");
    reveal_strlit("Connection: close");
    is_ascii_spec_bytes("Connection: close");
    reveal_strlit("Content-Length: 0");
    is_ascii_spec_bytes("Content-Length: 0");
    reveal_strlit("OK");
    is_ascii_spec_bytes("OK");
    assert(r.subrange(34, 60) =~= seq![CR, LF] + "Connection: keep-alive".spec_bytes() + seq![CR, LF]);
    assert(line_at(r, "Connection: keep-alive".spec_bytes(), 34));
    assert(b.subrange(43, 64) =~= seq![CR, LF] + "Connection: close".spec_bytes() + seq![CR, LF]);
    assert(line_at(b, "Connection: close".spec_bytes(), 43));
    assert(b.subrange(24, 45) =~= seq![CR, LF] + "Content-Length: 0".spec_bytes() + seq![CR, LF]);
    assert(line_at(b, "Content-Length: 0".spec_bytes(), 24));
}

// ---------------------------------------------------------------------------
// Requests
// ---------------------------------------------------------------------------

/// The decimal numeral of `n`.
pub open spec fn numeral(n: nat) -> Seq<u8>
    decreases n,
{
    if n < 10 {
        seq![(ZERO + n) as u8]
    } else {
        numeral(n / 10).push((ZERO + n % 10) as u8)
    }
}

/// The name of a body length, in whatever case, stands at `i`.
pub open spec fn names_length(t: Seq<u8>, i: int) -> bool {
    forall|j: int|
        0 <= j < 15 ==> is_letter_of(#[trigger] t[i + j], "content-length:".spec_bytes()[j])
}

/// `c` is the letter `small`, as it is or as a capital.
pub open spec fn is_letter_of(c: u8, small: u8) -> bool {
    c == small || 0x41 <= c <= 0x5a && c + 0x20 == small
}

/// The text has an empty line at `i`, behind the end of another.
pub open spec fn ends_line(t: Seq<u8>, i: int) -> bool {
    t[i] == CR && t[i + 1] == LF && t[i + 2] == CR && t[i + 3] == LF
}

/// How the length of a body is written: its name, and the spaces before the
/// number.
pub ghost struct Naming {
    pub name: Seq<u8>,
    pub pad: Seq<u8>,
}

pub open spec fn is_naming(g: Naming) -> bool {
    &&& g.name.len() == 15
    &&& names_length(g.name, 0)
    &&& forall|i: int| 0 <= i < g.pad.len() ==> #[trigger] g.pad[i] == SPACE
}

/// The head of a request for a score with a body of `n` bytes; `lines` stands
/// between its path and the line with the length.
pub open spec fn score_head(lines: Seq<u8>, g: Naming, n: nat) -> Seq<u8> {
    "POST /fraud-score".spec_bytes() + lines + "\r\n".spec_bytes() + g.name + g.pad + numeral(n)
        + "\r\n\r\n".spec_bytes()
}

/// No other length and no empty line stands before those at the end of the
/// head.
pub open spec fn is_plain(lines: Seq<u8>, g: Naming, n: nat) -> bool {
    let h = score_head(lines, g, n);
    &&& is_naming(g)
    &&& forall|i: int| 0 <= i < 17 + lines.len() + 2 ==> !#[trigger] names_length(h, i)
    &&& is_head(h)
}

/// A head ends with its first empty line.
pub open spec fn is_head(h: Seq<u8>) -> bool {
    &&& h.len() >= 4
    &&& ends_line(h, h.len() - 4)
    &&& forall|i: int| 0 <= i < h.len() - 4 ==> !#[trigger] ends_line(h, i)
}

proof fn lemma_numeral(s: Seq<u8>, p: int, n: nat)
    requires
        0 <= p,
        p + numeral(n).len() <= s.len(),
        s.subrange(p, p + numeral(n).len()) == numeral(n),
    ensures
        http::digits(s, p, 0) == http::digits(s, p + numeral(n).len(), n as int),
        numeral(n).len() > 0,
        s[p] != SPACE,
    decreases n,
{
    let m = numeral(n);
    let t = s.subrange(p, p + m.len());
    assert forall|i: int| 0 <= i < m.len() implies s[p + i] == #[trigger] m[i] by {
        assert(t[i] == s[p + i]);
    }
    if n < 10 {
        assert(s[p] == m[0]);
    } else {
        let k = numeral(n / 10);
        assert(s.subrange(p, p + k.len()) =~= k) by {
            assert forall|i: int| 0 <= i < k.len() implies s[p + i] == k[i] by {
                assert(m[i] == k[i]);
            }
        }
        lemma_numeral(s, p, n / 10);
        assert(s[p + k.len()] == m[k.len() as int]);
        assert(10 * (n / 10) + n % 10 == n);
    }
}

proof fn lemma_first_length(headers: Seq<u8>, i: int, k: int)
    requires
        0 <= i <= k,
        k + 15 <= headers.len(),
        http::is_named(headers, k, http::length_name()),
        forall|j: int| i <= j < k ==> !#[trigger] http::is_named(headers, j, http::length_name()),
    ensures
        http::length_from(headers, i) == http::digits(
            headers,
            http::past_spaces(headers, k + 15),
            0,
        ),
    decreases k - i,
{
    if i < k {
        lemma_first_length(headers, i + 1, k);
    }
}

proof fn lemma_no_length(headers: Seq<u8>, i: int)
    requires
        0 <= i,
        forall|j: int|
            i <= j && j + 15 <= headers.len() ==> !#[trigger] http::is_named(
                headers,
                j,
                http::length_name(),
            ),
    ensures
        http::length_from(headers, i) == 0,
    decreases headers.len() - i,
{
    if i + 15 <= headers.len() {
        lemma_no_length(headers, i + 1);
    }
}

proof fn lemma_past_spaces(s: Seq<u8>, p: int, q: int)
    requires
        0 <= p <= q < s.len(),
        forall|i: int| p <= i < q ==> #[trigger] s[i] == SPACE,
        s[q] != SPACE,
    ensures
        http::past_spaces(s, p) == q,
    decreases q - p,
{
    if p < q {
        lemma_past_spaces(s, p + 1, q);
    }
}

/// A name is one in whatever case its letters are.
#[verifier::spinoff_prover]
proof fn lemma_same_name(h: Seq<u8>, i: int)
    ensures
        names_length(h, i) == http::is_named(h, i, http::length_name()),
{
    reveal_strlit("content-length:");
    is_ascii_spec_bytes("content-length:");
    reveal_strlit("Content-Length:");
    is_ascii_spec_bytes("Content-Length:");
    let a = "content-length:".spec_bytes();
    let b = http::length_name();
    assert(a =~= seq![
        0x63u8,
        0x6f,
        0x6e,
        0x74,
        0x65,
        0x6e,
        0x74,
        0x2d,
        0x6c,
        0x65,
        0x6e,
        0x67,
        0x74,
        0x68,
        0x3a,
    ]);
    assert(b.len() == 15);
    assert forall|j: int| 0 <= j < 15 implies #[trigger] a[j] == http::lower(b[j]) && !(0x41
        <= a[j] <= 0x5a) by {}
    if names_length(h, i) {
        assert forall|j: int| 0 <= j < b.len() implies http::lower(#[trigger] h[i + j])
            == http::lower(b[j]) by {
            assert(is_letter_of(h[i + j], a[j]));
        }
    }
    if http::is_named(h, i, b) {
        assert forall|j: int| 0 <= j < 15 implies is_letter_of(#[trigger] h[i + j], a[j]) by {
            assert(http::lower(h[i + j]) == http::lower(b[j]));
            assert(a[j] == http::lower(b[j]));
        }
    }
}

/// The length that a head gives.
#[verifier::spinoff_prover]
#[verifier::rlimit(30)]
proof fn lemma_head_length(lines: Seq<u8>, g: Naming, n: nat)
    requires
        is_plain(lines, g, n),
    ensures
        http::length_from(score_head(lines, g, n), 0) == n,
        "POST /fraud-score".spec_bytes().is_prefix_of(score_head(lines, g, n)),
{
    let h = score_head(lines, g, n);
    let path = "POST /fraud-score".spec_bytes();
    let line = "\r\n".spec_bytes();
    let m = numeral(n);
    let end = "\r\n\r\n".spec_bytes();
    reveal_strlit("POST /fraud-score");
    is_ascii_spec_bytes("POST /fraud-score");
    reveal_strlit("\r\n");
    is_ascii_spec_bytes("\r\n");
    reveal_strlit("\r\n\r\n");
    is_ascii_spec_bytes("\r\n\r\n");
    assert(path.len() == 17 && line.len() == 2 && end.len() == 4);
    let k = 17int + lines.len() + 2;
    let s = k + 15;
    let p = s + g.pad.len();
    let e = p + m.len();
    assert(h.len() == e + 4);
    let front = path + lines + line;
    assert(names_length(h, k)) by {
        assert forall|j: int| 0 <= j < 15 implies is_letter_of(
            #[trigger] h[k + j],
            "content-length:".spec_bytes()[j],
        ) by {
            assert(h[k + j] == g.name[j]);
            assert(g.name[0 + j] == g.name[j]);
        }
    }
    lemma_same_name(h, k);
    assert forall|i: int| 0 <= i < k implies !#[trigger] http::is_named(
        h,
        i,
        http::length_name(),
    ) by {
        lemma_same_name(h, i);
        assert(!names_length(h, i));
    }
    lemma_first_length(h, 0, k);
    assert forall|i: int| s <= i < p implies #[trigger] h[i] == SPACE by {
        assert(h[i] == g.pad[i - s]);
    }
    assert(h.subrange(p, e) =~= m);
    lemma_numeral(h, p, n);
    lemma_past_spaces(h, s, p);
    assert(h[e] == CR);
    assert(http::digits(h, e, n as int) == n);
    assert(path =~= h.take(17));
}

proof fn lemma_first_empty_line(text: Seq<u8>, p: int, h: int)
    requires
        0 <= p <= h,
        h + 4 <= text.len(),
        http::is_blank_line(text, h),
        forall|i: int| p <= i < h ==> !#[trigger] http::is_blank_line(text, i),
    ensures
        http::blank_line(text, p) == Some(h),
    decreases h - p,
{
    if p < h {
        assert(!http::is_blank_line(text, p));
        lemma_first_empty_line(text, p + 1, h);
    }
}

proof fn lemma_no_empty_line(text: Seq<u8>, p: int)
    requires
        0 <= p,
        forall|i: int| p <= i && i + 4 <= text.len() ==> !#[trigger] http::is_blank_line(text, i),
    ensures
        http::blank_line(text, p) is None,
    decreases text.len() - p,
{
    if p + 4 <= text.len() {
        lemma_no_empty_line(text, p + 1);
    }
}

/// The head of a text ends with its first empty line.
proof fn lemma_head_found(h: Seq<u8>, rest: Seq<u8>)
    requires
        is_head(h),
    ensures
        http::blank_line(h + rest, 0) == Some(h.len() - 4),
        (h + rest).take(h.len() as int) == h,
{
    let buf = h + rest;
    assert forall|i: int| 0 <= i < h.len() - 4 implies !#[trigger] http::is_blank_line(buf, i) by {
        assert(!ends_line(h, i));
    }
    assert(ends_line(h, h.len() - 4));
    lemma_first_empty_line(buf, 0, h.len() - 4);
    assert(buf.take(h.len() as int) =~= h);
}

/// A request for a score is read as one, with all of its body and nothing
/// behind it, however the name of the length is spelt.
pub proof fn law_score_request(lines: Seq<u8>, g: Naming, body: Seq<u8>, more: Seq<u8>)
    requires
        is_plain(lines, g, body.len()),
        score_head(lines, g, body.len()).len() + body.len() <= usize::MAX,
    ensures
        ({
            let h = score_head(lines, g, body.len());
            &&& http::parsed(h + body + more) == (Parsed::Fraud {
                body_start: h.len() as usize,
                body_len: body.len() as usize,
                consumed: (h.len() + body.len()) as usize,
            })
            &&& (h + body + more).subrange(h.len() as int, (h.len() + body.len()) as int) == body
        }),
{
    let h = score_head(lines, g, body.len());
    let buf = h + body + more;
    lemma_head_length(lines, g, body.len());
    lemma_head_found(h, body + more);
    assert(buf =~= h + (body + more));
    assert(buf.subrange(h.len() as int, (h.len() + body.len()) as int) =~= body);
}

/// A request of which bytes are missing is not complete.
pub proof fn law_score_request_unfinished(lines: Seq<u8>, g: Naming, body: Seq<u8>, m: int)
    requires
        is_plain(lines, g, body.len()),
        score_head(lines, g, body.len()).len() + body.len() <= usize::MAX,
        0 <= m < score_head(lines, g, body.len()).len() + body.len(),
    ensures
        http::parsed((score_head(lines, g, body.len()) + body).take(m)) == Parsed::Incomplete,
{
    let h = score_head(lines, g, body.len());
    let buf = (h + body).take(m);
    lemma_head_length(lines, g, body.len());
    if m < h.len() {
        assert forall|i: int| 0 <= i && i + 4 <= buf.len() implies !#[trigger] http::is_blank_line(
            buf,
            i,
        ) by {
            assert(!ends_line(h, i));
        }
        lemma_no_empty_line(buf, 0);
    } else {
        let part = body.take(m - h.len());
        assert(buf =~= h + part);
        lemma_head_found(h, part);
    }
}

/// A request for a score that gives no length has no body.
pub proof fn law_score_request_without_length(h: Seq<u8>, more: Seq<u8>)
    requires
        is_head(h),
        h.len() <= usize::MAX,
        "POST /fraud-score".spec_bytes().is_prefix_of(h),
        forall|i: int| 0 <= i && i + 15 <= h.len() ==> !#[trigger] names_length(h, i),
    ensures
        http::parsed(h + more) == (Parsed::Fraud {
            body_start: h.len() as usize,
            body_len: 0,
            consumed: h.len() as usize,
        }),
{
    lemma_head_found(h, more);
    assert forall|j: int| 0 <= j && j + 15 <= h.len() implies !#[trigger] http::is_named(
        h,
        j,
        http::length_name(),
    ) by {
        lemma_same_name(h, j);
        assert(!names_length(h, j));
    }
    lemma_no_length(h, 0);
}

/// A request with any other head than one for a score is for readiness or bad,
/// as its method and path say, and takes its head and nothing behind it.
pub proof fn law_other_requests(h: Seq<u8>, more: Seq<u8>)
    requires
        is_head(h),
        h.len() <= usize::MAX,
        !"POST /fraud-score".spec_bytes().is_prefix_of(h),
    ensures
        "GET /ready".spec_bytes().is_prefix_of(h) ==> http::parsed(h + more) == (Parsed::Ready {
            consumed: h.len() as usize,
        }),
        !"GET /ready".spec_bytes().is_prefix_of(h) ==> http::parsed(h + more) == (Parsed::Bad {
            consumed: h.len() as usize,
        }),
{
    lemma_head_found(h, more);
}

/// The client that sends a request for a score is told the score of the body,
/// and then what the bytes behind it call for.
pub proof fn law_score_request_served(
    s: conn::Settings,
    lines: Seq<u8>,
    g: Naming,
    body: Seq<u8>,
    more: Seq<u8>,
)
    requires
        is_plain(lines, g, body.len()),
        score_head(lines, g, body.len()).len() + body.len() + more.len() <= usize::MAX,
        conn::can_score(s, body),
    ensures
        ({
            let then = conn::served(s, more);
            let all = conn::served(s, score_head(lines, g, body.len()) + body + more);
            &&& all.replies == seq![Reply::Score { count: conn::score(s, body) as u8 }]
                + then.replies
            &&& all.rest == then.rest
            &&& all.after == then.after
        }),
{
    reveal(conn::answer);
    let h = score_head(lines, g, body.len());
    let buf = h + body + more;
    law_score_request(lines, g, body, more);
    assert(conn::behind(buf, (h.len() + body.len()) as int) =~= more);
    assert(conn::answer(s, buf) == Answer::Say(
        Reply::Score { count: conn::score(s, body) as u8 },
        (h.len() + body.len()) as int,
    ));
}

/// A request for a score that cannot be found ends everything, and no bytes are
/// used up by it.
pub proof fn law_score_request_fails(
    s: conn::Settings,
    lines: Seq<u8>,
    g: Naming,
    body: Seq<u8>,
    more: Seq<u8>,
)
    requires
        is_plain(lines, g, body.len()),
        score_head(lines, g, body.len()).len() + body.len() + more.len() <= usize::MAX,
        !conn::can_score(s, body),
    ensures
        ({
            let buf = score_head(lines, g, body.len()) + body + more;
            let all = conn::served(s, buf);
            &&& all.replies.len() == 0
            &&& all.rest == buf
            &&& all.after == After::Fail
        }),
{
    reveal(conn::answer);
    law_score_request(lines, g, body, more);
}

/// The client that asks for readiness is told, and then what the bytes behind
/// call for. One that sends a bad request is told that, and nothing more.
pub proof fn law_other_requests_served(s: conn::Settings, h: Seq<u8>, more: Seq<u8>)
    requires
        is_head(h),
        h.len() + more.len() <= usize::MAX,
        !"POST /fraud-score".spec_bytes().is_prefix_of(h),
    ensures
        ({
            let then = conn::served(s, more);
            let all = conn::served(s, h + more);
            if "GET /ready".spec_bytes().is_prefix_of(h) {
                &&& all.replies == seq![Reply::Ready] + then.replies
                &&& all.rest == then.rest
                &&& all.after == then.after
            } else {
                &&& all.replies == seq![Reply::Bad]
                &&& all.rest == more
                &&& all.after == After::Close
            }
        }),
{
    reveal(conn::answer);
    law_other_requests(h, more);
    assert(conn::behind(h + more, h.len() as int) =~= more);
}

/// While a request is not complete, nothing is said, and its bytes are kept.
pub proof fn law_unfinished_request_waits(
    s: conn::Settings,
    lines: Seq<u8>,
    g: Naming,
    body: Seq<u8>,
    m: int,
)
    requires
        is_plain(lines, g, body.len()),
        score_head(lines, g, body.len()).len() + body.len() <= usize::MAX,
        0 <= m < score_head(lines, g, body.len()).len() + body.len(),
    ensures
        ({
            let buf = (score_head(lines, g, body.len()) + body).take(m);
            let all = conn::served(s, buf);
            &&& all.replies.len() == 0
            &&& all.rest == buf
            &&& all.after == After::Open
        }),
{
    reveal(conn::answer);
    law_score_request_unfinished(lines, g, body, m);
}

} // verus!
