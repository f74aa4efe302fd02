//! A client's connection: the bytes that have come, and the replies that they
//! call for.
use vstd::prelude::*;
use vstd::string::*;
use crate::http::{self, bad_resp, parse, ready_resp, score_resp, Parsed};
use crate::normalize::{self, normalize};
use crate::scalar;
use crate::search::{self, Index};
use crate::wide;

verus! {

/// Bytes that a connection can hold back.
pub const BUF_CAP: usize = 8192;

/// What the server says to a request.
#[derive(Clone, Copy, PartialEq, Eq, Structural, Debug)]
pub enum Reply {
    Ready,
    Score { count: u8 },
    Bad,
}

impl Reply {
    pub open spec fn text(self) -> Seq<u8> {
        match self {
            Reply::Ready => http::ready_text().spec_bytes(),
            Reply::Score { count } => http::score_text(count as int).spec_bytes(),
            Reply::Bad => http::bad_text().spec_bytes(),
        }
    }

    /// The bytes to send.
    pub fn bytes(self) -> (r: &'static [u8])
        ensures
            r@ == self.text(),
    {
        match self {
            Reply::Ready => ready_resp(),
            Reply::Score { count } => score_resp(count),
            Reply::Bad => bad_resp(),
        }
    }
}

// ---------------------------------------------------------------------------
// Scores
// ---------------------------------------------------------------------------

/// An index, and how it is searched.
pub struct Scorer<'a> {
    pub index: Index<'a>,
    pub nprobe: usize,
    pub repair_min: u8,
    pub repair_max: u8,
    pub wide: bool,
}

/// How an index is searched.
pub ghost struct Settings {
    pub raw: Seq<u8>,
    pub nprobe: int,
    pub repair_min: int,
    pub repair_max: int,
    pub wide: bool,
}

impl<'a> View for Scorer<'a> {
    type V = Settings;

    open spec fn view(&self) -> Settings {
        Settings {
            raw: self.index@,
            nprobe: self.nprobe as int,
            repair_min: self.repair_min as int,
            repair_max: self.repair_max as int,
            wide: self.wide,
        }
    }
}

/// The sum of the labels nearest to the vector `q`.
pub open spec fn found(s: Settings, q: Seq<i16>) -> int {
    scalar::tag_sum(
        if s.wide {
            wide::kept(s.raw, q, s.nprobe, s.repair_min, s.repair_max)
        } else {
            scalar::kept(s.raw, q, s.nprobe, s.repair_min, s.repair_max)
        },
    )
}

/// The score of the transaction in `body`; zero for one that is malformed.
pub open spec fn score(s: Settings, body: Seq<u8>) -> int {
    match normalize::normalized(body) {
        Some(v) => found(s, Seq::new(14, |i: int| v[i] as i16)),
        None => 0,
    }
}

/// A score for the transaction in `body` can be found: it is malformed, or the
/// search for it can be done.
pub open spec fn can_score(s: Settings, body: Seq<u8>) -> bool {
    match normalize::normalized(body) {
        Some(v) => search::can_search(
            s.raw,
            Seq::new(14, |i: int| v[i] as i16),
            s.nprobe,
            s.repair_min,
            s.repair_max,
            s.wide,
        ),
        None => true,
    }
}

/// What is found for a transaction.
#[derive(Clone, Copy, PartialEq, Eq, Structural, Debug)]
pub enum Finding {
    /// The sum of the labels of the nearest vectors.
    Count { count: u8 },
    /// The transaction is malformed.
    Malformed,
    /// The search cannot be done.
    Unreadable,
}

/// What is found for the transaction in `body`.
pub open spec fn finding(s: Settings, body: Seq<u8>) -> Finding {
    if normalize::normalized(body) is None {
        Finding::Malformed
    } else if !can_score(s, body) {
        Finding::Unreadable
    } else {
        Finding::Count { count: score(s, body) as u8 }
    }
}

impl<'a> Scorer<'a> {
    pub open spec fn wf(&self) -> bool {
        self.index.wf()
    }

    /// A scorer over `index`.
    pub fn new(
        index: Index<'a>,
        nprobe: usize,
        repair_min: u8,
        repair_max: u8,
        wide: bool,
    ) -> (r: Scorer<'a>)
        requires
            index.wf(),
        ensures
            r.wf(),
            r@ == (Settings {
                raw: index@,
                nprobe: nprobe as int,
                repair_min: repair_min as int,
                repair_max: repair_max as int,
                wide: wide,
            }),
    {
        Scorer { index, nprobe, repair_min, repair_max, wide }
    }

    /// What is found for the transaction in `body`.
    pub fn score_of(&self, body: &[u8]) -> (r: Finding)
        requires
            self.wf(),
        ensures
            r == (if normalize::normalized(body@) is None {
                Finding::Malformed
            } else if can_score(self@, body@) {
                Finding::Count { count: score(self@, body@) as u8 }
            } else {
                Finding::Unreadable
            }),
            r matches Finding::Count { count } ==> count == score(self@, body@),
            r == finding(self@, body@),
    {
        match normalize(body) {
            Some(q) => {
                assert(Seq::new(14, |i: int| normalize::normalized(body@)->0[i] as i16) =~= q@);
                match self.index.try_search(
                    &q,
                    self.nprobe,
                    self.repair_min,
                    self.repair_max,
                    self.wide,
                ) {
                    Some(count) => Finding::Count { count },
                    None => Finding::Unreadable,
                }
            },
            None => Finding::Malformed,
        }
    }

    /// The score of the transaction in `body`; zero for one that is malformed.
    /// There is none where the search cannot be done.
    pub fn score(&self, body: &[u8]) -> (r: Option<u8>)
        requires
            self.wf(),
        ensures
            r is Some == can_score(self@, body@),
            r matches Some(count) ==> count == score(self@, body@),
    {
        match self.score_of(body) {
            Finding::Count { count } => Some(count),
            Finding::Malformed => Some(0),
            Finding::Unreadable => None,
        }
    }
}

// ---------------------------------------------------------------------------
// Replies
// ---------------------------------------------------------------------------

/// How it goes on after the requests of a connection were answered.
#[derive(Clone, Copy, PartialEq, Eq, Structural, Debug)]
pub enum After {
    /// More bytes can come.
    Open,
    /// The connection is to be closed.
    Close,
    /// A request calls for a search that cannot be done: there is no going on.
    Fail,
}

/// What becomes of the bytes of a connection.
#[verifier::ext_equal]
pub ghost struct Served {
    /// The replies to the complete requests, in order.
    pub replies: Seq<Reply>,
    /// The bytes that stay.
    pub rest: Seq<u8>,
    pub after: After,
}

/// A reply that comes before others.
pub open spec fn before(reply: Reply, s: Served) -> Served {
    Served { replies: seq![reply] + s.replies, ..s }
}

/// The bytes behind the first `n`.
pub open spec fn behind(buf: Seq<u8>, n: int) -> Seq<u8> {
    buf.subrange(n, buf.len() as int)
}

/// What the first request in a buffer calls for.
pub ghost enum Answer {
    /// The request is not complete.
    Wait,
    /// A reply, and how many bytes the request takes.
    Say(Reply, int),
    /// A search that cannot be done.
    Fail,
}

/// What the first request in `buf` calls for.
#[verifier::opaque]
pub open spec fn answer(s: Settings, buf: Seq<u8>) -> Answer {
    if buf.len() > usize::MAX {
        Answer::Wait
    } else {
        match http::parsed(buf) {
            Parsed::Incomplete => Answer::Wait,
            Parsed::Ready { consumed } => Answer::Say(Reply::Ready, consumed as int),
            Parsed::Fraud { body_start, body_len, consumed } => {
                let body = buf.subrange(body_start as int, body_start + body_len);
                if can_score(s, body) {
                    Answer::Say(Reply::Score { count: score(s, body) as u8 }, consumed as int)
                } else {
                    Answer::Fail
                }
            },
            Parsed::Bad { consumed } => Answer::Say(Reply::Bad, consumed as int),
        }
    }
}

/// A reply takes some of the bytes, and none but those there are.
pub proof fn lemma_answer(s: Settings, buf: Seq<u8>)
    ensures
        answer(s, buf) matches Answer::Say(_, n) ==> 0 < n <= buf.len(),
{
    reveal(answer);
    if buf.len() <= usize::MAX {
        http::law_parse_progress(buf);
    }
}

/// Requests are answered one after the other until one is not complete. One
/// that is none ends the connection, and one that calls for a search that cannot
/// be done ends everything.
pub open spec fn served(s: Settings, buf: Seq<u8>) -> Served
    decreases buf.len(),
{
    match answer(s, buf) {
        Answer::Wait => Served { replies: Seq::empty(), rest: buf, after: After::Open },
        Answer::Fail => Served { replies: Seq::empty(), rest: buf, after: After::Fail },
        Answer::Say(reply, n) => {
            proof {
                lemma_answer(s, buf);
            }
            if reply == Reply::Bad {
                Served { replies: seq![Reply::Bad], rest: behind(buf, n), after: After::Close }
            } else {
                before(reply, served(s, behind(buf, n)))
            }
        },
    }
}

enum Told {
    Wait,
    Say(Reply, usize),
    Fail,
}

/// What the first request in `view` calls for.
fn next_reply(scorer: &Scorer, view: &[u8]) -> (r: Told)
    requires
        scorer.wf(),
    ensures
        match r {
            Told::Say(reply, n) => answer(scorer@, view@) == Answer::Say(reply, n as int) && 0 < n
                <= view@.len(),
            Told::Wait => answer(scorer@, view@) is Wait,
            Told::Fail => answer(scorer@, view@) is Fail,
        },
{
    proof {
        reveal(answer);
        assert(view.len() == view@.len());
    }
    match parse(view) {
        Parsed::Incomplete => Told::Wait,
        Parsed::Ready { consumed } => Told::Say(Reply::Ready, consumed),
        Parsed::Fraud { body_start, body_len, consumed } => {
            match scorer.score(&view[body_start..body_start + body_len]) {
                Some(count) => Told::Say(Reply::Score { count }, consumed),
                None => Told::Fail,
            }
        },
        Parsed::Bad { consumed } => Told::Say(Reply::Bad, consumed),
    }
}

/// Answers the complete requests in `buf`. The result is how many bytes they
/// take, and how it goes on.
#[verifier::spinoff_prover]
fn answer_all(scorer: &Scorer, buf: &Vec<u8>, replies: &mut Vec<Reply>) -> (r: (usize, After))
    requires
        scorer.wf(),
    ensures
        r.0 <= buf@.len(),
        final(replies)@ == old(replies)@ + served(scorer@, buf@).replies,
        behind(buf@, r.0 as int) == served(scorer@, buf@).rest,
        r.1 == served(scorer@, buf@).after,
{
    let ghost all = buf@;
    let ghost goal = served(scorer@, all);
    let ghost first = replies@;
    let n = buf.len();
    let mut at: usize = 0;
    assert(behind(all, 0) =~= all);
    loop
        invariant
            scorer.wf(),
            at <= n,
            n == all.len(),
            buf@ == all,
            first == old(replies)@,
            goal == served(scorer@, buf@),
            served(scorer@, behind(all, at as int)).after == goal.after,
            served(scorer@, behind(all, at as int)).rest == goal.rest,
            replies@ + served(scorer@, behind(all, at as int)).replies == first + goal.replies,
        decreases n - at,
    {
        let view = &buf[at..n];
        let ghost now = behind(all, at as int);
        assert(view@ =~= now);
        match next_reply(scorer, view) {
            Told::Wait => {
                assert(replies@ + Seq::<Reply>::empty() =~= replies@);
                return (at, After::Open);
            },
            Told::Fail => {
                assert(replies@ + Seq::<Reply>::empty() =~= replies@);
                return (at, After::Fail);
            },
            Told::Say(reply, consumed) => {
                assert(behind(now, consumed as int) =~= behind(all, at + consumed));
                let ghost later = served(scorer@, behind(all, at + consumed)).replies;
                assert(replies@ + (seq![reply] + later) =~= replies@.push(reply) + later);
                assert(replies@ + seq![reply] =~= replies@.push(reply));
                replies.push(reply);
                at = at + consumed;
                if let Reply::Bad = reply {
                    return (at, After::Close);
                }
            },
        }
    }
}

/// The bytes of one connection that no reply has used up.
pub struct Conn {
    buf: Vec<u8>,
}

impl View for Conn {
    type V = Seq<u8>;

    closed spec fn view(&self) -> Seq<u8> {
        self.buf@
    }
}

/// What is held back after bytes have come: they are added if there is room for
/// all of them.
pub open spec fn with_bytes(held: Seq<u8>, data: Seq<u8>) -> Seq<u8> {
    if held.len() + data.len() > BUF_CAP {
        held
    } else {
        held + data
    }
}

impl Conn {
    pub closed spec fn wf(&self) -> bool {
        self.buf@.len() <= BUF_CAP
    }

    pub fn new() -> (r: Box<Conn>)
        ensures
            r.wf(),
            r@ == Seq::<u8>::empty(),
    {
        Box::new(Conn { buf: Vec::new() })
    }

    /// How many bytes more it can hold back.
    pub fn room(&self) -> (r: usize)
        requires
            self.wf(),
        ensures
            r == BUF_CAP - self@.len(),
    {
        BUF_CAP - self.buf.len()
    }

    /// Adds bytes that have come. There may be no room for them.
    pub fn feed(&mut self, data: &[u8]) -> (ok: bool)
        requires
            old(self).wf(),
        ensures
            final(self).wf(),
            ok == (old(self)@.len() + data@.len() <= BUF_CAP),
            final(self)@ == (if ok {
                old(self)@ + data@
            } else {
                old(self)@
            }),
            final(self)@ == with_bytes(old(self)@, data@),
    {
        if data.len() > BUF_CAP - self.buf.len() {
            return false;
        }
        let ghost earlier = self.buf@;
        for i in 0..data.len()
            invariant
                self.buf@ == earlier + data@.take(i as int),
        {
            self.buf.push(data[i]);
            assert(data@.take(i + 1) =~= data@.take(i as int).push(data@[i as int]));
        }
        assert(data@.take(data@.len() as int) =~= data@);
        true
    }

    /// Answers the complete requests. The result is how it goes on.
    pub fn serve(&mut self, scorer: &Scorer, replies: &mut Vec<Reply>) -> (after: After)
        requires
            old(self).wf(),
            scorer.wf(),
        ensures
            final(self).wf(),
            final(replies)@ == old(replies)@ + served(scorer@, old(self)@).replies,
            final(self)@ == served(scorer@, old(self)@).rest,
            after == served(scorer@, old(self)@).after,
    {
        let (at, after) = answer_all(scorer, &self.buf, replies);
        self.keep_from(at);
        after
    }

    fn keep_from(&mut self, at: usize)
        requires
            at <= old(self)@.len() <= BUF_CAP,
        ensures
            final(self)@ == behind(old(self)@, at as int),
            final(self).wf(),
    {
        let ghost all = self.buf@;
        let mut rest: Vec<u8> = Vec::new();
        for i in at..self.buf.len()
            invariant
                at <= all.len() <= BUF_CAP,
                self.buf@ == all,
                rest@ == all.subrange(at as int, i as int),
        {
            rest.push(self.buf[i]);
            assert(all.subrange(at as int, i + 1) =~= all.subrange(at as int, i as int).push(
                all[i as int],
            ));
        }
        self.buf = rest;
    }
}

// ---------------------------------------------------------------------------
// Laws
// ---------------------------------------------------------------------------

/// No more bytes stay than there were.
pub proof fn law_rest_is_shorter(s: Settings, buf: Seq<u8>)
    ensures
        served(s, buf).rest.len() <= buf.len(),
    decreases buf.len(),
{
    if let Answer::Say(reply, n) = answer(s, buf) {
        lemma_answer(s, buf);
        if reply != Reply::Bad {
            law_rest_is_shorter(s, behind(buf, n));
        }
    }
}

/// What comes behind a request does not change what it calls for.
pub proof fn law_answer_stable(s: Settings, a: Seq<u8>, b: Seq<u8>)
    requires
        a.len() + b.len() <= usize::MAX,
        !(answer(s, a) is Wait),
    ensures
        answer(s, a + b) == answer(s, a),
{
    reveal(answer);
    http::law_parse_stable(a, b);
    http::law_parse_progress(a);
    if let Parsed::Fraud { body_start, body_len, consumed } = http::parsed(a) {
        let e = body_start + body_len;
        assert((a + b).subrange(body_start as int, e) =~= a.subrange(body_start as int, e));
    }
}

/// How the bytes come in pieces does not matter: answering a first piece and
/// then what it left together with the next gives the replies, the rest and the
/// end that answering both pieces at once gives. Nothing is answered behind a
/// request that is none, or that calls for a search that cannot be done.
pub proof fn law_served_in_pieces(s: Settings, a: Seq<u8>, b: Seq<u8>)
    requires
        a.len() + b.len() <= usize::MAX,
    ensures
        ({
            let first = served(s, a);
            let both = served(s, a + b);
            if first.after != After::Open {
                both.replies == first.replies && both.after == first.after
            } else {
                let then = served(s, first.rest + b);
                both == (Served { replies: first.replies + then.replies, ..then })
            }
        }),
    decreases a.len(),
{
    let first = served(s, a);
    match answer(s, a) {
        Answer::Wait => {
            assert(first.replies + served(s, a + b).replies =~= served(s, a + b).replies);
        },
        Answer::Fail => {
            law_answer_stable(s, a, b);
        },
        Answer::Say(reply, n) => {
            lemma_answer(s, a);
            law_answer_stable(s, a, b);
            if reply != Reply::Bad {
                law_served_in_pieces(s, behind(a, n), b);
                assert(behind(a + b, n) =~= behind(a, n) + b);
                let inner = served(s, behind(a, n));
                let then = served(s, first.rest + b);
                assert(seq![reply] + (inner.replies + then.replies) =~= (seq![reply]
                    + inner.replies) + then.replies);
            }
        },
    }
}

/// A transaction is malformed exactly if it has no vector, and unreadable exactly
/// if it has one for which the search cannot be done. Any other is counted, by
/// its score.
pub proof fn law_findings_are_apart(s: Settings, body: Seq<u8>)
    ensures
        finding(s, body) == Finding::Malformed <==> normalize::normalized(body) is None,
        finding(s, body) == Finding::Unreadable <==> normalize::normalized(body) is Some
            && !can_score(s, body),
        finding(s, body) matches Finding::Count { count } ==> count == score(s, body),
        finding(s, body) is Count <==> normalize::normalized(body) is Some && can_score(s, body),
        normalize::normalized(body) is None ==> can_score(s, body),
{
}

/// A connection holds up to eight thousand one hundred and ninety-two bytes, in
/// the order in which they came, and takes bytes whole or not at all.
pub proof fn law_bytes_are_held(held: Seq<u8>, data: Seq<u8>)
    requires
        held.len() <= 8192,
    ensures
        data.len() <= 8192 - held.len() ==> with_bytes(held, data) == held + data,
        data.len() > 8192 - held.len() ==> with_bytes(held, data) == held,
        with_bytes(held, data).len() <= 8192,
{
}

} // verus!
