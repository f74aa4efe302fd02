use zero::conn::{After, Conn, Finding, Reply, Scorer, BUF_CAP};
use zero::http::{bad_resp, ready_resp, score_resp};
use zero::ivf::build_ivf;
use zero::search::Index;
use zero::table::{received, Action, Received, Table};

const BODY: &str = r#"{"transaction":{"amount":41.12,"installments":2,"requested_at":"2026-03-11T18:45:53Z"},"merchant":{"id":"M"}}"#;

/// An index in which every vector has the label one.
fn fraudulent() -> Vec<u8> {
    let vecs: Vec<i16> = (0..14 * 10).map(|i| (i * 31 % 5000) as i16).collect();
    build_ivf(&vecs, &[1; 10], 1, &[0; 14], &[0; 10], &[0; 10])
}

fn scorer(raw: &[u8]) -> Scorer<'_> {
    Scorer::new(Index::from_bytes(raw).unwrap(), 12, 1, 4, true)
}

fn post(body: &str) -> Vec<u8> {
    format!("POST /fraud-score HTTP/1.1\r\nContent-Length: {}\r\n\r\n{body}", body.len()).into_bytes()
}

const GET: &[u8] = b"GET /ready HTTP/1.1\r\n\r\n";

#[test]
fn scores() {
    let raw = fraudulent();
    let s = scorer(&raw);
    assert_eq!(s.score_of(BODY.as_bytes()), Finding::Count { count: 5 });
    assert_eq!(s.score(BODY.as_bytes()), Some(5));
    assert_eq!(s.score_of(b"{}"), Finding::Malformed);
    assert_eq!(s.score(b"{}"), Some(0));
}

#[test]
fn searches_that_cannot_be_done() {
    // no cluster for the lanes to begin with
    let raw = build_ivf(&[], &[], 0, &[], &[], &[]);
    let s = Scorer::new(Index::from_bytes(&raw).unwrap(), 12, 1, 4, true);
    assert_eq!(s.score_of(BODY.as_bytes()), Finding::Unreadable);
    assert_eq!(s.score(BODY.as_bytes()), None);
    assert_eq!(s.score(b"{}"), Some(0));
    let s = Scorer::new(Index::from_bytes(&raw).unwrap(), 12, 1, 4, false);
    assert_eq!(s.score(BODY.as_bytes()), Some(0));
    // a count that reaches behind the bytes
    let mut raw = fraudulent();
    raw[68 + 88 + 3] = 1;
    for wide in [false, true] {
        let s = Scorer::new(Index::from_bytes(&raw).unwrap(), 12, 1, 4, wide);
        assert_eq!(s.score_of(BODY.as_bytes()), Finding::Unreadable);
        // what comes before is answered, and what needs no search
        let mut c = Conn::new();
        let mut data = GET.to_vec();
        data.extend(post("{}"));
        data.extend(post(BODY));
        data.extend(GET);
        assert!(c.feed(&data));
        let mut replies = Vec::new();
        assert_eq!(c.serve(&s, &mut replies), After::Fail);
        assert_eq!(replies, [Reply::Ready, Reply::Score { count: 0 }]);
    }
}

#[test]
fn reply_bytes() {
    assert_eq!(Reply::Ready.bytes(), ready_resp());
    assert_eq!(Reply::Bad.bytes(), bad_resp());
    assert_eq!(Reply::Score { count: 3 }.bytes(), score_resp(3));
}

#[test]
fn requests_one_after_the_other() {
    let raw = fraudulent();
    let s = scorer(&raw);
    let mut c = Conn::new();
    assert_eq!(c.room(), BUF_CAP);
    let mut data = GET.to_vec();
    data.extend(post(BODY));
    data.extend(post("{}"));
    data.extend(b"GET /rea");
    assert!(c.feed(&data));
    let mut replies = Vec::new();
    assert_eq!(c.serve(&s, &mut replies), After::Open);
    assert_eq!(replies, [Reply::Ready, Reply::Score { count: 5 }, Reply::Score { count: 0 }]);
    assert_eq!(c.room(), BUF_CAP - 8);
    assert!(c.feed(b"dy HTTP/1.1\r\n\r\n"));
    assert_eq!(c.serve(&s, &mut replies), After::Open);
    assert_eq!(replies.len(), 4);
    assert_eq!(c.room(), BUF_CAP);
}

#[test]
fn nothing_is_answered_behind_a_bad_request() {
    let raw = fraudulent();
    let s = scorer(&raw);
    let mut c = Conn::new();
    let mut data = GET.to_vec();
    data.extend(b"DELETE /\r\n\r\n");
    data.extend(GET);
    assert!(c.feed(&data));
    let mut replies = Vec::new();
    assert_eq!(c.serve(&s, &mut replies), After::Close);
    assert_eq!(replies, [Reply::Ready, Reply::Bad]);
}

#[test]
fn pieces_do_not_matter() {
    let raw = fraudulent();
    let s = scorer(&raw);
    let mut data = post(BODY);
    data.extend(GET);
    data.extend(post("{}"));
    data.extend(post(BODY));
    let mut whole = Vec::new();
    let mut c = Conn::new();
    assert!(c.feed(&data));
    assert_eq!(c.serve(&s, &mut whole), After::Open);
    for size in [1, 2, 3, 7, 64, 100] {
        let mut c = Conn::new();
        let mut replies = Vec::new();
        for piece in data.chunks(size) {
            assert!(c.feed(piece));
            assert_eq!(c.serve(&s, &mut replies), After::Open);
        }
        assert_eq!(replies, whole);
    }
}

#[test]
fn a_full_connection_takes_no_more() {
    let mut c = Conn::new();
    assert!(c.feed(&[b'x'; BUF_CAP]));
    assert_eq!(c.room(), 0);
    assert!(!c.feed(b"y"));
    assert!(c.feed(b""));
}

#[test]
fn tables_of_descriptors() {
    let mut t = Table::new();
    assert!(!t.is_client(5) && !t.is_ctrl(5));
    assert_eq!(t.room(5), None);
    t.open(5);
    t.mark(9);
    assert!(t.is_client(5) && t.is_ctrl(9) && !t.is_client(9) && !t.is_ctrl(5));
    assert_eq!(t.room(5), Some(BUF_CAP));
    t.close(5);
    t.close(500);
    assert!(!t.is_client(5));
    t.unmark(9);
    t.unmark(500);
    assert!(!t.is_ctrl(9));
}

#[test]
fn events() {
    let mut t = Table::new();
    t.open(5);
    t.mark(9);
    assert_eq!(t.on_event(3, 3, false, true), Action::Accept);
    assert_eq!(t.on_event(3, 3, true, false), Action::Accept);
    assert_eq!(t.on_event(3, 9, true, true), Action::Drop);
    assert_eq!(t.on_event(3, 9, false, true), Action::Drain);
    assert_eq!(t.on_event(3, 9, false, false), Action::Nothing);
    assert_eq!(t.on_event(3, 5, true, true), Action::Close);
    assert_eq!(t.on_event(3, 5, false, true), Action::Read);
    assert_eq!(t.on_event(3, 5, false, false), Action::Nothing);
}

#[test]
fn results_of_reads() {
    assert_eq!(received(17, false), Received::Data { n: 17 });
    assert_eq!(received(0, true), Received::Close);
    assert_eq!(received(-1, true), Received::Wait);
    assert_eq!(received(-1, false), Received::Close);
}

#[test]
fn tables_serve() {
    let raw = fraudulent();
    let s = scorer(&raw);
    let mut t = Table::new();
    let mut replies = Vec::new();
    assert_eq!(t.serve(&s, 4, GET, &mut replies), After::Close);
    assert!(replies.is_empty());
    t.open(4);
    assert_eq!(t.serve(&s, 4, GET, &mut replies), After::Open);
    assert_eq!(replies, [Reply::Ready]);
    assert_eq!(t.serve(&s, 4, &[b'x'; BUF_CAP], &mut replies), After::Open);
    assert_eq!(t.room(4), None);
    assert_eq!(t.serve(&s, 4, b"x", &mut replies), After::Close);
    t.open(4);
    assert_eq!(t.serve(&s, 4, b"\r\n\r\n", &mut replies), After::Close);
    assert_eq!(replies, [Reply::Ready, Reply::Bad]);
}
