use zero::http::{bad_resp, parse, ready_resp, score_resp, Parsed};

#[test]
fn response_lengths_match_content_length() {
    // the body behind \r\n\r\n has 39 (true) / 40 (false) bytes
    for i in 0..6usize {
        let r = score_resp(i as u8);
        let pos = r.windows(4).position(|w| w == b"\r\n\r\n").unwrap();
        let body = &r[pos + 4..];
        let expected = if i <= 2 { 39 } else { 40 };
        assert_eq!(body.len(), expected, "resp {i} body len");
        let said = format!("Content-Length: {expected}\r\n");
        assert!(r.windows(said.len()).any(|w| w == said.as_bytes()));
    }
}

#[test]
fn parse_post() {
    let req = b"POST /fraud-score HTTP/1.1\r\nHost: x\r\nContent-Length: 5\r\n\r\nhello";
    match parse(req) {
        Parsed::Fraud { body_start, body_len, consumed } => {
            assert_eq!(body_len, 5);
            assert_eq!(&req[body_start..body_start + body_len], b"hello");
            assert_eq!(consumed, req.len());
        }
        other => panic!("esperava Fraud, veio {other:?}"),
    }
}

#[test]
fn parse_post_incomplete_body() {
    let req = b"POST /fraud-score HTTP/1.1\r\nContent-Length: 10\r\n\r\nhi";
    assert_eq!(parse(req), Parsed::Incomplete);
}

#[test]
fn parse_incomplete_headers() {
    assert_eq!(parse(b"POST /fraud-score HTTP/1.1\r\nHost: x"), Parsed::Incomplete);
}

#[test]
fn parse_ready() {
    let req = b"GET /ready HTTP/1.1\r\nHost: x\r\n\r\n";
    match parse(req) {
        Parsed::Ready { consumed } => assert_eq!(consumed, req.len()),
        other => panic!("esperava Ready, veio {other:?}"),
    }
}

#[test]
fn score_mapping() {
    assert!(score_resp(0).ends_with(b"0.00}"));
    assert!(score_resp(2).ends_with(b"0.40}"));
    assert!(score_resp(3).ends_with(b"0.60}"));
    assert!(score_resp(5).ends_with(b"1.00}"));
    assert!(score_resp(9).ends_with(b"1.00}")); // clamp
}

#[test]
fn other_responses() {
    assert_eq!(
        ready_resp(),
        b"HTTP/1.1 200 OK\r\nContent-Length: 2\r\nConnection: keep-alive\r\n\r\nOK"
    );
    assert_eq!(
        bad_resp(),
        b"HTTP/1.1 400 Bad Request\r\nContent-Length: 0\r\nConnection: close\r\n\r\n"
    );
    assert_eq!(
        score_resp(1),
        b"HTTP/1.1 200 OK\r\nContent-Type: application/json\r\nConnection: keep-alive\r\nContent-Length: 39\r\n\r\n{\"approved\": true, \"fraud_score\": 0.20}"
    );
    assert!(score_resp(4).ends_with(b"{\"approved\": false, \"fraud_score\": 0.80}"));
}

#[test]
fn bad_requests() {
    let req = b"PUT / HTTP/1.1\r\n\r\nrest";
    assert_eq!(parse(req), Parsed::Bad { consumed: 18 });
    assert_eq!(parse(b"\r\n\r\n"), Parsed::Bad { consumed: 4 });
    // another path
    assert_eq!(parse(b"GET /x HTTP/1.1\r\n\r\n"), Parsed::Bad { consumed: 19 });
    assert_eq!(parse(b"GET / HTTP/1.1\r\n\r\n"), Parsed::Bad { consumed: 18 });
    assert_eq!(parse(b"GET /fraud-score HTTP/1.1\r\n\r\n"), Parsed::Bad { consumed: 29 });
    let req = b"POST /x HTTP/1.1\r\nContent-Length: 5\r\n\r\nhello";
    assert_eq!(parse(req), Parsed::Bad { consumed: req.len() - 5 });
    let req = b"POST /ready HTTP/1.1\r\nContent-Length: 50\r\n\r\n";
    assert_eq!(parse(req), Parsed::Bad { consumed: req.len() });
    // a length without a place
    let req = b"POST /fraud-score HTTP/1.1\r\nContent-Length: 99999999999999999999999\r\n\r\n";
    assert_eq!(parse(req), Parsed::Bad { consumed: req.len() });
    let req = b"POST /fraud-score HTTP/1.1\r\nContent-Length: 18446744073709551615\r\n\r\n";
    assert_eq!(parse(req), Parsed::Bad { consumed: req.len() });
}

#[test]
fn names_in_any_case() {
    let req = b"POST /fraud-score HTTP/1.1\r\ncOnTeNt-LENGTH:   3\r\n\r\nabcdef";
    assert_eq!(parse(req), Parsed::Fraud { body_start: 51, body_len: 3, consumed: 54 });
    // no length: no body
    let req = b"POST /fraud-score HTTP/1.1\r\n\r\nabc";
    assert_eq!(parse(req), Parsed::Fraud { body_start: 30, body_len: 0, consumed: 30 });
    // the first name counts
    let req = b"POST /fraud-score\r\nContent-Length: 1\r\nContent-Length: 2\r\n\r\nab";
    assert_eq!(parse(req), Parsed::Fraud { body_start: 59, body_len: 1, consumed: 60 });
}

#[test]
fn more_bytes_do_not_matter() {
    let req = b"POST /fraud-score HTTP/1.1\r\nContent-Length: 5\r\n\r\nhello";
    let told = parse(req);
    let mut longer = req.to_vec();
    for _ in 0..40 {
        longer.push(b'x');
        assert_eq!(parse(&longer), told);
    }
    for n in 0..req.len() {
        assert_eq!(parse(&req[..n]), Parsed::Incomplete);
    }
}

#[test]
fn requests_end_as_soon_as_they_can_be_told() {
    for (req, rest) in [
        ("GET /ready HTTP/1.1\r\n\r\n", "GET /ready HTTP/1.1\r\n\r\n"),
        ("POST /fraud-score HTTP/1.1\r\nContent-Length: 2\r\n\r\n{}", "{}{}"),
        ("PUT / HTTP/1.1\r\n\r\n", "\r\n\r\n"),
    ] {
        let text = format!("{req}{rest}");
        let told = parse(text.as_bytes());
        assert_eq!(parse(req.as_bytes()), told);
        for n in 0..req.len() {
            assert_eq!(parse(&req.as_bytes()[..n]), Parsed::Incomplete);
        }
    }
}
