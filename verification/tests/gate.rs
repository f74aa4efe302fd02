use zero::conn::Scorer;
use zero::gate::{evaluate, is_fifths, Tally};
use zero::ivf::build_ivf;
use zero::search::Index;
use zero::tune::{parse_thresholds, tune, Tuning};

fn index(label: u8) -> Vec<u8> {
    let vecs: Vec<i16> = (0..14 * 10).map(|i| (i * 31 % 5000) as i16).collect();
    build_ivf(&vecs, &[label; 10], 1, &[0; 14], &[0; 10], &[0; 10])
}

fn scorer(raw: &[u8]) -> Scorer<'_> {
    Scorer::new(Index::from_bytes(raw).unwrap(), 12, 1, 4, false)
}

const REQUEST: &str = r#"{"transaction": {"amount": 41.12, "requested_at": "2026-03-11T18:45:53Z"}, "merchant": {"id": "M"}}"#;

#[test]
fn fifths_agree_with_hardware() {
    for i in -40..200 {
        let v = i as f64 / 37.0;
        let expected = (v * 5.0).round() as i64;
        for count in 0..=30u8 {
            assert_eq!(is_fifths(v.to_bits(), count), expected == count as i64, "{v} {count}");
        }
    }
    assert!(is_fifths(0.1f64.to_bits(), 1));
    assert!(is_fifths(0.5f64.to_bits(), 3));
    assert!(is_fifths(f64::NAN.to_bits(), 0));
    assert!(!is_fifths(f64::INFINITY.to_bits(), 0));
    assert!(is_fifths((-0.0f64).to_bits(), 0));
    assert!(is_fifths(f64::MIN_POSITIVE.to_bits() / 2, 0));
    assert!(!is_fifths(1e300f64.to_bits(), 255));
}

#[test]
fn counts() {
    let mut t = Tally::new();
    t.add(Some(0), true, 0.0f64.to_bits());
    t.add(Some(3), true, 0.6f64.to_bits());
    t.add(Some(2), false, 0.8f64.to_bits());
    t.add(None, true, 0.2f64.to_bits());
    t.add(Some(5), false, 1.0f64.to_bits());
    assert_eq!((t.total, t.parse_fail), (5, 1));
    assert_eq!((t.fp, t.fn_, t.approve_match, t.exact), (1, 1, 3, 3));
    assert_eq!(t.score_hist, [2, 0, 1, 1, 0, 1]);
    assert_eq!(t.weighted(), 4);
    assert!(!t.passed());
    assert!(Tally::new().passed());
}

#[test]
fn test_data_is_evaluated() {
    let raw = index(1);
    let s = scorer(&raw);
    let data = format!(
        "{{\"entries\": [{{\"request\": {REQUEST}, \"expected_approved\": false, \"expected_fraud_score\": 1}}, {{\"request\": {REQUEST}, \"expected_approved\": true, \"expected_fraud_score\": 0.4}}, {{\"request\": {REQUEST}}}, {{\"request\": {{}}, \"expected_approved\": 7, \"expected_fraud_score\": \"x\"}}, {{}}]}}"
    );
    let t = evaluate(data.as_bytes(), &s).unwrap();
    assert_eq!((t.total, t.parse_fail), (5, 2));
    assert_eq!((t.fp, t.fn_, t.approve_match), (2, 0, 3));
    assert_eq!(t.exact, 3);
    assert_eq!(t.score_hist, [2, 0, 0, 0, 0, 3]);
    assert!(!t.passed());
    let raw = index(0);
    let s = scorer(&raw);
    let t = evaluate(data.as_bytes(), &s).unwrap();
    assert_eq!((t.fp, t.fn_), (0, 1));
    assert_eq!(t.weighted(), 3);
}

#[test]
fn data_without_counts() {
    let raw = index(1);
    let s = scorer(&raw);
    assert!(evaluate(b"not json", &s).is_none());
    assert!(evaluate(b"{}", &s).is_none());
    assert!(evaluate(b"{\"entries\": 3}", &s).is_none());
    let t = evaluate(b"{\"entries\": []}", &s).unwrap();
    assert_eq!(t.total, 0);
    assert!(t.passed());
    // ten times five is more than a transaction has
    let raw = index(10);
    let s = scorer(&raw);
    let data = format!("{{\"entries\": [{{\"request\": {REQUEST}}}]}}");
    assert!(evaluate(data.as_bytes(), &s).is_none());
}

#[test]
fn thresholds_of_wrong_extremes() {
    let mut t = Tuning::new();
    assert_eq!(t.thresholds(), [u32::MAX; 6]);
    t.add(0, 900, false);
    t.add(0, 700, false);
    t.add(0, 100, true);
    t.add(5, 1 << 40, true);
    t.add(3, 5, true);
    assert_eq!((t.none.total, t.none.wrong, t.none.least), (3, 2, 700));
    assert_eq!((t.five.total, t.five.wrong, t.five.least), (1, 1, 1 << 40));
    assert_eq!(t.thresholds(), [700, u32::MAX, u32::MAX, u32::MAX, u32::MAX, u32::MAX]);
}

#[test]
fn probes_are_tuned() {
    let raw = index(1);
    let s = scorer(&raw);
    let data = format!(
        "{{\"entries\": [{{\"request\": {REQUEST}, \"expected_approved\": false}}, {{\"request\": {REQUEST}}}, {{}}]}}"
    );
    let t = tune(data.as_bytes(), &s).unwrap();
    assert_eq!((t.five.total, t.five.wrong, t.none.total), (2, 1, 0));
    let q = zero::normalize::normalize(REQUEST.as_bytes()).unwrap();
    let (count, worst) = s.index.search_fast(&q, 12).unwrap();
    assert_eq!((count, worst), (5, t.five.least));
    assert_eq!(t.thresholds()[5] as u64, worst.min(u32::MAX as u64));
    assert!(tune(b"[]", &s).is_none());
    assert!(tune(b"x", &s).is_none());
}

#[test]
fn thresholds_as_text() {
    for text in ["1,2,3,4,5,6", "+7,,x,-1,4294967295,4294967296", "1,2,3", "", ",,,,,", "00012,+,1 ,9,8,7"] {
        let expected: Vec<u32> = text.split(',').map(|x| x.parse().unwrap_or(u32::MAX)).collect();
        match parse_thresholds(text.as_bytes()) {
            Some(t) => assert_eq!(t.to_vec(), expected),
            None => assert_ne!(expected.len(), 6),
        }
    }
}

#[test]
fn an_index_that_cannot_be_read() {
    let mut raw = index(1);
    // a count that reaches behind the bytes
    raw[68 + 88 + 3] = 1;
    let s = scorer(&raw);
    let data = format!("{{\"entries\": [{{\"request\": {REQUEST}}}]}}");
    assert!(evaluate(data.as_bytes(), &s).is_none());
    assert!(tune(data.as_bytes(), &s).is_none());
    // no entry calls for a search
    let data = b"{\"entries\": [{\"request\": {}}]}";
    assert_eq!(evaluate(data, &s).unwrap().parse_fail, 1);
    assert!(tune(data, &s).is_some());
}
