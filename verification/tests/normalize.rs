use zero::binary::Single;
use zero::normalize::{fast_epoch, fast_weekday, normalize};

const ENTRY0: &[u8] = br#"{"id":"tx-1641912674","transaction":{"amount":441.59,"installments":1,"requested_at":"2027-07-09T16:31:06Z"},"customer":{"avg_amount":883.18,"tx_count_24h":1,"known_merchants":["MERC-004","MERC-017"]},"merchant":{"id":"MERC-004","mcc":"5411","avg_amount":302.78},"terminal":{"is_online":false,"card_present":true,"km_from_home":33.8814492067},"last_transaction":{"timestamp":"2027-06-04T14:14:22Z","km_from_current":18.4353521556}}"#;

const ENTRY_NULL_LAST: &[u8] = br#"{"id":"tx-1","transaction":{"amount":41.12,"installments":2,"requested_at":"2026-03-11T18:45:53Z"},"customer":{"avg_amount":82.24,"tx_count_24h":3,"known_merchants":["MERC-003","MERC-016"]},"merchant":{"id":"MERC-099","mcc":"7995","avg_amount":60.25},"terminal":{"is_online":true,"card_present":false,"km_from_home":29.2331036248},"last_transaction":null}"#;

#[test]
fn normalize_entry0() {
    let v = normalize(ENTRY0).expect("parse");
    assert_eq!(v[0], 442, "amount 441.59/10000");
    assert_eq!(v[1], 833, "installments 1/12");
    assert_eq!(v[2], 500, "441.59/883.18/10 = 0.05");
    assert_eq!(v[9], 0, "is_online false");
    assert_eq!(v[10], 10000, "card_present true");
    assert_eq!(v[11], 0, "MERC-004 in known_merchants");
    assert_eq!(v[12], 1500, "mcc 5411 = 0.15");
    // time since the last transaction is computed
    assert!(v[5] >= 0, "minutes since last computed");
}

#[test]
fn normalize_null_last() {
    let v = normalize(ENTRY_NULL_LAST).expect("parse");
    assert_eq!(v[5], -10000, "sentinela -1 ×10000");
    assert_eq!(v[6], -10000, "sentinela -1 ×10000");
    assert_eq!(v[9], 10000, "is_online true");
    assert_eq!(v[10], 0, "card_present false");
    assert_eq!(v[11], 10000, "MERC-099 not in known");
    assert_eq!(v[12], 8500, "mcc 7995 = 0.85");
}

#[test]
fn whole_vectors() {
    // 2027-07-09 is a Friday; 35 days and 2:16:44 lie between the two moments.
    assert_eq!(
        normalize(ENTRY0).unwrap(),
        [442, 833, 500, 6957, 6667, 10000, 184, 339, 500, 0, 10000, 0, 1500, 303]
    );
    // 2026-03-11 is a Wednesday.
    assert_eq!(
        normalize(ENTRY_NULL_LAST).unwrap(),
        [41, 1667, 500, 7826, 3333, -10000, -10000, 292, 1500, 10000, 0, 10000, 8500, 60]
    );
}

fn document(amount: &str, requested: &str, last: &str) -> Vec<u8> {
    format!(
        "{{\"transaction\": {{\"amount\": {amount}, \"installments\": 3, \"requested_at\": \"{requested}\"}}, \"customer\": {{\"avg_amount\": 0, \"tx_count_24h\": 5, \"known_merchants\": []}}, \"merchant\": {{\"id\": \"M\"}}, \"last_transaction\": {last}}}"
    )
    .into_bytes()
}

#[test]
fn malformed_documents() {
    assert_eq!(normalize(b""), None);
    assert_eq!(normalize(b"{}"), None);
    // no moment of the request
    assert_eq!(normalize(br#"{"merchant":{"id":"x"}}"#), None);
    // no merchant
    assert_eq!(normalize(br#"{"transaction":{"requested_at":"2026-03-11T18:45:53Z"}}"#), None);
    // ends before a value
    assert_eq!(normalize(br#"{"transaction": "#), None);
    // a whole part that is too long
    assert!(normalize(&document("4294967295", "2026-03-11T18:45:53Z", "null")).is_some());
    assert_eq!(normalize(&document("4294967296", "2026-03-11T18:45:53Z", "null")), None);
    // months
    assert_eq!(normalize(&document("1", "2026-00-11T18:45:53Z", "null")), None);
    assert_eq!(normalize(&document("1", "2026-13-11T18:45:53Z", "null")), None);
    // moments that cannot be read
    assert_eq!(normalize(&document("1", "2026-03-11T18:45:+3Z", "null")), None);
    assert_eq!(normalize(&document("1", "2O26-03-1lT18:45:53Z", "null")), None);
    assert_eq!(
        normalize(br#"{"merchant":{"id":"x"},"transaction":{"requested_at":"2026-03"}}"#),
        None
    );
    assert_eq!(
        normalize(&document("1", "2026-03-11T18:45:53Z", "{\"timestamp\": \"2026-03\"}")),
        None
    );
}

#[test]
fn odd_documents() {
    // Only the digits of a moment are read.
    let v = normalize(&document("1", "2026-03-11T18:45:53Z", "null"));
    assert!(v.is_some());
    assert_eq!(normalize(&document("1", "2026/03/11 18h45m53Z", "null")), v);
    // The average stands for one where it is zero, and features end at one.
    let v = normalize(&document("123456.5", "2026-03-11T23:00:00Z", "null")).unwrap();
    assert_eq!(v[0], 10000);
    assert_eq!(v[1], 2500);
    assert_eq!(v[2], 10000);
    assert_eq!(v[3], 10000);
    assert_eq!(v[8], 2500);
    assert_eq!(v[11], 10000);
    assert_eq!(v[12], 5000);
    // A last transaction without a moment counts as none.
    let v = normalize(&document("1", "2026-03-11T23:00:00Z", "{\"km_from_current\": 7}")).unwrap();
    assert_eq!((v[5], v[6]), (-10000, -10000));
    // A last transaction in the future is no time ago.
    let v = normalize(&document(
        "1",
        "2026-03-11T23:00:00Z",
        "{\"timestamp\": \"2026-03-12T23:00:00Z\", \"km_from_current\": 250}",
    ))
    .unwrap();
    assert_eq!((v[5], v[6]), (0, 2500));
    // Twelve hours are half a day.
    let v = normalize(&document(
        "1",
        "2026-03-11T23:00:00Z",
        "{\"timestamp\": \"2026-03-11T11:00:00Z\"}",
    ))
    .unwrap();
    assert_eq!((v[5], v[6]), (5000, 0));
}

#[test]
fn risks_of_categories() {
    let with = |mcc: &str| {
        let text = format!(
            "{{\"transaction\":{{\"requested_at\":\"2026-03-11T18:45:53Z\"}},\"merchant\":{{\"id\":\"M\",\"mcc\":\"{mcc}\"}}}}"
        );
        normalize(text.as_bytes()).unwrap()[12]
    };
    let expected = [
        ("5411", 1500),
        ("5812", 3000),
        ("5912", 2000),
        ("5944", 4500),
        ("7801", 8000),
        ("7802", 7500),
        ("7995", 8500),
        ("4511", 3500),
        ("5311", 2500),
        ("5999", 5000),
        ("0000", 5000),
        ("", 5000),
    ];
    for (mcc, risk) in expected {
        assert_eq!(with(mcc), risk, "{mcc}");
    }
}

#[test]
fn days_follow_the_calendar() {
    assert_eq!(fast_epoch(1970, 1, 1, 0, 0, 0), 0);
    assert_eq!(fast_epoch(2000, 2, 29, 12, 34, 56), 951_827_696);
    assert_eq!(fast_epoch(2027, 7, 9, 16, 31, 6), 1_815_150_666);
    let lengths = [31, 28, 31, 30, 31, 30, 31, 31, 30, 31, 30, 31];
    let mut day = fast_epoch(1, 1, 1, 0, 0, 0) / 86400;
    for y in 1..2500 {
        let leap = y % 4 == 0 && (y % 100 != 0 || y % 400 == 0);
        for m in 1..=12 {
            let n = lengths[m - 1] + if leap && m == 2 { 1 } else { 0 };
            for d in [1, n] {
                let at = day + d as i64 - 1;
                assert_eq!(fast_epoch(y, m as i32, d, 0, 0, 0), at * 86400);
                assert_eq!(fast_weekday(y, m as i32, d) as i64, (at + 3).rem_euclid(7));
            }
            day += n as i64;
        }
    }
}

#[test]
fn weekdays_begin_with_monday() {
    assert_eq!(fast_weekday(2024, 1, 1), 0);
    assert_eq!(fast_weekday(2027, 7, 9), 4);
    assert_eq!(fast_weekday(1970, 1, 1), 3);
    assert_eq!(fast_weekday(0, 1, 0), 5);
}

fn single(v: f32) -> Single {
    let bits = v.to_bits();
    if bits == 0 {
        Single { m: 0, e: 0 }
    } else {
        Single { m: 0x80_0000 + (bits & 0x7f_ffff), e: (bits >> 23) as i32 - 150 }
    }
}

fn value(s: Single) -> f32 {
    f64::from_bits(s.widened()) as f32
}

#[test]
fn single_precision_agrees_with_hardware() {
    let mut state: u64 = 7;
    let mut next = || {
        state = state.wrapping_mul(6364136223846793005).wrapping_add(1442695040888963407);
        state >> 33
    };
    for _ in 0..20_000 {
        let a = next() as f32 / (1 + next() % 1000) as f32;
        let b = (1 + next()) as f32 / (1 + next() % 100_000) as f32;
        assert_eq!(value(single(a)), a);
        assert_eq!(value(single(a).times(single(b))), a * b);
        assert_eq!(value(single(a).over(single(b))), a / b);
        assert_eq!(value(single(a).plus(single(b))), a + b);
        assert_eq!(value(single(a).clamped()), a.min(1.0));
        let n = next() * next();
        assert_eq!(value(Single::from_whole(n)), n as f32);
    }
}

/// The features in hardware arithmetic.
fn reference(amount: f32, average: f32) -> (i16, i16) {
    let q = |v: f32| {
        let v = if v > 1.0 { 1.0 } else { v };
        (v as f64 * 10000.0).round() as i16
    };
    (q(amount * (1.0 / 10000.0)), q((amount / average) * (1.0 / 10.0)))
}

#[test]
fn features_agree_with_hardware() {
    let read = |w: u32, f: u32, d: u32| w as f32 + f as f32 / d as f32;
    for i in 0..3000u32 {
        let (w, f) = (i * 7 % 9973, i * 37 % 100);
        let (aw, af) = (1 + i * 13 % 997, i * 91 % 1000);
        let text = format!(
            "{{\"transaction\":{{\"amount\":{w}.{f:02},\"requested_at\":\"2026-03-11T18:45:53Z\"}},\"customer\":{{\"avg_amount\":{aw}.{af:03}}},\"merchant\":{{\"id\":\"M\"}}}}"
        );
        let v = normalize(text.as_bytes()).unwrap();
        assert_eq!((v[0], v[2]), reference(read(w, f, 100), read(aw, af, 1000)), "{text}");
    }
}

#[test]
fn moments_far_away() {
    assert_eq!(fast_epoch(-1, 3, 1, 0, 0, 0), -719_834 * 86400);
    assert_eq!(fast_epoch(0, 2, 29, 0, 0, 0), fast_epoch(0, 3, 1, 0, 0, 0) - 86400);
    // from one era of four hundred years to the next
    for y in [i32::MIN, -1_000_000, -401, -400, -1, 0, 7] {
        for m in [1, 2, 3, 12] {
            assert_eq!(
                fast_epoch(y + 400, m, 1, 0, 0, 0) - fast_epoch(y, m, 1, 0, 0, 0),
                146_097 * 86400
            );
        }
    }
    assert_eq!(fast_epoch(1970, 1, 1, i32::MIN, 0, 0), i32::MIN as i64 * 3600);
    assert_eq!(fast_epoch(i32::MAX, i32::MAX, 1, 0, 0, 0), {
        let days = (i32::MAX as i64 / 400) * 146_097 + 47 * 365 + 11
            + (153 * (i32::MAX as i64 - 3) + 2) / 5
            - 719_468;
        days * 86400
    });
    assert_eq!(fast_weekday(i32::MAX, 12, i32::MAX), fast_weekday(i32::MAX - 2800, 12, i32::MAX - 7));
    for (y, m, d) in [(-5, 3, 1), (-800, 1, 31), (i32::MIN, 1, i32::MIN)] {
        let a = if m < 3 { y as i64 - 1 } else { y as i64 };
        let t: [i64; 12] = [0, 3, 2, 5, 0, 3, 5, 1, 4, 6, 2, 4];
        let sum = a + a / 4 - a / 100 + a / 400 + t[m as usize - 1] + d as i64;
        assert_eq!(fast_weekday(y, m, d) as i64, (sum + 6).rem_euclid(7));
    }
}

#[test]
fn members_in_any_order() {
    let members = [
        r#""id":"tx-1641912674""#,
        r#""transaction" : {"amount":441.59,"installments":1,"requested_at":"2027-07-09T16:31:06Z"}"#,
        r#""customer":{"avg_amount":883.18, "tx_count_24h":1,"known_merchants":["MERC-004", "MERC-017"] }"#,
        r#""merchant":{"id":"MERC-004","mcc":"5411","avg_amount":302.78}"#,
        r#""terminal":{"is_online":false,"card_present":true,"km_from_home":33.8814492067}"#,
        r#""last_transaction":{"timestamp":"2027-06-04T14:14:22Z","km_from_current":18.4353521556}"#,
    ];
    let join = |order: &[usize], gap: &str| {
        let parts: Vec<&str> = order.iter().map(|&i| members[i]).collect();
        format!(" {{{}}}\n", parts.join(gap)).into_bytes()
    };
    let expected = normalize(ENTRY0);
    assert!(expected.is_some());
    // every rotation, forwards and backwards
    for n in 0..6 {
        let mut order: Vec<usize> = (0..6).map(|i| (i + n) % 6).collect();
        assert_eq!(normalize(&join(&order, ",")), expected);
        order.reverse();
        assert_eq!(normalize(&join(&order, " ,\r\n\t")), expected);
    }
    // swaps of two
    for i in 0..6 {
        for j in 0..6 {
            let mut order: Vec<usize> = (0..6).collect();
            order.swap(i, j);
            assert_eq!(normalize(&join(&order, ", ")), expected);
        }
    }
}
