//! The feature vector of a transaction.
//!
//! Features are computed in single precision and then quantized, so that the
//! vector is the same to the last unit wherever it is computed.
use vstd::prelude::*;
use vstd::string::*;
use crate::ascii::{self, same_bytes, NINE, ZERO};
use crate::binary::{self, Single};
use crate::fields::{self, scan, Body};
use crate::quant::{self, quantize, SCALE};

verus! {

/// A moment, as written.
pub ghost struct Stamp {
    pub year: int,
    pub month: int,
    pub day: int,
    pub hour: int,
    pub minute: int,
    pub second: int,
}

pub open spec fn two_digits(js: Seq<u8>, p: int) -> int {
    10 * (js[p] - ZERO) + (js[p + 1] - ZERO)
}

pub open spec fn four_digits(js: Seq<u8>, p: int) -> int {
    100 * two_digits(js, p) + two_digits(js, p + 2)
}

/// Two digits stand from `p` on.
pub open spec fn are_digits(js: Seq<u8>, p: int) -> bool {
    ascii::is_digit(js[p]) && ascii::is_digit(js[p + 1])
}

/// The moment written from `p` on, as `YYYY-MM-DDThh:mm:ss`, whatever the marks
/// between the numbers are. There is none where the text is too short or a
/// digit's place holds something else.
pub open spec fn stamp(js: Seq<u8>, p: int) -> Option<Stamp> {
    if p + 19 <= js.len() && are_digits(js, p) && are_digits(js, p + 2) && are_digits(js, p + 5)
        && are_digits(js, p + 8) && are_digits(js, p + 11) && are_digits(js, p + 14) && are_digits(
        js,
        p + 17,
    ) {
        Some(
            Stamp {
                year: four_digits(js, p),
                month: two_digits(js, p + 5),
                day: two_digits(js, p + 8),
                hour: two_digits(js, p + 11),
                minute: two_digits(js, p + 14),
                second: two_digits(js, p + 17),
            },
        )
    } else {
        None
    }
}

/// Days in the months before the given one, modulo seven, in a year that
/// begins in March.
pub open spec fn month_shift(month: int) -> int {
    seq![0int, 3, 2, 5, 0, 3, 5, 1, 4, 6, 2, 4][month - 1]
}

/// `n / d` without its fraction.
pub open spec fn toward_zero(n: int, d: int) -> int {
    if n >= 0 {
        n / d
    } else {
        -(-n / d)
    }
}

/// The day of the week, Monday being zero.
pub open spec fn weekday(year: int, month: int, day: int) -> int {
    let y = if month < 3 {
        year - 1
    } else {
        year
    };
    (y + toward_zero(y, 4) - toward_zero(y, 100) + toward_zero(y, 400) + month_shift(month) + day
        + 6) % 7
}

/// Days before the year `y`, which begins in March, in eras of four hundred years.
pub open spec fn year_start(y: int) -> int {
    let of_era = y % 400;
    y / 400 * 146097 + (of_era * 365 + of_era / 4 - of_era / 100)
}

/// Days since the first of January 1970.
pub open spec fn days(year: int, month: int, day: int) -> int {
    let y = if month <= 2 {
        year - 1
    } else {
        year
    };
    let m = if month <= 2 {
        month + 9
    } else {
        month - 3
    };
    year_start(y) + toward_zero(153 * m + 2, 5) + day - 1 - 719468
}

/// Seconds since the beginning of 1970.
pub open spec fn epoch(t: Stamp) -> int {
    days(t.year, t.month, t.day) * 86400 + t.hour * 3600 + t.minute * 60 + t.second
}

/// One divided by `k`.
pub open spec fn inverse(k: int) -> (int, int) {
    binary::quotient(binary::one(), binary::single_of(k, 1, 0))
}

/// `x` as a share of `k`, at most one, on the stored scale.
#[verifier::opaque]
pub open spec fn share(x: (int, int), k: int) -> int {
    quant::quantized(binary::widened(binary::at_most_one(binary::product(x, inverse(k)))))
}

/// The small number `n` as a share of `k`, on the stored scale.
#[verifier::opaque]
pub open spec fn part(n: int, k: int) -> int {
    quant::quantized(binary::widened(binary::product(binary::single_of(n, 1, 0), inverse(k))))
}

/// The divisor that an average of zero stands for is one.
pub open spec fn divisor(average: (int, int)) -> (int, int) {
    if average.0 > 0 {
        average
    } else {
        binary::one()
    }
}

/// The minutes in a number of seconds, as a share of a day.
pub open spec fn elapsed(seconds: int) -> int {
    if seconds <= 0 {
        0
    } else {
        share(
            binary::quotient(binary::single_of(seconds, 1, 0), binary::single_of(60, 1, 0)),
            1440,
        )
    }
}

pub open spec fn flag(b: bool) -> int {
    if b {
        SCALE as int
    } else {
        0
    }
}

/// The risk of a merchant category, on the stored scale.
pub open spec fn risk(mcc: Seq<u8>) -> int {
    if mcc == "5411".spec_bytes() {
        1500
    } else if mcc == "5812".spec_bytes() {
        3000
    } else if mcc == "5912".spec_bytes() {
        2000
    } else if mcc == "5944".spec_bytes() {
        4500
    } else if mcc == "7801".spec_bytes() {
        8000
    } else if mcc == "7802".spec_bytes() {
        7500
    } else if mcc == "7995".spec_bytes() {
        8500
    } else if mcc == "4511".spec_bytes() {
        3500
    } else if mcc == "5311".spec_bytes() {
        2500
    } else {
        5000
    }
}

/// Time and distance since the last transaction: minus one where there is none.
/// They cannot be told where its moment cannot be read.
pub open spec fn since_last(js: Seq<u8>, f: fields::Fields, now: Stamp) -> Option<(int, int)> {
    if !f.has_last || f.last is None {
        Some((-SCALE as int, -SCALE as int))
    } else {
        match stamp(js, f.last->0) {
            Some(then) => Some((elapsed(epoch(now) - epoch(then)), share(f.km_cur, 1000))),
            None => None,
        }
    }
}

/// The fourteen features.
pub open spec fn features(
    f: fields::Fields,
    merchant: Seq<u8>,
    now: Stamp,
    since: (int, int),
) -> Seq<int> {
    seq![
        share(f.tx_amount, 10000),
        share(f.tx_inst, 12),
        share(binary::quotient(f.tx_amount, divisor(f.cust_avg)), 10),
        part(now.hour, 23),
        part(weekday(now.year, now.month, now.day), 6),
        since.0,
        since.1,
        share(f.km_home, 1000),
        share(f.cnt24, 20),
        flag(f.is_online),
        flag(f.card_present),
        flag(!f.known.contains(merchant)),
        match f.mcc {
            Some(mcc) => risk(mcc),
            None => 5000,
        },
        share(f.merch_avg, 10000),
    ]
}

/// The vector of the document `js`. There is none where the document ends in
/// the middle of a field, a number's whole part exceeds thirty-two bits, the
/// request has no moment or no month of the year, the merchant has no name, or
/// the moment of the last transaction cannot be read.
pub open spec fn normalized(js: Seq<u8>) -> Option<Seq<int>> {
    match fields::fields(js) {
        Some(f) => if f.requested is None || f.merchant is None {
            None
        } else {
            match stamp(js, f.requested->0) {
                Some(now) => if 1 <= now.month <= 12 {
                    match since_last(js, f, now) {
                        Some(since) => Some(features(f, f.merchant->0, now, since)),
                        None => None,
                    }
                } else {
                    None
                },
                None => None,
            }
        },
        None => None,
    }
}

fn digit2(b: &[u8], p: usize) -> (r: i32)
    requires
        p + 2 <= b.len(),
        are_digits(b@, p as int),
    ensures
        r == two_digits(b@, p as int),
        0 <= r <= 99,
{
    ((b[p] - ZERO) as i32) * 10 + (b[p + 1] - ZERO) as i32
}

fn digit4(b: &[u8], p: usize) -> (r: i32)
    requires
        p + 4 <= b.len(),
        are_digits(b@, p as int),
        are_digits(b@, p + 2),
    ensures
        r == four_digits(b@, p as int),
        0 <= r <= 9999,
{
    ((b[p] - ZERO) as i32) * 1000 + ((b[p + 1] - ZERO) as i32) * 100 + ((b[p + 2] - ZERO) as i32)
        * 10 + (b[p + 3] - ZERO) as i32
}

fn whole(n: i64, d: i64) -> (r: i64)
    requires
        -0x1000_0000_0000 <= n <= 0x1000_0000_0000,
        0 < d,
    ensures
        r == toward_zero(n as int, d as int),
        n >= 0 ==> 0 <= r <= n,
        n < 0 ==> n <= r <= 0,
{
    proof {
        let a = if n >= 0 {
            n as int
        } else {
            -n as int
        };
        assert(0 <= a / (d as int) <= a) by (nonlinear_arith)
            requires
                0 <= a,
                0 < d,
        ;
    }
    if n >= 0 {
        n / d
    } else {
        -(-n / d)
    }
}

/// Whole weeks do not change the day of the week.
proof fn lemma_week(sum: int)
    ensures
        -7 < sum - 7 * toward_zero(sum, 7) < 7,
        (sum - 7 * toward_zero(sum, 7) + 6) % 7 == (sum + 6) % 7,
{
    let w = toward_zero(sum, 7);
    if sum < 0 {
        assert(-sum == 7 * (-sum / 7) + -sum % 7);
    }
    vstd::arithmetic::div_mod::lemma_mod_multiples_vanish(-w, sum + 6, 7);
    assert(7 * -w + (sum + 6) == sum - 7 * w + 6);
}

/// The era of a year, which is rounded down.
proof fn lemma_era(y: int)
    ensures
        toward_zero(
            if y >= 0 {
                y
            } else {
                y - 399
            },
            400,
        ) == y / 400,
{
    if y < 0 {
        let n = 399 - y;
        assert(n == 400 * (n / 400) + n % 400);
        assert(y == 400 * (y / 400) + y % 400);
    }
}

/// The day of the week, Monday being zero.
#[verifier::spinoff_prover]
pub fn fast_weekday(y: i32, m: i32, d: i32) -> (r: i32)
    requires
        1 <= m <= 12,
    ensures
        r == weekday(y as int, m as int, d as int),
        0 <= r < 7,
{
    let t: [i64; 12] = [0, 3, 2, 5, 0, 3, 5, 1, 4, 6, 2, 4];
    let y = if m < 3 {
        y as i64 - 1
    } else {
        y as i64
    };
    let shift = t[(m - 1) as usize];
    assert(shift == month_shift(m as int));
    let sum = y + whole(y, 4) - whole(y, 100) + whole(y, 400) + shift + d as i64;
    proof {
        lemma_week(sum as int);
    }
    let of_week = sum - 7 * whole(sum, 7);
    ((of_week + 6) % 7) as i32
}

/// Seconds since the beginning of 1970.
#[verifier::spinoff_prover]
#[verifier::rlimit(30)]
pub fn fast_epoch(y: i32, m: i32, d: i32, hh: i32, mm: i32, ss: i32) -> (r: i64)
    ensures
        r == epoch(
            Stamp {
                year: y as int,
                month: m as int,
                day: d as int,
                hour: hh as int,
                minute: mm as int,
                second: ss as int,
            },
        ),
        -0x1000_0000_0000_0000 <= r <= 0x1000_0000_0000_0000,
{
    let (y, m) = if m <= 2 {
        (y as i64 - 1, m as i64 + 9)
    } else {
        (y as i64, m as i64 - 3)
    };
    proof {
        lemma_era(y as int);
    }
    let era = whole(
        if y >= 0 {
            y
        } else {
            y - 399
        },
        400,
    );
    let yoe = y - era * 400;
    assert(yoe == y as int % 400);
    let doy = whole(153 * m + 2, 5) + d as i64 - 1;
    let doe = yoe * 365 + yoe / 4 - yoe / 100 + doy;
    let total = era * 146097 + doe - 719468;
    total * 86400 + hh as i64 * 3600 + mm as i64 * 60 + ss as i64
}

struct Moment {
    year: i32,
    month: i32,
    day: i32,
    hour: i32,
    minute: i32,
    second: i32,
}

impl Moment {
    spec fn stamp(&self) -> Stamp {
        Stamp {
            year: self.year as int,
            month: self.month as int,
            day: self.day as int,
            hour: self.hour as int,
            minute: self.minute as int,
            second: self.second as int,
        }
    }

    spec fn wf(&self) -> bool {
        &&& 0 <= self.year <= 9999
        &&& 0 <= self.month <= 99
        &&& 0 <= self.day <= 99
        &&& 0 <= self.hour <= 99
        &&& 0 <= self.minute <= 99
        &&& 0 <= self.second <= 99
    }

    fn read(js: &[u8], p: usize) -> (r: Option<Moment>)
        requires
            p <= js.len(),
        ensures
            match r {
                Some(t) => stamp(js@, p as int) == Some(t.stamp()) && t.wf(),
                None => stamp(js@, p as int) is None,
            },
    {
        if js.len() - p < 19 {
            return None;
        }
        if has_digits(js, p) && has_digits(js, p + 2) && has_digits(js, p + 5)
            && has_digits(js, p + 8) && has_digits(js, p + 11) && has_digits(js, p + 14)
            && has_digits(js, p + 17) {
            Some(
                Moment {
                    year: digit4(js, p),
                    month: digit2(js, p + 5),
                    day: digit2(js, p + 8),
                    hour: digit2(js, p + 11),
                    minute: digit2(js, p + 14),
                    second: digit2(js, p + 17),
                },
            )
        } else {
            None
        }
    }

    fn epoch(&self) -> (r: i64)
        requires
            self.wf(),
        ensures
            r == epoch(self.stamp()),
            -0x1000_0000_0000_0000 <= r <= 0x1000_0000_0000_0000,
    {
        fast_epoch(self.year, self.month, self.day, self.hour, self.minute, self.second)
    }
}

fn has_digits(js: &[u8], p: usize) -> (r: bool)
    requires
        p + 2 <= js.len(),
    ensures
        r == are_digits(js@, p as int),
{
    ZERO <= js[p] && js[p] <= NINE && ZERO <= js[p + 1] && js[p + 1] <= NINE
}

fn invert(k: u32) -> (r: Single)
    requires
        k > 0,
    ensures
        r@ == inverse(k as int),
        binary::is_single(r@),
        r.m > 0,
        -56 <= r.e <= -22,
{
    let one = Single { m: 0x80_0000, e: -23 };
    one.over(Single::from_whole(k as u64))
}

fn share_of(x: Single, k: u32) -> (r: i16)
    requires
        k > 0,
        binary::is_single(x@),
        -110 <= x.e <= 60,
    ensures
        r == share(x@, k as int),
        0 <= r <= SCALE,
{
    proof {
        reveal(share);
    }
    quantize(x.times(invert(k)).clamped().widened())
}

fn part_of(n: i32, k: u32) -> (r: i16)
    requires
        k > 0,
        0 <= n,
    ensures
        r == part(n as int, k as int),
        0 <= r <= SCALE,
{
    proof {
        reveal(part);
    }
    quantize(Single::from_whole(n as u64).times(invert(k)).widened())
}

fn mcc_risk(mcc: &[u8]) -> (r: i16)
    ensures
        r == risk(mcc@),
        0 <= r <= SCALE,
{
    if same_bytes(mcc, "5411".as_bytes()) {
        1500
    } else if same_bytes(mcc, "5812".as_bytes()) {
        3000
    } else if same_bytes(mcc, "5912".as_bytes()) {
        2000
    } else if same_bytes(mcc, "5944".as_bytes()) {
        4500
    } else if same_bytes(mcc, "7801".as_bytes()) {
        8000
    } else if same_bytes(mcc, "7802".as_bytes()) {
        7500
    } else if same_bytes(mcc, "7995".as_bytes()) {
        8500
    } else if same_bytes(mcc, "4511".as_bytes()) {
        3500
    } else if same_bytes(mcc, "5311".as_bytes()) {
        2500
    } else {
        5000
    }
}

fn elapsed_share(seconds: i64) -> (r: i16)
    ensures
        r == elapsed(seconds as int),
        0 <= r <= SCALE,
{
    if seconds <= 0 {
        0
    } else {
        share_of(Single::from_whole(seconds as u64).over(Single::from_whole(60)), 1440)
    }
}

fn flag_of(b: bool) -> (r: i16)
    ensures
        r == flag(b),
        0 <= r <= SCALE,
{
    if b {
        SCALE
    } else {
        0
    }
}

fn is_known(body: &Body, id: &[u8]) -> (r: bool)
    ensures
        r == body@.known.contains(id@),
{
    let mut i: usize = 0;
    while i < body.known.len()
        invariant
            i <= body.known@.len(),
            forall|j: int| 0 <= j < i ==> body@.known[j] != id@,
        decreases body.known@.len() - i,
    {
        if same_bytes(body.known[i], id) {
            assert(body@.known[i as int] == id@);
            return true;
        }
        i = i + 1;
    }
    false
}

/// Time and distance since the last transaction are both minus one, or neither
/// is negative.
pub open spec fn looks_back(time: i16, distance: i16) -> bool {
    time == -SCALE && distance == -SCALE || 0 <= time <= SCALE && 0 <= distance <= SCALE
}

fn latest(js: &[u8], body: &Body, now: &Moment) -> (r: Option<(i16, i16)>)
    requires
        fields::in_text(js@, body@),
        now.wf(),
    ensures
        match r {
            Some(x) => since_last(js@, body@, now.stamp()) == Some((x.0 as int, x.1 as int))
                && looks_back(x.0, x.1),
            None => since_last(js@, body@, now.stamp()) is None,
        },
{
    if !body.has_last {
        return Some((-SCALE, -SCALE));
    }
    let at = match body.last {
        Some(p) => p,
        None => {
            return Some((-SCALE, -SCALE));
        },
    };
    assert(at <= js.len());
    match Moment::read(js, at) {
        Some(then) => Some(
            (elapsed_share(now.epoch() - then.epoch()), share_of(body.km_cur, 1000)),
        ),
        None => None,
    }
}

fn against_average(amount: Single, average: Single) -> (r: i16)
    requires
        fields::is_amount(amount@),
        fields::is_amount(average@),
    ensures
        r == share(binary::quotient(amount@, divisor(average@)), 10),
        0 <= r <= SCALE,
{
    let by = if average.m > 0 {
        average
    } else {
        Single { m: 0x80_0000, e: -23 }
    };
    share_of(amount.over(by), 10)
}

#[verifier::spinoff_prover]
fn vector(body: &Body, id: &[u8], now: &Moment, since: (i16, i16)) -> (v: [i16; 14])
    requires
        fields::is_amount(body.tx_amount@),
        fields::is_amount(body.tx_inst@),
        fields::is_amount(body.cust_avg@),
        fields::is_amount(body.cnt24@),
        fields::is_amount(body.merch_avg@),
        fields::is_amount(body.km_home@),
        now.wf(),
        1 <= now.month <= 12,
    ensures
        forall|i: int| 0 <= i < 14 && i != 5 && i != 6 ==> 0 <= #[trigger] v[i] <= SCALE,
        v[5] == since.0 && v[6] == since.1,
        Seq::new(14, |i: int| v[i] as int) == features(
            body@,
            id@,
            now.stamp(),
            (since.0 as int, since.1 as int),
        ),
{
    let risk = match body.mcc {
        Some(mcc) => mcc_risk(mcc),
        None => 5000,
    };
    let amount = share_of(body.tx_amount, 10000);
    let installments = share_of(body.tx_inst, 12);
    let ratio = against_average(body.tx_amount, body.cust_avg);
    let hour = part_of(now.hour, 23);
    let weekday = part_of(fast_weekday(now.year, now.month, now.day), 6);
    let home = share_of(body.km_home, 1000);
    let count = share_of(body.cnt24, 20);
    let online = flag_of(body.is_online);
    let present = flag_of(body.card_present);
    let unknown = flag_of(!is_known(body, id));
    let average = share_of(body.merch_avg, 10000);
    let v: [i16; 14] = [
        amount,
        installments,
        ratio,
        hour,
        weekday,
        since.0,
        since.1,
        home,
        count,
        online,
        present,
        unknown,
        risk,
        average,
    ];
    assert(Seq::new(14, |i: int| v[i] as int) =~= seq![
        amount as int,
        installments as int,
        ratio as int,
        hour as int,
        weekday as int,
        since.0 as int,
        since.1 as int,
        home as int,
        count as int,
        online as int,
        present as int,
        unknown as int,
        risk as int,
        average as int,
    ]);
    v
}

/// The vector of the document `js`, or `None` where it is malformed. Only the
/// features that look back at the last transaction are ever negative.
#[verifier::spinoff_prover]
pub fn normalize(js: &[u8]) -> (r: Option<[i16; 14]>)
    ensures
        r matches Some(v) ==> looks_back(v[5], v[6]) && forall|i: int|
            0 <= i < 14 && i != 5 && i != 6 ==> 0 <= #[trigger] v[i] <= SCALE,
        match r {
            Some(v) => normalized(js@) == Some(Seq::new(14, |i: int| v[i] as int)),
            None => normalized(js@) is None,
        },
{
    let body = match scan(js) {
        Some(b) => b,
        None => {
            return None;
        },
    };
    let (at, id) = match (body.requested, body.merchant) {
        (Some(p), Some(t)) => (p, t),
        _ => {
            return None;
        },
    };
    assert(at <= js.len());
    let now = match Moment::read(js, at) {
        Some(t) => t,
        None => {
            return None;
        },
    };
    if now.month < 1 || now.month > 12 {
        return None;
    }
    let since = match latest(js, &body, &now) {
        Some(x) => x,
        None => {
            return None;
        },
    };
    Some(vector(&body, id, &now, since))
}

// ---------------------------------------------------------------------------
// Laws
// ---------------------------------------------------------------------------

pub open spec fn is_leap(year: int) -> bool {
    year % 4 == 0 && (year % 100 != 0 || year % 400 == 0)
}

pub open spec fn month_length(year: int, month: int) -> int {
    if month == 2 {
        if is_leap(year) {
            29
        } else {
            28
        }
    } else if month == 4 || month == 6 || month == 9 || month == 11 {
        30
    } else {
        31
    }
}

/// The count of days follows the calendar: the first of a month is the day
/// after the last of the month before.
#[verifier::spinoff_prover]
pub proof fn law_days_follow_calendar(year: int, month: int)
    requires
        1 <= month <= 12,
    ensures
        month < 12 ==> days(year, month + 1, 1) == days(year, month, month_length(year, month))
            + 1,
        month == 12 ==> days(year + 1, 1, 1) == days(year, 12, 31) + 1,
{
    if month == 2 {
        lemma_leap_day(year - 1);
    } else if month < 3 {
    } else if month < 6 {
        assert(month == 3 || month == 4 || month == 5);
    } else if month < 9 {
        assert(month == 6 || month == 7 || month == 8);
    } else {
        assert(month == 9 || month == 10 || month == 11 || month == 12);
    }
}

/// A year that begins in March ends with a leap day if the next year is one.
proof fn lemma_leap_day(y: int)
    ensures
        year_start(y + 1) == year_start(y) + 365 + if is_leap(y + 1) {
            1int
        } else {
            0
        },
{
    let r = y % 400;
    let s = (y + 1) % 400;
    if r == 399 {
        assert(s == 0 && (y + 1) / 400 == y / 400 + 1);
    } else {
        assert(s == r + 1 && (y + 1) / 400 == y / 400);
        assert((y + 1) % 4 == s % 4 && (y + 1) % 100 == s % 100);
        assert(s / 4 == if s % 4 == 0 {
            r / 4 + 1
        } else {
            r / 4
        });
        assert(s / 100 == if s % 100 == 0 {
            r / 100 + 1
        } else {
            r / 100
        });
    }
}

/// The day of the week is the one that the count of days gives: the first of
/// January 1970 was a Thursday. In the year zero this holds from March on.
#[verifier::spinoff_prover]
pub proof fn law_weekday_follows_days(year: int, month: int, day: int)
    requires
        1 <= month <= 12,
        year >= 0,
        year > 0 || month >= 3,
    ensures
        weekday(year, month, day) == (days(year, month, day) + 3) % 7,
{
    let y = if month <= 2 {
        year - 1
    } else {
        year
    };
    let m = if month <= 2 {
        month + 9
    } else {
        month - 3
    };
    let e = y / 400;
    let r = y % 400;
    assert(y == 400 * e + r);
    assert(y / 4 == 100 * e + r / 4);
    assert(y / 100 == 4 * e + r / 100);
    let t = r + r / 4 - r / 100 + day;
    let a = month_shift(month) + 6;
    let b = (153 * m + 2) / 5 - 719466;
    let x = 146097 * e + 364 * r + t + b;
    assert(weekday(year, month, day) == (497 * e + t + a) % 7);
    assert(days(year, month, day) + 3 == x);
    lemma_month_shift(month, m);
    let n = (a - b) / 7 - 20800 * e - 52 * r;
    assert(497 * e + t + a == 7 * n + x);
    vstd::arithmetic::div_mod::lemma_mod_multiples_vanish(n, x, 7);
}

/// The shift of a month is the number of days before it, modulo seven.
proof fn lemma_month_shift(month: int, m: int)
    requires
        1 <= month <= 12,
        m == (if month <= 2 {
            month + 9
        } else {
            month - 3
        }),
    ensures
        (month_shift(month) + 6 - ((153 * m + 2) / 5 - 719466)) % 7 == 0,
{
    let s = seq![0int, 3, 2, 5, 0, 3, 5, 1, 4, 6, 2, 4];
    assert(s[0] == 0 && s[1] == 3 && s[2] == 2 && s[3] == 5 && s[4] == 0 && s[5] == 3);
    assert(s[6] == 5 && s[7] == 1 && s[8] == 4 && s[9] == 6 && s[10] == 2 && s[11] == 4);
    if month <= 4 {
        assert(month == 1 || month == 2 || month == 3 || month == 4);
    } else if month <= 8 {
        assert(month == 5 || month == 6 || month == 7 || month == 8);
    } else {
        assert(month == 9 || month == 10 || month == 11 || month == 12);
    }
}

/// Days and seconds are counted from the beginning of 1970, and each day, hour,
/// minute and second counts as what it is.
pub proof fn law_epoch_counts(t: Stamp, day: int, hour: int, minute: int, second: int)
    ensures
        days(1970, 1, 1) == 0,
        days(t.year, t.month, t.day + day) == days(t.year, t.month, t.day) + day,
        epoch(
            Stamp {
                day: t.day + day,
                hour: t.hour + hour,
                minute: t.minute + minute,
                second: t.second + second,
                ..t
            },
        ) == epoch(t) + ((day * 24 + hour) * 60 + minute) * 60 + second,
        epoch(Stamp { year: 1970, month: 1, day: 1, hour: 0, minute: 0, second: 0 }) == 0,
{
}

} // verus!
