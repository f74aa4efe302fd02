//! Binary floating-point numbers as pairs of integers.
//!
//! A number is a significand and an exponent of two. Every operation is the
//! exact result rounded to a fixed number of significant bits, to nearest with
//! ties to even.
use vstd::prelude::*;
use vstd::arithmetic::power2;

verus! {

/// `x` in units of `2^t`, where `t` is negative; else `x`.
pub open spec fn raised(x: int, t: int) -> int {
    x * power2::pow2(
        if t < 0 {
            (-t) as nat
        } else {
            0
        },
    )
}

/// `x` times `2^t`, where `t` is positive; else `x`.
pub open spec fn lowered(x: int, t: int) -> int {
    x * power2::pow2(
        if t > 0 {
            t as nat
        } else {
            0
        },
    )
}

/// In units of `2^t` the quotient `n / d` has `p` bits before the point.
pub open spec fn in_binade(n: int, d: int, p: nat, t: int) -> bool {
    power2::pow2((p - 1) as nat) * lowered(d, t) <= raised(n, t) < power2::pow2(p) * lowered(d, t)
}

/// Exponent of the last of `p` significant bits of `n / d`.
pub open spec fn last_place(n: int, d: int, p: nat) -> int {
    choose|t: int| in_binade(n, d, p, t)
}

/// The integer nearest to `n / d`; the even one of two.
pub open spec fn half_even(n: int, d: int) -> int {
    let q = n / d;
    let r = n % d;
    if 2 * r < d {
        q
    } else if 2 * r > d {
        q + 1
    } else if q % 2 == 0 {
        q
    } else {
        q + 1
    }
}

/// The integer nearest to `n / d`; the greater one of two.
pub open spec fn half_up(n: int, d: int) -> int {
    (2 * n + d) / (2 * d)
}

/// Significand and exponent of `n / d`, rounded to `p` significant bits.
pub open spec fn rounded(n: int, d: int, p: nat) -> (int, int) {
    if n == 0 {
        (0, 0)
    } else {
        let t = last_place(n, d, p);
        let m = half_even(raised(n, t), lowered(d, t));
        if m == power2::pow2(p) {
            (power2::pow2((p - 1) as nat) as int, t + 1)
        } else {
            (m, t)
        }
    }
}

proof fn lemma_pow2_at_least(a: nat)
    ensures
        power2::pow2(a) >= 1,
        power2::pow2(a + 1) == 2 * power2::pow2(a),
{
    power2::lemma_pow2_pos(a);
    power2::lemma_pow2_unfold(a + 1);
}

/// Powers of two grow at least twofold.
pub proof fn lemma_pow2_step(a: nat, b: nat)
    requires
        a < b,
    ensures
        2 * power2::pow2(a) <= power2::pow2(b),
        1 <= power2::pow2(a),
{
    lemma_pow2_at_least(a);
    if a + 1 < b {
        power2::lemma_pow2_strictly_increases(a + 1, b);
    }
}

/// Numbers in units of one are what they are.
pub proof fn lemma_unit(x: int, t: int)
    ensures
        t >= 0 ==> raised(x, t) == x,
        t <= 0 ==> lowered(x, t) == x,
{
    power2::lemma2_to64();
    assert(x * power2::pow2(0) == x) by (nonlinear_arith)
        requires
            power2::pow2(0) == 1,
    ;
}

proof fn lemma_binade_order(n: int, d: int, p: nat, t: int, u: int)
    requires
        n > 0,
        d > 0,
        p > 0,
        in_binade(n, d, p, t),
        in_binade(n, d, p, u),
    ensures
        t >= u,
{
    if t < u {
        let h = power2::pow2((p - 1) as nat) as int;
        lemma_pow2_at_least((p - 1) as nat);
        assert(power2::pow2(p) == 2 * h);
        power2::lemma2_to64();
        lemma_unit(n, t);
        lemma_unit(n, u);
        lemma_unit(d, t);
        lemma_unit(d, u);
        if t >= 0 {
            let a = power2::pow2(t as nat) as int;
            let b = power2::pow2(u as nat) as int;
            lemma_pow2_step(t as nat, u as nat);
            assert(2 * h * (d * a) <= h * (d * b)) by (nonlinear_arith)
                requires
                    h > 0,
                    d > 0,
                    2 * a <= b,
            ;
            assert(raised(n, t) == n && raised(n, u) == n);
            assert(lowered(d, t) == d * a);
        } else if u <= 0 {
            let a = power2::pow2((-t) as nat) as int;
            let b = power2::pow2((-u) as nat) as int;
            lemma_pow2_step((-u) as nat, (-t) as nat);
            assert(2 * (n * b) <= n * a) by (nonlinear_arith)
                requires
                    n > 0,
                    2 * b <= a,
            ;
            assert(lowered(d, t) == d && lowered(d, u) == d);
            assert(2 * h * d == 2 * (h * d)) by (nonlinear_arith);
        } else {
            let a = power2::pow2((-t) as nat) as int;
            let b = power2::pow2(u as nat) as int;
            lemma_pow2_step(0, (-t) as nat);
            lemma_pow2_step(0, u as nat);
            assert(n <= n * a) by (nonlinear_arith)
                requires
                    n > 0,
                    1 <= a,
            ;
            assert(2 * h * d <= h * (d * b)) by (nonlinear_arith)
                requires
                    h > 0,
                    d > 0,
                    2 <= b,
            ;
            assert(lowered(d, t) == d);
            assert(raised(n, u) == n);
            assert(lowered(d, u) == d * b);
        }
    }
}

/// There is one last place.
pub proof fn lemma_last_place(n: int, d: int, p: nat, t: int)
    requires
        n > 0,
        d > 0,
        p > 0,
        in_binade(n, d, p, t),
    ensures
        last_place(n, d, p) == t,
{
    let u = last_place(n, d, p);
    lemma_binade_order(n, d, p, t, u);
    lemma_binade_order(n, d, p, u, t);
}

proof fn lemma_half_even_bounds(n: int, d: int, h: int)
    requires
        d > 0,
        h > 0,
        h * d <= n < 2 * h * d,
    ensures
        h <= half_even(n, d) <= 2 * h,
{
    vstd::arithmetic::div_mod::lemma_fundamental_div_mod(n, d);
    vstd::arithmetic::div_mod::lemma_mod_bound(n, d);
    let q = n / d;
    let r = n % d;
    assert(q >= h && q < 2 * h) by (nonlinear_arith)
        requires
            n == d * q + r,
            0 <= r < d,
            h * d <= n < 2 * h * d,
    ;
}

/// `n / d` rounded to `p` significant bits, `top` being `2^p`.
pub(crate) fn round_ratio(n: u128, d: u128, top: u128, Ghost(p): Ghost<nat>) -> (r: (u128, i32))
    requires
        n > 0,
        d > 0,
        p > 0,
        top == power2::pow2(p),
        top <= 0x20_0000_0000_0000,
        n <= 0xffff_ffff_ffff_ffff_ffff_ffff_ffff,
        d <= 0xff_ffff_ffff_ffff,
    ensures
        (r.0 as int, r.1 as int) == rounded(n as int, d as int, p),
        top <= 2 * r.0 && r.0 < top,
        in_binade(n as int, d as int, p, last_place(n as int, d as int, p)),
        last_place(n as int, d as int, p) <= r.1 <= last_place(n as int, d as int, p) + 1,
        -200 <= r.1 <= 200,
{
    let ghost h = power2::pow2((p - 1) as nat) as int;
    proof {
        lemma_pow2_at_least((p - 1) as nat);
        power2::lemma2_to64();
    }
    proof {
        lemma_unit(n as int, 0);
        lemma_unit(d as int, 0);
    }
    let half = top / 2;
    let mut x = n;
    let mut y = d;
    let mut t: i32 = 0;
    assert(d * half <= 0xff_ffff_ffff_ffff * 0x20_0000_0000_0000) by (nonlinear_arith)
        requires
            d <= 0xff_ffff_ffff_ffff,
            half <= 0x20_0000_0000_0000,
    ;
    while x < y * half
        invariant
            h == half,
            top == 2 * half,
            top <= 0x20_0000_0000_0000,
            0 < d <= 0xff_ffff_ffff_ffff,
            y == d,
            y * half <= 0xff_ffff_ffff_ffff * 0x20_0000_0000_0000,
            n > 0,
            x > 0,
            -180 <= t <= 0,
            x == raised(n as int, t as int),
            t == 0 || x < 2 * half * y,
            x >= power2::pow2((-t) as nat),
            x <= 0xffff_ffff_ffff_ffff_ffff_ffff_ffff,
            power2::pow2(0) == 1,
        decreases 200 + t,
    {
        proof {
            lemma_pow2_at_least((-t) as nat);
            let a = power2::pow2((-t) as nat) as int;
            assert(n * (2 * a) == 2 * (n * a)) by (nonlinear_arith);
            lemma_exponent_small((-t) as nat, x as int);
            assert(2 * half * y == 2 * (y * half)) by (nonlinear_arith);
        }
        x = 2 * x;
        t = t - 1;
    }
    assert(y * top == 2 * (y * half)) by (nonlinear_arith)
        requires
            top == 2 * half,
    ;
    proof {
        lemma_unit(d as int, t as int);
    }
    let ghost low = t < 0;
    while x >= y * top
        invariant
            h == half,
            top == 2 * half,
            0 < top <= 0x20_0000_0000_0000,
            0 < d,
            n > 0,
            low ==> t < 0 && x < y * top,
            t < 0 ==> low,
            !low ==> x == n && 0 <= t <= 180,
            low ==> -181 <= t,
            y == lowered(d as int, t as int),
            x == raised(n as int, t as int),
            y * half <= x,
            y > 0,
            y * top <= 0xffff_ffff_ffff_ffff_ffff_ffff_ffff_ffff,
            !low ==> power2::pow2(t as nat) <= y,
            x <= 0xffff_ffff_ffff_ffff_ffff_ffff_ffff,
            power2::pow2(0) == 1,
        decreases 200 - t,
    {
        proof {
            lemma_pow2_at_least(t as nat);
            let a = power2::pow2(t as nat) as int;
            assert(d * (2 * a) == 2 * (d * a)) by (nonlinear_arith);
            assert(2 * y * half == y * top) by (nonlinear_arith)
                requires
                    top == 2 * half,
            ;
            assert(2 * y * top == 2 * (y * top)) by (nonlinear_arith);
            lemma_unit(n as int, t + 1);
            assert(y <= y * top) by (nonlinear_arith)
                requires
                    y > 0,
                    top > 0,
            ;
            lemma_exponent_small(t as nat, y as int);
        }
        y = 2 * y;
        t = t + 1;
    }
    proof {
        assert(y * top == power2::pow2(p) * y) by (nonlinear_arith)
            requires
                top == power2::pow2(p),
        ;
        assert(y * half == h * y) by (nonlinear_arith)
            requires
                h == half,
        ;
        lemma_last_place(n as int, d as int, p, t as int);
        assert(2 * h * y == power2::pow2(p) * y) by (nonlinear_arith)
            requires
                2 * h == power2::pow2(p),
        ;
        lemma_half_even_bounds(x as int, y as int, h);
    }
    let q = x / y;
    let r = x % y;
    proof {
        assert(r < y);
        assert(y <= y * half) by (nonlinear_arith)
            requires
                y > 0,
                half > 0,
        ;
    }
    let m = if 2 * r < y {
        q
    } else if 2 * r > y {
        q + 1
    } else if q % 2 == 0 {
        q
    } else {
        q + 1
    };
    if m == top {
        (half, t + 1)
    } else {
        (m, t)
    }
}

/// An exponent of two is small if the power is below `2^120`.
proof fn lemma_exponent_small(a: nat, x: int)
    requires
        power2::pow2(a) <= x,
        x <= 0xffff_ffff_ffff_ffff_ffff_ffff_ffff,
    ensures
        a < 120,
{
    if a >= 120 {
        power2::lemma2_to64();
        power2::lemma_pow2_adds(60, 60);
        if a > 120 {
            power2::lemma_pow2_strictly_increases(120, a);
        }
        power2::lemma2_to64_rest();
        assert(power2::pow2(120) == 0x1000_0000_0000_0000 * 0x1000_0000_0000_0000);
    }
}


// ---------------------------------------------------------------------------
// Single precision
// ---------------------------------------------------------------------------

/// `n / d * 2^e`, rounded to twenty-four significant bits.
pub open spec fn single_of(n: int, d: int, e: int) -> (int, int) {
    if n == 0 {
        (0, 0)
    } else {
        (rounded(n, d, 24).0, rounded(n, d, 24).1 + e)
    }
}

pub open spec fn product(a: (int, int), b: (int, int)) -> (int, int) {
    single_of(a.0 * b.0, 1, a.1 + b.1)
}

pub open spec fn quotient(a: (int, int), b: (int, int)) -> (int, int) {
    single_of(a.0, b.0, a.1 - b.1)
}

pub open spec fn sum(a: (int, int), b: (int, int)) -> (int, int) {
    if a.0 == 0 {
        b
    } else if b.0 == 0 {
        a
    } else {
        let e = if a.1 < b.1 {
            a.1
        } else {
            b.1
        };
        single_of(lowered(a.0, a.1 - e) + lowered(b.0, b.1 - e), 1, e)
    }
}

pub open spec fn one() -> (int, int) {
    (0x80_0000, -23)
}

/// The lesser of `a` and one.
pub open spec fn at_most_one(a: (int, int)) -> (int, int) {
    if lowered(a.0, a.1) > raised(1, a.1) {
        one()
    } else {
        a
    }
}

/// The bits of `a` in the binary64 format.
pub open spec fn widened(a: (int, int)) -> int {
    if a.0 == 0 {
        0
    } else {
        (a.1 + 1046) * 0x10_0000_0000_0000 + (a.0 - 0x80_0000) * 0x2000_0000
    }
}

/// A number that is zero, or normal in the binary32 format, and not negative.
#[derive(Clone, Copy, Debug)]
pub struct Single {
    pub m: u32,
    pub e: i32,
}

impl View for Single {
    type V = (int, int);

    open spec fn view(&self) -> (int, int) {
        (self.m as int, self.e as int)
    }
}

pub open spec fn is_single(a: (int, int)) -> bool {
    a.0 == 0 && a.1 == 0 || 0x80_0000 <= a.0 < 0x100_0000 && -149 <= a.1 <= 104
}

/// `n / d` has twenty-four bits before the point in units of `2^t`.
pub proof fn lemma_single_binade(n: int, d: int, t: int)
    requires
        in_binade(n, d, 24, t),
    ensures
        0x80_0000 * lowered(d, t) <= raised(n, t) < 0x100_0000 * lowered(d, t),
        t >= 0 ==> raised(n, t) == n,
        t <= 0 ==> lowered(d, t) == d,
{
    power2::lemma2_to64();
    lemma_unit(n, t);
    lemma_unit(d, t);
    let y = lowered(d, t);
    assert(power2::pow2(23) * y == 0x80_0000 * y && power2::pow2(24) * y == 0x100_0000 * y)
        by (nonlinear_arith)
        requires
            power2::pow2(23) == 0x80_0000,
            power2::pow2(24) == 0x100_0000,
    ;
}

/// The last of twenty-four bits of a whole number from `2^23 * 2^a` up to
/// `2^24 * 2^b`.
pub proof fn lemma_whole_place(n: int, t: int, a: nat, b: nat)
    requires
        in_binade(n, 1, 24, t),
        0x80_0000 * power2::pow2(a) <= n < 0x100_0000 * power2::pow2(b),
    ensures
        a <= t <= b,
{
    lemma_single_binade(n, 1, t);
    power2::lemma2_to64();
    power2::lemma_pow2_pos(a);
    power2::lemma_pow2_pos(b);
    if t < 0 {
        let x = power2::pow2((-t) as nat) as int;
        lemma_pow2_step(0, (-t) as nat);
        assert(2 * n <= n * x) by (nonlinear_arith)
            requires
                n > 0,
                2 <= x,
        ;
        power2::lemma2_to64();
    } else {
        if t < a {
            lemma_pow2_step(t as nat, a);
        }
        if t > b {
            lemma_pow2_step(b, t as nat);
        }
    }
}

/// The last of twenty-four bits of a number below `2^64`.
pub proof fn lemma_from_place(n: int, t: int)
    requires
        in_binade(n, 1, 24, t),
        0 < n <= u64::MAX,
    ensures
        -23 <= t <= 40,
        n <= u32::MAX ==> t <= 8,
{
    lemma_single_binade(n, 1, t);
    power2::lemma2_to64();
    power2::lemma2_to64_rest();
    if t < -23 {
        let x = power2::pow2((-t) as nat) as int;
        lemma_pow2_step(23, (-t) as nat);
        assert(x <= n * x) by (nonlinear_arith)
            requires
                n >= 1,
                x >= 0,
        ;
        assert(raised(n, t) == n * x);
        assert(false);
    }
    if t > 8 {
        lemma_pow2_step(8, t as nat);
        assert(lowered(1, t) == power2::pow2(t as nat));
    }
    if t > 40 {
        lemma_pow2_step(40, t as nat);
        assert(power2::pow2(40) == 0x100_0000_0000);
        assert(false);
    }
}

/// The last of twenty-four bits of a quotient of numbers of twenty-four bits.
pub proof fn lemma_over_place(n: int, d: int, t: int)
    requires
        in_binade(n, d, 24, t),
        0x80_0000 <= n < 0x100_0000,
        0x80_0000 <= d < 0x100_0000,
    ensures
        -24 <= t <= -23,
{
    lemma_single_binade(n, d, t);
    power2::lemma2_to64();
    if t < -24 {
        let x = power2::pow2((-t) as nat) as int;
        lemma_pow2_step(24, (-t) as nat);
        assert(n * x >= 0x80_0000 * 0x200_0000) by (nonlinear_arith)
            requires
                n >= 0x80_0000,
                x >= 0x200_0000,
        ;
        assert(raised(n, t) == n * x);
        assert(false);
    }
    if -23 < t < 0 {
        let x = power2::pow2((-t) as nat) as int;
        if t > -22 {
            lemma_pow2_step((-t) as nat, 22);
        }
        assert(n * x < 0x100_0000 * 0x40_0000) by (nonlinear_arith)
            requires
                0 < n < 0x100_0000,
                0 < x <= 0x40_0000,
        ;
        assert(raised(n, t) == n * x);
        assert(false);
    }
    if t >= 0 {
        let y = power2::pow2(t as nat) as int;
        power2::lemma_pow2_pos(t as nat);
        assert(d * y >= d) by (nonlinear_arith)
            requires
                d > 0,
                y >= 1,
        ;
        assert(lowered(d, t) == d * y);
    }
}

impl Single {
    /// The nearest number to `n`.
    pub fn from_whole(n: u64) -> (r: Single)
        ensures
            r@ == single_of(n as int, 1, 0),
            is_single(r@),
            r.m == 0 <==> n == 0,
            -23 <= r.e <= 41,
            n <= u32::MAX ==> r.e <= 9,
    {
        if n == 0 {
            return Single { m: 0, e: 0 };
        }
        proof {
            power2::lemma2_to64();
        }
        let r = round_ratio(n as u128, 1, 0x100_0000, Ghost(24nat));
        proof {
            lemma_from_place(n as int, last_place(n as int, 1, 24));
        }
        let s = Single { m: r.0 as u32, e: r.1 };
        s
    }

    pub fn times(self, other: Single) -> (r: Single)
        requires
            is_single(self@),
            is_single(other@),
            self.m == 0 || other.m == 0 || -172 <= self.e + other.e <= 79,
        ensures
            r@ == product(self@, other@),
            is_single(r@),
            r.m == 0 <==> self.m == 0 || other.m == 0,
            r.m != 0 ==> self.e + other.e + 23 <= r.e <= self.e + other.e + 25,
    {
        proof {
            let (a, b) = (self.m as int, other.m as int);
            assert(a * b < 0x100_0000 * 0x100_0000) by (nonlinear_arith)
                requires
                    0 <= a < 0x100_0000,
                    0 <= b < 0x100_0000,
            ;
            assert(a == 0 || b == 0 <==> a * b == 0) by (nonlinear_arith);
        }
        let n = self.m as u64 * other.m as u64;
        if n == 0 {
            return Single { m: 0, e: 0 };
        }
        proof {
            power2::lemma2_to64();
        }
        let r = round_ratio(n as u128, 1, 0x100_0000, Ghost(24nat));
        proof {
            let (a, b) = (self.m as int, other.m as int);
            assert(0x80_0000 * 0x80_0000 <= a * b < 0x100_0000 * 0x100_0000) by (nonlinear_arith)
                requires
                    0x80_0000 <= a < 0x100_0000,
                    0x80_0000 <= b < 0x100_0000,
            ;
            lemma_whole_place(n as int, last_place(n as int, 1, 24), 23, 24);
        }
        Single { m: r.0 as u32, e: r.1 + self.e + other.e }
    }

    pub fn over(self, other: Single) -> (r: Single)
        requires
            is_single(self@),
            is_single(other@),
            other.m != 0,
            self.m == 0 || -125 <= self.e - other.e <= 126,
        ensures
            r@ == quotient(self@, other@),
            is_single(r@),
            r.m == 0 <==> self.m == 0,
            r.m != 0 ==> self.e - other.e - 24 <= r.e <= self.e - other.e - 22,
    {
        if self.m == 0 {
            return Single { m: 0, e: 0 };
        }
        proof {
            power2::lemma2_to64();
        }
        let r = round_ratio(self.m as u128, other.m as u128, 0x100_0000, Ghost(24nat));
        proof {
            lemma_over_place(
                self.m as int,
                other.m as int,
                last_place(self.m as int, other.m as int, 24),
            );
        }
        let s = Single { m: r.0 as u32, e: r.1 + self.e - other.e };
        s
    }

    pub fn plus(self, other: Single) -> (r: Single)
        requires
            is_single(self@),
            is_single(other@),
            -80 <= self.e <= 20,
            -80 <= other.e <= 20,
            self.m == 0 || other.m == 0 || -80 <= self.e - other.e <= 80,
        ensures
            r@ == sum(self@, other@),
            is_single(r@),
            r.m == 0 <==> self.m == 0 && other.m == 0,
            r.m != 0 ==> (self.e <= r.e || self.m == 0) && (other.e <= r.e || other.m == 0),
            r.e <= self.e + 2 || r.e <= other.e + 2,
    {
        if self.m == 0 {
            return other;
        }
        if other.m == 0 {
            return self;
        }
        let (a, b) = if self.e < other.e {
            (other, self)
        } else {
            (self, other)
        };
        let ghost s = (a.e - b.e) as nat;
        let mut x: u128 = a.m as u128;
        let mut i: i32 = b.e;
        proof {
            lemma_unit(a.m as int, 0);
            power2::lemma2_to64();
            power2::lemma2_to64_rest();
            power2::lemma_pow2_adds(40, 40);
            assert(power2::pow2(80) == 0x100_0000_0000 * 0x100_0000_0000);
        }
        while i < a.e
            invariant
                b.e <= i <= a.e,
                0 <= a.e - b.e <= 80,
                a.m < 0x100_0000,
                x == a.m * power2::pow2((i - b.e) as nat),
                power2::pow2(80) == 0x1_0000_0000_0000_0000_0000,
            decreases a.e - i,
        {
            proof {
                let y = power2::pow2((i - b.e) as nat) as int;
                lemma_pow2_step((i - b.e) as nat, 80);
                assert(a.m * y <= 0x100_0000 * 0x1_0000_0000_0000_0000_0000) by (nonlinear_arith)
                    requires
                        0 <= a.m < 0x100_0000,
                        0 <= y <= 0x1_0000_0000_0000_0000_0000,
                ;
                lemma_pow2_at_least((i - b.e) as nat);
                assert(a.m * (2 * y) == 2 * (a.m * y)) by (nonlinear_arith);
            }
            x = 2 * x;
            i = i + 1;
        }
        proof {
            let y = power2::pow2(s) as int;
            if s < 80 {
                lemma_pow2_step(s, 80);
            }
            assert(a.m * y <= 0x100_0000 * 0x1_0000_0000_0000_0000_0000) by (nonlinear_arith)
                requires
                    0 <= a.m < 0x100_0000,
                    0 <= y <= 0x1_0000_0000_0000_0000_0000,
            ;
            power2::lemma2_to64();
        }
        let n = x + b.m as u128;
        let r = round_ratio(n, 1, 0x100_0000, Ghost(24nat));
        proof {
            let y = power2::pow2(s) as int;
            power2::lemma_pow2_pos(s);
            lemma_pow2_at_least(s);
            assert(0x80_0000 * y <= n < 0x100_0000 * (2 * y)) by (nonlinear_arith)
                requires
                    0x80_0000 <= a.m < 0x100_0000,
                    0 < b.m < 0x100_0000,
                    y >= 1,
                    n == a.m * y + b.m,
            ;
            lemma_whole_place(n as int, last_place(n as int, 1, 24), s, s + 1);
            lemma_unit(b.m as int, 0);
            assert(lowered(a.m as int, a.e - b.e) == a.m * y);
            assert(n == lowered(self.m as int, self.e - b.e) + lowered(
                other.m as int,
                other.e - b.e,
            ));
        }
        Single { m: r.0 as u32, e: r.1 + b.e }
    }

    /// The lesser of this number and one.
    pub fn clamped(self) -> (r: Single)
        requires
            is_single(self@),
        ensures
            r@ == at_most_one(self@),
            is_single(r@),
    {
        proof {
            let (m, e) = self@;
            lemma_unit(m, e);
            lemma_unit(1, e);
            power2::lemma2_to64();
            if e < -23 {
                lemma_pow2_step(23, (-e) as nat);
            } else if e > -23 && e < 0 {
                lemma_pow2_step((-e) as nat, 23);
            } else if e > 0 {
                let y = power2::pow2(e as nat) as int;
                lemma_pow2_step(0, e as nat);
                assert(m == 0 || m * y > 1) by (nonlinear_arith)
                    requires
                        m == 0 || m >= 0x80_0000,
                        y >= 1,
                ;
                assert(m == 0 ==> m * y == 0) by (nonlinear_arith);
            }
        }
        if self.m != 0 && (self.e > -23 || self.e == -23 && self.m > 0x80_0000) {
            Single { m: 0x80_0000, e: -23 }
        } else {
            self
        }
    }

    /// The bits of this number in the binary64 format.
    pub fn widened(self) -> (r: u64)
        requires
            is_single(self@),
        ensures
            r == widened(self@),
            r < 0x8000_0000_0000_0000,
    {
        if self.m == 0 {
            0
        } else {
            (self.e + 1046) as u64 * 0x10_0000_0000_0000 + (self.m - 0x80_0000) as u64
                * 0x2000_0000
        }
    }
}

} // verus!
