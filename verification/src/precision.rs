//! How close what is computed in single precision comes to the exact result.
//!
//! The exact result is a fraction. What is computed may be off by some units of
//! `2^-24` of it.
use vstd::prelude::*;
use vstd::arithmetic::power2;
use crate::ascii;
use crate::binary;
use crate::fields;
use crate::gate;
use crate::normalize;
use crate::quant;

verus! {

// ---------------------------------------------------------------------------
// Rounding
// ---------------------------------------------------------------------------

pub open spec fn apart(a: int, b: int) -> int {
    if a < b {
        b - a
    } else {
        a - b
    }
}

proof fn lemma_double(a: nat)
    ensures
        power2::pow2(a) >= 1,
        power2::pow2(a + 1) == 2 * power2::pow2(a),
{
    power2::lemma_pow2_pos(a);
    power2::lemma_pow2_unfold(a + 1);
}

/// Powers of two grow past their exponents.
proof fn lemma_pow2_exceeds(a: nat)
    ensures
        power2::pow2(a) > a,
    decreases a,
{
    if a == 0 {
        power2::lemma2_to64();
    } else {
        lemma_pow2_exceeds((a - 1) as nat);
        lemma_double((a - 1) as nat);
    }
}

/// Down from a place that is too high there is one that fits.
proof fn lemma_place_below(n: int, d: int, p: nat, t: int) -> (u: int)
    requires
        n > 0,
        d > 0,
        p > 0,
        binary::raised(n, t) < power2::pow2(p) * binary::lowered(d, t),
    ensures
        u <= t,
        binary::in_binade(n, d, p, u),
    decreases t + d * power2::pow2(p),
{
    let h = power2::pow2((p - 1) as nat) as int;
    lemma_double((p - 1) as nat);
    if h * binary::lowered(d, t) <= binary::raised(n, t) {
        t
    } else {
        binary::lemma_unit(n, t);
        binary::lemma_unit(d, t);
        binary::lemma_unit(n, t - 1);
        binary::lemma_unit(d, t - 1);
        if t <= 0 {
            let x = power2::pow2((-t) as nat) as int;
            lemma_pow2_exceeds((-t) as nat);
            lemma_double((-t) as nat);
            assert(binary::raised(n, t) == n * x) by {
                power2::lemma2_to64();
                if t == 0 {
                    assert(n * x == n) by (nonlinear_arith)
                        requires
                            x == 1,
                    ;
                }
            }
            assert(-t < n * x) by (nonlinear_arith)
                requires
                    n >= 1,
                    x > -t,
                    x >= 1,
            ;
            assert(h * d < d * (2 * h)) by (nonlinear_arith)
                requires
                    h > 0,
                    d > 0,
            ;
            assert(binary::raised(n, t - 1) == n * (2 * x));
            assert(n * (2 * x) == 2 * (n * x)) by (nonlinear_arith);
            assert(2 * (h * d) == (2 * h) * d) by (nonlinear_arith);
            assert(power2::pow2(p) * binary::lowered(d, t - 1) == (2 * h) * d);
        } else {
            let y = power2::pow2((t - 1) as nat) as int;
            lemma_double((t - 1) as nat);
            assert(binary::lowered(d, t) == d * (2 * y));
            power2::lemma2_to64();
            assert(binary::lowered(d, t - 1) == d * y) by {
                if t == 1 {
                    assert(d * y == d) by (nonlinear_arith)
                        requires
                            y == 1,
                    ;
                }
            }
            assert(h * (d * (2 * y)) == (2 * h) * (d * y)) by (nonlinear_arith);
            assert(d * power2::pow2(p) > 0) by (nonlinear_arith)
                requires
                    d > 0,
                    power2::pow2(p) == 2 * h,
                    h >= 1,
            ;
        }
        lemma_place_below(n, d, p, t - 1)
    }
}

/// Every quotient of positive numbers has a last place.
pub proof fn lemma_place_exists(n: int, d: int, p: nat)
    requires
        n > 0,
        d > 0,
        p > 0,
    ensures
        binary::in_binade(n, d, p, binary::last_place(n, d, p)),
{
    let y = power2::pow2(n as nat) as int;
    let w = power2::pow2(p) as int;
    lemma_pow2_exceeds(n as nat);
    power2::lemma_pow2_pos(p);
    binary::lemma_unit(n, n);
    assert(binary::lowered(d, n) == d * y);
    assert(n < w * (d * y)) by (nonlinear_arith)
        requires
            0 < n < y,
            d >= 1,
            w >= 1,
    ;
    let u = lemma_place_below(n, d, p, n);
    binary::lemma_last_place(n, d, p, u);
}

proof fn lemma_half_even(n: int, d: int)
    requires
        d > 0,
    ensures
        2 * apart(binary::half_even(n, d) * d, n) <= d,
        2 * apart(binary::half_even(n, d) * d, n) == d ==> binary::half_even(n, d) % 2 == 0,
{
    vstd::arithmetic::div_mod::lemma_fundamental_div_mod(n, d);
    vstd::arithmetic::div_mod::lemma_mod_bound(n, d);
    let q = n / d;
    assert((q + 1) * d == q * d + d) by (nonlinear_arith);
    assert(d * q == q * d) by (nonlinear_arith);
}

/// A quotient of positive numbers is rounded to the nearest number of `p`
/// significant bits, of two equally near ones to the even one. Numerator and
/// denominator are in units of the last place.
pub proof fn law_rounded_to_nearest(n: int, d: int, p: nat)
    requires
        n > 0,
        d > 0,
        p > 1,
    ensures
        ({
            let t = binary::last_place(n, d, p);
            let r = binary::rounded(n, d, p);
            let (x, y) = (binary::raised(n, t), binary::lowered(d, t));
            let m = r.0 * if r.1 == t {
                1int
            } else {
                2
            };
            &&& power2::pow2((p - 1) as nat) <= r.0 < power2::pow2(p)
            &&& r.1 == t || r.1 == t + 1
            &&& y > 0
            &&& 2 * apart(m * y, x) <= y
            &&& 2 * apart(m * y, x) == y ==> m % 2 == 0
            &&& power2::pow2((p - 1) as nat) * y <= x < power2::pow2(p) * y
        }),
{
    let t = binary::last_place(n, d, p);
    lemma_place_exists(n, d, p);
    let (x, y) = (binary::raised(n, t), binary::lowered(d, t));
    let h = power2::pow2((p - 1) as nat) as int;
    lemma_double((p - 1) as nat);
    let z = if t > 0 {
        t as nat
    } else {
        0
    };
    power2::lemma_pow2_pos(z);
    assert(y > 0) by (nonlinear_arith)
        requires
            d > 0,
            y == d * power2::pow2(z),
            power2::pow2(z) > 0,
    ;
    lemma_half_even(x, y);
    let m = binary::half_even(x, y);
    assert(h <= m <= 2 * h) by (nonlinear_arith)
        requires
            h * y <= x < (2 * h) * y,
            2 * apart(m * y, x) <= y,
            y > 0,
            apart(m * y, x) == (if m * y < x {
                x - m * y
            } else {
                m * y - x
            }),
    ;
    power2::lemma_pow2_unfold(p);
}

// ---------------------------------------------------------------------------
// Values
// ---------------------------------------------------------------------------

/// One, in units so small that every number below is a whole multiple.
pub open spec fn unit() -> int {
    power2::pow2(300) as int
}

/// The value of a number with the exponent `-300` or more.
pub open spec fn value(a: (int, int)) -> int {
    a.0 * power2::pow2((a.1 + 300) as nat)
}

/// `a` is `n / d` but for `c` times `2^-24` of it.
pub open spec fn is_near(a: (int, int), n: int, d: int, c: int) -> bool {
    &&& -300 <= a.1
    &&& 0 <= a.0
    &&& 0 <= n
    &&& 0 < d
    &&& 0 <= c
    &&& apart(value(a) * d, n * unit()) * 0x100_0000 <= c * (n * unit())
}

proof fn lemma_apart_scale(a: int, b: int, p: int)
    requires
        p >= 0,
    ensures
        apart(a * p, b * p) == apart(a, b) * p,
{
    if a < b {
        assert(a * p <= b * p && b * p - a * p == (b - a) * p) by (nonlinear_arith)
            requires
                a < b,
                p >= 0,
        ;
    } else {
        assert(b * p <= a * p && a * p - b * p == (a - b) * p) by (nonlinear_arith)
            requires
                b <= a,
                p >= 0,
        ;
    }
}

/// A rounded quotient is off by at most one unit.
#[verifier::spinoff_prover]
proof fn lemma_single(n: int, d: int, e: int)
    requires
        n > 0,
        d > 0,
        e + 300 >= 0,
        e + 300 + binary::last_place(n, d, 24) >= 0,
    ensures
        ({
            let a = binary::single_of(n, d, e);
            let x = n * power2::pow2((e + 300) as nat);
            &&& 0x80_0000 <= a.0 < 0x100_0000
            &&& e + binary::last_place(n, d, 24) <= a.1 <= e + binary::last_place(n, d, 24) + 1
            &&& apart(value(a) * d, x) * 0x100_0000 <= x
        }),
{
    let t = binary::last_place(n, d, 24);
    let r = binary::rounded(n, d, 24);
    let a = binary::single_of(n, d, e);
    let (x, y) = (binary::raised(n, t), binary::lowered(d, t));
    law_rounded_to_nearest(n, d, 24);
    power2::lemma2_to64();
    let m = r.0 * if r.1 == t {
        1int
    } else {
        2
    };
    let q = power2::pow2((t + e + 300) as nat) as int;
    power2::lemma_pow2_pos((t + e + 300) as nat);
    assert(value(a) == m * q) by {
        if r.1 == t + 1 {
            lemma_double((t + e + 300) as nat);
            assert(r.0 * (2 * q) == (r.0 * 2) * q) by (nonlinear_arith);
        } else {
            assert(m == r.0) by (nonlinear_arith)
                requires
                    m == r.0 * 1,
            ;
        }
    }
    let k = 0x80_0000 * y;
    assert(power2::pow2(23) * y == k) by (nonlinear_arith)
        requires
            power2::pow2(23) == 0x80_0000,
            k == 0x80_0000 * y,
    ;
    assert(apart(m * y, x) * 0x100_0000 <= x);
    let p = power2::pow2((e + 300) as nat) as int;
    power2::lemma_pow2_pos((e + 300) as nat);
    binary::lemma_unit(n, t);
    binary::lemma_unit(d, t);
    if t >= 0 {
        let w = power2::pow2(t as nat) as int;
        power2::lemma_pow2_adds(t as nat, (e + 300) as nat);
        assert(t as nat + (e + 300) as nat == (t + e + 300) as nat);
        assert(y == d * w) by {
            if t == 0 {
                assert(d * w == d) by (nonlinear_arith)
                    requires
                        w == 1,
                ;
            }
        }
        assert((m * q) * d == (m * y) * p) by (nonlinear_arith)
            requires
                q == w * p,
                y == d * w,
        ;
        lemma_apart_scale(m * y, x, p);
        let g = apart(m * y, x);
        assert(g * p * 0x100_0000 <= x * p) by (nonlinear_arith)
            requires
                g * 0x100_0000 <= x,
                p > 0,
        ;
    } else {
        let w = power2::pow2((-t) as nat) as int;
        power2::lemma_pow2_adds((-t) as nat, (t + e + 300) as nat);
        assert((-t) as nat + (t + e + 300) as nat == (e + 300) as nat);
        assert((m * q) * d == (m * y) * q) by (nonlinear_arith)
            requires
                y == d,
        ;
        assert(n * p == x * q) by (nonlinear_arith)
            requires
                p == w * q,
                x == n * w,
        ;
        lemma_apart_scale(m * y, x, q);
        let g = apart(m * y, x);
        assert(g * q * 0x100_0000 <= x * q) by (nonlinear_arith)
            requires
                g * 0x100_0000 <= x,
                q > 0,
        ;
    }
}

/// A whole number that fits sixty-four bits is off by one unit.
proof fn lemma_whole(n: int)
    requires
        0 <= n <= u64::MAX,
    ensures
        is_near(binary::single_of(n, 1, 0), n, 1, 1),
        binary::is_single(binary::single_of(n, 1, 0)),
        -23 <= binary::single_of(n, 1, 0).1 <= 41,
        n <= u32::MAX ==> binary::single_of(n, 1, 0).1 <= 9,
{
    power2::lemma2_to64();
    if n == 0 {
        let a = binary::single_of(0, 1, 0);
        assert(value(a) == 0) by (nonlinear_arith)
            requires
                value(a) == a.0 * power2::pow2(300),
                a.0 == 0,
        ;
        assert(0 * unit() == 0);
    } else {
        lemma_place_exists(n, 1, 24);
        binary::lemma_from_place(n, binary::last_place(n, 1, 24));
        lemma_single(n, 1, 0);
    }
}

/// Errors of factors add up.
#[verifier::spinoff_prover]
proof fn lemma_factors(a: int, m: int, c: int, b: int, k: int, e: int)
    requires
        a >= 0,
        b >= 0,
        m >= 0,
        k >= 0,
        0 <= c <= 1000,
        0 <= e <= 1000,
        apart(a, m) * 0x100_0000 <= c * m,
        apart(b, k) * 0x100_0000 <= e * k,
    ensures
        apart(a * b, m * k) * 0x100_0000 <= (c + e + 1) * (m * k),
{
    let (f, g) = (apart(a, m), apart(b, k));
    let z = m * k;
    assert(z >= 0) by (nonlinear_arith)
        requires
            m >= 0,
            k >= 0,
            z == m * k,
    ;
    assert(apart(a * b, z) <= f * b + m * g) by (nonlinear_arith)
        requires
            a >= 0,
            b >= 0,
            m >= 0,
            k >= 0,
            z == m * k,
            f == (if a < m {
                m - a
            } else {
                a - m
            }),
            g == (if b < k {
                k - b
            } else {
                b - k
            }),
            apart(a * b, z) == (if a * b < z {
                z - a * b
            } else {
                a * b - z
            }),
    ;
    assert(b <= k + g);
    assert(f * b <= f * k + f * g) by (nonlinear_arith)
        requires
            b <= k + g,
            f >= 0,
    ;
    assert(f * k * 0x100_0000 <= c * z) by (nonlinear_arith)
        requires
            f * 0x100_0000 <= c * m,
            k >= 0,
            z == m * k,
    ;
    assert(m * g * 0x100_0000 <= e * z) by (nonlinear_arith)
        requires
            g * 0x100_0000 <= e * k,
            m >= 0,
            z == m * k,
    ;
    assert((f * 0x100_0000) * (g * 0x100_0000) <= (c * m) * (e * k)) by (nonlinear_arith)
        requires
            0 <= f * 0x100_0000 <= c * m,
            0 <= g * 0x100_0000 <= e * k,
    ;
    assert((c * m) * (e * k) == (c * e) * z) by (nonlinear_arith)
        requires
            z == m * k,
    ;
    assert((c * e) * z <= 1000000 * z) by (nonlinear_arith)
        requires
            0 <= c <= 1000,
            0 <= e <= 1000,
            z >= 0,
    ;
    assert((f * 0x100_0000) * (g * 0x100_0000) == (f * g) * 0x1_0000_0000_0000) by (nonlinear_arith);
    assert((f * g) * 0x100_0000 <= z);
    assert((c + e + 1) * z == c * z + e * z + z) by (nonlinear_arith);
}

/// What is near to what is near is near.
#[verifier::spinoff_prover]
proof fn lemma_steps(x: int, y: int, z: int, c: int, e: int)
    requires
        z >= 0,
        y >= 0,
        0 <= c <= 1000,
        0 <= e <= 1000,
        apart(x, y) * 0x100_0000 <= c * y,
        apart(y, z) * 0x100_0000 <= e * z,
    ensures
        apart(x, z) * 0x100_0000 <= (c + e + 1) * z,
{
    assert(apart(x, z) <= apart(x, y) + apart(y, z));
    assert(y <= z + apart(y, z));
    let g = apart(y, z);
    assert(c * y <= c * z + c * g) by (nonlinear_arith)
        requires
            y <= z + g,
            c >= 0,
    ;
    assert(c * g * 0x100_0000 <= c * (e * z)) by (nonlinear_arith)
        requires
            g * 0x100_0000 <= e * z,
            c >= 0,
    ;
    assert(c * (e * z) <= 1000000 * z) by (nonlinear_arith)
        requires
            0 <= c <= 1000,
            0 <= e <= 1000,
            z >= 0,
    ;
    assert((c + e + 1) * z == c * z + e * z + z) by (nonlinear_arith);
}

/// A common factor can be left out.
proof fn lemma_cancel(x: int, z: int, c: int, u: int)
    requires
        u > 0,
        apart(x * u, z * u) * 0x100_0000 <= c * (z * u),
    ensures
        apart(x, z) * 0x100_0000 <= c * z,
{
    lemma_apart_scale(x, z, u);
    let g = apart(x, z);
    assert(g * 0x100_0000 <= c * z) by (nonlinear_arith)
        requires
            (g * u) * 0x100_0000 <= c * (z * u),
            u > 0,
    ;
}

proof fn lemma_unit_positive()
    ensures
        unit() > 0,
{
    power2::lemma_pow2_pos(300);
}

/// A number that is near to nothing is zero.
proof fn lemma_near_zero(a: (int, int), n: int, d: int, c: int)
    requires
        is_near(a, n, d, c),
        0 <= c <= 1000,
    ensures
        n == 0 ==> a.0 == 0,
        a.0 == 0 ==> n == 0,
{
    lemma_unit_positive();
    let p = power2::pow2((a.1 + 300) as nat) as int;
    power2::lemma_pow2_pos((a.1 + 300) as nat);
    let u = unit();
    let m = a.0;
    if n == 0 {
        assert(n * u == 0) by (nonlinear_arith)
            requires
                n == 0,
        ;
        assert(c * (n * u) == 0) by (nonlinear_arith)
            requires
                n * u == 0,
        ;
        assert(m == 0) by (nonlinear_arith)
            requires
                (m * p) * d == 0,
                p > 0,
                d > 0,
        ;
    }
    if m == 0 {
        assert((m * p) * d == 0) by (nonlinear_arith)
            requires
                m == 0,
        ;
        assert(n == 0) by (nonlinear_arith)
            requires
                n >= 0,
                u > 0,
                0 <= c <= 1000,
                (n * u) * 0x100_0000 <= c * (n * u),
        ;
    }
}

/// Products of numbers that are near are near.
#[verifier::spinoff_prover]
proof fn lemma_product(
    a: (int, int),
    n: int,
    d: int,
    c: int,
    b: (int, int),
    k: int,
    l: int,
    e: int,
)
    requires
        binary::is_single(a),
        binary::is_single(b),
        is_near(a, n, d, c),
        is_near(b, k, l, e),
        c <= 400,
        e <= 400,
        -110 <= a.1 <= 60,
        -110 <= b.1 <= 60,
    ensures
        is_near(binary::product(a, b), n * k, d * l, c + e + 3),
        a.0 == 0 || b.0 == 0 ==> binary::product(a, b) == (0int, 0int),
        a.0 != 0 && b.0 != 0 ==> {
            &&& 0x80_0000 <= binary::product(a, b).0 < 0x100_0000
            &&& a.1 + b.1 + 23 <= binary::product(a, b).1 <= a.1 + b.1 + 25
        },
{
    let r = binary::product(a, b);
    let (u, x) = (unit(), a.0 * b.0);
    let (f, g) = (a.1 + b.1, power2::pow2((a.1 + b.1 + 300) as nat) as int);
    lemma_unit_positive();
    lemma_near_zero(a, n, d, c);
    lemma_near_zero(b, k, l, e);
    assert(n * k >= 0 && d * l > 0) by (nonlinear_arith)
        requires
            n >= 0,
            k >= 0,
            d > 0,
            l > 0,
    ;
    if a.0 == 0 || b.0 == 0 {
        assert(x == 0 && n * k == 0) by (nonlinear_arith)
            requires
                x == a.0 * b.0,
                a.0 == 0 && n == 0 || b.0 == 0 && k == 0,
        ;
        assert(r == (0int, 0int));
        assert(value(r) == 0) by (nonlinear_arith)
            requires
                value(r) == 0 * power2::pow2(300),
        ;
        assert(value(r) * (d * l) == 0 && (n * k) * u == 0) by (nonlinear_arith)
            requires
                value(r) == 0,
                n * k == 0,
        ;
        assert((c + e + 3) * ((n * k) * u) == 0) by (nonlinear_arith)
            requires
                (n * k) * u == 0,
        ;
    } else {
        assert(0x80_0000 * 0x80_0000 <= x < 0x100_0000 * 0x100_0000) by (nonlinear_arith)
            requires
                x == a.0 * b.0,
                0x80_0000 <= a.0 < 0x100_0000,
                0x80_0000 <= b.0 < 0x100_0000,
        ;
        power2::lemma2_to64();
        lemma_place_exists(x, 1, 24);
        binary::lemma_whole_place(x, binary::last_place(x, 1, 24), 23, 24);
        lemma_single(x, 1, f);
        // The exact product, in units of one.
        let (p, q) = (
            power2::pow2((a.1 + 300) as nat) as int,
            power2::pow2((b.1 + 300) as nat) as int,
        );
        power2::lemma_pow2_adds((a.1 + 300) as nat, (b.1 + 300) as nat);
        power2::lemma_pow2_adds((f + 300) as nat, 300);
        assert((a.1 + 300) as nat + (b.1 + 300) as nat == (f + 300) as nat + 300);
        assert(p * q == g * u);
        let (va, vb) = (value(a), value(b));
        assert(va * vb == (x * g) * u) by (nonlinear_arith)
            requires
                va == a.0 * p,
                vb == b.0 * q,
                x == a.0 * b.0,
                p * q == g * u,
        ;
        power2::lemma_pow2_pos((a.1 + 300) as nat);
        power2::lemma_pow2_pos((b.1 + 300) as nat);
        assert(va >= 0 && vb >= 0) by (nonlinear_arith)
            requires
                va == a.0 * p,
                vb == b.0 * q,
                a.0 >= 0,
                b.0 >= 0,
                p > 0,
                q > 0,
        ;
        assert(va * d >= 0 && vb * l >= 0 && n * u >= 0 && k * u >= 0) by (nonlinear_arith)
            requires
                va >= 0,
                vb >= 0,
                d > 0,
                l > 0,
                n >= 0,
                k >= 0,
                u > 0,
        ;
        lemma_factors(va * d, n * u, c, vb * l, k * u, e);
        let y = (va * d) * (vb * l);
        let z = (n * u) * (k * u);
        assert(y >= 0 && z >= 0) by (nonlinear_arith)
            requires
                va * d >= 0,
                vb * l >= 0,
                n * u >= 0,
                k * u >= 0,
                y == (va * d) * (vb * l),
                z == (n * u) * (k * u),
        ;
        let w = value(r);
        let s = w * (d * l) * u;
        // What is rounded is near to the product of the two.
        let h = (d * l) * u;
        assert(h >= 0) by (nonlinear_arith)
            requires
                d * l > 0,
                u > 0,
                h == (d * l) * u,
        ;
        assert(w * 1 == w && x * g >= 0);
        lemma_apart_scale(w, x * g, h);
        let j = apart(w, x * g);
        assert(j * h * 0x100_0000 <= (x * g) * h) by (nonlinear_arith)
            requires
                j * 0x100_0000 <= x * g,
                h >= 0,
        ;
        assert(w * h == s && (x * g) * h == y) by (nonlinear_arith)
            requires
                s == w * (d * l) * u,
                h == (d * l) * u,
                va * vb == (x * g) * u,
                y == (va * d) * (vb * l),
        ;
        lemma_steps(s, y, z, 1, c + e + 1);
        assert(z == ((n * k) * u) * u) by (nonlinear_arith)
            requires
                z == (n * u) * (k * u),
        ;
        lemma_cancel(w * (d * l), (n * k) * u, c + e + 3, u);
    }
}

/// Quotients of numbers that are near are near.
#[verifier::spinoff_prover]
proof fn lemma_quotient(
    a: (int, int),
    n: int,
    d: int,
    c: int,
    b: (int, int),
    k: int,
    l: int,
    e: int,
)
    requires
        binary::is_single(a),
        binary::is_single(b),
        is_near(a, n, d, c),
        is_near(b, k, l, e),
        k > 0,
        c <= 400,
        e <= 200,
        -70 <= a.1 <= 60,
        -70 <= b.1 <= 60,
    ensures
        is_near(binary::quotient(a, b), n * l, d * k, c + 2 * e + 3),
        a.0 == 0 ==> binary::quotient(a, b) == (0int, 0int),
        a.0 != 0 ==> {
            &&& 0x80_0000 <= binary::quotient(a, b).0 < 0x100_0000
            &&& a.1 - b.1 - 24 <= binary::quotient(a, b).1 <= a.1 - b.1 - 22
        },
{
    let r = binary::quotient(a, b);
    let u = unit();
    lemma_unit_positive();
    lemma_near_zero(a, n, d, c);
    lemma_near_zero(b, k, l, e);
    assert(n * l >= 0 && d * k > 0) by (nonlinear_arith)
        requires
            n >= 0,
            k > 0,
            d > 0,
            l > 0,
    ;
    if a.0 == 0 {
        assert(value(r) == 0) by (nonlinear_arith)
            requires
                value(r) == 0 * power2::pow2(300),
        ;
        assert(value(r) * (d * k) == 0 && (n * l) * u == 0) by (nonlinear_arith)
            requires
                value(r) == 0,
                n == 0,
        ;
        assert((c + 2 * e + 3) * ((n * l) * u) == 0) by (nonlinear_arith)
            requires
                (n * l) * u == 0,
        ;
    } else {
        let f = a.1 - b.1;
        let g = power2::pow2((f + 300) as nat) as int;
        lemma_place_exists(a.0, b.0, 24);
        binary::lemma_over_place(a.0, b.0, binary::last_place(a.0, b.0, 24));
        lemma_single(a.0, b.0, f);
        let (p, q) = (
            power2::pow2((a.1 + 300) as nat) as int,
            power2::pow2((b.1 + 300) as nat) as int,
        );
        power2::lemma_pow2_pos((a.1 + 300) as nat);
        power2::lemma_pow2_pos((b.1 + 300) as nat);
        power2::lemma_pow2_adds((f + 300) as nat, (b.1 + 300) as nat);
        power2::lemma_pow2_adds((a.1 + 300) as nat, 300);
        assert((f + 300) as nat + (b.1 + 300) as nat == (a.1 + 300) as nat + 300);
        assert(g * q == p * u);
        let (va, vb, w) = (value(a), value(b), value(r));
        power2::lemma_pow2_pos((r.1 + 300) as nat);
        assert(va >= 0 && vb > 0 && w >= 0) by (nonlinear_arith)
            requires
                va == a.0 * p,
                vb == b.0 * q,
                a.0 > 0,
                b.0 > 0,
                p > 0,
                q > 0,
                w == r.0 * power2::pow2((r.1 + 300) as nat),
                r.0 > 0,
                power2::pow2((r.1 + 300) as nat) > 0,
        ;
        // The product of the quotient and the divisor is near to the dividend.
        let h = q * (d * l);
        assert(h >= 0) by (nonlinear_arith)
            requires
                q > 0,
                d > 0,
                l > 0,
                h == q * (d * l),
        ;
        let (x, y) = ((w * b.0) * h, (a.0 * g) * h);
        lemma_apart_scale(w * b.0, a.0 * g, h);
        let j = apart(w * b.0, a.0 * g);
        assert(j * h * 0x100_0000 <= (a.0 * g) * h) by (nonlinear_arith)
            requires
                j * 0x100_0000 <= a.0 * g,
                h >= 0,
        ;
        let (t, bl, kk) = (w * d, vb * l, k * u);
        assert(x == t * bl) by (nonlinear_arith)
            requires
                x == (w * b.0) * h,
                h == q * (d * l),
                vb == b.0 * q,
                t == w * d,
                bl == vb * l,
        ;
        assert(y == (va * d) * (u * l)) by (nonlinear_arith)
            requires
                y == (a.0 * g) * h,
                h == q * (d * l),
                va == a.0 * p,
                g * q == p * u,
        ;
        assert(y >= 0 && t >= 0 && bl >= 0 && kk >= 0 && n * u >= 0 && u * l >= 0)
            by (nonlinear_arith)
            requires
                va >= 0,
                vb > 0,
                w >= 0,
                d > 0,
                l > 0,
                u > 0,
                k > 0,
                n >= 0,
                y == (va * d) * (u * l),
                t == w * d,
                bl == vb * l,
                kk == k * u,
        ;
        let z = (n * u) * (u * l);
        assert(z >= 0) by (nonlinear_arith)
            requires
                n * u >= 0,
                u * l >= 0,
                z == (n * u) * (u * l),
        ;
        lemma_apart_scale(va * d, n * u, u * l);
        let i = apart(va * d, n * u);
        assert(i * (u * l) * 0x100_0000 <= c * z) by (nonlinear_arith)
            requires
                i * 0x100_0000 <= c * (n * u),
                u * l >= 0,
                z == (n * u) * (u * l),
        ;
        lemma_steps(x, y, z, 1, c);
        // The divisor is near to what it stands for.
        let o = apart(bl, kk);
        assert(o * 0x100_0000 <= e * kk);
        assert(e * kk <= 200 * kk) by (nonlinear_arith)
            requires
                e <= 200,
                kk >= 0,
        ;
        assert(kk <= 2 * bl);
        assert(e * kk <= 2 * e * bl) by (nonlinear_arith)
            requires
                kk <= 2 * bl,
                e >= 0,
        ;
        assert(t * kk >= 0 && x >= 0) by (nonlinear_arith)
            requires
                t >= 0,
                kk >= 0,
                bl >= 0,
                x == t * bl,
        ;
        assert(apart(t * kk, x) == o * t) by {
            lemma_apart_scale(kk, bl, t);
            assert(kk * t == t * kk && bl * t == t * bl) by (nonlinear_arith);
        }
        assert(o * t * 0x100_0000 <= (2 * e) * x) by (nonlinear_arith)
            requires
                o * 0x100_0000 <= 2 * e * bl,
                t >= 0,
                x == t * bl,
        ;
        lemma_steps(t * kk, x, z, 2 * e, c + 2);
        assert(t * kk == (w * (d * k)) * u && z == ((n * l) * u) * u) by (nonlinear_arith)
            requires
                t == w * d,
                kk == k * u,
                z == (n * u) * (u * l),
        ;
        lemma_cancel(w * (d * k), (n * l) * u, c + 2 * e + 3, u);
    }
}

/// A number has its value whatever exponent it is written with.
proof fn lemma_shifted(m: int, f: int, g: int)
    requires
        -300 <= g <= f,
    ensures
        binary::lowered(m, f - g) * power2::pow2((g + 300) as nat) == m * power2::pow2(
            (f + 300) as nat,
        ),
{
    binary::lemma_unit(m, f - g);
    if g < f {
        power2::lemma_pow2_adds((f - g) as nat, (g + 300) as nat);
        assert((f - g) as nat + (g + 300) as nat == (f + 300) as nat);
        let (x, y) = (
            power2::pow2((f - g) as nat) as int,
            power2::pow2((g + 300) as nat) as int,
        );
        assert((m * x) * y == m * (x * y)) by (nonlinear_arith);
    }
}

/// The sum of a whole number and a fraction that are near is near.
#[verifier::spinoff_prover]
#[verifier::rlimit(30)]
proof fn lemma_sum(a: (int, int), n: int, c: int, b: (int, int), k: int, l: int, e: int)
    requires
        binary::is_single(a),
        binary::is_single(b),
        is_near(a, n, 1, c),
        is_near(b, k, l, e),
        c <= e <= 400,
        -60 <= a.1 <= 20,
        -60 <= b.1 <= 20,
    ensures
        is_near(binary::sum(a, b), n * l + k, l, e + 2),
        binary::is_single(binary::sum(a, b)),
        -60 <= binary::sum(a, b).1,
        binary::sum(a, b).1 <= a.1 + 2 || binary::sum(a, b).1 <= b.1 + 2,
        a.0 == 0 || a.1 <= binary::sum(a, b).1 || b.0 == 0,
        b.0 == 0 || b.1 <= binary::sum(a, b).1,
        binary::sum(a, b).0 == 0 <==> a.0 == 0 && b.0 == 0,
{
    let r = binary::sum(a, b);
    let u = unit();
    lemma_unit_positive();
    lemma_near_zero(a, n, 1, c);
    lemma_near_zero(b, k, l, e);
    let (va, vb) = (value(a), value(b));
    let z = (n * l + k) * u;
    assert(n * l >= 0) by (nonlinear_arith)
        requires
            n >= 0,
            l > 0,
    ;
    assert(z == (n * l) * u + k * u) by (nonlinear_arith)
        requires
            z == (n * l + k) * u,
    ;
    assert((n * l) * u >= 0 && k * u >= 0) by (nonlinear_arith)
        requires
            n * l >= 0,
            k >= 0,
            u > 0,
    ;
    // The exact sum is near.
    lemma_apart_scale(va * 1, n * u, l);
    let i = apart(va * 1, n * u);
    assert((n * u) * l == (n * l) * u) by (nonlinear_arith);
    assert(i * l * 0x100_0000 <= c * ((n * l) * u)) by (nonlinear_arith)
        requires
            i * 0x100_0000 <= c * (n * u),
            l > 0,
            (n * u) * l == (n * l) * u,
    ;
    assert(c * ((n * l) * u) <= e * ((n * l) * u)) by (nonlinear_arith)
        requires
            c <= e,
            (n * l) * u >= 0,
    ;
    let y = (va + vb) * l;
    assert(y == (va * 1) * l + vb * l) by (nonlinear_arith)
        requires
            y == (va + vb) * l,
    ;
    assert(apart(y, z) <= i * l + apart(vb * l, k * u));
    assert(e * z == e * ((n * l) * u) + e * (k * u)) by (nonlinear_arith)
        requires
            z == (n * l) * u + k * u,
    ;
    assert(apart(y, z) * 0x100_0000 <= e * z);
    assert(z >= 0);
    assert((e + 2) * z == e * z + 2 * z) by (nonlinear_arith);
    if a.0 == 0 {
        assert(va == 0) by (nonlinear_arith)
            requires
                va == a.0 * power2::pow2((a.1 + 300) as nat),
                a.0 == 0,
        ;
    } else if b.0 == 0 {
        assert(vb == 0) by (nonlinear_arith)
            requires
                vb == b.0 * power2::pow2((b.1 + 300) as nat),
                b.0 == 0,
        ;
    } else {
        let f = if a.1 < b.1 {
            a.1
        } else {
            b.1
        };
        let (x1, x2) = (binary::lowered(a.0, a.1 - f), binary::lowered(b.0, b.1 - f));
        let x = x1 + x2;
        let g = power2::pow2((f + 300) as nat) as int;
        power2::lemma_pow2_pos((f + 300) as nat);
        lemma_shifted(a.0, a.1, f);
        lemma_shifted(b.0, b.1, f);
        assert(x * g == va + vb) by (nonlinear_arith)
            requires
                x == x1 + x2,
                x1 * g == va,
                x2 * g == vb,
        ;
        lemma_sum_place(a, b);
        lemma_single(x, 1, f);
        let w = value(r);
        lemma_apart_scale(w * 1, x * g, l);
        let j = apart(w * 1, x * g);
        assert(j * l * 0x100_0000 <= (x * g) * l) by (nonlinear_arith)
            requires
                j * 0x100_0000 <= x * g,
                l > 0,
        ;
        assert(y >= 0);
        lemma_steps(w * l, y, z, 1, e);
    }
}

/// The last place of a sum is that of the greater of the two, or the next.
#[verifier::spinoff_prover]
proof fn lemma_sum_place(a: (int, int), b: (int, int))
    requires
        0x80_0000 <= a.0 < 0x100_0000,
        0x80_0000 <= b.0 < 0x100_0000,
        -60 <= a.1 <= 20,
        -60 <= b.1 <= 20,
    ensures
        ({
            let f = if a.1 < b.1 {
                a.1
            } else {
                b.1
            };
            let g = if a.1 < b.1 {
                b.1
            } else {
                a.1
            };
            let x = binary::lowered(a.0, a.1 - f) + binary::lowered(b.0, b.1 - f);
            &&& x > 0
            &&& g - f <= binary::last_place(x, 1, 24) <= g - f + 1
        }),
{
    let (s, t) = if a.1 < b.1 {
        (b, a)
    } else {
        (a, b)
    };
    let h = (s.1 - t.1) as nat;
    let y = power2::pow2(h) as int;
    power2::lemma_pow2_pos(h);
    lemma_double(h);
    power2::lemma2_to64();
    binary::lemma_unit(t.0, 0);
    binary::lemma_unit(s.0, 0);
    let x = s.0 * y + t.0;
    assert(binary::lowered(s.0, s.1 - t.1) == s.0 * y) by {
        if h == 0 {
            assert(s.0 * y == s.0) by (nonlinear_arith)
                requires
                    y == 1,
            ;
        }
    }
    assert(0x80_0000 * y <= x < 0x100_0000 * (2 * y)) by (nonlinear_arith)
        requires
            0x80_0000 <= s.0 < 0x100_0000,
            0 < t.0 < 0x100_0000,
            y >= 1,
            x == s.0 * y + t.0,
    ;
    lemma_place_exists(x, 1, 24);
    binary::lemma_whole_place(x, binary::last_place(x, 1, 24), h, h + 1);
}

// ---------------------------------------------------------------------------
// Features
// ---------------------------------------------------------------------------

/// The product of the scale and a number of twenty-four bits is exact in
/// fifty-three.
#[verifier::spinoff_prover]
proof fn lemma_scaled_exactly(a: (int, int))
    requires
        0x80_0000 <= a.0 < 0x100_0000,
        -149 <= a.1 <= 104,
    ensures
        ({
            let p = quant::scaled_product(binary::widened(a));
            &&& p.1 >= -180
            &&& value(p) == 10000 * value(a)
        }),
{
    let b = binary::widened(a);
    let (x, y) = (a.1 + 1046, (a.0 - 0x80_0000) * 0x2000_0000);
    assert(b == x * 0x10_0000_0000_0000 + y);
    assert(0 <= y < 0x10_0000_0000_0000);
    assert(b / 0x10_0000_0000_0000 == x && b % 0x10_0000_0000_0000 == y);
    let n = (0x10_0000_0000_0000 + y) * 10000;
    assert(n == a.0 * 0x2000_0000 * 10000);
    power2::lemma2_to64();
    power2::lemma2_to64_rest();
    let low = n < 0x4_0000_0000_0000_0000;
    let t: int = if low {
        13
    } else {
        14
    };
    let d: int = if low {
        0x2000
    } else {
        0x4000
    };
    let s: int = if low {
        0x1_0000
    } else {
        0x8000
    };
    assert(power2::pow2(t as nat) == d && power2::pow2((29 - t) as nat) == s);
    binary::lemma_unit(n, t);
    assert(binary::lowered(1, t) == d);
    binary::lemma_last_place(n, 1, 53, t);
    let m = a.0 * 10000 * s;
    assert(n == m * d);
    assert(n / d == m && n % d == 0);
    assert(binary::half_even(n, d) == m);
    let p = quant::scaled_product(b);
    assert(p == (m, t + x - 1075));
    let e = (t + a.1 + 271) as nat;
    power2::lemma_pow2_adds((29 - t) as nat, e);
    assert((29 - t) as nat + e == (a.1 + 300) as nat);
    let g = power2::pow2(e) as int;
    assert((a.0 * 10000 * s) * g == 10000 * (a.0 * (s * g))) by (nonlinear_arith);
}

/// A number up to one is quantized to the nearest of ten thousand.
#[verifier::spinoff_prover]
proof fn lemma_quantized(a: (int, int))
    requires
        0x80_0000 <= a.0 < 0x100_0000,
        -149 <= a.1 < -23 || a == binary::one(),
    ensures
        ({
            let r = quant::quantized(binary::widened(a));
            &&& 0 <= r <= 10000
            &&& 2 * apart(r * unit(), 10000 * value(a)) <= unit()
        }),
{
    let b = binary::widened(a);
    let r = quant::quantized(b);
    let p = quant::scaled_product(b);
    lemma_scaled_exactly(a);
    assert(0x10_0000_0000_0000 <= b <= 0x3ff0_0000_0000_0000);
    assert(b % 0x8000_0000_0000_0000 == b);
    quant::law_quantize_nearest(b);
    let d = power2::pow2((-p.1) as nat) as int;
    let g = power2::pow2((p.1 + 300) as nat) as int;
    power2::lemma_pow2_pos((p.1 + 300) as nat);
    power2::lemma_pow2_adds((-p.1) as nat, (p.1 + 300) as nat);
    assert((-p.1) as nat + (p.1 + 300) as nat == 300);
    assert(d * g == unit());
    lemma_apart_scale(r * d, p.0, g);
    let j = apart(r * d, p.0);
    assert((r * d) * g == r * unit()) by (nonlinear_arith)
        requires
            d * g == unit(),
    ;
    assert(2 * (j * g) <= d * g) by (nonlinear_arith)
        requires
            2 * j <= d,
            g > 0,
    ;
    quant::law_quantize_monotone(0, b);
    assert(quant::quantized(0) == 0);
    quant::law_quantize_monotone(b, 0x7ff0_0000_0000_0000);
    assert(quant::quantized(0x7ff0_0000_0000_0000) == 10000) by {
        assert(0x7ff0_0000_0000_0000int / 0x10_0000_0000_0000 % 0x800 == 0x7ff);
        assert(0x7ff0_0000_0000_0000int % 0x10_0000_0000_0000 == 0);
    }
}

proof fn lemma_one()
    ensures
        value(binary::one()) == unit(),
        quant::quantized(binary::widened(binary::one())) == 10000,
{
    power2::lemma2_to64();
    power2::lemma_pow2_adds(23, 277);
    lemma_quantized(binary::one());
    lemma_unit_positive();
    let r = quant::quantized(binary::widened(binary::one()));
    let u = unit();
    assert(r == 10000) by (nonlinear_arith)
        requires
            2 * (10000 * u - r * u) <= u,
            r <= 10000,
            u > 0,
    ;
}

/// Where a number stands to one is told by its exponent.
#[verifier::spinoff_prover]
proof fn lemma_beside_one(a: (int, int))
    requires
        0x80_0000 <= a.0 < 0x100_0000,
        -149 <= a.1 <= 104,
    ensures
        a.1 < -23 ==> value(a) < unit() && binary::at_most_one(a) == a,
        a.1 == -23 ==> value(a) >= unit() && binary::at_most_one(a) == binary::one(),
        a.1 > -23 ==> value(a) > unit() && binary::at_most_one(a) == binary::one(),
{
    let (m, e) = (a.0, a.1);
    let g = power2::pow2((e + 300) as nat) as int;
    power2::lemma2_to64();
    power2::lemma_pow2_pos((e + 300) as nat);
    binary::lemma_unit(m, e);
    binary::lemma_unit(1, e);
    if e <= 0 {
        power2::lemma_pow2_adds((-e) as nat, (e + 300) as nat);
        assert((-e) as nat + (e + 300) as nat == 300);
        let d = power2::pow2((-e) as nat) as int;
        if e < -23 {
            binary::lemma_pow2_step(23, (-e) as nat);
        } else if e > -23 {
            binary::lemma_pow2_step((-e) as nat, 23);
        }
        assert(binary::raised(1, e) == d) by {
            if e == 0 {
                assert(d == 1);
            }
        }
        assert((m < d ==> m * g < d * g) && (m > d ==> m * g > d * g)) by (nonlinear_arith)
            requires
                g > 0,
        ;
    } else {
        power2::lemma_pow2_adds(300, e as nat);
        let y = power2::pow2(e as nat) as int;
        binary::lemma_pow2_step(0, e as nat);
        lemma_unit_positive();
        assert(m * y > 1 && m * (unit() * y) > unit()) by (nonlinear_arith)
            requires
                m >= 0x80_0000,
                y >= 1,
                unit() > 0,
        ;
    }
}

/// A number that is near to `n / d` is quantized to the full scale if `n / d` is
/// one or more, and otherwise to what is nearest to its product with the scale,
/// give or take a twentieth.
#[verifier::spinoff_prover]
proof fn lemma_feature(a: (int, int), n: int, d: int, c: int)
    requires
        binary::is_single(a),
        is_near(a, n, d, c),
        c <= 80,
    ensures
        ({
            let r = quant::quantized(binary::widened(binary::at_most_one(a)));
            &&& 0 <= r <= 10000
            &&& n >= d ==> r == 10000
            &&& n <= d ==> 20 * apart(r * d, 10000 * n) <= 11 * d
            &&& quant::quantized(binary::widened(a)) == r
        }),
{
    let u = unit();
    lemma_unit_positive();
    lemma_near_zero(a, n, d, c);
    let o = binary::at_most_one(a);
    let r = quant::quantized(binary::widened(o));
    if a.0 == 0 {
        binary::lemma_unit(0, 0);
        binary::lemma_unit(1, 0);
        assert(o == a);
        assert(quant::quantized(0) == 0);
        assert(r * d == 0) by (nonlinear_arith)
            requires
                r == 0,
        ;
    } else {
        lemma_beside_one(a);
        lemma_one();
        let (v, x) = (value(a) * d, n * u);
        assert(x >= 0) by (nonlinear_arith)
            requires
                n >= 0,
                u > 0,
                x == n * u,
        ;
        assert(c * x <= 80 * x) by (nonlinear_arith)
            requires
                c <= 80,
                x >= 0,
        ;
        assert(apart(v, x) * 0x100_0000 <= 80 * x);
        if a.1 < -23 {
            lemma_quantized(a);
            let j = apart(r * u, 10000 * value(a));
            lemma_apart_scale(r * u, 10000 * value(a), d);
            assert(10000 * value(a) * d == 10000 * v) by (nonlinear_arith)
                requires
                    v == value(a) * d,
            ;
            let ud = u * d;
            let ru = r * d * u;
            assert(2 * (j * d) <= ud && (r * u) * d == ru) by (nonlinear_arith)
                requires
                    2 * j <= u,
                    d > 0,
                    ud == u * d,
                    ru == r * d * u,
            ;
            assert(2 * apart(ru, 10000 * v) <= ud);
            if n <= d {
                assert(x <= ud) by (nonlinear_arith)
                    requires
                        n <= d,
                        u > 0,
                        x == n * u,
                        ud == u * d,
                ;
                assert(20 * apart(10000 * v, 10000 * x) <= ud);
                assert(20 * apart(ru, 10000 * x) <= 11 * ud);
                lemma_apart_scale(r * d, 10000 * n, u);
                assert((10000 * n) * u == 10000 * x) by (nonlinear_arith)
                    requires
                        x == n * u,
                ;
                let k = apart(r * d, 10000 * n);
                assert(20 * k <= 11 * d) by (nonlinear_arith)
                    requires
                        20 * (k * u) <= 11 * ud,
                        ud == u * d,
                        u > 0,
                        d > 0,
                ;
            }
            if n >= d {
                assert(x >= ud) by (nonlinear_arith)
                    requires
                        n >= d,
                        u > 0,
                        x == n * u,
                        ud == u * d,
                ;
                assert(v * 0x100_0000 >= 0xff_fe00 * x);
                assert(10 * (10000 * v) >= 99996 * x);
                assert(ud > 0) by (nonlinear_arith)
                    requires
                        u > 0,
                        d > 0,
                        ud == u * d,
                ;
                assert(2 * ru >= 20000 * v - ud);
                assert(ru > 9999 * ud);
                assert(r > 9999) by (nonlinear_arith)
                    requires
                        ru > 9999 * ud,
                        ru == r * d * u,
                        ud == u * d,
                        u > 0,
                        d > 0,
                ;
            }
        } else {
            if n < d {
                // The number is one or more, so that what it is near to cannot
                // be much less.
                let ud = u * d;
                assert(v >= ud) by (nonlinear_arith)
                    requires
                        value(a) >= u,
                        d > 0,
                        v == value(a) * d,
                        ud == u * d,
                ;
                assert((v - x) * 0x100_0000 <= 80 * x);
                assert(20 * (10000 * (ud - x)) <= ud) by {
                    assert(ud > 0) by (nonlinear_arith)
                        requires
                            u > 0,
                            d > 0,
                            ud == u * d,
                    ;
                }
                assert(20 * (10000 * d - 10000 * n) <= d) by (nonlinear_arith)
                    requires
                        20 * (10000 * (ud - x)) <= ud,
                        ud == u * d,
                        x == n * u,
                        u > 0,
                ;
            }
            let b = binary::widened(a);
            quant::law_quantize_monotone(binary::widened(binary::one()), b);
            quant::law_quantize_monotone(b, 0x7ff0_0000_0000_0000);
            assert(quant::quantized(0x7ff0_0000_0000_0000) == 10000) by {
                assert(0x7ff0_0000_0000_0000int / 0x10_0000_0000_0000 % 0x800 == 0x7ff);
                assert(0x7ff0_0000_0000_0000int % 0x10_0000_0000_0000 == 0);
            }
            if n == d {
                assert(r * d == 10000 * n) by (nonlinear_arith)
                    requires
                        r == 10000,
                        n == d,
                ;
            }
        }
    }
}

/// One divided by a whole number.
proof fn lemma_inverse(k: int)
    requires
        0 < k <= u32::MAX,
    ensures
        is_near(normalize::inverse(k), 1, k, 5),
        binary::is_single(normalize::inverse(k)),
        -56 <= normalize::inverse(k).1 <= -22,
{
    let (a, b) = (binary::one(), binary::single_of(k, 1, 0));
    lemma_one();
    lemma_whole(k);
    assert(is_near(a, 1, 1, 0)) by {
        assert(value(a) * 1 == unit() && 1 * unit() == unit());
    }
    lemma_quotient(a, 1, 1, 0, b, k, 1, 1);
    assert(1 * k == k);
}

/// `r` is `n / d` on the scale of ten thousand: all of it if `n / d` is one or
/// more, and otherwise the nearest to the exact product, give or take a
/// twentieth.
pub open spec fn is_share(r: int, n: int, d: int) -> bool {
    &&& 0 <= r <= 10000
    &&& n >= d ==> r == 10000
    &&& n <= d ==> 20 * apart(r * d, 10000 * n) <= 11 * d
}

/// The share that a number near to `n / d` is of `k`.
pub proof fn law_share_is_exact(x: (int, int), n: int, d: int, c: int, k: int)
    requires
        binary::is_single(x),
        -110 <= x.1 <= 60,
        is_near(x, n, d, c),
        c <= 72,
        0 < k <= u32::MAX,
    ensures
        is_share(normalize::share(x, k), n, d * k),
{
    reveal(normalize::share);
    lemma_inverse(k);
    let i = normalize::inverse(k);
    lemma_product(x, n, d, c, i, 1, k, 5);
    assert(n * 1 == n);
    let p = binary::product(x, i);
    lemma_feature(p, n, d * k, c + 8);
}

/// The share that a small whole number is of `k`.
pub proof fn law_part_is_exact(n: int, k: int)
    requires
        0 <= n <= u32::MAX,
        0 < k <= u32::MAX,
    ensures
        is_share(normalize::part(n, k), n, k),
{
    reveal(normalize::part);
    lemma_inverse(k);
    lemma_whole(n);
    let (a, i) = (binary::single_of(n, 1, 0), normalize::inverse(k));
    lemma_product(a, n, 1, 1, i, 1, k, 5);
    assert(n * 1 == n && 1 * k == k);
    lemma_feature(binary::product(a, i), n, k, 9);
}

/// The time since the last transaction is its share of a day; time that would
/// run backward is none.
pub proof fn law_elapsed_is_share_of_day(seconds: int)
    requires
        seconds <= u64::MAX,
    ensures
        seconds <= 0 ==> normalize::elapsed(seconds) == 0,
        seconds > 0 ==> is_share(normalize::elapsed(seconds), seconds, 24int * 60 * 60),
{
    if seconds > 0 {
        let (a, b) = (binary::single_of(seconds, 1, 0), binary::single_of(60, 1, 0));
        lemma_whole(seconds);
        lemma_whole(60);
        lemma_quotient(a, seconds, 1, 1, b, 60, 1, 1);
        let q = binary::quotient(a, b);
        assert(seconds * 1 == seconds);
        law_share_is_exact(q, seconds, 60, 6, 1440);
    }
}

/// The ratio of an amount to the average, as a share of ten. An average of zero
/// stands for one.
pub proof fn law_ratio_is_share(a: (int, int), n: int, d: int, b: (int, int), k: int, l: int)
    requires
        binary::is_single(a),
        binary::is_single(b),
        -60 <= a.1 <= 20,
        -60 <= b.1 <= 20,
        is_near(a, n, d, 20),
        is_near(b, k, l, 20),
    ensures
        ({
            let r = normalize::share(binary::quotient(a, normalize::divisor(b)), 10);
            &&& k > 0 ==> is_share(r, n * l, d * k * 10)
            &&& k == 0 ==> is_share(r, n, d * 10)
        }),
{
    lemma_near_zero(b, k, l, 20);
    if k > 0 {
        lemma_quotient(a, n, d, 20, b, k, l, 20);
        law_share_is_exact(binary::quotient(a, b), n * l, d * k, 63, 10);
    } else {
        let o = binary::one();
        lemma_one();
        assert(is_near(o, 1, 1, 0)) by {
            assert(value(o) * 1 == unit() && 1 * unit() == unit());
        }
        lemma_quotient(a, n, d, 20, o, 1, 1, 0);
        assert(n * 1 == n && d * 1 == d);
        law_share_is_exact(binary::quotient(a, o), n, d, 23, 10);
    }
}

// ---------------------------------------------------------------------------
// Numbers as they are written
// ---------------------------------------------------------------------------

/// The number that digits stand for.
pub open spec fn digits_value(t: Seq<u8>) -> int
    decreases t.len(),
{
    if t.len() == 0 {
        0
    } else {
        10 * digits_value(t.drop_last()) + (t.last() - 0x30)
    }
}

/// One with `n` zeros.
pub open spec fn ten_power(n: nat) -> int
    decreases n,
{
    if n == 0 {
        1
    } else {
        10 * ten_power((n - 1) as nat)
    }
}

pub open spec fn are_digits(t: Seq<u8>) -> bool {
    forall|i: int| 0 <= i < t.len() ==> 0x30 <= #[trigger] t[i] <= 0x39
}

/// A whole number and what stands behind its point, if anything.
pub open spec fn decimal_text(whole: Seq<u8>, fraction: Seq<u8>) -> Seq<u8> {
    if fraction.len() == 0 {
        whole
    } else {
        whole + seq![0x2eu8] + fraction
    }
}

proof fn lemma_past_digits(js: Seq<u8>, p: int, q: int)
    requires
        0 <= p <= q <= js.len(),
        forall|i: int| p <= i < q ==> ascii::is_digit(#[trigger] js[i]),
        q == js.len() || !ascii::is_digit(js[q]),
    ensures
        fields::past_digits(js, p) == q,
    decreases q - p,
{
    if p < q {
        lemma_past_digits(js, p + 1, q);
    }
}

proof fn lemma_decimal(js: Seq<u8>, p: int, t: Seq<u8>)
    requires
        0 <= p,
        p + t.len() <= js.len(),
        forall|i: int| 0 <= i < t.len() ==> #[trigger] js[p + i] == t[i],
    ensures
        fields::decimal(js, p, p + t.len()) == digits_value(t),
    decreases t.len(),
{
    if t.len() > 0 {
        let n = t.len() - 1;
        let u = t.drop_last();
        assert forall|i: int| 0 <= i < u.len() implies #[trigger] js[p + i] == u[i] by {
            assert(js[p + i] == t[i]);
        }
        lemma_decimal(js, p, u);
        assert(js[p + n] == t[n]);
    }
}

proof fn lemma_ten(n: nat)
    ensures
        fields::ten_to(n as int) == ten_power(n),
        ten_power(n) >= 1,
    decreases n,
{
    if n > 0 {
        lemma_ten((n - 1) as nat);
    }
}

/// Digits stand for less than one with as many zeros.
proof fn lemma_digits_below(t: Seq<u8>)
    requires
        are_digits(t),
    ensures
        0 <= digits_value(t) < ten_power(t.len()),
    decreases t.len(),
{
    if t.len() > 0 {
        let u = t.drop_last();
        assert forall|i: int| 0 <= i < u.len() implies 0x30 <= #[trigger] u[i] <= 0x39 by {
            assert(u[i] == t[i]);
        }
        lemma_digits_below(u);
        assert(0x30 <= t[t.len() - 1] <= 0x39);
    }
}

proof fn lemma_ten_small(n: nat)
    requires
        n <= 8,
    ensures
        1 <= ten_power(n) <= 100_000_000,
{
    reveal_with_fuel(ten_power, 10);
    assert(n == 0 || n == 1 || n == 2 || n == 3 || n == 4 || n == 5 || n == 6 || n == 7 || n == 8);
}

/// A number with up to eight places is read as what it says, but for some units
/// of `2^-24` of it. There is none if its whole part exceeds thirty-two bits.
#[verifier::spinoff_prover]
pub proof fn law_number_is_read(whole: Seq<u8>, fraction: Seq<u8>)
    requires
        are_digits(whole),
        are_digits(fraction),
        fraction.len() <= 8,
    ensures
        ({
            let x = fields::number(decimal_text(whole, fraction), 0);
            let d = ten_power(fraction.len());
            &&& x is Some <==> digits_value(whole) <= 0xffff_ffff
            &&& x is Some ==> {
                &&& binary::is_single(x->0)
                &&& -60 <= (x->0).1 <= 20
                &&& is_near(x->0, digits_value(whole) * d + digits_value(fraction), d, 8)
            }
        }),
{
    let js = decimal_text(whole, fraction);
    let q = whole.len() as int;
    let w = digits_value(whole);
    assert forall|i: int| 0 <= i < q implies ascii::is_digit(#[trigger] js[i]) by {
        assert(js[i] == whole[i]);
    }
    lemma_past_digits(js, 0, q);
    assert forall|i: int| 0 <= i < whole.len() implies #[trigger] js[0 + i] == whole[i] by {}
    lemma_decimal(js, 0, whole);
    lemma_digits_below(whole);
    if w <= 0xffff_ffff {
        lemma_whole(w);
        let a = binary::single_of(w, 1, 0);
        if fraction.len() == 0 {
            assert(w * 1 == w);
            assert(ten_power(0) == 1);
            lemma_loosen(a, w, 1, 1, 8);
        } else {
            let k = fraction.len();
            let (f, d) = (digits_value(fraction), ten_power(k));
            assert(js[q] == 0x2e);
            assert forall|i: int| q + 1 <= i < js.len() implies ascii::is_digit(
                #[trigger] js[i],
            ) by {
                assert(js[i] == fraction[i - q - 1]);
            }
            lemma_past_digits(js, q + 1, js.len() as int);
            assert forall|i: int| 0 <= i < fraction.len() implies #[trigger] js[q + 1 + i]
                == fraction[i] by {}
            lemma_decimal(js, q + 1, fraction);
            lemma_digits_below(fraction);
            lemma_ten(k);
            lemma_ten_small(k);
            lemma_whole(f);
            lemma_whole(d);
            let (b, c) = (binary::single_of(f, 1, 0), binary::single_of(d, 1, 0));
            lemma_quotient(b, f, 1, 1, c, d, 1, 1);
            assert(f * 1 == f && 1 * d == d);
            lemma_sum(a, w, 1, binary::quotient(b, c), f, d, 6);
        }
    }
}

/// Places behind the eighth do not count.
#[verifier::spinoff_prover]
pub proof fn law_number_has_eight_places(whole: Seq<u8>, fraction: Seq<u8>)
    requires
        are_digits(whole),
        are_digits(fraction),
        fraction.len() > 8,
    ensures
        fields::number(decimal_text(whole, fraction), 0) == fields::number(
            decimal_text(whole, fraction.take(8)),
            0,
        ),
{
    let (a, b) = (decimal_text(whole, fraction), decimal_text(whole, fraction.take(8)));
    let q = whole.len() as int;
    let f = fraction.take(8);
    assert forall|i: int| 0 <= i < q implies ascii::is_digit(#[trigger] a[i]) && a[i] == b[i] by {
        assert(a[i] == whole[i]);
    }
    assert forall|i: int| 0 <= i < q implies ascii::is_digit(#[trigger] b[i]) by {
        assert(b[i] == whole[i]);
    }
    assert(a[q] == 0x2e && b[q] == 0x2e);
    lemma_past_digits(a, 0, q);
    lemma_past_digits(b, 0, q);
    assert forall|i: int| 0 <= i < whole.len() implies #[trigger] a[0 + i] == whole[i] by {}
    assert forall|i: int| 0 <= i < whole.len() implies #[trigger] b[0 + i] == whole[i] by {}
    lemma_decimal(a, 0, whole);
    lemma_decimal(b, 0, whole);
    assert forall|i: int| q + 1 <= i < a.len() implies ascii::is_digit(#[trigger] a[i]) by {
        assert(a[i] == fraction[i - q - 1]);
    }
    assert forall|i: int| q + 1 <= i < b.len() implies ascii::is_digit(#[trigger] b[i]) by {
        assert(b[i] == fraction[i - q - 1]);
    }
    lemma_past_digits(a, q + 1, a.len() as int);
    lemma_past_digits(b, q + 1, b.len() as int);
    assert forall|i: int| 0 <= i < f.len() implies #[trigger] a[q + 1 + i] == f[i] by {}
    assert forall|i: int| 0 <= i < f.len() implies #[trigger] b[q + 1 + i] == f[i] by {}
    lemma_decimal(a, q + 1, f);
    lemma_decimal(b, q + 1, f);
}

pub proof fn lemma_loosen(a: (int, int), n: int, d: int, c: int, e: int)
    requires
        is_near(a, n, d, c),
        c <= e,
    ensures
        is_near(a, n, d, e),
{
    lemma_unit_positive();
    let z = n * unit();
    assert(c * z <= e * z) by (nonlinear_arith)
        requires
            c <= e,
            n >= 0,
            unit() > 0,
            z == n * unit(),
    ;
}

/// Nothing is exactly zero.
pub proof fn lemma_zero()
    ensures
        is_near((0int, 0int), 0, 1, 8),
        binary::is_single((0int, 0int)),
{
    let a = (0int, 0int);
    assert(value(a) == 0) by (nonlinear_arith)
        requires
            value(a) == 0 * power2::pow2(300),
    ;
    assert(0 * unit() == 0);
}

// ---------------------------------------------------------------------------
// Centroids and expected scores
// ---------------------------------------------------------------------------

/// A coordinate of a centroid is rounded to the nearest whole number, one half
/// upward, and kept to the scale. The bits are those of a normal number that is
/// not negative.
#[verifier::spinoff_prover]
pub proof fn law_centroid_is_nearest(bits: int)
    requires
        0x80_0000 <= bits < 0x7f80_0000,
    ensures
        ({
            let m = 0x80_0000 + bits % 0x80_0000;
            let e = bits / 0x80_0000 - 150;
            let d = power2::pow2((-e) as nat) as int;
            let r = quant::cell_of(bits);
            &&& 0 <= r <= 10000
            &&& e >= 0 ==> r == 10000
            &&& e < 0 ==> {
                &&& r < 10000 ==> 2 * (r * d - m) <= d && 2 * (m - r * d) < d
                &&& r == 10000 ==> 2 * m >= 19999 * d
            }
        }),
        quant::cell_of(bits + 0x8000_0000) == -quant::cell_of(bits),
{
    let m = 0x80_0000 + bits % 0x80_0000;
    let x = bits / 0x80_0000;
    let e = x - 150;
    assert(1 <= x < 0xff);
    assert(x % 0x100 == x);
    assert((bits + 0x8000_0000) / 0x80_0000 == x + 0x100);
    assert((bits + 0x8000_0000) % 0x80_0000 == bits % 0x80_0000);
    binary::lemma_unit(m, e);
    binary::lemma_unit(1, e);
    power2::lemma2_to64();
    if e >= 0 {
        let y = power2::pow2(e as nat) as int;
        power2::lemma_pow2_pos(e as nat);
        assert(binary::lowered(m, e) >= m) by {
            assert(m * y >= m) by (nonlinear_arith)
                requires
                    m > 0,
                    y >= 1,
            ;
        }
        let n = binary::lowered(m, e);
        assert((2 * n + 1) / 2 == n);
    } else {
        let d = power2::pow2((-e) as nat) as int;
        power2::lemma_pow2_pos((-e) as nat);
        assert(binary::raised(1, e) == d);
        let r = binary::half_up(m, d);
        vstd::arithmetic::div_mod::lemma_fundamental_div_mod(2 * m + d, 2 * d);
        vstd::arithmetic::div_mod::lemma_mod_bound(2 * m + d, 2 * d);
        let k = (2 * m + d) % (2 * d);
        assert(2 * d * r == 2 * (r * d)) by (nonlinear_arith);
        assert(2 * m + d == 2 * (r * d) + k);
        assert(r >= 0) by (nonlinear_arith)
            requires
                2 * m + d == 2 * (r * d) + k,
                0 <= k < 2 * d,
                m > 0,
                d > 0,
        ;
        if r >= 10000 {
            assert(r * d >= 10000 * d) by (nonlinear_arith)
                requires
                    r >= 10000,
                    d > 0,
            ;
        }
    }
}

/// An expected score that is not a number, or below the normal range, stands for
/// zero, and an infinite one for no count at all.
pub proof fn law_fifths_special(bits: int)
    requires
        0 <= bits < 0x8000_0000_0000_0000,
    ensures
        bits < 0x10_0000_0000_0000 ==> gate::fifths(bits) == Some(0int),
        bits == 0x7ff0_0000_0000_0000 ==> gate::fifths(bits) is None,
        bits > 0x7ff0_0000_0000_0000 ==> gate::fifths(bits) == Some(0int),
{
    if bits >= 0x7ff0_0000_0000_0000 {
        assert(bits / 0x10_0000_0000_0000 % 0x800 == 0x7ff);
        assert(bits % 0x10_0000_0000_0000 == bits - 0x7ff0_0000_0000_0000);
    } else if bits < 0x10_0000_0000_0000 {
        assert(bits / 0x10_0000_0000_0000 % 0x800 == 0);
    }
}

/// An expected score stands for the count of fraudulent neighbours that is
/// nearest to five times the score. The bits are those of a normal number, and
/// not of one that is far too great for a score.
#[verifier::spinoff_prover]
pub proof fn law_fifths_is_nearest(bits: int)
    requires
        0x10_0000_0000_0000 <= bits < 0x4240_0000_0000_0000,
    ensures
        ({
            let m = 0x10_0000_0000_0000 + bits % 0x10_0000_0000_0000;
            let d = power2::pow2((1075 - bits / 0x10_0000_0000_0000) as nat) as int;
            &&& gate::fifths(bits) is Some
            &&& 100 * apart(gate::fifths(bits)->0 * d, 5 * m) <= 51 * d
        }),
        gate::fifths(bits + 0x8000_0000_0000_0000) == Some(-(gate::fifths(bits)->0)),
{
    let x = bits / 0x10_0000_0000_0000;
    let m = 0x10_0000_0000_0000 + bits % 0x10_0000_0000_0000;
    assert(1 <= x < 1060);
    assert(x % 0x800 == x);
    assert((bits + 0x8000_0000_0000_0000) / 0x10_0000_0000_0000 == x + 0x800);
    assert((bits + 0x8000_0000_0000_0000) % 0x10_0000_0000_0000 == bits % 0x10_0000_0000_0000);
    let n = m * 5;
    power2::lemma2_to64();
    power2::lemma2_to64_rest();
    let t: int = if n < 0x80_0000_0000_0000 {
        2
    } else {
        3
    };
    binary::lemma_unit(n, t);
    assert(binary::lowered(1, t) == power2::pow2(t as nat));
    binary::lemma_last_place(n, 1, 53, t);
    law_rounded_to_nearest(n, 1, 53);
    let p = binary::rounded(n, 1, 53);
    let y = power2::pow2(t as nat) as int;
    let s = power2::pow2(p.1 as nat) as int;
    let big = p.0 * s;
    assert(p.1 == t || p.1 == t + 1);
    assert(s == if p.1 == t {
        y
    } else {
        2 * y
    });
    assert(apart(big, n) <= 4) by {
        let w = p.0 * if p.1 == t {
            1int
        } else {
            2
        };
        assert(w * y == big) by (nonlinear_arith)
            requires
                w == p.0 && s == y || w == p.0 * 2 && s == 2 * y,
                big == p.0 * s,
        ;
    }
    let f = 1075 - x;
    let e = p.1 - f;
    assert(e < 0);
    let c = power2::pow2((-e) as nat) as int;
    power2::lemma_pow2_pos((-e) as nat);
    power2::lemma_pow2_adds((-e) as nat, p.1 as nat);
    assert((-e) as nat + p.1 as nat == f as nat);
    let d = power2::pow2(f as nat) as int;
    assert(d == c * s);
    binary::lemma_unit(p.0, e);
    assert(binary::raised(1, e) == c);
    quant::lemma_half_up_near(p.0, c);
    let r = binary::half_up(p.0, c);
    assert(gate::fifths(bits) == Some(r));
    lemma_apart_scale(r * c, p.0, s);
    assert((r * c) * s == r * d) by (nonlinear_arith)
        requires
            d == c * s,
    ;
    let j = apart(r * c, p.0);
    assert(2 * (j * s) <= d) by (nonlinear_arith)
        requires
            2 * j <= c,
            s > 0,
            d == c * s,
    ;
    binary::lemma_pow2_step(15, f as nat);
    assert(d >= 0x8000);
}

} // verus!
