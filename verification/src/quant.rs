//! Features on a scale of ten thousand, as sixteen-bit integers.
use vstd::prelude::*;
use vstd::arithmetic::power2;
use crate::binary::{self, round_ratio};

verus! {

/// Scale of a stored feature: the number one.
pub const SCALE: i16 = 10000;

/// `n * 2^e` rounded to the nearest integer, halves up, and at most `SCALE`.
pub open spec fn nearest_cell(n: int, e: int) -> int {
    let r = binary::half_up(binary::lowered(n, e), binary::raised(1, e));
    if r > SCALE {
        SCALE as int
    } else {
        r
    }
}

pub open spec fn signed(negative: bool, r: int) -> int {
    if negative {
        -r
    } else {
        r
    }
}

/// The binary64 number in `bits`, times `SCALE`, kept from `-SCALE` to `SCALE`
/// and rounded to the nearest integer, halves away from zero. The product is
/// rounded to fifty-three bits first. What is not a number gives zero, and
/// so does one below the normal range.
pub open spec fn quantized(bits: int) -> int {
    let exponent = bits / 0x10_0000_0000_0000 % 0x800;
    let fraction = bits % 0x10_0000_0000_0000;
    signed(
        bits >= 0x8000_0000_0000_0000,
        if exponent == 0x7ff {
            if fraction == 0 {
                SCALE as int
            } else {
                0
            }
        } else if exponent == 0 {
            0
        } else {
            let p = binary::rounded((0x10_0000_0000_0000 + fraction) * SCALE, 1, 53);
            nearest_cell(p.0, p.1 + exponent - 1075)
        },
    )
}

/// The binary32 number in `bits`, kept from `-SCALE` to `SCALE` and rounded to
/// the nearest integer, halves away from zero. What is not a number gives
/// zero.
pub open spec fn cell_of(bits: int) -> int {
    let exponent = bits / 0x80_0000 % 0x100;
    let fraction = bits % 0x80_0000;
    signed(
        bits >= 0x8000_0000,
        if exponent == 0xff {
            if fraction == 0 {
                SCALE as int
            } else {
                0
            }
        } else if exponent == 0 {
            0
        } else {
            nearest_cell(0x80_0000 + fraction, exponent - 150)
        },
    )
}

/// Nearest integers grow with the dividend.
proof fn lemma_half_up_at_least(n: int, d: int, c: int)
    requires
        d > 0,
        n >= c * d,
    ensures
        binary::half_up(n, d) >= c,
{
    vstd::arithmetic::div_mod::lemma_fundamental_div_mod(2 * n + d, 2 * d);
    let q = (2 * n + d) / (2 * d);
    let r = (2 * n + d) % (2 * d);
    assert(q >= c) by (nonlinear_arith)
        requires
            2 * n + d == 2 * d * q + r,
            0 <= r < 2 * d,
            n >= c * d,
            d > 0,
    ;
}

/// `n * 2^e` rounded to the nearest integer, and at most `SCALE`.
pub(crate) fn cell(n: u128, e: i32) -> (r: i16)
    requires
        0 < n <= 0x20_0000_0000_0000,
        -2000 <= e <= 2000,
    ensures
        r == nearest_cell(n as int, e as int),
        0 <= r <= SCALE,
{
    proof {
        power2::lemma2_to64();
        binary::lemma_unit(n as int, e as int);
        binary::lemma_unit(1, e as int);
    }
    if e >= 0 {
        let mut x = n;
        let mut i: i32 = 0;
        proof {
            binary::lemma_unit(n as int, 0);
        }
        while i < e && x < 10000
            invariant
                0 <= i <= e,
                0 < x <= 0x40_0000_0000_0000,
                x == n * power2::pow2(i as nat),
            decreases e - i,
        {
            proof {
                let y = power2::pow2(i as nat) as int;
                power2::lemma_pow2_unfold((i + 1) as nat);
                assert(n * (2 * y) == 2 * (n * y)) by (nonlinear_arith);
            }
            x = 2 * x;
            i = i + 1;
        }
        proof {
            let y = power2::pow2(i as nat) as int;
            if i < e {
                binary::lemma_pow2_step(i as nat, e as nat);
                let z = power2::pow2(e as nat) as int;
                assert(n * y <= n * z) by (nonlinear_arith)
                    requires
                        n > 0,
                        y <= z,
                ;
            }
            lemma_half_up_at_least(binary::lowered(n as int, e as int), 1, x as int);
            assert((2 * x + 1) / 2 == x);
        }
        if x > 10000 {
            10000
        } else {
            x as i16
        }
    } else {
        let s: i32 = -e;
        let mut d: u128 = 1;
        let mut i: i32 = 0;
        while i < s
            invariant
                0 <= i <= s,
                s == -e,
                0 < n <= 0x20_0000_0000_0000,
                d == power2::pow2(i as nat),
                0 < d <= 0x200_0000_0000_0000,
                e < 0,
                binary::lowered(n as int, e as int) == n,
                binary::raised(1, e as int) == power2::pow2(s as nat),
            decreases s - i,
        {
            if d > 2 * n {
                proof {
                    binary::lemma_pow2_step(i as nat, s as nat);
                    let z = power2::pow2(s as nat) as int;
                    vstd::arithmetic::div_mod::lemma_basic_div(2 * n + z, 2 * z);
                }
                return 0;
            }
            proof {
                power2::lemma_pow2_unfold((i + 1) as nat);
            }
            d = 2 * d;
            i = i + 1;
        }
        let q = (2 * n + d) / (2 * d);
        if q > 10000 {
            10000
        } else {
            q as i16
        }
    }
}

/// The feature whose binary64 bits are given, on the stored scale.
pub fn quantize(bits: u64) -> (r: i16)
    ensures
        r == quantized(bits as int),
        -SCALE <= r <= SCALE,
        bits < 0x8000_0000_0000_0000 ==> r >= 0,
{
    let exponent: u64 = bits / 0x10_0000_0000_0000 % 0x800;
    let fraction: u64 = bits % 0x10_0000_0000_0000;
    let r = if exponent == 0x7ff {
        if fraction == 0 {
            SCALE
        } else {
            0
        }
    } else if exponent == 0 {
        0
    } else {
        proof {
            power2::lemma2_to64();
            power2::lemma2_to64_rest();
        }
        let n: u64 = 0x10_0000_0000_0000 + fraction;
        let p = round_ratio(n as u128 * 10000, 1, 0x20_0000_0000_0000, Ghost(53nat));
        cell(p.0, p.1 + exponent as i32 - 1075)
    };
    if bits >= 0x8000_0000_0000_0000 {
        -r
    } else {
        r
    }
}

/// The stored centroid coordinate for the one whose binary32 bits are given.
pub fn centroid_cell(bits: u32) -> (r: i16)
    ensures
        r == cell_of(bits as int),
        -SCALE <= r <= SCALE,
{
    let exponent: u32 = bits / 0x80_0000 % 0x100;
    let fraction: u32 = bits % 0x80_0000;
    let r = if exponent == 0xff {
        if fraction == 0 {
            SCALE
        } else {
            0
        }
    } else if exponent == 0 {
        0
    } else {
        cell((0x80_0000 + fraction) as u128, exponent as i32 - 150)
    };
    if bits >= 0x8000_0000 {
        -r
    } else {
        r
    }
}

/// Quantizing keeps signs apart: the negated number gives the negated feature.
pub proof fn law_quantize_odd(bits: int)
    requires
        0 <= bits < 0x8000_0000_0000_0000,
    ensures
        quantized(bits + 0x8000_0000_0000_0000) == -quantized(bits),
{
    assert((bits + 0x8000_0000_0000_0000) / 0x10_0000_0000_0000 == bits / 0x10_0000_0000_0000
        + 0x800);
}

/// Greater multiples of `2^e` give no smaller cells.
proof fn lemma_cell_monotone(a: int, b: int, e: int)
    requires
        0 <= a <= b,
    ensures
        0 <= nearest_cell(a, e) <= nearest_cell(b, e) <= SCALE,
{
    let up = power2::pow2(
        if e > 0 {
            e as nat
        } else {
            0
        },
    ) as int;
    power2::lemma_pow2_pos(
        if e > 0 {
            e as nat
        } else {
            0
        },
    );
    power2::lemma_pow2_pos(
        if e < 0 {
            (-e) as nat
        } else {
            0
        },
    );
    let d = binary::raised(1, e);
    assert(0 <= a * up <= b * up) by (nonlinear_arith)
        requires
            0 <= a <= b,
            0 < up,
    ;
    lemma_half_up_at_least(a * up, d, 0);
    vstd::arithmetic::div_mod::lemma_div_is_ordered(2 * (a * up) + d, 2 * (b * up) + d, 2 * d);
}

/// Twice as many units are as many units of twice the size.
proof fn lemma_cell_double(n: int, e: int)
    ensures
        nearest_cell(2 * n, e) == nearest_cell(n, e + 1),
{
    binary::lemma_unit(2 * n, e);
    binary::lemma_unit(1, e);
    binary::lemma_unit(n, e + 1);
    binary::lemma_unit(1, e + 1);
    if e >= 0 {
        let y = power2::pow2(e as nat) as int;
        power2::lemma_pow2_unfold((e + 1) as nat);
        assert(2 * n * y == n * (2 * y)) by (nonlinear_arith);
    } else {
        let y = power2::pow2((-e - 1) as nat) as int;
        power2::lemma_pow2_pos((-e - 1) as nat);
        power2::lemma_pow2_unfold((-e) as nat);
        let q = (2 * n + y) / (2 * y);
        let r = (2 * n + y) % (2 * y);
        vstd::arithmetic::div_mod::lemma_fundamental_div_mod(2 * n + y, 2 * y);
        assert(2 * (2 * n) + 2 * y == q * (2 * (2 * y)) + 2 * r) by (nonlinear_arith)
            requires
                2 * n + y == 2 * y * q + r,
        ;
        vstd::arithmetic::div_mod::lemma_fundamental_div_mod_converse(
            2 * (2 * n) + 2 * y,
            2 * (2 * y),
            q,
            2 * r,
        );
        assert(binary::raised(1, e) == 2 * y);
    }
}

proof fn lemma_half_even_monotone(a: int, b: int, d: int)
    requires
        d > 0,
        a <= b,
    ensures
        binary::half_even(a, d) <= binary::half_even(b, d),
{
    vstd::arithmetic::div_mod::lemma_div_is_ordered(a, b, d);
    vstd::arithmetic::div_mod::lemma_fundamental_div_mod(a, d);
    vstd::arithmetic::div_mod::lemma_fundamental_div_mod(b, d);
    if a / d == b / d {
        assert(a % d <= b % d);
    }
}

/// The significand `m` with an exponent of `e`, on the scale.
spec fn scaled(m: int, e: int) -> int {
    let p = binary::rounded(m * SCALE, 1, 53);
    nearest_cell(p.0, p.1 + e)
}

/// The product of a significand and the scale has sixty-six or sixty-seven
/// bits.
proof fn lemma_scaled(m: int, e: int)
    requires
        0x10_0000_0000_0000 <= m < 0x20_0000_0000_0000,
    ensures
        m * SCALE < 0x4_0000_0000_0000_0000 ==> {
            let h = binary::half_even(m * SCALE, 0x2000);
            0x10_0000_0000_0000 <= h <= 0x20_0000_0000_0000 && scaled(m, e) == nearest_cell(
                h,
                e + 13,
            )
        },
        m * SCALE >= 0x4_0000_0000_0000_0000 ==> {
            let h = binary::half_even(m * SCALE, 0x4000);
            0x10_0000_0000_0000 <= h <= 0x20_0000_0000_0000 && scaled(m, e) == nearest_cell(
                h,
                e + 14,
            )
        },
{
    power2::lemma2_to64();
    power2::lemma2_to64_rest();
    let n = m * SCALE;
    let t: int = if n < 0x4_0000_0000_0000_0000 {
        13
    } else {
        14
    };
    let d: int = if n < 0x4_0000_0000_0000_0000 {
        0x2000
    } else {
        0x4000
    };
    assert(power2::pow2(t as nat) == d);
    binary::lemma_unit(n, t);
    assert(binary::lowered(1, t) == d);
    binary::lemma_last_place(n, 1, 53, t);
    let h = binary::half_even(n, d);
    assert(0x10_0000_0000_0000 <= h <= 0x20_0000_0000_0000);
    if h == 0x20_0000_0000_0000 {
        lemma_cell_double(0x10_0000_0000_0000, e + t);
    }
}

/// The next significand gives no smaller cell.
proof fn lemma_next_significand(m: int, e: int)
    requires
        0x10_0000_0000_0000 <= m,
        m + 1 < 0x20_0000_0000_0000,
    ensures
        scaled(m, e) <= scaled(m + 1, e),
{
    lemma_scaled(m, e);
    lemma_scaled(m + 1, e);
    let a = m * SCALE;
    let b = (m + 1) * SCALE;
    if b < 0x4_0000_0000_0000_0000 {
        lemma_half_even_monotone(a, b, 0x2000);
        lemma_cell_monotone(
            binary::half_even(a, 0x2000),
            binary::half_even(b, 0x2000),
            e + 13,
        );
    } else if a >= 0x4_0000_0000_0000_0000 {
        lemma_half_even_monotone(a, b, 0x4000);
        lemma_cell_monotone(
            binary::half_even(a, 0x4000),
            binary::half_even(b, 0x4000),
            e + 14,
        );
    } else {
        lemma_cell_monotone(binary::half_even(a, 0x2000), 0x20_0000_0000_0000, e + 13);
        lemma_cell_double(0x10_0000_0000_0000, e + 13);
        lemma_cell_monotone(0x10_0000_0000_0000, binary::half_even(b, 0x4000), e + 14);
    }
}

/// The least significand with the next exponent gives no smaller cell than the
/// greatest.
proof fn lemma_next_exponent(e: int)
    ensures
        scaled(0x1f_ffff_ffff_ffff, e) <= scaled(0x10_0000_0000_0000, e + 1),
{
    lemma_scaled(0x1f_ffff_ffff_ffff, e);
    lemma_scaled(0x10_0000_0000_0000, e + 1);
    let a = 0x1f_ffff_ffff_ffff * SCALE;
    let b = 0x10_0000_0000_0000 * SCALE;
    let h = binary::half_even(a, 0x4000);
    let k = binary::half_even(b, 0x2000);
    assert(h <= k);
    lemma_cell_monotone(h, k, e + 14);
}

/// The next number gives no smaller feature.
proof fn lemma_next(bits: int)
    requires
        0 <= bits < 0x7ff0_0000_0000_0000,
    ensures
        quantized(bits) <= quantized(bits + 1),
{
    let exponent = bits / 0x10_0000_0000_0000 % 0x800;
    let fraction = bits % 0x10_0000_0000_0000;
    let m = 0x10_0000_0000_0000 + fraction;
    let next = bits + 1;
    if exponent == 0 {
        if next == 0x10_0000_0000_0000 {
            let h = binary::half_even(0x10_0000_0000_0000 * SCALE, 0x2000);
            lemma_scaled(0x10_0000_0000_0000, -1074);
            lemma_cell_monotone(h, h, -1061);
            assert(quantized(next) == scaled(0x10_0000_0000_0000, -1074));
        }
    } else {
        let e = exponent - 1075;
        assert(quantized(bits) == scaled(m, e));
        lemma_scaled(m, e);
        if fraction + 1 < 0x10_0000_0000_0000 {
            lemma_next_significand(m, e);
            assert(next / 0x10_0000_0000_0000 % 0x800 == exponent);
            assert(next % 0x10_0000_0000_0000 == fraction + 1);
            assert(quantized(next) == scaled(m + 1, e));
        } else {
            assert(next == (exponent + 1) * 0x10_0000_0000_0000);
            if exponent + 1 < 0x7ff {
                lemma_next_exponent(e);
                assert(quantized(next) == scaled(0x10_0000_0000_0000, e + 1));
            } else {
                let h = binary::half_even(m * SCALE, 0x4000);
                lemma_cell_monotone(h, h, e + 14);
                assert(quantized(next) == SCALE);
            }
        }
    }
}

/// Greater features are quantized to no smaller ones. The bits of numbers that
/// are not negative are in the order of the numbers, up to infinity.
pub proof fn law_quantize_monotone(a: int, b: int)
    requires
        0 <= a <= b <= 0x7ff0_0000_0000_0000,
    ensures
        quantized(a) <= quantized(b),
    decreases b - a,
{
    if a < b {
        law_quantize_monotone(a, b - 1);
        lemma_next(b - 1);
    }
}

/// Significand and exponent of the product of the scale and a normal number,
/// given by its bits without the sign.
pub open spec fn scaled_product(bits: int) -> (int, int) {
    let p = binary::rounded(
        (0x10_0000_0000_0000 + bits % 0x10_0000_0000_0000) * SCALE,
        1,
        53,
    );
    (p.0, p.1 + bits / 0x10_0000_0000_0000 - 1075)
}

/// What is nearest is within one half.
pub proof fn lemma_half_up_near(n: int, d: int)
    requires
        d > 0,
    ensures
        2 * (binary::half_up(n, d) * d - n) <= d,
        2 * (n - binary::half_up(n, d) * d) <= d,
{
    let r = binary::half_up(n, d);
    vstd::arithmetic::div_mod::lemma_fundamental_div_mod(2 * n + d, 2 * d);
    let m = (2 * n + d) % (2 * d);
    assert(2 * d * r == 2 * (r * d)) by (nonlinear_arith);
    assert(2 * n + d == 2 * (r * d) + m);
}

/// The product of the scale and a number up to one is at most the scale.
#[verifier::spinoff_prover]
proof fn lemma_product_in_scale(bits: int)
    requires
        0x10_0000_0000_0000 <= bits <= 0x3ff0_0000_0000_0000,
    ensures
        ({
            let p = scaled_product(bits);
            p.1 < 0 && 0 < p.0 <= SCALE * power2::pow2((-p.1) as nat)
        }),
{
    let e = bits / 0x10_0000_0000_0000 - 1075;
    let m = 0x10_0000_0000_0000 + bits % 0x10_0000_0000_0000;
    let p = scaled_product(bits);
    assert(e <= -52 && (e == -52 ==> m == 0x10_0000_0000_0000));
    power2::lemma2_to64();
    power2::lemma2_to64_rest();
    lemma_place(m);
    let q = binary::rounded(m * SCALE, 1, 53);
    assert(p == (q.0, q.1 + e));
    let least: nat = if q.1 + e < -39 {
        40
    } else {
        39
    };
    if least < -p.1 {
        binary::lemma_pow2_step(least, (-p.1) as nat);
    }
}

/// The product of a significand and the scale, rounded.
#[verifier::spinoff_prover]
proof fn lemma_place(m: int)
    requires
        0x10_0000_0000_0000 <= m < 0x20_0000_0000_0000,
    ensures
        ({
            let q = binary::rounded(m * SCALE, 1, 53);
            &&& q.1 == 13 || q.1 == 14
            &&& 0 < q.0 <= 0x20_0000_0000_0000
            &&& q.1 == 14 ==> q.0 <= 10000 * 0x80_0000_0000
            &&& m == 0x10_0000_0000_0000 ==> q.0 == 10000 * 0x80_0000_0000 && q.1 == 13
        }),
{
    power2::lemma2_to64();
    power2::lemma2_to64_rest();
    let n = m * SCALE;
    let t: int = if n < 0x4_0000_0000_0000_0000 {
        13
    } else {
        14
    };
    let d: int = if n < 0x4_0000_0000_0000_0000 {
        0x2000
    } else {
        0x4000
    };
    assert(power2::pow2(t as nat) == d);
    binary::lemma_unit(n, t);
    assert(binary::lowered(1, t) == d);
    binary::lemma_last_place(n, 1, 53, t);
    let h = binary::half_even(n, d);
    assert(0x10_0000_0000_0000 <= h <= 0x20_0000_0000_0000);
    if t == 14 {
        assert(h <= 10000 * 0x80_0000_0000);
    }
}

/// A number from minus one to one is quantized to within one half of its
/// product with the scale. One below the normal range gives zero.
pub proof fn law_quantize_nearest(bits: int)
    requires
        0 <= bits < 0x1_0000_0000_0000_0000,
        bits % 0x8000_0000_0000_0000 <= 0x3ff0_0000_0000_0000,
    ensures
        ({
            let b = bits % 0x8000_0000_0000_0000;
            let p = scaled_product(b);
            let d = power2::pow2((-p.1) as nat) as int;
            let r = signed(bits >= 0x8000_0000_0000_0000, quantized(bits));
            if b < 0x10_0000_0000_0000 {
                r == 0
            } else {
                p.1 < 0 && 2 * (r * d - p.0) <= d && 2 * (p.0 - r * d) <= d
            }
        }),
{
    let b = bits % 0x8000_0000_0000_0000;
    assert(bits / 0x10_0000_0000_0000 % 0x800 == b / 0x10_0000_0000_0000);
    assert(bits % 0x10_0000_0000_0000 == b % 0x10_0000_0000_0000);
    if b >= 0x10_0000_0000_0000 {
        let p = scaled_product(b);
        let d = power2::pow2((-p.1) as nat) as int;
        lemma_product_in_scale(b);
        power2::lemma_pow2_pos((-p.1) as nat);
        binary::lemma_unit(p.0, p.1);
        assert(binary::raised(1, p.1) == d);
        lemma_half_up_near(p.0, d);
        let r = binary::half_up(p.0, d);
        assert(r <= SCALE) by (nonlinear_arith)
            requires
                2 * (r * d - p.0) <= d,
                p.0 <= SCALE * d,
                d > 0,
        ;
    }
}

/// One and more are quantized to the scale, up to infinity, and what is not a
/// number to zero, as is what lies below the normal range.
pub proof fn law_quantize_special(bits: int)
    requires
        0 <= bits < 0x8000_0000_0000_0000,
    ensures
        0x3ff0_0000_0000_0000 <= bits <= 0x7ff0_0000_0000_0000 ==> quantized(bits) == 10000,
        bits > 0x7ff0_0000_0000_0000 ==> quantized(bits) == 0,
        bits < 0x10_0000_0000_0000 ==> quantized(bits) == 0,
{
    if bits > 0x7ff0_0000_0000_0000 {
        assert(bits / 0x10_0000_0000_0000 % 0x800 == 0x7ff);
        assert(bits % 0x10_0000_0000_0000 != 0);
    } else if bits >= 0x3ff0_0000_0000_0000 {
        let one = 0x3ff0_0000_0000_0000int;
        law_quantize_monotone(one, bits);
        law_quantize_monotone(bits, 0x7ff0_0000_0000_0000);
        assert(0x7ff0_0000_0000_0000int / 0x10_0000_0000_0000 % 0x800 == 0x7ff);
        assert(0x7ff0_0000_0000_0000int % 0x10_0000_0000_0000 == 0);
        assert(quantized(0x7ff0_0000_0000_0000) == 10000);
        lemma_one_is_scale();
    } else if bits < 0x10_0000_0000_0000 {
        assert(bits / 0x10_0000_0000_0000 % 0x800 == 0);
    }
}

#[verifier::spinoff_prover]
proof fn lemma_one_is_scale()
    ensures
        quantized(0x3ff0_0000_0000_0000) == 10000,
{
    let one = 0x3ff0_0000_0000_0000int;
    assert(one % 0x8000_0000_0000_0000 == one);
    assert(one / 0x10_0000_0000_0000 == 1023 && one % 0x10_0000_0000_0000 == 0);
    law_quantize_nearest(one);
    lemma_place(0x10_0000_0000_0000);
    let p = scaled_product(one);
    assert(p == (10000int * 0x80_0000_0000, -39int));
    power2::lemma2_to64_rest();
    assert(power2::pow2(39) == 0x80_0000_0000);
    let r = quantized(one);
    assert((-p.1) as nat == 39);
    assert(2 * (r * 0x80_0000_0000 - p.0) <= 0x80_0000_0000);
    assert(2 * (p.0 - r * 0x80_0000_0000) <= 0x80_0000_0000);
    let n = p.0;
    assert(r == 10000) by (nonlinear_arith)
        requires
            n == 10000 * 0x80_0000_0000,
            2 * (r * 0x80_0000_0000 - n) <= 0x80_0000_0000,
            2 * (n - r * 0x80_0000_0000) <= 0x80_0000_0000,
    ;
}

/// Coordinates of centroids that are not numbers, or below the normal range, are
/// zero, and infinite ones the scale.
pub proof fn law_cell_special(bits: int)
    requires
        0 <= bits < 0x8000_0000,
    ensures
        bits == 0x7f80_0000 ==> cell_of(bits) == 10000,
        bits > 0x7f80_0000 ==> cell_of(bits) == 0,
        bits < 0x80_0000 ==> cell_of(bits) == 0,
{
    if bits >= 0x7f80_0000 {
        assert(bits / 0x80_0000 % 0x100 == 0xff);
        assert(bits % 0x80_0000 == bits - 0x7f80_0000);
    } else if bits < 0x80_0000 {
        assert(bits / 0x80_0000 % 0x100 == 0);
    }
}

} // verus!
