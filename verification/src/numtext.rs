//! Canonical renderings of the numeric kinds.
//!
//! Integer-kind metric values are exposed in their exact decimal form, and
//! the binary exposition format carries every numeric value as the bit
//! pattern of an IEEE-754 binary64 number, so this module holds the two
//! verified conversions: 64-bit integers to decimal text, and 64-bit
//! integers to the nearest binary64 bit pattern under round-to-nearest-even.

use vstd::arithmetic::div_mod::lemma_fundamental_div_mod;
use vstd::arithmetic::power2::{
    lemma2_to64, lemma2_to64_rest, lemma_pow2_adds, lemma_pow2_pos,
    lemma_pow2_strictly_increases, pow2,
};


use vstd::prelude::*;

verus! {

/// Relies on `String::push`: appends the given character to the end of the
/// string.
pub assume_specification[ String::push ](s: &mut String, c: char)
    ensures
        final(s)@ == old(s)@.push(c),
;

/// The concrete powers of two that the conversions lean on.
proof fn lemma_pow_constants()
    ensures
        pow2(0) == 1,
        pow2(1) == 2,
        pow2(52) == 0x10000000000000,
        pow2(53) == 0x20000000000000,
        pow2(63) == 0x8000000000000000,
        pow2(64) == 0x10000000000000000,
{
    lemma2_to64();
    lemma2_to64_rest();
}

/// The character for one decimal digit.
pub open spec fn dec_digit(d: int) -> char {
    if d == 0 {
        '0'
    } else if d == 1 {
        '1'
    } else if d == 2 {
        '2'
    } else if d == 3 {
        '3'
    } else if d == 4 {
        '4'
    } else if d == 5 {
        '5'
    } else if d == 6 {
        '6'
    } else if d == 7 {
        '7'
    } else if d == 8 {
        '8'
    } else {
        '9'
    }
}

/// The decimal rendering of a non-negative integer, without leading zeros.
pub open spec fn uint_text(n: int) -> Seq<char>
    decreases n,
{
    if n < 10 {
        seq![dec_digit(n)]
    } else {
        uint_text(n / 10).push(dec_digit(n % 10))
    }
}

/// The decimal rendering of an integer, with a leading minus sign when it
/// is negative.
pub open spec fn int_text(n: int) -> Seq<char> {
    if n < 0 {
        seq!['-'] + uint_text(-n)
    } else {
        uint_text(n)
    }
}

/// The character for one decimal digit.
fn digit_char(d: u64) -> (c: char)
    requires
        d < 10,
    ensures
        c == dec_digit(d as int),
{
    match d {
        0 => '0',
        1 => '1',
        2 => '2',
        3 => '3',
        4 => '4',
        5 => '5',
        6 => '6',
        7 => '7',
        8 => '8',
        _ => '9',
    }
}

/// Render an unsigned value in its exact decimal form.
pub fn u64_text(n: u64) -> (r: String)
    ensures
        r@ == uint_text(n as int),
    decreases n,
{
    if n < 10 {
        let mut s = String::new();
        s.push(digit_char(n));
        s
    } else {
        let mut s = u64_text(n / 10);
        s.push(digit_char(n % 10));
        s
    }
}

/// Render a signed value in its exact decimal form.
pub fn i64_text(n: i64) -> (r: String)
    ensures
        r@ == int_text(n as int),
{
    if n >= 0 {
        u64_text(n as u64)
    } else {
        let wide: i128 = -(n as i128);
        let mag: u64 = wide as u64;
        let mut s = String::new();
        s.push('-');
        let digits = u64_text(mag);
        s.append(digits.as_str());
        proof {
            assert(s@ =~= seq!['-'] + uint_text(-(n as int)));
        }
        s
    }
}

/// The binade of a positive integer: the largest `e` with `pow2(e) <= v`.
pub open spec fn floor_log2(v: int) -> nat
    decreases v,
{
    if v < 2 {
        0
    } else {
        1 + floor_log2(v / 2)
    }
}

/// An integer scaled down by `pow2(shift)` and rounded to the nearest
/// quotient, ties going to the even one.
pub open spec fn round_half_even(v: int, shift: nat) -> int
    recommends
        shift >= 1,
{
    let q = v / pow2(shift) as int;
    let r = v % pow2(shift) as int;
    let half = pow2((shift - 1) as nat) as int;
    if r > half || (r == half && q % 2 == 1) {
        q + 1
    } else {
        q
    }
}

/// The IEEE-754 binary64 bit pattern nearest to an unsigned 64-bit integer,
/// ties resolved to the even mantissa.  Values up to `pow2(53)` convert
/// exactly; larger values round in their binade.
pub open spec fn double_bits(v: u64) -> u64 {
    if v == 0 {
        0
    } else {
        let e = floor_log2(v as int);
        if e <= 52 {
            (((1023 + e) * pow2(52) + (v - pow2(e)) * pow2((52 - e) as nat)) as int) as u64
        } else {
            let q = round_half_even(v as int, (e - 52) as nat);
            if q == pow2(53) {
                (((1024 + e) * pow2(52)) as int) as u64
            } else {
                (((1023 + e) * pow2(52) + (q - pow2(52))) as int) as u64
            }
        }
    }
}

/// The binary64 bit pattern nearest to a signed 64-bit integer: the
/// magnitude's pattern with the sign bit set for negative values.
pub open spec fn double_bits_signed(n: i64) -> u64 {
    if n >= 0 {
        double_bits(n as u64)
    } else {
        (0x8000000000000000 + double_bits((-(n as int)) as u64)) as u64
    }
}

/// `pow2(e) <= v < pow2(e + 1)` pins down the binade.
proof fn lemma_floor_log2(v: int, e: nat)
    requires
        pow2(e) <= v < pow2(e + 1),
    ensures
        floor_log2(v) == e,
    decreases e,
{
    lemma_pow2_pos(e);
    if e == 0 {
        assert(pow2(1) == 2) by {
            lemma_pow_constants();
        }
    } else {
        assert(pow2(e) == 2 * pow2((e - 1) as nat)) by {
            lemma_pow2_adds(1, (e - 1) as nat);
            lemma_pow_constants();
        }
        assert(pow2(e + 1) == 2 * pow2(e)) by {
            lemma_pow2_adds(1, e);
            lemma_pow_constants();
        }
        assert(v >= 2);
        assert(pow2((e - 1) as nat) <= v / 2 < pow2(e)) by (nonlinear_arith)
            requires
                2 * pow2((e - 1) as nat) <= v < 2 * pow2(e),
                pow2((e - 1) as nat) > 0,
        ;
        lemma_floor_log2(v / 2, (e - 1) as nat);
    }
}

/// Compute a power of two.
fn pow2_exec(e: u64) -> (r: u64)
    requires
        e <= 63,
    ensures
        r == pow2(e as nat),
{
    let mut r: u64 = 1;
    let mut i: u64 = 0;
    proof {
        lemma_pow_constants();
    }
    while i < e
        invariant
            i <= e <= 63,
            r == pow2(i as nat),
            r >= 1,
        decreases e - i,
    {
        proof {
            lemma_pow2_strictly_increases(i as nat, 63);
            lemma_pow_constants();
            lemma_pow2_adds(1, i as nat);
        }
        r = r * 2;
        i = i + 1;
        proof {
            assert(pow2(i as nat) == 2 * pow2((i - 1) as nat)) by {
                lemma_pow2_adds(1, (i - 1) as nat);
                lemma_pow_constants();
            }
        }
    }
    r
}

/// Convert an unsigned value to the nearest binary64 bit pattern.
pub fn u64_double_bits(v: u64) -> (r: u64)
    ensures
        r == double_bits(v),
{
    if v == 0 {
        return 0;
    }
    // Find the binade: p == pow2(e) <= v < pow2(e + 1).
    let mut e: u64 = 0;
    let mut p: u64 = 1;
    proof {
        lemma_pow_constants();
        assert(pow2(0) == 1);
    }
    while v / 2 >= p
        invariant
            v >= 1,
            p == pow2(e as nat),
            p >= 1,
            p <= v,
            e <= 63,
        decreases v - p,
    {
        proof {
            assert(v >= 2 * p) by (nonlinear_arith)
                requires
                    v / 2 >= p,
                    v >= 1,
                    p >= 1,
            ;
            assert(pow2((e + 1) as nat) == 2 * pow2(e as nat)) by {
                lemma_pow2_adds(1, e as nat);
                lemma_pow_constants();
            }
            if e + 1 > 63 {
                lemma_pow2_strictly_increases(63, (e + 1) as nat);
                assert(pow2(63) < pow2((e + 1) as nat));
                lemma_pow_constants();
                assert(false);
            }
        }
        p = p * 2;
        e = e + 1;
    }
    proof {
        assert(v < 2 * p) by (nonlinear_arith)
            requires
                v / 2 < p,
                v >= 1,
                p >= 1,
        ;
        assert(pow2((e + 1) as nat) == 2 * pow2(e as nat)) by {
            lemma_pow2_adds(1, e as nat);
            lemma_pow_constants();
        }
        lemma_floor_log2(v as int, e as nat);
    }
    if e <= 52 {
        let scale = pow2_exec(52 - e);
        proof {
            lemma_pow2_adds(e as nat, (52 - e) as nat);
            lemma_pow2_pos((52 - e) as nat);
            lemma_pow_constants();
            assert((v - p) * scale < pow2(52)) by (nonlinear_arith)
                requires
                    v - p < pow2(e as nat),
                    scale == pow2((52 - e) as nat),
                    pow2(e as nat) * pow2((52 - e) as nat) == pow2(52),
                    scale > 0,
            ;
            assert((1023 + e) * 0x10000000000000 <= 1075 * 0x10000000000000) by (nonlinear_arith)
                requires
                    e <= 52,
            ;
        }
        let m = (v - p) * scale;
        (1023 + e) * 0x10000000000000 + m
    } else {
        let shift = e - 52;
        let ps = pow2_exec(shift);
        proof {
            lemma_pow2_pos(shift as nat);
        }
        let q0 = v / ps;
        let r0 = v % ps;
        let half = ps / 2;
        proof {
            lemma_fundamental_div_mod(v as int, ps as int);
            lemma_pow2_adds(shift as nat, 52);
            lemma_pow2_adds(shift as nat, 53);
            lemma_pow_constants();
            assert(pow2(53) == 2 * pow2(52));
            // The quotient sits in the binade's mantissa range.
            assert(q0 >= pow2(52)) by (nonlinear_arith)
                requires
                    v == ps * q0 + r0,
                    0 <= r0 < ps,
                    v >= pow2(e as nat),
                    pow2(e as nat) == ps * pow2(52),
                    ps > 0,
            ;
            assert(q0 < pow2(53)) by (nonlinear_arith)
                requires
                    v == ps * q0 + r0,
                    0 <= r0 < ps,
                    v < pow2((e + 1) as nat),
                    pow2((e + 1) as nat) == ps * pow2(53),
                    ps > 0,
            ;
            // The executable half threshold agrees with the spec's.
            assert(ps == 2 * pow2((shift - 1) as nat)) by {
                lemma_pow2_adds(1, (shift - 1) as nat);
                lemma_pow_constants();
            }
            assert(half == pow2((shift - 1) as nat));
            assert((1024 + e) * 0x10000000000000 <= 1087 * 0x10000000000000) by (nonlinear_arith)
                requires
                    e <= 63,
            ;
        }
        let q = if r0 > half || (r0 == half && q0 % 2 == 1) {
            q0 + 1
        } else {
            q0
        };
        if q == 0x20000000000000 {
            (1024 + e) * 0x10000000000000
        } else {
            (1023 + e) * 0x10000000000000 + (q - 0x10000000000000)
        }
    }
}

/// Convert a signed value to the nearest binary64 bit pattern.
pub fn i64_double_bits(n: i64) -> (r: u64)
    ensures
        r == double_bits_signed(n),
{
    if n >= 0 {
        u64_double_bits(n as u64)
    } else {
        let wide: i128 = -(n as i128);
        let mag: u64 = wide as u64;
        let bits = u64_double_bits(mag);
        proof {
            lemma_double_bits_finite(mag);
        }
        0x8000000000000000 + bits
    }
}

/// An integer's bit pattern stays strictly below the largest finite
/// exponent, so it is neither an infinity nor in the sign-bit half.
pub proof fn lemma_double_bits_finite(v: u64)
    ensures
        double_bits(v) < 0x4400000000000000,
{
    lemma_pow_constants();
    lemma2_to64();
    lemma_pow2_adds(11, 52);
    assert(pow2(63) == 2048 * pow2(52));
    assert(1088 * pow2(52) == 0x4400000000000000);
    if v != 0 {
        let e = floor_log2(v as int);
        lemma_floor_log2_bound(v);
        lemma_floor_log2_range(v as int);
        if e <= 52 {
            lemma_pow2_pos(e);
            lemma_pow2_pos((52 - e) as nat);
            lemma_pow2_adds(1, e);
            assert(pow2(e + 1) == 2 * pow2(e));
            lemma_pow2_adds(e, (52 - e) as nat);
            assert((v - pow2(e)) * pow2((52 - e) as nat) < pow2(52)) by (nonlinear_arith)
                requires
                    0 <= v - pow2(e) < pow2(e),
                    pow2(e) * pow2((52 - e) as nat) == pow2(52),
                    pow2((52 - e) as nat) > 0,
            ;
            assert((1023 + e) * pow2(52) + pow2(52) <= 1076 * pow2(52) < 1088 * pow2(52))
                by (nonlinear_arith)
                requires
                    e <= 52,
                    pow2(52) > 0,
            ;
        } else {
            let sh = (e - 52) as nat;
            lemma_pow2_pos(sh);
            lemma_fundamental_div_mod(v as int, pow2(sh) as int);
            lemma_pow2_adds(sh, 53);
            assert(pow2(e + 1) == pow2(sh) * pow2(53));
            let q0 = v as int / pow2(sh) as int;
            let r0 = v as int % pow2(sh) as int;
            assert(q0 < pow2(53)) by (nonlinear_arith)
                requires
                    v == pow2(sh) * q0 + r0,
                    0 <= r0 < pow2(sh),
                    v < pow2(sh) * pow2(53),
                    pow2(sh) > 0,
            ;
            let q = round_half_even(v as int, sh);
            assert(q <= pow2(53));
            assert(pow2(53) == 2 * pow2(52));
            assert((1024 + e) * pow2(52) < 1088 * pow2(52)) by (nonlinear_arith)
                requires
                    e <= 63,
                    pow2(52) > 0,
            ;
            assert((1023 + e) * pow2(52) + pow2(52) < 1088 * pow2(52)) by (nonlinear_arith)
                requires
                    e <= 63,
                    pow2(52) > 0,
            ;
        }
    }
}

/// The binade of a 64-bit value stays below 64.
proof fn lemma_floor_log2_bound(v: u64)
    requires
        v >= 1,
    ensures
        floor_log2(v as int) <= 63,
        pow2(floor_log2(v as int)) <= v,
{
    lemma_floor_log2_range(v as int);
    let e = floor_log2(v as int);
    lemma_pow_constants();
    if e >= 64 {
        if e > 64 {
            lemma_pow2_strictly_increases(64, e);
        }
        assert(pow2(e) >= pow2(64));
    }
}

/// `floor_log2` really names the binade.
proof fn lemma_floor_log2_range(v: int)
    requires
        v >= 1,
    ensures
        pow2(floor_log2(v)) <= v < pow2(floor_log2(v) + 1),
    decreases v,
{
    lemma_pow_constants();
    if v < 2 {
    } else {
        lemma_floor_log2_range(v / 2);
        let e = floor_log2(v / 2);
        assert(floor_log2(v) == 1 + e);
        assert(pow2(e + 1) == 2 * pow2(e)) by {
            lemma_pow2_adds(1, e);
            lemma_pow_constants();
        }
        assert(pow2(e + 2) == 2 * pow2(e + 1)) by {
            lemma_pow2_adds(1, e + 1);
            lemma_pow_constants();
        }
        assert(pow2(e) <= v / 2 < pow2(e + 1));
        assert(2 * pow2(e) <= v < 2 * pow2(e + 1)) by (nonlinear_arith)
            requires
                pow2(e) <= v / 2,
                v / 2 < pow2(e + 1),
                v >= 2,
                pow2(e) > 0,
        ;
    }
}

} // verus!
