//! Numbers as IEEE 754 double-precision bit patterns: one sign bit, eleven
//! exponent bits biased by 1023, fifty-two fraction bits.
//!
//! Only what needs no arithmetic on doubles is done here: the conversion of
//! an integer to the nearest double, and the truncation of a double to an
//! array offset.

use vstd::prelude::*;
use vstd::arithmetic::power2::{
    pow2, lemma_pow2_pos, lemma_pow2_adds, lemma_pow2_unfold, lemma_pow2_strictly_increases,
    lemma2_to64, lemma2_to64_rest,
};
use vstd::arithmetic::div_mod::{
    lemma_div_denominator, lemma_div_multiples_vanish, lemma_fundamental_div_mod,
    lemma_fundamental_div_mod_converse,
};

verus! {

/// The sign bit.
pub const SIGN_BIT: u64 = 0x8000_0000_0000_0000;

/// Two to the power 52: the weight of a significand's leading one.
pub const HIDDEN_BIT: u64 = 0x10_0000_0000_0000;

/// The quiet not-a-number.
pub const NAN: u64 = 0x7ff8_0000_0000_0000;

/// Positive zero.
pub const ZERO: u64 = 0;

/// The position of the highest one in the binary form of `a`.
pub open spec fn log2_floor(a: nat) -> nat
    decreases a,
{
    if a < 2 {
        0
    } else {
        1 + log2_floor(a / 2)
    }
}

/// The 53-bit significand of the double nearest to `a`: `a` scaled into the
/// range from 2^52 to 2^53, and rounded to the nearest integer, a tie to the
/// even one.
pub open spec fn significand_of(a: nat) -> nat
    recommends
        a > 0,
{
    let p = log2_floor(a);
    if p <= 52 {
        a * pow2((52 - p) as nat)
    } else {
        let step = pow2((p - 52) as nat);
        let quotient = a / step;
        let rest = a % step;
        if 2 * rest > step || (2 * rest == step && quotient % 2 == 1) {
            quotient + 1
        } else {
            quotient
        }
    }
}

/// The bits of the double nearest to the non-negative integer `a`. The
/// exponent field holds 1023 plus the position of the highest one; the
/// significand's leading one is not stored, and a significand rounded up to
/// 2^53 carries into the exponent.
pub open spec fn magnitude_bits(a: nat) -> nat {
    if a == 0 {
        0
    } else {
        (1022 + log2_floor(a)) * 0x10_0000_0000_0000 + significand_of(a)
    }
}

/// The bits of the double nearest to `n`.
pub open spec fn widened(n: i64) -> u64 {
    if n < 0 {
        (0x8000_0000_0000_0000 + magnitude_bits((-n) as nat)) as u64
    } else {
        magnitude_bits(n as nat) as u64
    }
}

/// The exponent field.
pub open spec fn exponent_of(bits: u64) -> int {
    (bits as int / 0x10_0000_0000_0000) % 2048
}

/// The fraction field.
pub open spec fn fraction_of(bits: u64) -> int {
    bits as int % 0x10_0000_0000_0000
}

pub open spec fn is_negative(bits: u64) -> bool {
    bits >= 0x8000_0000_0000_0000
}

/// Neither an infinity nor a not-a-number.
pub open spec fn is_finite(bits: u64) -> bool {
    exponent_of(bits) != 2047
}

/// The integral part of the absolute value of a finite double.
pub open spec fn whole_magnitude(bits: u64) -> nat {
    let e = exponent_of(bits);
    let s = 0x10_0000_0000_0000 + fraction_of(bits);
    if e < 1023 {
        0
    } else if e <= 1075 {
        (s / pow2((1075 - e) as nat) as int) as nat
    } else {
        (s * pow2((e - 1075) as nat)) as nat
    }
}

/// A finite double truncated toward zero.
pub open spec fn truncated(bits: u64) -> int {
    if is_negative(bits) {
        -(whole_magnitude(bits) as int)
    } else {
        whole_magnitude(bits) as int
    }
}

/// The offset that a double addresses in a sequence of `limit` items: its
/// truncation toward zero, where the double is finite and that lies within
/// the sequence.
pub open spec fn offset_within(bits: u64, limit: nat) -> Option<nat> {
    if is_finite(bits) && 0 <= truncated(bits) < limit {
        Some(truncated(bits) as nat)
    } else {
        None
    }
}

fn power_of_two(k: u64) -> (r: u64)
    requires
        k <= 63,
    ensures
        r == pow2(k as nat),
        r >= 1,
{
    let mut r: u64 = 1;
    let mut j: u64 = 0;
    proof {
        lemma2_to64();
            lemma2_to64_rest();
    }
    while j < k
        invariant
            j <= k <= 63,
            r == pow2(j as nat),
            r >= 1,
        decreases k - j,
    {
        proof {
            lemma_pow2_unfold((j + 1) as nat);
            lemma2_to64();
            lemma2_to64_rest();
            if j + 1 < 63 {
                lemma_pow2_strictly_increases((j + 1) as nat, 63);
            }
        }
        r = r * 2;
        j = j + 1;
    }
    r
}

fn magnitude(a: u64) -> (r: u64)
    requires
        0 < a <= SIGN_BIT,
    ensures
        r == magnitude_bits(a as nat),
        r < SIGN_BIT,
{
    let mut p: u64 = 0;
    let mut unit: u64 = 1;
    proof {
        lemma2_to64();
            lemma2_to64_rest();
    }
    while a / unit >= 2
        invariant
            0 < a <= SIGN_BIT,
            unit == pow2(p as nat),
            1 <= unit <= a,
            p <= 63,
            log2_floor(a as nat) == p + log2_floor((a / unit) as nat),
        decreases a - unit,
    {
        proof {
            lemma_fundamental_div_mod(a as int, unit as int);
            assert(2 * unit <= a) by (nonlinear_arith)
                requires
                    a == unit * (a / unit) + a % unit,
                    a / unit >= 2,
                    a % unit >= 0,
                    unit >= 1,
            ;
            lemma_pow2_unfold((p + 1) as nat);
            lemma_div_denominator(a as int, unit as int, 2);
            lemma2_to64();
            lemma2_to64_rest();
            if p + 1 > 63 {
                lemma_pow2_strictly_increases(63, (p + 1) as nat);
            }
        }
        unit = unit * 2;
        p = p + 1;
    }
    proof {
        lemma_fundamental_div_mod(a as int, unit as int);
        assert(a / unit >= 1) by (nonlinear_arith)
            requires
                a == unit * (a / unit) + a % unit,
                0 <= a % unit < unit,
                unit <= a,
        ;
        assert(a / unit == 1);
        assert(log2_floor(1) == 0);
        assert(log2_floor(a as nat) == p);
        assert(a < 2 * unit) by (nonlinear_arith)
            requires
                a == unit * (a / unit) + a % unit,
                0 <= a % unit < unit,
                a / unit == 1,
        ;
        lemma2_to64();
            lemma2_to64_rest();
    }
    let significand: u64 = if p <= 52 {
        let scale = power_of_two(52 - p);
        proof {
            lemma_pow2_adds(p as nat, (52 - p) as nat);
            assert(unit * scale == HIDDEN_BIT);
            assert(a * scale < 2 * HIDDEN_BIT) by (nonlinear_arith)
                requires
                    a < 2 * unit,
                    unit * scale == HIDDEN_BIT,
                    scale >= 1,
            ;
        }
        a * scale
    } else {
        let step = power_of_two(p - 52);
        let quotient = a / step;
        let rest = a % step;
        proof {
            lemma_pow2_adds(52, (p - 52) as nat);
            assert(unit == HIDDEN_BIT * step);
            lemma_fundamental_div_mod(a as int, step as int);
            assert(quotient < 2 * HIDDEN_BIT) by (nonlinear_arith)
                requires
                    a == step * quotient + rest,
                    0 <= rest,
                    a < 2 * (HIDDEN_BIT * step),
                    step >= 1,
            ;
        }
        if 2 * rest > step || (2 * rest == step && quotient % 2 == 1) {
            quotient + 1
        } else {
            quotient
        }
    };
    (1022 + p) * HIDDEN_BIT + significand
}

/// The double nearest to `n`, a tie going to the one whose last fraction
/// bit is zero.
pub fn widen(n: i64) -> (bits: u64)
    ensures
        bits == widened(n),
{
    if n == 0 {
        0
    } else if n < 0 {
        let a: u64 = (-(n + 1)) as u64 + 1;
        SIGN_BIT + magnitude(a)
    } else {
        magnitude(n as u64)
    }
}

/// The offset that the double `bits` addresses among `limit` items.
pub fn offset(bits: u64, limit: usize) -> (r: Option<usize>)
    ensures
        match r {
            Some(k) => offset_within(bits, limit as nat) == Some(k as nat),
            None => offset_within(bits, limit as nat) == None::<nat>,
        },
{
    let e: u64 = (bits / HIDDEN_BIT) % 2048;
    let s: u64 = HIDDEN_BIT + bits % HIDDEN_BIT;
    assert(e == exponent_of(bits) && s == HIDDEN_BIT + fraction_of(bits));
    if e == 2047 {
        None
    } else if e < 1023 {
        assert(truncated(bits) == 0);
        if 0 < limit {
            Some(0)
        } else {
            None
        }
    } else if e <= 1075 {
        let divisor = power_of_two(1075 - e);
        let k: u64 = s / divisor;
        proof {
            lemma2_to64();
            lemma2_to64_rest();
            if 1075 - e < 52 {
                lemma_pow2_strictly_increases((1075 - e) as nat, 52);
            }
            lemma_fundamental_div_mod(s as int, divisor as int);
            assert(k >= 1) by (nonlinear_arith)
                requires
                    s == divisor * k + s % divisor,
                    0 <= s % divisor < divisor,
                    divisor <= s,
            ;
        }
        assert(whole_magnitude(bits) == k);
        if bits >= SIGN_BIT {
            None
        } else if k < limit as u64 {
            Some(k as usize)
        } else {
            None
        }
    } else {
        let ghost whole = s * pow2((e - 1075) as nat);
        let mut k: u128 = s as u128;
        let mut j: u64 = e - 1075;
        proof {
            lemma_pow2_pos((e - 1075) as nat);
            assert(whole >= s) by (nonlinear_arith)
                requires
                    whole == s * pow2((e - 1075) as nat),
                    pow2((e - 1075) as nat) >= 1,
                    s >= 0,
            ;
        }
        while j > 0 && k < limit as u128
            invariant
                k * pow2(j as nat) == whole,
                1 <= k <= 0x2_0000_0000_0000_0000,
            decreases j,
        {
            proof {
                lemma_pow2_unfold(j as nat);
                assert((2 * k) * pow2((j - 1) as nat) == k * pow2(j as nat)) by (nonlinear_arith)
                    requires
                        pow2(j as nat) == 2 * pow2((j - 1) as nat),
                ;
            }
            k = 2 * k;
            j = j - 1;
        }
        proof {
            lemma_pow2_pos(j as nat);
            lemma2_to64();
            lemma2_to64_rest();
            assert(whole >= k) by (nonlinear_arith)
                requires
                    k * pow2(j as nat) == whole,
                    pow2(j as nat) >= 1,
                    k >= 1,
            ;
        }
        if bits >= SIGN_BIT {
            None
        } else if k < limit as u128 {
            assert(k == whole) by (nonlinear_arith)
                requires
                    k * pow2(j as nat) == whole,
                    pow2(j as nat) == 1,
            ;
            Some(k as usize)
        } else {
            None
        }
    }
}

/// The highest one of `a` is where `log2_floor` says.
pub proof fn lemma_log2_floor_bounds(a: nat)
    requires
        a >= 1,
    ensures
        pow2(log2_floor(a)) <= a < 2 * pow2(log2_floor(a)),
    decreases a,
{
    if a < 2 {
        lemma2_to64();
    } else {
        lemma_log2_floor_bounds(a / 2);
        lemma_pow2_unfold(log2_floor(a));
    }
}

/// The double nearest to an integer from 1 to 2^53 is that integer: it is
/// finite, and its integral part is the integer, with either sign.
pub proof fn lemma_magnitude_exact(a: nat)
    requires
        1 <= a <= 0x20_0000_0000_0000,
    ensures
        magnitude_bits(a) < 0x7ff0_0000_0000_0000,
        is_finite(magnitude_bits(a) as u64),
        whole_magnitude(magnitude_bits(a) as u64) == a,
        is_finite((0x8000_0000_0000_0000 + magnitude_bits(a)) as u64),
        whole_magnitude((0x8000_0000_0000_0000 + magnitude_bits(a)) as u64) == a,
{
    let p = log2_floor(a);
    lemma_log2_floor_bounds(a);
    lemma2_to64();
    lemma2_to64_rest();
    if p > 53 {
        lemma_pow2_strictly_increases(53, p);
    }
    let m = magnitude_bits(a);
    let unit: int = 0x10_0000_0000_0000;
    if p <= 52 {
        let scale = pow2((52 - p) as nat);
        lemma_pow2_adds(p, (52 - p) as nat);
        lemma_pow2_pos((52 - p) as nat);
        let sig = a * scale;
        assert(unit <= sig < 2 * unit) by (nonlinear_arith)
            requires
                pow2(p) <= a < 2 * pow2(p),
                pow2(p) * scale == unit,
                scale >= 1,
                sig == a * scale,
        ;
        assert(m == (1022 + p) * unit + sig);
        let f: int = sig - unit;
        let e: int = 1023 + p as int;
        lemma_fundamental_div_mod_converse(m as int, unit, e, f);
        lemma_fundamental_div_mod_converse(m as int + 0x8000_0000_0000_0000, unit, 2048 + e, f);
        assert((sig as int) / (scale as int) == a) by {
            lemma_div_multiples_vanish(a as int, scale as int);
            assert(scale * a == a * scale) by (nonlinear_arith);
        }
    } else {
        assert(a == 0x20_0000_0000_0000);
        assert(p == 53);
        assert(significand_of(a) == unit);
        assert(m == 1076 * unit);
        lemma_fundamental_div_mod_converse(m as int, unit, 1076int, 0int);
        lemma_fundamental_div_mod_converse(m as int + 0x8000_0000_0000_0000, unit, 3124int, 0int);
    }
}

/// An integer of magnitude up to 2^53 is widened without loss: the double
/// is finite, and its integral part is the integer.
pub proof fn lemma_widened_exact(n: i64)
    requires
        -0x20_0000_0000_0000 <= n <= 0x20_0000_0000_0000,
    ensures
        is_finite(widened(n)),
        truncated(widened(n)) == n,
{
    if n > 0 {
        lemma_magnitude_exact(n as nat);
    } else if n < 0 {
        lemma_magnitude_exact((-n) as nat);
    }
}

} // verus!
