//! Integers and numbers of 32 bits as numbers of 64 bits: with the same value, or with the
//! nearest one where an integer is too large.

use crate::number::{F32, F64, INFINITE_32, INFINITE_64, NAN_BITS_64, SIGN_32, SIGN_64};
use crate::rounding::{EXPONENT_UNIT, UNIT_EXPONENT};
use vstd::arithmetic::div_mod::lemma_fundamental_div_mod;
use vstd::arithmetic::power2::{
    lemma2_to64, lemma2_to64_rest, lemma_pow2_adds, lemma_pow2_pos, lemma_pow2_strictly_increases,
    lemma_pow2_unfold, pow2,
};
use vstd::bits::lemma_u64_shl_is_mul;
use vstd::prelude::*;

verus! {

/// The weight of the lowest bit of the exponent of a number of 32 bits.
pub const EXPONENT_UNIT_32: u32 = 0x80_0000;

/// The numerator of an integer times a power of two.
pub open spec fn numerator_of(m: int, scale: int) -> int {
    if scale >= 0 {
        m * pow2(scale as nat)
    } else {
        m
    }
}

/// The denominator of an integer times a power of two.
pub open spec fn denominator_of(scale: int) -> int {
    if scale >= 0 {
        1
    } else {
        pow2((-scale) as nat) as int
    }
}

impl F32 {
    /// The significant bits of a finite number, as an integer.
    pub open spec fn significand(self) -> int {
        let m = self.magnitude();
        if m < EXPONENT_UNIT_32 {
            m
        } else {
            EXPONENT_UNIT_32 + m % (EXPONENT_UNIT_32 as int)
        }
    }

    /// The power of two that the lowest significant bit of a finite number weighs.
    pub open spec fn scale(self) -> int {
        let m = self.magnitude();
        if m < EXPONENT_UNIT_32 {
            -149
        } else {
            m / (EXPONENT_UNIT_32 as int) - 150
        }
    }
}

/// Whether a number is an integer. Zero has no sign.
pub open spec fn is_integer(v: F64, n: int) -> bool {
    &&& v.finite()
    &&& v.signed_numerator() == n * v.denominator()
    &&& n == 0 ==> v.bits == 0
}

/// The quotient of two integers rounded to the nearest one; half-way quotients go to the
/// even one.
pub open spec fn half_even(m: int, d: int) -> int {
    let q = m / d;
    let rest = m % d;
    if 2 * rest > d || (2 * rest == d && q % 2 == 1) {
        q + 1
    } else {
        q
    }
}

/// A rounded quotient is the nearest integer: it is at most a half away.
pub proof fn lemma_half_even_is_nearest(m: int, d: int)
    requires
        d > 0,
    ensures
        -d <= 2 * (half_even(m, d) * d - m) <= d,
{
    lemma_fundamental_div_mod(m, d);
    let q = m / d;
    assert(q * d == d * q) by (nonlinear_arith);
    assert((q + 1) * d == q * d + d) by (nonlinear_arith);
}

/// Whether an integer has 53 significant bits above its lowest `k` ones, or fewer where `k`
/// is zero.
pub open spec fn has_excess(m: int, k: nat) -> bool {
    &&& m < pow2(53 + k)
    &&& k > 0 ==> m >= pow2(52 + k)
}

/// Whether a finite number without its sign is the nearest one to a positive integer; of two
/// that are equally near it is the one with the even significand.
pub open spec fn has_nearest_size(v: F64, m: int) -> bool {
    exists|k: nat| #[trigger]
        has_excess(m, k) && v.numerator() == half_even(m, pow2(k) as int) * pow2(k)
            * v.denominator()
}

/// Whether a number is the nearest one to an integer. Zero has no sign.
pub open spec fn is_nearest(v: F64, n: int) -> bool {
    if n == 0 {
        v.bits == 0
    } else {
        &&& v.finite()
        &&& v.bits >= SIGN_64 <==> n < 0
        &&& n > 0 ==> has_nearest_size(v, n)
        &&& n < 0 ==> has_nearest_size(v, -n)
    }
}

/// The nearest number to a positive integer is above zero.
pub proof fn lemma_nearest_is_positive(v: F64, n: int)
    requires
        n > 0,
        is_nearest(v, n),
    ensures
        (F64 { bits: 0 }).less(v),
{
    let d = v.denominator();
    let k = choose|k: nat| #[trigger]
        has_excess(n, k) && v.numerator() == half_even(n, pow2(k) as int) * pow2(k) * d;
    let p = pow2(k) as int;
    let q = n / p;
    lemma2_to64();
    lemma_pow2_pos(k);
    lemma_fundamental_div_mod(n, p);
    if k == 0 {
        assert(n / 1 == n);
    } else {
        lemma_pow2_adds(52, k);
        lemma2_to64_rest();
        assert(q > 0) by (nonlinear_arith)
            requires
                n == p * q + n % p,
                n % p < p,
                n >= 0x10_0000_0000_0000 * p,
                p > 0,
        ;
    }
    if v.scale() < 0 {
        lemma_pow2_pos((-v.scale()) as nat);
    }
    let h = half_even(n, p);
    assert(h * p * d > 0) by (nonlinear_arith)
        requires
            h > 0,
            p > 0,
            d > 0,
    ;
    assert(v.bits != 0);
}

/// An integer of at most 53 bits is the nearest number to itself.
pub proof fn lemma_small_integer_is_exact(v: F64, n: int)
    requires
        -0x20_0000_0000_0000 < n < 0x20_0000_0000_0000,
        is_nearest(v, n),
    ensures
        is_integer(v, n),
{
    lemma2_to64();
    lemma2_to64_rest();
    let d = v.denominator();
    if n == 0 {
        assert(v.significand() == 0 && v.scale() == 1 - UNIT_EXPONENT);
        assert(v.numerator() == 0);
        assert(0 * d == 0);
    } else {
        let m = if n < 0 {
            -n
        } else {
            n
        };
        assert(has_nearest_size(v, m));
        let k = choose|k: nat| #[trigger]
            has_excess(m, k) && v.numerator() == half_even(m, pow2(k) as int) * pow2(k) * d;
        if k > 1 {
            lemma_pow2_strictly_increases(53, 52 + k);
        }
        assert(k == 0);
        assert(m % 1 == 0 && m / 1 == m);
        assert(half_even(m, 1) == m);
        assert(m * 1 * d == m * d);
        assert((-m) * d == -(m * d)) by (nonlinear_arith);
    }
}

/// Whether a number of 64 bits has the value of one of 32 bits: it is the same fraction
/// with the same sign, or infinite with the same sign, or not a number.
pub open spec fn is_widened(v: F64, narrow: F32) -> bool {
    if narrow.nan() {
        v.nan()
    } else {
        &&& v.bits >= SIGN_64 <==> narrow.bits >= SIGN_32
        &&& if narrow.finite() {
            v.finite() && v.numerator() * denominator_of(narrow.scale()) == numerator_of(
                narrow.significand(),
                narrow.scale(),
            ) * v.denominator()
        } else {
            v.magnitude() == INFINITE_64
        }
    }
}

/// Two integers times powers of two with the same value, where one has `k` more binary
/// places.
pub proof fn lemma_same_value(a: int, s: int, b: int, t: int, k: nat)
    requires
        a == b * pow2(k),
        s == t - k,
    ensures
        numerator_of(a, s) * denominator_of(t) == numerator_of(b, t) * denominator_of(s),
{
    let p = pow2(k) as int;
    if s >= 0 {
        lemma_pow2_adds(k, s as nat);
        let q = pow2(s as nat) as int;
        assert((b * p) * q * 1 == b * (p * q) * 1) by (nonlinear_arith);
    } else if t >= 0 {
        lemma_pow2_adds(t as nat, (-s) as nat);
        let q = pow2(t as nat) as int;
        let d = pow2((-s) as nat) as int;
        assert((b * (q * d)) * 1 == (b * q) * d) by (nonlinear_arith);
    } else {
        lemma_pow2_adds(k, (-t) as nat);
        let d = pow2((-t) as nat) as int;
        assert((b * p) * d == b * (p * d)) by (nonlinear_arith);
    }
}

/// The number `m` times the power of two with the exponent `base` less 1023.
fn scaled_number(m: u64, base: u64) -> (r: F64)
    requires
        0 < m < 0x20_0000_0000_0000,
        0 < base <= 1900,
    ensures
        r.finite(),
        r.bits < SIGN_64,
        r.numerator() * denominator_of(base - 1023) == numerator_of(m as int, base - 1023)
            * r.denominator(),
{
    let mut p: u64 = 0;
    let mut top: u64 = 1;
    proof {
        lemma2_to64();
        lemma2_to64_rest();
    }
    while top <= m / 2
        invariant
            0 < top <= m < 0x20_0000_0000_0000,
            top == pow2(p as nat),
            p <= 52,
        decreases m - top,
    {
        proof {
            lemma_pow2_unfold((p + 1) as nat);
            if p == 52 {
                lemma2_to64_rest();
                assert(top == 0x10_0000_0000_0000);
            }
        }
        top = top * 2;
        p = p + 1;
    }
    let shift: u64 = 52 - p;
    let ghost q = pow2(shift as nat);
    proof {
        lemma_pow2_adds(p as nat, shift as nat);
        lemma2_to64_rest();
        lemma_pow2_pos(shift as nat);
        let rest = m - top;
        assert(top * q == 0x10_0000_0000_0000);
        assert(0 <= rest * q < top * q) by (nonlinear_arith)
            requires
                0 <= rest < top,
                q > 0,
        ;
        lemma_u64_shl_is_mul((m - top) as u64, shift);
        assert(m * q == rest * q + top * q) by (nonlinear_arith)
            requires
                rest == m - top,
        ;
    }
    let fraction: u64 = (m - top) << shift;
    let e: u64 = base + p;
    let bits: u64 = e * EXPONENT_UNIT + fraction;
    let r = F64 { bits };
    proof {
        vstd::arithmetic::div_mod::lemma_fundamental_div_mod_converse(
            bits as int,
            EXPONENT_UNIT as int,
            e as int,
            fraction as int,
        );
        assert(r.significand() == m * q);
        assert(r.scale() == e - UNIT_EXPONENT);
        lemma_same_value(r.significand(), r.scale(), m as int, base - 1023, shift as nat);
    }
    r
}

impl F64 {
    fn from_magnitude(negative: bool, m: u64) -> (r: F64)
        requires
            m <= 0xffff_ffff,
        ensures
            negative ==> is_integer(r, -(m as int)),
            !negative ==> is_integer(r, m as int),
    {
        proof {
            lemma2_to64();
        }
        if m == 0 {
            let r = F64 { bits: 0 };
            proof {
                assert(r.significand() == 0);
                assert(r.scale() == 1 - UNIT_EXPONENT);
                assert(r.numerator() == 0);
                assert(0 * r.denominator() == 0);
            }
            return r;
        }
        let r = scaled_number(m, 1023);
        proof {
            assert(numerator_of(m as int, 0) == m * pow2(0));
            assert(r.numerator() * 1 == m * r.denominator());
        }
        if negative {
            let out = F64 { bits: r.bits + SIGN_64 };
            proof {
                assert(out.magnitude() == r.magnitude());
                assert(out.numerator() == r.numerator());
                let d = r.denominator();
                assert(-(m * d) == (-(m as int)) * d) by (nonlinear_arith);
            }
            out
        } else {
            r
        }
    }

    /// The nearest number to an integer that is not zero.
    fn nearest_to(m: u64) -> (r: F64)
        requires
            m > 0,
        ensures
            is_nearest(r, m as int),
            r.bits < SIGN_64,
    {
        proof {
            lemma2_to64();
            lemma2_to64_rest();
        }
        let mut k: u64 = 0;
        let mut d: u64 = 1;
        while m / d >= 0x20_0000_0000_0000
            invariant
                k <= 11,
                d == pow2(k as nat),
                d > 0,
                m > 0,
                k > 0 ==> m >= pow2(52 + k as nat),
            decreases 11 - k,
        {
            proof {
                lemma2_to64();
                lemma2_to64_rest();
                lemma_pow2_adds(53, k as nat);
                lemma_fundamental_div_mod(m as int, d as int);
                let q = m as int / d as int;
                let rest = m as int % d as int;
                assert(m >= 0x20_0000_0000_0000 * d) by (nonlinear_arith)
                    requires
                        m == d * q + rest,
                        rest >= 0,
                        q >= 0x20_0000_0000_0000,
                        d > 0,
                ;
                if k == 11 {
                    assert(d == 0x800);
                }
                lemma_pow2_unfold((k + 1) as nat);
                if k < 10 {
                    lemma_pow2_strictly_increases((k + 1) as nat, 11);
                }
            }
            d = d * 2;
            k = k + 1;
        }
        let ghost kk = k as nat;
        let q: u64 = m / d;
        let rest: u64 = m % d;
        let rounded: u64 = if rest > d - rest || (rest == d - rest && q % 2 == 1) {
            q + 1
        } else {
            q
        };
        proof {
            assert(rounded == half_even(m as int, d as int));
            lemma_pow2_adds(53, kk);
            lemma_fundamental_div_mod(m as int, d as int);
            assert(m < 0x20_0000_0000_0000 * d) by (nonlinear_arith)
                requires
                    m == d * q + rest,
                    rest < d,
                    q < 0x20_0000_0000_0000,
                    d > 0,
            ;
            assert(has_excess(m as int, kk));
            assert(rounded > 0) by {
                if kk == 0 {
                    assert(d == 1);
                } else {
                    lemma_pow2_adds(52, kk);
                    assert(q > 0) by (nonlinear_arith)
                        requires
                            m == d * q + rest,
                            rest < d,
                            m >= 0x10_0000_0000_0000 * d,
                            d > 0,
                    ;
                }
            }
        }
        if rounded == 0x20_0000_0000_0000 {
            let r = scaled_number(0x10_0000_0000_0000, 1024 + k);
            proof {
                lemma_pow2_unfold((k + 1) as nat);
                assert(1024 + k - 1023 == k + 1);
                assert(numerator_of(0x10_0000_0000_0000, k + 1) == 0x10_0000_0000_0000 * pow2(
                    (k + 1) as nat,
                ));
                assert(0x10_0000_0000_0000 * (2 * d) == 0x20_0000_0000_0000 * d);
                assert(r.numerator() == half_even(m as int, pow2(kk) as int) * pow2(kk)
                    * r.denominator());
            }
            return r;
        }
        let r = scaled_number(rounded, 1023 + k);
        proof {
            assert(1023 + k - 1023 == k);
            assert(numerator_of(rounded as int, k as int) == rounded * pow2(kk));
            assert(r.numerator() == half_even(m as int, pow2(kk) as int) * pow2(kk)
                * r.denominator());
        }
        r
    }

    /// The nearest number to an integer.
    pub fn from_u64(n: u64) -> (r: F64)
        ensures
            is_nearest(r, n as int),
    {
        if n == 0 {
            F64 { bits: 0 }
        } else {
            F64::nearest_to(n)
        }
    }

    /// The nearest number to a signed integer.
    pub fn from_i64(n: i64) -> (r: F64)
        ensures
            is_nearest(r, n as int),
    {
        if n >= 0 {
            F64::from_u64(n as u64)
        } else {
            let m: i128 = -(n as i128);
            let wide = F64::nearest_to(m as u64);
            let r = F64 { bits: wide.bits + SIGN_64 };
            proof {
                assert(r.magnitude() == wide.magnitude());
                assert(r.numerator() == wide.numerator());
                assert(r.denominator() == wide.denominator());
            }
            r
        }
    }

    pub fn from_u8(n: u8) -> (r: F64)
        ensures
            is_integer(r, n as int),
    {
        F64::from_magnitude(false, n as u64)
    }

    pub fn from_u16(n: u16) -> (r: F64)
        ensures
            is_integer(r, n as int),
    {
        F64::from_magnitude(false, n as u64)
    }

    pub fn from_i16(n: i16) -> (r: F64)
        ensures
            is_integer(r, n as int),
    {
        if n < 0 {
            let m: i64 = -(n as i64);
            F64::from_magnitude(true, m as u64)
        } else {
            F64::from_magnitude(false, n as u64)
        }
    }

    /// A number of 32 bits with the same value.
    pub fn from_narrow(v: F32) -> (r: F64)
        ensures
            is_widened(r, v),
    {
        let negative = v.bits >= SIGN_32;
        let m: u32 = if negative {
            v.bits - SIGN_32
        } else {
            v.bits
        };
        if m > INFINITE_32 {
            return F64 { bits: NAN_BITS_64 };
        }
        let wide = if m == INFINITE_32 {
            F64 { bits: INFINITE_64 }
        } else if m == 0 {
            let r = F64 { bits: 0 };
            proof {
                assert(r.significand() == 0 && r.numerator() == 0);
                assert(v.significand() == 0 && v.scale() == -149);
                assert(0 * denominator_of(-149) == 0);
                assert(0 * r.denominator() == 0);
            }
            r
        } else {
            let e: u32 = m / EXPONENT_UNIT_32;
            let f: u32 = m % EXPONENT_UNIT_32;
            let significand: u32 = if e == 0 {
                m
            } else {
                EXPONENT_UNIT_32 + f
            };
            let base: u64 = if e == 0 {
                874
            } else {
                e as u64 + 873
            };
            proof {
                vstd::arithmetic::div_mod::lemma_fundamental_div_mod(
                    m as int,
                    EXPONENT_UNIT_32 as int,
                );
                assert(significand == v.significand());
                assert(base - 1023 == v.scale());
            }
            scaled_number(significand as u64, base)
        };
        if negative {
            let out = F64 { bits: wide.bits + SIGN_64 };
            proof {
                assert(out.magnitude() == wide.magnitude());
            }
            out
        } else {
            wide
        }
    }
}

} // verus!
