//! Numbers of 64 bits rounded to numbers of 32 bits.

use crate::number::{F32, F64, INFINITE_32, INFINITE_64, NAN_BITS_32, SIGN_32, SIGN_64};
use crate::rounding::{EXPONENT_UNIT, UNIT_EXPONENT};
use crate::widening::{
    denominator_of, half_even, is_widened, lemma_same_value, numerator_of, EXPONENT_UNIT_32,
};
use vstd::arithmetic::div_mod::{lemma_fundamental_div_mod, lemma_fundamental_div_mod_converse};
use vstd::arithmetic::power2::{
    lemma2_to64, lemma2_to64_rest, lemma_pow2_adds, lemma_pow2_pos, lemma_pow2_strictly_increases,
    pow2,
};
use vstd::bits::lemma_u64_shl_is_mul;
use vstd::prelude::*;

verus! {

/// The bits that the significand of 64 bits has beyond that of 32 bits.
pub const EXTRA_BITS: u64 = 29;

/// The power of two that the lowest bit of the least numbers of 32 bits weighs.
pub const LEAST_SCALE: i64 = -149;

impl F64 {
    /// The significant bits of a finite number that a number of 32 bits has no room for.
    pub open spec fn lost_bits(self) -> nat {
        if self.scale() + EXTRA_BITS >= LEAST_SCALE {
            EXTRA_BITS as nat
        } else {
            (LEAST_SCALE - self.scale()) as nat
        }
    }

    /// The significant bits of a finite number, rounded to those that a number of 32 bits
    /// has room for.
    pub open spec fn kept_significand(self) -> int {
        half_even(self.significand(), pow2(self.lost_bits()) as int)
    }

    /// The power of two that the lowest of the kept bits weighs.
    pub open spec fn kept_scale(self) -> int {
        self.scale() + self.lost_bits()
    }
}

/// The nearest number of 32 bits to a number of 64 bits; of two that are equally near the
/// one with the even significand. What is too large is infinite.
pub open spec fn narrowed(v: F64) -> F32 {
    let m = (v.kept_scale() - LEAST_SCALE) * EXPONENT_UNIT_32 + v.kept_significand();
    let magnitude = if m < INFINITE_32 {
        m
    } else {
        INFINITE_32 as int
    };
    F32 {
        bits: (if v.bits >= SIGN_64 {
            magnitude + SIGN_32
        } else {
            magnitude
        }) as u32,
    }
}

/// The kept bits of a finite number have their place in a number of 32 bits.
proof fn lemma_kept(v: F64)
    requires
        v.finite(),
    ensures
        v.kept_scale() >= LEAST_SCALE,
        0 <= v.kept_significand() <= 2 * EXPONENT_UNIT_32,
        v.kept_scale() > LEAST_SCALE ==> v.kept_significand() >= EXPONENT_UNIT_32,
        v.lost_bits() >= 54 ==> v.kept_significand() == 0,
{
    let k = v.lost_bits();
    let d = pow2(k) as int;
    let m = v.significand();
    lemma2_to64();
    lemma2_to64_rest();
    lemma_pow2_pos(k);
    lemma_fundamental_div_mod(m, d);
    assert(0 <= m < 2 * EXPONENT_UNIT);
    if k > 53 {
        if k > 54 {
            lemma_pow2_strictly_increases(54, k);
        }
        lemma_fundamental_div_mod_converse(m, d, 0, m);
    } else {
        if k > 29 {
            lemma_pow2_strictly_increases(29, k);
        }
        let q = m / d;
        assert(q < 2 * EXPONENT_UNIT_32) by (nonlinear_arith)
            requires
                d >= 0x2000_0000,
                d * q <= m,
                m < 2 * EXPONENT_UNIT,
                EXPONENT_UNIT == 0x10_0000_0000_0000,
                EXPONENT_UNIT_32 == 0x80_0000,
        ;
        assert(q >= 0) by (nonlinear_arith)
            requires
                d > 0,
                m >= 0,
                m == d * q + m % d,
                m % d < d,
        ;
        if v.kept_scale() > LEAST_SCALE {
            assert(m >= EXPONENT_UNIT);
            assert(q >= EXPONENT_UNIT_32) by (nonlinear_arith)
                requires
                    d == 0x2000_0000,
                    m == d * q + m % d,
                    m % d < d,
                    m >= EXPONENT_UNIT,
                    EXPONENT_UNIT == 0x10_0000_0000_0000,
                    EXPONENT_UNIT_32 == 0x80_0000,
            ;
        }
    }
}

/// Rounding gives the number that the kept bits make, unless it is too large.
pub proof fn lemma_narrowed_value(v: F64)
    requires
        v.finite(),
        narrowed(v).finite(),
    ensures
        narrowed(v).bits >= SIGN_32 <==> v.bits >= SIGN_64,
        numerator_of(narrowed(v).significand(), narrowed(v).scale()) * denominator_of(
            v.kept_scale(),
        ) == numerator_of(v.kept_significand(), v.kept_scale()) * denominator_of(
            narrowed(v).scale(),
        ),
{
    lemma_kept(v);
    let n = narrowed(v);
    let j = v.kept_scale() - LEAST_SCALE;
    let q = v.kept_significand();
    let u = EXPONENT_UNIT_32 as int;
    assert(j * u >= 0) by (nonlinear_arith)
        requires
            j >= 0,
            u > 0,
    ;
    assert(n.magnitude() == j * u + q);
    if q == 2 * u {
        assert((j + 2) * u == j * u + 2 * u) by (nonlinear_arith);
        lemma_fundamental_div_mod_converse(n.magnitude(), u, j + 2, 0);
        lemma2_to64();
        assert(n.significand() == u && n.scale() == v.kept_scale() + 1);
        lemma_same_value(q, v.kept_scale(), u, n.scale(), 1);
    } else if q >= u {
        assert((j + 1) * u == j * u + u) by (nonlinear_arith);
        lemma_fundamental_div_mod_converse(n.magnitude(), u, j + 1, q - u);
        assert(n.significand() == q && n.scale() == v.kept_scale());
    } else {
        assert(j == 0);
        assert(0 * u == 0);
        assert(n.significand() == q && n.scale() == v.kept_scale());
    }
}

impl F64 {
    /// The nearest number of 32 bits.
    pub fn narrow(self) -> (r: F32)
        ensures
            self.nan() ==> r.nan(),
            !self.nan() ==> r == narrowed(self),
    {
        let negative = self.bits >= SIGN_64;
        let m: u64 = if negative {
            self.bits - SIGN_64
        } else {
            self.bits
        };
        if m > INFINITE_64 {
            return F32 { bits: NAN_BITS_32 };
        }
        let magnitude: u32 = if m == INFINITE_64 {
            proof {
                lemma_fundamental_div_mod_converse(
                    self.magnitude(),
                    EXPONENT_UNIT as int,
                    2047,
                    0,
                );
                lemma2_to64();
                lemma_fundamental_div_mod_converse(
                    EXPONENT_UNIT as int,
                    pow2(29) as int,
                    EXPONENT_UNIT_32 as int,
                    0,
                );
            }
            INFINITE_32
        } else {
            self.narrow_magnitude(m)
        };
        if negative {
            F32 { bits: magnitude + SIGN_32 }
        } else {
            F32 { bits: magnitude }
        }
    }

    /// The bits of the nearest number of 32 bits without the sign.
    fn narrow_magnitude(self, m: u64) -> (r: u32)
        requires
            self.finite(),
            m == self.magnitude(),
        ensures
            r == if (self.kept_scale() - LEAST_SCALE) * EXPONENT_UNIT_32
                + self.kept_significand() < INFINITE_32 {
                (self.kept_scale() - LEAST_SCALE) * EXPONENT_UNIT_32 + self.kept_significand()
            } else {
                INFINITE_32 as int
            },
            r <= INFINITE_32,
    {
        proof {
            lemma_kept(self);
        }
        let e: u64 = m / EXPONENT_UNIT;
        if e < 873 {
            assert(self.lost_bits() >= 54);
            assert(self.kept_scale() == LEAST_SCALE);
            return 0;
        }
        let significand: u64 = EXPONENT_UNIT + m % EXPONENT_UNIT;
        let lost: u64 = if e >= 897 {
            EXTRA_BITS
        } else {
            926 - e
        };
        assert(self.significand() == significand);
        assert(self.scale() == e - UNIT_EXPONENT);
        assert(self.lost_bits() == lost);
        proof {
            lemma2_to64();
            lemma2_to64_rest();
            lemma_pow2_pos(lost as nat);
            if lost < 53 {
                lemma_pow2_strictly_increases(lost as nat, 53);
            }
            assert(1 * pow2(lost as nat) == pow2(lost as nat));
            lemma_u64_shl_is_mul(1, lost);
        }
        let d: u64 = 1u64 << lost;
        assert(d == pow2(self.lost_bits()));
        let q: u64 = significand / d;
        let rest: u64 = significand % d;
        let rounded: u64 = if rest > d - rest || (rest == d - rest && q % 2 == 1) {
            q + 1
        } else {
            q
        };
        assert(rounded == self.kept_significand());
        let j: u64 = if e >= 897 {
            e - 897
        } else {
            0
        };
        assert(j == self.kept_scale() - LEAST_SCALE);
        if j > 254 {
            return INFINITE_32;
        }
        let unit: u64 = EXPONENT_UNIT_32 as u64;
        assert(j * unit <= 254 * unit) by (nonlinear_arith)
            requires
                j <= 254,
        ;
        let n: u64 = j * unit + rounded;
        if n < INFINITE_32 as u64 {
            n as u32
        } else {
            INFINITE_32
        }
    }
}

/// A fraction given by powers of two, with both sides over the least one.
proof fn lemma_over_least(b: int, s: int, a: int, t: int)
    requires
        s >= -1074,
        t >= -1074,
        numerator_of(b, s) * denominator_of(t) == numerator_of(a, t) * denominator_of(s),
    ensures
        b * pow2((s + 1074) as nat) == a * pow2((t + 1074) as nat),
{
    let ps = pow2((s + 1074) as nat) as int;
    let pt = pow2((t + 1074) as nat) as int;
    let c = pow2(1074) as int;
    lemma_pow2_pos(1074);
    if s >= 0 && t >= 0 {
        lemma_pow2_adds(s as nat, 1074);
        lemma_pow2_adds(t as nat, 1074);
        let x = pow2(s as nat) as int;
        let y = pow2(t as nat) as int;
        assert(b * (x * c) == a * (y * c)) by (nonlinear_arith)
            requires
                (b * x) * 1 == (a * y) * 1,
        ;
    } else if s < 0 && t >= 0 {
        lemma_pow2_adds(t as nat, 1074);
        lemma_pow2_adds((-s) as nat, (s + 1074) as nat);
        let y = pow2(t as nat) as int;
        let x = pow2((-s) as nat) as int;
        assert(b * ps == a * (y * c)) by (nonlinear_arith)
            requires
                b * 1 == (a * y) * x,
                c == x * ps,
        ;
    } else if s >= 0 && t < 0 {
        lemma_pow2_adds(s as nat, 1074);
        lemma_pow2_adds((-t) as nat, (t + 1074) as nat);
        let x = pow2(s as nat) as int;
        let y = pow2((-t) as nat) as int;
        assert(b * (x * c) == a * pt) by (nonlinear_arith)
            requires
                (b * x) * y == a * 1,
                c == y * pt,
        ;
    } else {
        lemma_pow2_adds((-s) as nat, (s + 1074) as nat);
        lemma_pow2_adds((-t) as nat, (t + 1074) as nat);
        let x = pow2((-s) as nat) as int;
        let y = pow2((-t) as nat) as int;
        assert((b * ps) * c == (a * pt) * c) by (nonlinear_arith)
            requires
                b * y == a * x,
                c == x * ps,
                c == y * pt,
        ;
        assert(b * ps == a * pt) by (nonlinear_arith)
            requires
                (b * ps) * c == (a * pt) * c,
                c > 0,
        ;
    }
}

/// The significand of a number of 64 bits that has the value of one of 32 bits: the same with
/// zeros behind it, as many as are lost in rounding.
proof fn lemma_widened_significand(v: F64, x: F32)
    requires
        x.finite(),
        x.magnitude() > 0,
        is_widened(v, x),
    ensures
        v.significand() == x.significand() * pow2(v.lost_bits()),
        v.kept_scale() == x.scale(),
{
    let a = x.significand();
    let t = x.scale();
    let b = v.significand();
    let s = v.scale();
    let u = EXPONENT_UNIT_32 as int;
    lemma_fundamental_div_mod(x.magnitude(), u);
    lemma_fundamental_div_mod(v.magnitude(), EXPONENT_UNIT as int);
    lemma_over_least(b, s, a, t);
    let ps = pow2((s + 1074) as nat) as int;
    let pt = pow2((t + 1074) as nat) as int;
    lemma_pow2_pos((s + 1074) as nat);
    lemma2_to64();
    lemma2_to64_rest();
    assert(1 <= a < 2 * u);
    if t <= s {
        let k = pow2((s - t) as nat) as int;
        lemma_pow2_pos((s - t) as nat);
        lemma_pow2_pos((t + 1074) as nat);
        lemma_pow2_adds((s - t) as nat, (t + 1074) as nat);
        assert(a == b * k) by (nonlinear_arith)
            requires
                b * ps == a * pt,
                ps == k * pt,
                pt > 0,
        ;
        if v.magnitude() >= EXPONENT_UNIT {
            assert(a >= EXPONENT_UNIT) by (nonlinear_arith)
                requires
                    a == b * k,
                    k >= 1,
                    b >= EXPONENT_UNIT,
            ;
        }
        assert(false);
    }
    let n = (t - s) as nat;
    let k = pow2(n) as int;
    lemma_pow2_adds(n, (s + 1074) as nat);
    assert(b == a * k) by (nonlinear_arith)
        requires
            b * ps == a * pt,
            pt == k * ps,
            ps > 0,
    ;
    if v.magnitude() < EXPONENT_UNIT {
        lemma_pow2_strictly_increases(64, n);
        assert(b >= k) by (nonlinear_arith)
            requires
                b == a * k,
                a >= 1,
                k > 0,
        ;
        assert(false);
    }
    if n < 29 {
        lemma_pow2_strictly_increases(n, 29);
        assert(2 * k <= 0x2000_0000) by {
            if n < 28 {
                lemma_pow2_strictly_increases(n, 28);
            }
        }
        assert(b < EXPONENT_UNIT) by (nonlinear_arith)
            requires
                b == a * k,
                a < 2 * u,
                0 < 2 * k <= 0x2000_0000,
                u == 0x80_0000,
                EXPONENT_UNIT == 0x10_0000_0000_0000,
        ;
    }
    if x.magnitude() >= u && n > 29 {
        if n > 30 {
            lemma_pow2_strictly_increases(30, n);
        }
        assert(b >= 2 * EXPONENT_UNIT) by (nonlinear_arith)
            requires
                b == a * k,
                a >= u,
                k >= 0x4000_0000,
                u == 0x80_0000,
                EXPONENT_UNIT == 0x10_0000_0000_0000,
        ;
    }
}

/// A number of 32 bits is kept by widening and rounding it again.
pub proof fn lemma_narrowed_of_widened(v: F64, x: F32)
    requires
        !x.nan(),
        is_widened(v, x),
    ensures
        narrowed(v) == x,
{
    let u = EXPONENT_UNIT_32 as int;
    lemma_fundamental_div_mod(x.magnitude(), u);
    lemma2_to64();
    if !x.finite() {
        lemma_fundamental_div_mod_converse(v.magnitude(), EXPONENT_UNIT as int, 2047, 0);
        lemma_fundamental_div_mod_converse(EXPONENT_UNIT as int, pow2(29) as int, u, 0);
    } else if x.magnitude() == 0 {
        lemma_kept(v);
        assert(numerator_of(0, -149) == 0);
        let d = v.denominator();
        let n = v.numerator();
        let c = denominator_of(-149);
        lemma_pow2_pos(149);
        assert(0 * d == 0) by (nonlinear_arith);
        assert(n == 0) by (nonlinear_arith)
            requires
                n * c == 0,
                c > 0,
        ;
        if v.scale() >= 0 {
            lemma_pow2_pos(v.scale() as nat);
            let p = pow2(v.scale() as nat) as int;
            let b = v.significand();
            assert(b == 0) by (nonlinear_arith)
                requires
                    b * p == 0,
                    p > 0,
            ;
        }
        lemma_fundamental_div_mod(v.magnitude(), EXPONENT_UNIT as int);
        assert(v.magnitude() == 0);
    } else {
        lemma_widened_significand(v, x);
        let d = pow2(v.lost_bits()) as int;
        lemma_pow2_pos(v.lost_bits());
        lemma_fundamental_div_mod_converse(v.significand(), d, x.significand(), 0);
        assert(v.kept_significand() == x.significand());
        let e = x.magnitude() / u;
        assert((e - 1) * u == e * u - u) by (nonlinear_arith);
        assert(e * u == u * e) by (nonlinear_arith);
    }
}

} // verus!
