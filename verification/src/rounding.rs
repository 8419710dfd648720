//! Numbers rounded to integers, and integers among the places of a row of pixels.

use crate::number::{F64, SIGN_64};
use vstd::arithmetic::power2::{
    lemma2_to64, lemma2_to64_rest, lemma_pow2_adds, lemma_pow2_pos, lemma_pow2_strictly_increases,
    pow2,
};
use vstd::bits::{lemma_u64_shl_is_mul, lemma_u64_shr_is_div};
use vstd::prelude::*;

verus! {

/// The weight of the lowest bit of the exponent.
pub const EXPONENT_UNIT: u64 = 0x10_0000_0000_0000;

/// The exponent of a number whose lowest bit weighs one.
pub const UNIT_EXPONENT: u64 = 1075;

impl F64 {
    /// The significant bits of a finite number, as an integer.
    pub open spec fn significand(self) -> int {
        let m = self.magnitude();
        if m < EXPONENT_UNIT {
            m
        } else {
            EXPONENT_UNIT + m % (EXPONENT_UNIT as int)
        }
    }

    /// The power of two that the lowest significant bit of a finite number weighs.
    pub open spec fn scale(self) -> int {
        let m = self.magnitude();
        if m < EXPONENT_UNIT {
            1 - UNIT_EXPONENT
        } else {
            m / (EXPONENT_UNIT as int) - UNIT_EXPONENT
        }
    }

    /// The numerator of a finite number without its sign.
    pub open spec fn numerator(self) -> int {
        if self.scale() >= 0 {
            self.significand() * pow2(self.scale() as nat)
        } else {
            self.significand()
        }
    }

    /// The denominator of a finite number.
    pub open spec fn denominator(self) -> int {
        if self.scale() >= 0 {
            1
        } else {
            pow2((-self.scale()) as nat) as int
        }
    }

    /// The numerator of a finite number.
    pub open spec fn signed_numerator(self) -> int {
        if self.bits >= SIGN_64 {
            -self.numerator()
        } else {
            self.numerator()
        }
    }

    /// The largest integer that is not above a finite number.
    pub open spec fn floor(self) -> int {
        self.signed_numerator() / self.denominator()
    }

    /// The smallest integer that is not below a finite number.
    pub open spec fn ceil(self) -> int {
        -((-self.signed_numerator()) / self.denominator())
    }

    /// The nearest integer to a finite number; half-way numbers go away from zero.
    pub open spec fn rounded(self) -> int {
        let away = (2 * self.numerator() + self.denominator()) / (2 * self.denominator());
        if self.bits >= SIGN_64 {
            -away
        } else {
            away
        }
    }
}

/// The integer part of a number without its sign, and what is left of it.
pub struct Parts {
    /// The integer part, where 64 bits hold it.
    pub whole: Option<u64>,
    /// Whether something is left.
    pub rest: bool,
    /// Whether at least a half is left.
    pub half: bool,
}

/// Whether parts are those of a finite number.
pub open spec fn are_parts_of(p: Parts, v: F64) -> bool {
    let n = v.numerator();
    let d = v.denominator();
    &&& d > 0
    &&& n >= 0
    &&& match p.whole {
        Some(w) => w == n / d,
        None => n / d > u64::MAX,
    }
    &&& p.rest == (n % d != 0)
    &&& p.half == (2 * (n % d) >= d)
}

fn parts_of(v: F64) -> (r: Parts)
    requires
        v.finite(),
    ensures
        are_parts_of(r, v),
{
    let m: u64 = if v.bits >= SIGN_64 {
        v.bits - SIGN_64
    } else {
        v.bits
    };
    let e: u64 = m / EXPONENT_UNIT;
    let f: u64 = m % EXPONENT_UNIT;
    let s: u64 = if e == 0 {
        m
    } else {
        EXPONENT_UNIT + f
    };
    let place: u64 = if e == 0 {
        1
    } else {
        e
    };
    proof {
        vstd::arithmetic::div_mod::lemma_fundamental_div_mod(m as int, EXPONENT_UNIT as int);
        assert(s == v.significand());
        assert(v.scale() == place - UNIT_EXPONENT);
        assert(s < 0x20_0000_0000_0000);
    }
    if place >= UNIT_EXPONENT {
        let x: u64 = place - UNIT_EXPONENT;
        let ghost p = pow2(x as nat);
        proof {
            lemma_pow2_pos(x as nat);
            lemma2_to64();
            assert(s * p >= 0) by (nonlinear_arith)
                requires
                    s >= 0,
                    p > 0,
            ;
        }
        if x <= 11 {
            proof {
                if x < 11 {
                    lemma_pow2_strictly_increases(x as nat, 11);
                }
                assert(s * p <= u64::MAX) by (nonlinear_arith)
                    requires
                        s < 0x20_0000_0000_0000,
                        p <= 2048,
                ;
                lemma_u64_shl_is_mul(s, x);
            }
            Parts { whole: Some(s << x), rest: false, half: false }
        } else {
            proof {
                if x > 12 {
                    lemma_pow2_strictly_increases(12, x as nat);
                }
                assert(s * p > u64::MAX) by (nonlinear_arith)
                    requires
                        s >= 0x10_0000_0000_0000,
                        p >= 4096,
                ;
            }
            Parts { whole: None, rest: false, half: false }
        }
    } else {
        let k: u64 = UNIT_EXPONENT - place;
        let ghost p = pow2(k as nat);
        proof {
            lemma_pow2_pos(k as nat);
            vstd::arithmetic::div_mod::lemma_fundamental_div_mod(s as int, p as int);
        }
        if k < 64 {
            proof {
                lemma_u64_shr_is_div(s, k);
            }
            let w: u64 = s >> k;
            proof {
                assert(w * p <= s) by (nonlinear_arith)
                    requires
                        s == p * w + s as int % p as int,
                        s as int % p as int >= 0,
                ;
                lemma_u64_shl_is_mul(w, k);
                lemma2_to64();
                lemma2_to64_rest();
                if k < 63 {
                    lemma_pow2_strictly_increases(k as nat, 63);
                }
                assert(1u64 * p == p);
                lemma_u64_shl_is_mul(1u64, k);
                assert(w * p == p * w) by (nonlinear_arith);
            }
            let left: u64 = s - (w << k);
            let unit: u64 = 1u64 << k;
            assert(left == s as int % p as int);
            Parts { whole: Some(w), rest: left != 0, half: 2 * left >= unit }
        } else {
            proof {
                lemma2_to64_rest();
                if k > 64 {
                    lemma_pow2_strictly_increases(64, k as nat);
                }
                vstd::arithmetic::div_mod::lemma_basic_div(s as int, p as int);
                vstd::arithmetic::div_mod::lemma_small_mod(s as nat, p);
            }
            Parts { whole: Some(0), rest: s != 0, half: false }
        }
    }
}

/// One where a condition holds, else zero.
pub open spec fn one_if(b: bool) -> int {
    if b {
        1
    } else {
        0
    }
}

/// The rounded forms of a number by its parts.
proof fn lemma_rounded(v: F64)
    requires
        v.denominator() > 0,
        v.numerator() >= 0,
    ensures
        ({
            let n = v.numerator();
            let d = v.denominator();
            let up = one_if(n % d != 0);
            let away = n / d + one_if(2 * (n % d) >= d);
            &&& n / d >= 0
            &&& n == 0 <==> n / d == 0 && n % d == 0
            &&& v.bits < SIGN_64 ==> v.floor() == n / d && v.ceil() == n / d + up && v.rounded()
                == away
            &&& v.bits >= SIGN_64 ==> v.floor() == -(n / d) - up && v.ceil() == -(n / d)
                && v.rounded() == -away
        }),
{
    let n = v.numerator();
    let d = v.denominator();
    let q = n / d;
    let r = n % d;
    vstd::arithmetic::div_mod::lemma_fundamental_div_mod(n, d);
    assert(q >= 0) by (nonlinear_arith)
        requires
            n == d * q + r,
            0 <= r < d,
            n >= 0,
    ;
    if n == 0 {
        assert(q == 0) by (nonlinear_arith)
            requires
                0 == d * q + r,
                0 <= r < d,
                q >= 0,
        ;
    } else if q == 0 {
        assert(d * q == 0) by (nonlinear_arith)
            requires
                q == 0,
        ;
    }
    if r == 0 {
        assert(-n == (-q) * d) by (nonlinear_arith)
            requires
                n == d * q + r,
                r == 0,
        ;
        vstd::arithmetic::div_mod::lemma_fundamental_div_mod_converse(-n, d, -q, 0);
    } else {
        assert(-n == (-q - 1) * d + (d - r)) by (nonlinear_arith)
            requires
                n == d * q + r,
        ;
        vstd::arithmetic::div_mod::lemma_fundamental_div_mod_converse(-n, d, -q - 1, d - r);
    }
    let away = (2 * n + d) / (2 * d);
    if 2 * r >= d {
        assert(2 * n + d == (q + 1) * (2 * d) + (2 * r - d)) by (nonlinear_arith)
            requires
                n == d * q + r,
        ;
        vstd::arithmetic::div_mod::lemma_fundamental_div_mod_converse(
            2 * n + d,
            2 * d,
            q + 1,
            2 * r - d,
        );
    } else {
        assert(2 * n + d == q * (2 * d) + (2 * r + d)) by (nonlinear_arith)
            requires
                n == d * q + r,
        ;
        vstd::arithmetic::div_mod::lemma_fundamental_div_mod_converse(
            2 * n + d,
            2 * d,
            q,
            2 * r + d,
        );
    }
}

/// The place that a number falls into, among `size` places; none outside them.
pub open spec fn floor_place(v: F64, size: usize) -> Option<usize> {
    if v.finite() && 0 <= v.floor() < size {
        Some(v.floor() as usize)
    } else {
        None
    }
}

/// The place nearest to a number, among `size` places.
pub open spec fn nearest_place(v: F64, size: usize) -> Option<usize> {
    if !v.finite() || size == 0 {
        None
    } else if v.rounded() < 0 {
        Some(0)
    } else if v.rounded() >= size {
        Some((size - 1) as usize)
    } else {
        Some(v.rounded() as usize)
    }
}

/// The places below and above a number, among `size` places; none outside them.
pub open spec fn places_around(v: F64, size: usize) -> Option<(usize, usize)> {
    if v.finite() && 0 <= v.floor() && v.ceil() < size {
        Some((v.floor() as usize, v.ceil() as usize))
    } else {
        None
    }
}

/// The first of `size` places that is not below a bound; none where the bound lies behind
/// them. A bound that is not a number is none.
pub open spec fn first_place(v: F64, size: usize) -> Option<usize> {
    let first = if v.nan() || v.floor_or_end() < 0 {
        0
    } else {
        v.floor_or_end()
    };
    if first < size {
        Some(first as usize)
    } else {
        None
    }
}

/// The last of `size` places that is not above a bound, or the first place. A bound that
/// is not a number is none.
pub open spec fn last_place(v: F64, size: usize) -> usize {
    if v.nan() || v.ceil_or_end() >= size {
        (size - 1) as usize
    } else if v.ceil_or_end() < 0 {
        0
    } else {
        v.ceil_or_end() as usize
    }
}

impl F64 {
    /// What lies behind all places, on the side of a number.
    pub open spec fn beyond(self) -> int {
        if self.bits >= SIGN_64 {
            -(u64::MAX as int) - 1
        } else {
            u64::MAX as int + 1
        }
    }

    /// The largest integer that is not above a number.
    pub open spec fn floor_or_end(self) -> int {
        if self.finite() {
            self.floor()
        } else {
            self.beyond()
        }
    }

    /// The smallest integer that is not below a number.
    pub open spec fn ceil_or_end(self) -> int {
        if self.finite() {
            self.ceil()
        } else {
            self.beyond()
        }
    }

    /// The nearest integer to a number, within the bounds of 64 bits; zero where it is
    /// not a number.
    pub open spec fn rounded_i64(self) -> i64 {
        let r = if self.finite() {
            self.rounded()
        } else {
            self.beyond()
        };
        if self.nan() {
            0
        } else if r < i64::MIN {
            i64::MIN
        } else if r > i64::MAX {
            i64::MAX
        } else {
            r as i64
        }
    }

    /// The largest integer that is not above a finite number, within the bounds of 64 bits.
    pub open spec fn floor_i64(self) -> i64 {
        let r = self.floor();
        if r < i64::MIN {
            i64::MIN
        } else if r > i64::MAX {
            i64::MAX
        } else {
            r as i64
        }
    }

    fn is_negative(self) -> (r: bool)
        ensures
            r == (self.bits >= SIGN_64),
    {
        self.bits >= SIGN_64
    }

    /// The nearest integer, as a cast gives it.
    pub fn round_to_i64(self) -> (r: i64)
        ensures
            r == self.rounded_i64(),
    {
        if self.is_nan() {
            return 0;
        }
        if !self.is_finite() {
            return if self.is_negative() {
                i64::MIN
            } else {
                i64::MAX
            };
        }
        let p = parts_of(self);
        proof {
            lemma_rounded(self);
        }
        let away: u64 = match p.whole {
            Some(w) => if p.half && w < u64::MAX {
                w + 1
            } else {
                w
            },
            None => u64::MAX,
        };
        if self.is_negative() {
            if away >= 0x8000_0000_0000_0000 {
                i64::MIN
            } else {
                -(away as i64)
            }
        } else {
            if away >= 0x8000_0000_0000_0000 {
                i64::MAX
            } else {
                away as i64
            }
        }
    }
}

impl F64 {
    /// The largest integer that is not above a finite number, as a cast gives it.
    pub fn floor_to_i64(self) -> (r: i64)
        requires
            self.finite(),
        ensures
            r == self.floor_i64(),
    {
        let p = parts_of(self);
        proof {
            lemma_rounded(self);
        }
        let whole: u64 = match p.whole {
            Some(w) => w,
            None => u64::MAX,
        };
        if self.is_negative() {
            if whole >= 0x8000_0000_0000_0000 {
                i64::MIN
            } else if p.rest {
                -(whole as i64) - 1
            } else {
                -(whole as i64)
            }
        } else {
            if whole >= 0x8000_0000_0000_0000 {
                i64::MAX
            } else {
                whole as i64
            }
        }
    }
}

/// The place that a number falls into, among `size` places.
pub fn place_of(v: F64, size: usize) -> (r: Option<usize>)
    ensures
        r == floor_place(v, size),
{
    if !v.is_finite() {
        return None;
    }
    let p = parts_of(v);
    proof {
        lemma_rounded(v);
    }
    let below: u64 = match p.whole {
        Some(w) => w,
        None => {
            return None;
        },
    };
    if v.is_negative() && (below > 0 || p.rest) {
        return None;
    }
    if below < size as u64 {
        Some(below as usize)
    } else {
        None
    }
}

/// The place nearest to a number, among `size` places.
pub fn clamp_pixel_index(value: F64, size: usize) -> (r: Option<usize>)
    ensures
        r == nearest_place(value, size),
{
    if !value.is_finite() || size == 0 {
        return None;
    }
    let p = parts_of(value);
    proof {
        lemma_rounded(value);
    }
    if value.is_negative() {
        return Some(0);
    }
    match p.whole {
        None => Some(size - 1),
        Some(w) => {
            let last: u64 = (size - 1) as u64;
            if w >= last {
                Some(size - 1)
            } else if p.half {
                Some((w + 1) as usize)
            } else {
                Some(w as usize)
            }
        },
    }
}

/// The places below and above a number, among `size` places.
pub fn cell_along(v: F64, size: usize) -> (r: Option<(usize, usize)>)
    ensures
        r == places_around(v, size),
        r is Some ==> r->Some_0.0 <= r->Some_0.1 < size,
{
    if !v.is_finite() {
        return None;
    }
    let p = parts_of(v);
    proof {
        lemma_rounded(v);
    }
    let below: u64 = match p.whole {
        Some(w) => w,
        None => {
            return None;
        },
    };
    if v.is_negative() && (below > 0 || p.rest) {
        return None;
    }
    if below >= size as u64 {
        return None;
    }
    let low: usize = below as usize;
    if !p.rest {
        return Some((low, low));
    }
    if low + 1 < size {
        Some((low, low + 1))
    } else {
        None
    }
}

/// The first of `size` places that is not below a bound.
pub fn first_along(v: F64, size: usize) -> (r: Option<usize>)
    ensures
        r == first_place(v, size),
{
    if v.is_nan() {
        return if size > 0 {
            Some(0)
        } else {
            None
        };
    }
    if !v.is_finite() {
        return if v.is_negative() && size > 0 {
            Some(0)
        } else {
            None
        };
    }
    let p = parts_of(v);
    proof {
        lemma_rounded(v);
    }
    if v.is_negative() {
        return if size > 0 {
            Some(0)
        } else {
            None
        };
    }
    match p.whole {
        None => None,
        Some(w) => if w < size as u64 {
            Some(w as usize)
        } else {
            None
        },
    }
}

/// The last of `size` places that is not above a bound, or the first place.
pub fn last_along(v: F64, size: usize) -> (r: usize)
    requires
        size > 0,
    ensures
        r == last_place(v, size),
        r < size,
{
    if v.is_nan() {
        return size - 1;
    }
    if !v.is_finite() {
        return if v.is_negative() {
            0
        } else {
            size - 1
        };
    }
    let p = parts_of(v);
    proof {
        lemma_rounded(v);
    }
    if v.is_negative() {
        return 0;
    }
    match p.whole {
        None => size - 1,
        Some(w) => {
            let last: u64 = (size - 1) as u64;
            if w >= last {
                size - 1
            } else if p.rest {
                (w + 1) as usize
            } else {
                w as usize
            }
        },
    }
}

/// The integer nearest to a number, cut to those from zero to `most`; zero where it is not
/// a number.
pub open spec fn level_within(v: F64, most: u16) -> u16 {
    let r = if v.finite() {
        v.rounded()
    } else {
        v.beyond()
    };
    if v.nan() || r < 0 {
        0
    } else if r > most {
        most
    } else {
        r as u16
    }
}

/// The integer nearest to a number, cut to those from zero to `most`.
pub fn clamp_level(v: F64, most: u16) -> (r: u16)
    ensures
        r == level_within(v, most),
        r <= most,
{
    let n: i64 = v.round_to_i64();
    if n < 0 {
        0
    } else if n > most as i64 {
        most
    } else {
        n as u16
    }
}

/// Whether an integer is not above a finite number.
pub open spec fn reaches(v: F64, n: int) -> bool {
    n * v.denominator() <= v.signed_numerator()
}

/// Whether an integer is not below a finite number.
pub open spec fn is_reached(v: F64, n: int) -> bool {
    v.signed_numerator() <= n * v.denominator()
}

/// How far an integer is from a finite number, as a multiple of the least part of it.
pub open spec fn apart(v: F64, n: int) -> int {
    let d = v.signed_numerator() - n * v.denominator();
    if d < 0 {
        -d
    } else {
        d
    }
}

/// The denominator of a number is positive.
pub proof fn lemma_denominator(v: F64)
    ensures
        v.denominator() > 0,
        v.numerator() >= 0,
{
    if v.scale() >= 0 {
        lemma_pow2_pos(v.scale() as nat);
        assert(v.significand() * pow2(v.scale() as nat) >= 0) by (nonlinear_arith)
            requires
                v.significand() >= 0,
                pow2(v.scale() as nat) >= 0,
        ;
    } else {
        lemma_pow2_pos((-v.scale()) as nat);
    }
}

/// The largest integer that is not above a number, and the smallest that is not below it: a
/// number lies between the two, less than one from each.
pub proof fn lemma_floor_and_ceil(v: F64)
    ensures
        forall|n: int| reaches(v, n) <==> n <= v.floor(),
        forall|n: int| is_reached(v, n) <==> v.ceil() <= n,
{
    lemma_denominator(v);
    let d = v.denominator();
    let s = v.signed_numerator();
    vstd::arithmetic::div_mod::lemma_fundamental_div_mod(s, d);
    vstd::arithmetic::div_mod::lemma_fundamental_div_mod(-s, d);
    vstd::arithmetic::div_mod::lemma_mod_bound(s, d);
    vstd::arithmetic::div_mod::lemma_mod_bound(-s, d);
    let q = s / d;
    let c = (-s) / d;
    assert forall|n: int| reaches(v, n) <==> n <= v.floor() by {
        assert((n * d <= s) == (n <= q)) by (nonlinear_arith)
            requires
                d > 0,
                s == d * q + s % d,
                0 <= s % d < d,
        ;
    }
    assert forall|n: int| is_reached(v, n) <==> v.ceil() <= n by {
        assert((s <= n * d) == (-c <= n)) by (nonlinear_arith)
            requires
                d > 0,
                -s == d * c + (-s) % d,
                0 <= (-s) % d < d,
        ;
    }
}

/// Rounding goes to the nearest integer: no integer is closer, and of two that are as close
/// it is the one away from zero.
pub proof fn lemma_rounded_is_nearest(v: F64, n: int)
    ensures
        apart(v, v.rounded()) <= apart(v, n),
        apart(v, v.rounded()) == apart(v, n) && n != v.rounded() ==> if v.bits >= SIGN_64 {
            v.rounded() < n
        } else {
            n < v.rounded()
        },
{
    lemma_denominator(v);
    let d = v.denominator();
    let m = v.numerator();
    let r = (2 * m + d) / (2 * d);
    vstd::arithmetic::div_mod::lemma_fundamental_div_mod(2 * m + d, 2 * d);
    vstd::arithmetic::div_mod::lemma_mod_bound(2 * m + d, 2 * d);
    let e = (2 * m + d) % (2 * d);
    let k = if v.bits >= SIGN_64 {
        -n
    } else {
        n
    };
    assert((-n) * d == -(n * d)) by (nonlinear_arith);
    assert((-r) * d == -(r * d)) by (nonlinear_arith);
    assert(2 * m + d == (2 * d) * r + e);
    assert((2 * d) * r == 2 * (r * d)) by (nonlinear_arith);
    let x = m - r * d;
    assert(2 * x == e - d);
    let y = m - k * d;
    assert(y == x + (r - k) * d) by (nonlinear_arith)
        requires
            y == m - k * d,
            x == m - r * d,
    ;
    if k < r {
        assert((r - k) * d >= d) by (nonlinear_arith)
            requires
                r - k >= 1,
                d > 0,
        ;
    } else if k > r {
        assert((r - k) * d <= -d) by (nonlinear_arith)
            requires
                r - k <= -1,
                d > 0,
        ;
    } else {
        assert((r - k) * d == 0) by (nonlinear_arith)
            requires
                r == k,
        ;
    }
}

/// The place that a number falls into begins at an integer not above it and ends before the
/// next one; there is none for a number below the first place or behind the last.
pub proof fn lemma_place_holds(v: F64, size: usize)
    ensures
        match floor_place(v, size) {
            Some(p) => v.finite() && p < size && reaches(v, p as int) && !reaches(v, p + 1),
            None => !v.finite() || !reaches(v, 0) || reaches(v, size as int),
        },
{
    lemma_floor_and_ceil(v);
}

/// The nearest of some places: no other place is nearer to the number, and of two that are as
/// near it is the later one.
pub proof fn lemma_place_is_nearest(v: F64, size: usize, other: int)
    requires
        0 <= other < size,
    ensures
        nearest_place(v, size) is Some <==> v.finite(),
        nearest_place(v, size) matches Some(p) ==> {
            &&& p < size
            &&& apart(v, p as int) <= apart(v, other)
            &&& other > p ==> apart(v, p as int) < apart(v, other)
        },
{
    if v.finite() {
        lemma_denominator(v);
        let d = v.denominator();
        let s = v.signed_numerator();
        let r = v.rounded();
        let p = nearest_place(v, size)->Some_0 as int;
        lemma_rounded_is_nearest(v, other);
        lemma_rounded_is_nearest(v, p);
        lemma_rounded_is_nearest(v, r + 1);
        lemma_rounded_is_nearest(v, r - 1);
        assert((r + 1) * d == r * d + d && (r - 1) * d == r * d - d) by (nonlinear_arith);
        let x = s - r * d;
        assert(-d <= 2 * x <= d);
        assert(s - p * d == x + (r - p) * d) by (nonlinear_arith)
            requires
                x == s - r * d,
        ;
        assert(s - other * d == x + (r - other) * d) by (nonlinear_arith)
            requires
                x == s - r * d,
        ;
        if r < p {
            assert((r - p) * d <= -d) by (nonlinear_arith)
                requires
                    r < p,
                    d > 0,
            ;
            assert((r - other) * d <= (r - p) * d) by (nonlinear_arith)
                requires
                    p <= other,
                    d > 0,
            ;
            if other > p {
                assert((r - other) * d < (r - p) * d) by (nonlinear_arith)
                    requires
                        p < other,
                        d > 0,
                ;
            }
        } else if r > p {
            assert((r - p) * d >= d) by (nonlinear_arith)
                requires
                    r > p,
                    d > 0,
            ;
            assert((r - other) * d >= (r - p) * d) by (nonlinear_arith)
                requires
                    other <= p,
                    d > 0,
            ;
        } else {
            assert((r - p) * d == 0) by (nonlinear_arith)
                requires
                    r == p,
            ;
            if other > p && v.bits >= SIGN_64 {
                assert(v.numerator() >= 0);
                assert(r * d >= 0) by (nonlinear_arith)
                    requires
                        r >= 0,
                        d > 0,
                ;
                assert((r - other) * d <= -d) by (nonlinear_arith)
                    requires
                        r < other,
                        d > 0,
                ;
            }
        }
    }
}

/// The places around a number: the one below is not above it and the one above is not below
/// it, each less than one away; there are none outside the first and the last place.
pub proof fn lemma_places_enclose(v: F64, size: usize)
    ensures
        match places_around(v, size) {
            Some((a, b)) => {
                &&& v.finite()
                &&& a <= b < size
                &&& reaches(v, a as int) && !reaches(v, a + 1)
                &&& is_reached(v, b as int) && !is_reached(v, b - 1)
            },
            None => !v.finite() || !reaches(v, 0) || !is_reached(v, size - 1),
        },
{
    lemma_floor_and_ceil(v);
    lemma_denominator(v);
    if v.finite() {
        lemma_rounded(v);
    }
}

/// Every place between two bounds is between the first and the last place for them, and what
/// is between these is less than one place outside the bounds. A bound that is not a number,
/// or that is infinite on its own side, leaves nothing out.
pub proof fn lemma_places_between(low: F64, high: F64, size: usize, n: int)
    requires
        0 <= n < size,
    ensures
        (low.nan() || low.less(high) && !low.finite() || low.finite() && is_reached(low, n))
            ==> first_place(low, size) is Some && first_place(low, size)->Some_0 <= n,
        (high.nan() || low.less(high) && !high.finite() || high.finite() && reaches(high, n))
            ==> n <= last_place(high, size) < size,
        first_place(low, size) is Some && first_place(low, size)->Some_0 <= n && low.finite()
            ==> !reaches(low, n + 1),
        0 < n <= last_place(high, size) && high.finite() ==> !is_reached(high, n - 1),
{
    lemma_floor_and_ceil(low);
    lemma_floor_and_ceil(high);
    lemma_denominator(low);
    lemma_denominator(high);
    if low.finite() {
        lemma_rounded(low);
    }
    if high.finite() {
        lemma_rounded(high);
    }
}

/// The level of a number is the one nearest to it of those from zero to `most`; a number
/// beyond them has the last on its side, and what is no number has zero.
pub proof fn lemma_level_is_nearest(v: F64, most: u16, other: int)
    requires
        0 <= other <= most,
    ensures
        level_within(v, most) <= most,
        v.nan() ==> level_within(v, most) == 0,
        v.finite() ==> apart(v, level_within(v, most) as int) <= apart(v, other),
        v.finite() && other > level_within(v, most) ==> apart(v, level_within(v, most) as int)
            < apart(v, other),
        !v.nan() && !v.finite() ==> level_within(v, most) == if v.less(F64 { bits: 0 }) {
            0
        } else {
            most
        },
{
    if v.finite() {
        let size = (most + 1) as usize;
        lemma_place_is_nearest(v, size, other);
    }
}

/// The integer of a cast after rounding is the nearest one, where it fits 64 bits.
pub proof fn lemma_cast_is_nearest(v: F64, n: i64)
    requires
        v.finite(),
        i64::MIN < v.rounded_i64() < i64::MAX,
    ensures
        apart(v, v.rounded_i64() as int) <= apart(v, n as int),
{
    lemma_rounded_is_nearest(v, n as int);
}

/// A magnitude as a multiple of the least number above zero, which is two to the power of -1074:
/// the lower 52 bits are the fraction, those above are the exponent, and the fraction has a
/// leading one unless the exponent is zero.
pub open spec fn least_units(magnitude: int) -> int {
    let exponent = magnitude / 0x10_0000_0000_0000;
    let fraction = magnitude % 0x10_0000_0000_0000;
    if exponent == 0 {
        fraction
    } else {
        (0x10_0000_0000_0000 + fraction) * pow2((exponent - 1) as nat)
    }
}

/// What a bit pattern stands for. The highest bit is the sign. With all bits of the exponent
/// set it is infinite where the fraction is zero and else not a number; every other one is
/// finite, and its numerator and denominator are those of its multiple of the least number.
pub proof fn lemma_value_of_bits(v: F64)
    ensures
        ({
            let magnitude = v.bits as int % 0x8000_0000_0000_0000;
            let exponent = magnitude / 0x10_0000_0000_0000;
            let fraction = magnitude % 0x10_0000_0000_0000;
            &&& v.finite() <==> exponent < 2047
            &&& v.nan() <==> exponent == 2047 && fraction != 0
            &&& v.denominator() > 0
            &&& v.finite() ==> v.signed_numerator() * pow2(1074) == v.denominator() * if v.bits
                >= 0x8000_0000_0000_0000 {
                -least_units(magnitude)
            } else {
                least_units(magnitude)
            }
        }),
{
    let m = v.magnitude();
    assert(m == v.bits as int % 0x8000_0000_0000_0000);
    lemma_denominator(v);
    let s = v.scale();
    let sig = v.significand();
    if v.finite() {
        let e = m / 0x10_0000_0000_0000;
        assert(0 <= e < 2047);
        let k = (s + 1074) as nat;
        assert(least_units(m) == sig * pow2(k)) by {
            lemma2_to64();
            if e == 0 {
                assert(m < 0x10_0000_0000_0000);
                assert(pow2(0) == 1);
            }
        }
        if s >= 0 {
            lemma_pow2_adds(s as nat, 1074);
            assert(sig * pow2(s as nat) * pow2(1074) == sig * (pow2(s as nat) * pow2(1074)))
                by (nonlinear_arith);
            assert(v.numerator() * pow2(1074) == v.denominator() * least_units(m));
        } else {
            lemma_pow2_adds(k, (-s) as nat);
            assert(sig * (pow2(k) * pow2((-s) as nat)) == pow2((-s) as nat) * (sig * pow2(k)))
                by (nonlinear_arith);
            assert(v.numerator() * pow2(1074) == v.denominator() * least_units(m));
        }
        let (a, b, p) = (v.numerator(), v.denominator(), pow2(1074) as int);
        let u = least_units(m);
        assert((-a) * p == b * (-u)) by (nonlinear_arith)
            requires
                a * p == b * u,
        ;
    }
}

proof fn lemma_units_increase(a: int, b: int)
    requires
        0 <= a < b,
    ensures
        0 <= least_units(a) < least_units(b),
{
    let (e, f) = (a / 0x10_0000_0000_0000, b / 0x10_0000_0000_0000);
    let (r, t) = (a % 0x10_0000_0000_0000, b % 0x10_0000_0000_0000);
    lemma2_to64();
    if e == 0 && f == 0 {
    } else if e == f {
        lemma_pow2_pos((e - 1) as nat);
        let p = pow2((e - 1) as nat) as int;
        assert(0 <= (0x10_0000_0000_0000 + r) * p && (0x10_0000_0000_0000 + r) * p < (
        0x10_0000_0000_0000 + t) * p) by (nonlinear_arith)
            requires
                0 <= r < t,
                p > 0,
        ;
    } else {
        let q = pow2((f - 1) as nat) as int;
        lemma_pow2_pos((f - 1) as nat);
        assert((0x10_0000_0000_0000 + t) * q >= 0x10_0000_0000_0000 * q) by (nonlinear_arith)
            requires
                t >= 0,
                q > 0,
        ;
        if e == 0 {
            assert(0x10_0000_0000_0000 * q >= 0x10_0000_0000_0000) by (nonlinear_arith)
                requires
                    q >= 1,
            ;
        } else {
            let p = pow2((e - 1) as nat) as int;
            lemma_pow2_pos((e - 1) as nat);
            vstd::arithmetic::power2::lemma_pow2_unfold(e as nat);
            if e < f - 1 {
                lemma_pow2_strictly_increases(e as nat, (f - 1) as nat);
            }
            assert(2 * p <= q);
            assert(0 <= (0x10_0000_0000_0000 + r) * p && (0x10_0000_0000_0000 + r) * p
                < 0x10_0000_0000_0000 * q) by (nonlinear_arith)
                requires
                    0 <= r < 0x10_0000_0000_0000,
                    p > 0,
                    2 * p <= q,
            ;
        }
    }
}

/// The order of finite numbers is that of their values.
pub proof fn lemma_order_of_values(a: F64, b: F64)
    requires
        a.finite(),
        b.finite(),
    ensures
        a.less(b) <==> a.signed_numerator() * b.denominator() < b.signed_numerator()
            * a.denominator(),
        a.at_most(b) <==> a.signed_numerator() * b.denominator() <= b.signed_numerator()
            * a.denominator(),
        a.same_number(b) <==> a.signed_numerator() * b.denominator() == b.signed_numerator()
            * a.denominator(),
{
    lemma_value_of_bits(a);
    lemma_value_of_bits(b);
    let (m, n) = (a.magnitude(), b.magnitude());
    lemma_units_increase(-1 + 1, 1);
    if m < n {
        lemma_units_increase(m, n);
    }
    if n < m {
        lemma_units_increase(n, m);
    }
    if m > 0 {
        lemma_units_increase(0, m);
    }
    if n > 0 {
        lemma_units_increase(0, n);
    }
    let x = if a.bits >= SIGN_64 {
        -least_units(m)
    } else {
        least_units(m)
    };
    let y = if b.bits >= SIGN_64 {
        -least_units(n)
    } else {
        least_units(n)
    };
    assert(least_units(0) == 0);
    assert(a.rank() < b.rank() <==> x < y);
    assert(a.rank() == b.rank() <==> x == y);
    let p = pow2(1074) as int;
    lemma_pow2_pos(1074);
    let (s, t) = (a.signed_numerator(), b.signed_numerator());
    let (d, e) = (a.denominator(), b.denominator());
    assert((s * e) * p == (d * e) * x && (t * d) * p == (d * e) * y) by (nonlinear_arith)
        requires
            s * p == d * x,
            t * p == e * y,
    ;
    assert(d * e > 0) by (nonlinear_arith)
        requires
            d > 0,
            e > 0,
    ;
    let c = d * e;
    let (u, w) = (s * e, t * d);
    assert((u < w <==> x < y) && (u == w <==> x == y)) by (nonlinear_arith)
        requires
            u * p == c * x,
            w * p == c * y,
            c > 0,
            p > 0,
    ;
}

/// A finite number is at least a whole one, or at most, as their order says.
pub proof fn lemma_order_of_whole(v: F64, whole: F64, n: int)
    requires
        v.finite(),
        whole.finite(),
        whole.signed_numerator() == n * whole.denominator(),
    ensures
        whole.at_most(v) <==> reaches(v, n),
        v.at_most(whole) <==> is_reached(v, n),
{
    lemma_order_of_values(v, whole);
    lemma_order_of_values(whole, v);
    lemma_denominator(whole);
    let (s, d, e) = (v.signed_numerator(), v.denominator(), whole.denominator());
    assert(((n * e) * d <= s * e <==> n * d <= s) && (s * e <= (n * e) * d <==> s <= n * d))
        by (nonlinear_arith)
        requires
            e > 0,
    ;
}

} // verus!
