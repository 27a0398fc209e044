//! Binary64 numbers by their bits.
//!
//! Terrain heights and positions reach the library as the bits of an IEEE 754
//! double. A finite double is a whole number of units of 2^-1074, so order,
//! range and floor are stated over that number.

use vstd::arithmetic::div_mod::{lemma_fundamental_div_mod, lemma_fundamental_div_mod_converse};
use vstd::arithmetic::power2::{
    lemma2_to64, lemma2_to64_rest, lemma_pow2_adds, lemma_pow2_pos, lemma_pow2_strictly_increases,
    lemma_pow2_unfold, pow2,
};
use vstd::bits::{lemma_u64_shl_is_mul, lemma_u64_shr_is_div};
use vstd::prelude::*;

verus! {

/// 2^63: the weight of the sign bit.
pub const SIGN: u64 = 0x8000_0000_0000_0000;

/// 2^52: the weight of the lowest exponent bit, and the implicit leading bit.
pub const HIDDEN: u64 = 0x10_0000_0000_0000;

/// The exponent field of infinities and NaNs.
pub const EXPONENT_TOP: u64 = 2047;

/// A double, held by its bits.
#[derive(Clone, Copy, PartialEq, Eq, Debug, Structural)]
pub struct Double {
    pub bits: u64,
}

/// The distance from zero, in units of 2^-1074, of the double whose bits
/// without the sign are `low`; infinity comes out above every finite double.
pub open spec fn magnitude(low: nat) -> nat {
    let exponent = low / HIDDEN as nat;
    let fraction = low % HIDDEN as nat;
    if exponent == 0 {
        fraction
    } else {
        (fraction + HIDDEN) as nat * pow2((exponent - 1) as nat)
    }
}

/// One, in units of 2^-1074.
pub open spec fn one() -> int {
    pow2(1074) as int
}

impl Double {
    /// The bits without the sign.
    pub open spec fn low(self) -> nat {
        (self.bits % SIGN) as nat
    }

    /// Whether the double is no number.
    pub open spec fn spec_nan(self) -> bool {
        self.low() > EXPONENT_TOP * HIDDEN
    }

    /// Whether the double is neither infinite nor NaN.
    pub open spec fn spec_finite(self) -> bool {
        self.low() < EXPONENT_TOP * HIDDEN
    }

    /// The value in units of 2^-1074.
    pub open spec fn units(self) -> int {
        if self.bits >= SIGN {
            -(magnitude(self.low()) as int)
        } else {
            magnitude(self.low()) as int
        }
    }

    /// `self < other`, false where either is NaN.
    pub open spec fn spec_less(self, other: Double) -> bool {
        !self.spec_nan() && !other.spec_nan() && self.units() < other.units()
    }

    /// `self <= other`, false where either is NaN.
    pub open spec fn spec_at_most(self, other: Double) -> bool {
        !self.spec_nan() && !other.spec_nan() && self.units() <= other.units()
    }

    /// The largest whole number that is not above the value, kept within `i64`;
    /// zero for NaN.
    pub open spec fn spec_floor(self) -> int {
        if self.spec_nan() {
            0
        } else {
            let whole = self.units() / one();
            if whole < i64::MIN {
                i64::MIN as int
            } else if whole > i64::MAX {
                i64::MAX as int
            } else {
                whole
            }
        }
    }

    /// The double of `n` times 2^-53.
    pub fn of_fraction(n: u64) -> (r: Double)
        requires
            n < 0x20_0000_0000_0000,
        ensures
            !r.spec_nan(),
            r.units() == n * pow2(1021),
    {
        if n == 0 {
            assert(0 * pow2(1021) == 0) by (nonlinear_arith);
            return Double { bits: 0 };
        }
        let mut m: u64 = n;
        let mut e: u64 = 1022;
        proof {
            lemma2_to64();
        }
        while m < HIDDEN
            invariant
                1 <= m < 2 * HIDDEN,
                m * pow2((e - 1) as nat) == n * pow2(1021),
                970 <= e <= 1022,
                m >= pow2((1022 - e) as nat),
            decreases e,
        {
            proof {
                lemma2_to64();
                lemma2_to64_rest();
                lemma_pow2_adds((1022 - e) as nat, 1);
                lemma_pow2_adds((e - 2) as nat, 1);
                let p = pow2((e - 2) as nat) as int;
                assert((2 * m) * p == m * (p * 2)) by (nonlinear_arith);
            }
            m = 2 * m;
            e = e - 1;
        }
        Double { bits: e * HIDDEN + (m - HIDDEN) }
    }

    /// Whether the double is NaN.
    pub fn is_nan(self) -> (r: bool)
        ensures
            r == self.spec_nan(),
    {
        self.bits % SIGN > EXPONENT_TOP * HIDDEN
    }

    /// Whether the double is a finite number.
    pub fn is_finite(self) -> (r: bool)
        ensures
            r == self.spec_finite(),
    {
        self.bits % SIGN < EXPONENT_TOP * HIDDEN
    }

    /// Whether `self < other`.
    pub fn less(self, other: Double) -> (r: bool)
        ensures
            r == self.spec_less(other),
    {
        if self.is_nan() || other.is_nan() {
            return false;
        }
        let a: u64 = self.bits % SIGN;
        let b: u64 = other.bits % SIGN;
        proof {
            lemma_magnitude_order(a as nat, b as nat);
            lemma_magnitude_order(0, a as nat);
            lemma_magnitude_order(0, b as nat);
        }
        if self.bits >= SIGN {
            if other.bits >= SIGN {
                b < a
            } else {
                a > 0 || b > 0
            }
        } else {
            other.bits < SIGN && a < b
        }
    }

    /// Whether `self <= other`.
    pub fn at_most(self, other: Double) -> (r: bool)
        ensures
            r == self.spec_at_most(other),
    {
        !self.is_nan() && !other.is_nan() && !other.less(self)
    }

    /// The double without its sign.
    pub fn abs(self) -> (r: Double)
        ensures
            r.low() == self.low(),
            r.spec_nan() == self.spec_nan(),
            r.units() == magnitude(self.low()),
    {
        Double { bits: self.bits % SIGN }
    }

    /// The largest whole number that is not above the value, kept within `i64`;
    /// zero for NaN.
    pub fn floor(self) -> (r: i64)
        ensures
            r == self.spec_floor(),
    {
        if self.is_nan() {
            return 0;
        }
        let low: u64 = self.bits % SIGN;
        let exponent: u64 = low / HIDDEN;
        proof {
            lemma_magnitude_pieces(low as nat);
        }
        if exponent >= 1086 {
            proof {
                lemma_magnitude_huge(low as nat);
            }
            return if self.bits >= SIGN { i64::MIN } else { i64::MAX };
        }
        let mut whole: u64 = 0;
        let mut exact: bool = low == 0;
        if exponent >= 1075 {
            let m: u64 = low % HIDDEN + HIDDEN;
            let s: u64 = exponent - 1075;
            proof {
                lemma2_to64();
    lemma2_to64_rest();
                if s < 10 {
                    lemma_pow2_strictly_increases(s as nat, 10);
                }
                assert(m * pow2(s as nat) <= 0x1f_ffff_ffff_ffff * 1024) by (nonlinear_arith)
                    requires
                        m <= 0x1f_ffff_ffff_ffff,
                        pow2(s as nat) <= 1024,
                ;
                lemma_u64_shl_is_mul(m, s);
                lemma_whole_shl(low as nat);
            }
            whole = m << s;
            exact = true;
            assert(whole * one() == magnitude(low as nat));
            assert((whole + 1) * one() == whole * one() + one()) by (nonlinear_arith);
            assert(one() > 0) by {
                lemma_pow2_pos(1074);
            }
        } else if exponent >= 1023 {
            let m: u64 = low % HIDDEN + HIDDEN;
            let s: u64 = 1075 - exponent;
            proof {
                lemma_u64_shr_is_div(m, s);
                lemma_pow2_pos(s as nat);
                lemma_whole_shr(low as nat);
                lemma_u64_shl_is_mul_of_shr(m, s);
            }
            whole = m >> s;
            exact = (whole << s) == m;
            assert(whole as int == m as int / pow2(s as nat) as int);
        } else {
            proof {
                lemma_whole_small(low as nat);
                assert(whole * one() == 0 && (whole + 1) * one() == one()) by (nonlinear_arith)
                    requires
                        whole == 0,
                ;
            }
        }
        proof {
            lemma_floor_of(magnitude(low as nat) as int, whole as int, exact);
        }
        if self.bits >= SIGN {
            if exact {
                -(whole as i64)
            } else {
                -(whole as i64) - 1
            }
        } else {
            whole as i64
        }
    }
}

proof fn lemma_magnitude_pieces(low: nat)
    requires
        low < SIGN,
    ensures
        low == (low / HIDDEN as nat) * HIDDEN + low % HIDDEN as nat,
        low / (HIDDEN as nat) < 2048,
        low % (HIDDEN as nat) < HIDDEN,
{
}

/// Adding one to the exponent field at least doubles the magnitude's floor.
proof fn lemma_magnitude_bounds(low: nat)
    requires
        low < SIGN,
    ensures
        low / (HIDDEN as nat) > 0 ==> {
            &&& magnitude(low) >= HIDDEN * pow2((low / HIDDEN as nat - 1) as nat)
            &&& magnitude(low) < HIDDEN * pow2(low / HIDDEN as nat)
        },
        low / (HIDDEN as nat) == 0 ==> magnitude(low) < HIDDEN * pow2(0),
{
    lemma_magnitude_pieces(low);
    lemma2_to64();
    lemma2_to64_rest();
    let e = low / HIDDEN as nat;
    let f = low % HIDDEN as nat;
    if e > 0 {
        let p = pow2((e - 1) as nat);
        lemma_pow2_pos((e - 1) as nat);
        lemma_pow2_adds((e - 1) as nat, 1);
        assert(HIDDEN * (p * 2) == (2 * HIDDEN) * p) by (nonlinear_arith);
        assert((f + HIDDEN) * p >= HIDDEN * p) by (nonlinear_arith)
            requires
                f >= 0,
                p > 0,
        ;
        assert((f + HIDDEN) * p < (2 * HIDDEN) * p) by (nonlinear_arith)
            requires
                f < HIDDEN,
                p > 0,
        ;
    }
}

/// The order of the bits without the sign is the order of the magnitudes.
pub proof fn lemma_magnitude_order(a: nat, b: nat)
    requires
        a < SIGN,
        b < SIGN,
    ensures
        a < b <==> magnitude(a) < magnitude(b),
        a == b <==> magnitude(a) == magnitude(b),
{
    if a < b {
        lemma_magnitude_less(a, b);
    } else if b < a {
        lemma_magnitude_less(b, a);
    }
}

proof fn lemma_magnitude_less(a: nat, b: nat)
    requires
        a < b < SIGN,
    ensures
        magnitude(a) < magnitude(b),
{
    lemma_magnitude_pieces(a);
    lemma_magnitude_pieces(b);
    lemma_magnitude_bounds(a);
    lemma_magnitude_bounds(b);
    let ea = a / HIDDEN as nat;
    let eb = b / HIDDEN as nat;
    if ea == eb {
        if ea > 0 {
            let p = pow2((ea - 1) as nat);
            lemma_pow2_pos((ea - 1) as nat);
            let fa = a % HIDDEN as nat;
            let fb = b % HIDDEN as nat;
            assert((fa + HIDDEN) * p < (fb + HIDDEN) * p) by (nonlinear_arith)
                requires
                    fa < fb,
                    p > 0,
            ;
        }
    } else {
        assert(ea < eb);
        if ea < eb - 1 {
            lemma_pow2_strictly_increases(ea, (eb - 1) as nat);
        }
        let p = pow2(ea);
        let q = pow2((eb - 1) as nat);
        assert(HIDDEN * p <= HIDDEN * q) by (nonlinear_arith)
            requires
                p <= q,
        ;
    }
}

proof fn lemma_magnitude_huge(low: nat)
    requires
        low < SIGN,
        low / (HIDDEN as nat) >= 1086,
    ensures
        magnitude(low) as int / one() > i64::MAX,
        -(magnitude(low) as int) / one() <= i64::MIN,
{
    lemma_magnitude_bounds(low);
    lemma2_to64();
    lemma2_to64_rest();
    let e = low / HIDDEN as nat;
    if e > 1086 {
        lemma_pow2_strictly_increases(1085, (e - 1) as nat);
    }
    lemma_pow2_adds(1074, 11);
    let d = one();
    lemma_pow2_pos(1074);
    let m = magnitude(low) as int;
    let p = pow2((e - 1) as nat) as int;
    assert(m >= HIDDEN * p);
    assert(HIDDEN * p >= HIDDEN * (d * 2048)) by (nonlinear_arith)
        requires
            p >= d * 2048,
    ;
    assert(HIDDEN * (d * 2048) == 0x8000_0000_0000_0000 * d) by (nonlinear_arith);
    assert(m / d >= 0x8000_0000_0000_0000) by (nonlinear_arith)
        requires
            m >= 0x8000_0000_0000_0000 * d,
            d > 0,
    ;
    assert((-m) / d <= -0x8000_0000_0000_0000) by (nonlinear_arith)
        requires
            m >= 0x8000_0000_0000_0000 * d,
            d > 0,
    ;
}

/// From an exponent field of 1075 on the value is whole.
proof fn lemma_whole_shl(low: nat)
    requires
        low < SIGN,
        1075 <= low / (HIDDEN as nat) < 1086,
    ensures
        ({
            let e = low / HIDDEN as nat;
            let m = low % HIDDEN as nat + HIDDEN;
            magnitude(low) == m * pow2((e - 1075) as nat) * one()
        }),
{
    let e = low / HIDDEN as nat;
    let m = low % HIDDEN as nat + HIDDEN;
    lemma_pow2_adds((e - 1075) as nat, 1074);
    let p = pow2((e - 1075) as nat) as int;
    let d = one();
    assert(m * (p * d) == m * p * d) by (nonlinear_arith);
}

/// Below that the value is a fraction of a power of two.
proof fn lemma_whole_shr(low: nat)
    requires
        low < SIGN,
        1023 <= low / (HIDDEN as nat) < 1075,
    ensures
        ({
            let e = low / HIDDEN as nat;
            let m = low % HIDDEN as nat + HIDDEN;
            let p = pow2((1075 - e) as nat) as int;
            let q = m / p;
            &&& q * one() <= magnitude(low) < (q + 1) * one()
            &&& q * p == m <==> q * one() == magnitude(low)
            &&& q <= m
        }),
{
    let e = low / HIDDEN as nat;
    let m = low % HIDDEN as nat + HIDDEN;
    let s = (1075 - e) as nat;
    let k = (e - 1) as nat;
    lemma_pow2_adds(k, s);
    lemma_pow2_pos(s);
    lemma_pow2_pos(k);
    let p = pow2(s) as int;
    let w = pow2(k) as int;
    let d = one();
    let q = m / p;
    assert(d == w * p);
    lemma_fundamental_div_mod(m as int, p);
    assert(q * p <= m < (q + 1) * p) by (nonlinear_arith)
        requires
            m == p * q + m % p,
            0 <= m % p < p,
    ;
    assert(q * d == (q * p) * w) by (nonlinear_arith)
        requires
            d == w * p,
    ;
    assert((q + 1) * d == ((q + 1) * p) * w) by (nonlinear_arith)
        requires
            d == w * p,
    ;
    let qp = q * p;
    let qq = (q + 1) * p;
    assert(qp * w <= m * w) by (nonlinear_arith)
        requires
            qp <= m,
            w > 0,
    ;
    assert(qp < m ==> qp * w < m * w) by (nonlinear_arith)
        requires
            w > 0,
    ;
    assert(m * w < qq * w) by (nonlinear_arith)
        requires
            m < qq,
            w > 0,
    ;
    assert(q <= m) by (nonlinear_arith)
        requires
            q * p <= m,
            p >= 1,
            m >= 0,
    ;
}

/// Below an exponent field of 1023 the value lies strictly between -1 and 1.
proof fn lemma_whole_small(low: nat)
    requires
        low < SIGN,
        low / (HIDDEN as nat) < 1023,
    ensures
        magnitude(low) < one(),
        magnitude(low) == 0 <==> low == 0,
{
    lemma2_to64();
    lemma2_to64_rest();
    lemma_magnitude_bounds(low);
    lemma_magnitude_order(0, low);
    let e = low / HIDDEN as nat;
    lemma_pow2_adds(1022, 52);
    if e < 1022 {
        lemma_pow2_strictly_increases(e, 1022);
    }
    let p = pow2(e) as int;
    let q = pow2(1022) as int;
    assert(HIDDEN * p <= q * HIDDEN) by (nonlinear_arith)
        requires
            p <= q,
    ;
}

proof fn lemma_u64_shl_is_mul_of_shr(m: u64, s: u64)
    requires
        m < 0x40_0000_0000_0000,
        1 <= s < 53,
    ensures
        (m >> s) << s == (m as int / pow2(s as nat) as int) * pow2(s as nat),
{
    lemma_u64_shr_is_div(m, s);
    lemma_pow2_pos(s as nat);
    let p = pow2(s as nat) as int;
    let q = m as int / p;
    lemma_fundamental_div_mod(m as int, p);
    assert(q * p <= m) by (nonlinear_arith)
        requires
            m == p * q + m as int % p,
            0 <= m as int % p,
    ;
    lemma_u64_shl_is_mul(m >> s, s);
}

/// The floors of a number of units and of its negative.
proof fn lemma_floor_of(m: int, whole: int, exact: bool)
    requires
        whole * one() <= m < (whole + 1) * one(),
        exact <==> whole * one() == m,
    ensures
        m / one() == whole,
        (-m) / one() == if exact {
            -whole
        } else {
            -whole - 1
        },
{
    let d = one();
    lemma_pow2_pos(1074);
    assert((whole + 1) * d == whole * d + d) by (nonlinear_arith);
    lemma_fundamental_div_mod_converse(m, d, whole, m - whole * d);
    if exact {
        assert(-m == (-whole) * d) by (nonlinear_arith)
            requires
                whole * d == m,
        ;
        lemma_fundamental_div_mod_converse(-m, d, -whole, 0);
    } else {
        assert(-m == (-whole - 1) * d + (d + whole * d - m)) by (nonlinear_arith);
        lemma_fundamental_div_mod_converse(-m, d, -whole - 1, d + whole * d - m);
    }
}

/// Numbers are ordered as they are: below zero before above it, the larger of two above
/// zero is the one with the larger bits, and below zero it is the one with the smaller bits.
/// What is not a number is neither before nor after anything.
pub proof fn bits_order_numbers(a: Double, b: Double)
    ensures
        a.spec_nan() || b.spec_nan() ==> !a.spec_less(b) && !a.spec_at_most(b),
        !a.spec_nan() && !b.spec_nan() ==> {
            &&& a.spec_at_most(b) <==> !b.spec_less(a)
            &&& a.bits < SIGN && b.bits < SIGN ==> (a.spec_less(b) <==> a.bits < b.bits)
            &&& a.bits >= SIGN && b.bits >= SIGN ==> (a.spec_less(b) <==> a.bits > b.bits)
            &&& a.bits > SIGN && b.bits < SIGN ==> a.spec_less(b)
            &&& a.bits >= SIGN && b.bits < SIGN ==> a.spec_at_most(b)
        },
        a.spec_nan() <==> a.bits % SIGN > 0x7ff0_0000_0000_0000,
        a.spec_finite() <==> a.bits % SIGN < 0x7ff0_0000_0000_0000,
{
    lemma_magnitude_order(a.low(), b.low());
    lemma_magnitude_order(0, a.low());
    lemma_magnitude_order(0, b.low());
    assert(magnitude(0) == 0);
}

/// Infinity is farther than every number.
pub proof fn infinity_is_farthest(a: Double, far: Double)
    requires
        a.spec_finite(),
        far.bits == 0x7ff0_0000_0000_0000,
    ensures
        a.units() < far.units(),
        !far.spec_nan(),
        !far.spec_finite(),
{
    lemma_magnitude_order(a.low(), far.low());
    lemma_magnitude_order(0, far.low());
    assert(magnitude(0) == 0);
}

/// The number one is as many units as one has.
pub proof fn one_is_one(a: Double)
    requires
        a.bits == 0x3ff0_0000_0000_0000,
    ensures
        a.units() == one(),
        a.spec_finite(),
{
    lemma2_to64();
    lemma2_to64_rest();
    lemma_pow2_adds(1022, 52);
    let p = pow2(1022) as int;
    assert(HIDDEN * p == p * 0x10_0000_0000_0000) by (nonlinear_arith)
        requires
            HIDDEN == 0x10_0000_0000_0000,
    ;
}

/// Zero is no units.
pub proof fn zero_is_nothing(a: Double)
    requires
        a.bits == 0,
    ensures
        a.units() == 0,
        a.spec_finite(),
{
}

/// A number with the next exponent is twice as much.
pub proof fn exponents_double(a: Double, b: Double)
    requires
        a.bits < SIGN,
        a.bits >= HIDDEN,
        b.bits == a.bits + HIDDEN,
        b.bits < SIGN,
    ensures
        b.units() == 2 * a.units(),
{
    let low = a.low();
    let e = low / HIDDEN as nat;
    assert(b.low() == low + HIDDEN);
    assert((low + HIDDEN) / HIDDEN as int == e + 1);
    assert((low + HIDDEN) % HIDDEN as int == low % HIDDEN as nat);
    let m = (low % HIDDEN as nat + HIDDEN) as nat;
    lemma_pow2_unfold(e);
    assert(m * (2 * pow2((e - 1) as nat)) == 2 * (m * pow2((e - 1) as nat))) by (nonlinear_arith);
}

/// Rounding down gives the whole number at or next below, as far as there is one.
pub proof fn floors_are_next_below(a: Double)
    requires
        !a.spec_nan(),
    ensures
        i64::MIN <= a.spec_floor() <= i64::MAX,
        a.spec_floor() > i64::MIN ==> a.spec_floor() * one() <= a.units(),
        a.spec_floor() < i64::MAX ==> a.units() < (a.spec_floor() + 1) * one(),
{
    lemma_pow2_pos(1074);
    let d = one();
    let n = a.units();
    let q = n / d;
    lemma_fundamental_div_mod(n, d);
    assert(q * d <= n < (q + 1) * d) by (nonlinear_arith)
        requires
            n == d * q + n % d,
            0 <= n % d < d,
    ;
    let f = a.spec_floor();
    if f > q {
        assert(n < (f + 1) * d) by (nonlinear_arith)
            requires
                n < (q + 1) * d,
                f > q,
                d > 0,
        ;
    }
    if f < q {
        assert(f * d <= n) by (nonlinear_arith)
            requires
                q * d <= n,
                f < q,
                d > 0,
        ;
    }
}

} // verus!
