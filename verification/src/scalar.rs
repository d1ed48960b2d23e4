use vstd::arithmetic::div_mod::{
    lemma_basic_div, lemma_div_is_ordered, lemma_div_multiples_vanish,
    lemma_div_multiples_vanish_quotient,
};
use vstd::arithmetic::power2::{
    lemma2_to64, lemma_pow2_adds, lemma_pow2_pos, lemma_pow2_strictly_increases,
    lemma_pow2_unfold, pow2,
};
use vstd::prelude::*;

verus! {

/// The bit that carries the sign of a single-precision number.
pub const SIGN_BIT: u32 = 0x8000_0000;

/// The bit pattern of positive infinity; every larger magnitude is a NaN.
pub const INFINITY_BITS: u32 = 0x7F80_0000;

/// The number of patterns that the fraction field can hold: 2 to the power 23.
pub const FRACTION_SIZE: u32 = 0x80_0000;

/// The exponent field of the numbers from 1 up to, and without, 2.
pub const EXPONENT_OF_ONE: u32 = 127;

/// An IEEE-754 single-precision number, held by its 32-bit pattern.
///
/// Nothing here computes with such numbers. Numbers that were computed
/// elsewhere are classified, ordered and cut to whole numbers, and each of
/// these is a function of the bit pattern alone.
#[derive(Clone, Copy, Debug)]
pub struct Scalar {
    pub bits: u32,
}

impl Scalar {
    /// The pattern without its sign bit.
    pub open spec fn magnitude(self) -> nat {
        (self.bits % SIGN_BIT) as nat
    }

    /// Whether the sign bit is set. True of `-0.0` too.
    pub open spec fn is_negative(self) -> bool {
        self.bits >= SIGN_BIT
    }

    /// Whether the pattern encodes no number at all.
    pub open spec fn spec_is_nan(self) -> bool {
        self.magnitude() > INFINITY_BITS
    }

    /// Whether the pattern encodes a number that is neither infinite nor a NaN.
    pub open spec fn is_finite(self) -> bool {
        self.magnitude() < INFINITY_BITS
    }

    /// The exponent field: the eight bits below the sign bit.
    pub open spec fn exponent(self) -> nat {
        self.magnitude() / (FRACTION_SIZE as nat)
    }

    /// The fraction field: the lowest 23 bits.
    pub open spec fn fraction(self) -> nat {
        self.magnitude() % (FRACTION_SIZE as nat)
    }

    /// The size of a finite number, counted in units of 2 to the power -149,
    /// the smallest size above zero: the fraction alone where the exponent
    /// field is 0, else the fraction with a leading one, doubled once for
    /// each step of the exponent above 1.
    pub open spec fn scaled_magnitude(self) -> nat {
        if self.exponent() == 0 {
            self.fraction()
        } else {
            ((FRACTION_SIZE as nat) + self.fraction()) * pow2((self.exponent() - 1) as nat)
        }
    }

    /// The value of a finite number, counted in units of 2 to the power -149.
    pub open spec fn scaled(self) -> int {
        if self.is_negative() {
            -(self.scaled_magnitude() as int)
        } else {
            self.scaled_magnitude() as int
        }
    }

    /// The whole part of a finite number's size: the size rounded down to a
    /// whole number.
    pub open spec fn whole(self) -> nat {
        self.scaled_magnitude() / pow2(149)
    }

    /// The number as an 8-bit channel: its whole part, held to the range of a
    /// channel. 0 for a NaN and for every number below 1, the negative ones
    /// too; 255 for every number from 255 on, positive infinity too.
    pub open spec fn spec_to_u8(self) -> u8 {
        if self.spec_is_nan() || self.is_negative() {
            0
        } else if !self.is_finite() || self.whole() >= 255 {
            255
        } else {
            self.whole() as u8
        }
    }

    /// The place of a number among all numbers: the magnitude read as an
    /// integer, negated where the sign bit is set. Both zeros have rank 0.
    pub open spec fn rank(self) -> int {
        if self.is_negative() {
            -(self.magnitude() as int)
        } else {
            self.magnitude() as int
        }
    }

    /// `self < other` as IEEE-754 defines it: false when either side is a NaN.
    pub open spec fn spec_lt(self, other: Scalar) -> bool {
        !self.spec_is_nan() && !other.spec_is_nan() && self.rank() < other.rank()
    }

    /// `self <= other` as IEEE-754 defines it: false when either side is a NaN.
    pub open spec fn spec_le(self, other: Scalar) -> bool {
        !self.spec_is_nan() && !other.spec_is_nan() && self.rank() <= other.rank()
    }

    /// `self == other` as IEEE-754 defines it: false when either side is a NaN,
    /// true of the two zeros.
    pub open spec fn spec_eq(self, other: Scalar) -> bool {
        !self.spec_is_nan() && !other.spec_is_nan() && self.rank() == other.rank()
    }

    /// Positive zero.
    pub open spec fn spec_zero() -> Scalar {
        Scalar { bits: 0 }
    }

    /// Positive infinity.
    pub open spec fn spec_infinity() -> Scalar {
        Scalar { bits: INFINITY_BITS }
    }

    /// The number with this bit pattern.
    pub fn from_bits(bits: u32) -> (s: Scalar)
        ensures
            s.bits == bits,
    {
        Scalar { bits }
    }

    /// The number's bit pattern.
    pub fn to_bits(&self) -> (bits: u32)
        ensures
            bits == self.bits,
    {
        self.bits
    }

    /// Positive zero.
    pub fn zero() -> (s: Scalar)
        ensures
            s == Scalar::spec_zero(),
    {
        Scalar { bits: 0 }
    }

    /// Positive infinity.
    pub fn infinity() -> (s: Scalar)
        ensures
            s == Scalar::spec_infinity(),
    {
        Scalar { bits: INFINITY_BITS }
    }

    /// Whether the pattern encodes no number at all.
    pub fn is_nan(&self) -> (r: bool)
        ensures
            r == self.spec_is_nan(),
    {
        self.bits % SIGN_BIT > INFINITY_BITS
    }

    /// The number's rank.
    fn exec_rank(&self) -> (r: i64)
        ensures
            r == self.rank(),
    {
        let m: i64 = (self.bits % SIGN_BIT) as i64;
        if self.bits >= SIGN_BIT {
            -m
        } else {
            m
        }
    }

    /// `self < other`.
    pub fn lt(&self, other: &Scalar) -> (r: bool)
        ensures
            r == self.spec_lt(*other),
    {
        !self.is_nan() && !other.is_nan() && self.exec_rank() < other.exec_rank()
    }

    /// `self <= other`.
    pub fn le(&self, other: &Scalar) -> (r: bool)
        ensures
            r == self.spec_le(*other),
    {
        !self.is_nan() && !other.is_nan() && self.exec_rank() <= other.exec_rank()
    }

    /// `self == other`, as numbers: not as bit patterns.
    pub fn eq(&self, other: &Scalar) -> (r: bool)
        ensures
            r == self.spec_eq(*other),
    {
        !self.is_nan() && !other.is_nan() && self.exec_rank() == other.exec_rank()
    }

    /// `self > other`.
    pub fn gt(&self, other: &Scalar) -> (r: bool)
        ensures
            r == other.spec_lt(*self),
    {
        other.lt(self)
    }

    /// `self >= other`.
    pub fn ge(&self, other: &Scalar) -> (r: bool)
        ensures
            r == other.spec_le(*self),
    {
        other.le(self)
    }

    /// The number as an 8-bit channel.
    pub fn to_u8(&self) -> (r: u8)
        ensures
            r == self.spec_to_u8(),
    {
        let magnitude = self.bits % SIGN_BIT;
        if magnitude > INFINITY_BITS || self.bits >= SIGN_BIT {
            return 0;
        }
        let exponent = magnitude / FRACTION_SIZE;
        if exponent < EXPONENT_OF_ONE {
            proof {
                lemma_whole_below_one(*self);
            }
            return 0;
        }
        if exponent >= EXPONENT_OF_ONE + 8 {
            proof {
                if self.is_finite() {
                    lemma_whole_from_256(*self);
                }
            }
            return 255;
        }
        let significand = FRACTION_SIZE + magnitude % FRACTION_SIZE;
        let mut divisor: u32 = 0x1_0000;
        let mut k: u32 = EXPONENT_OF_ONE + 7;
        proof {
            lemma2_to64();
        }
        while k > exponent
            invariant
                EXPONENT_OF_ONE <= exponent <= k <= EXPONENT_OF_ONE + 7,
                divisor == pow2((150 - k) as nat),
                divisor <= pow2(23),
                pow2(23) == 0x80_0000,
            decreases k - exponent,
        {
            proof {
                lemma_pow2_unfold((150 - (k - 1)) as nat);
                if k - 1 > EXPONENT_OF_ONE {
                    lemma_pow2_strictly_increases((150 - (k - 1)) as nat, 23);
                }
            }
            divisor = divisor * 2;
            k -= 1;
        }
        let whole = significand / divisor;
        proof {
            lemma_whole_is_a_quotient(*self);
            assert(whole < 256) by (nonlinear_arith)
                requires
                    whole == significand / divisor,
                    significand < 0x100_0000,
                    divisor >= 0x1_0000,
            ;
        }
        if whole >= 255 {
            255
        } else {
            whole as u8
        }
    }
}

/// Of two patterns without sign, the one that is larger as an integer
/// encodes the larger size.
proof fn lemma_magnitude_orders_as_size(a: Scalar, b: Scalar)
    requires
        a.magnitude() < b.magnitude(),
    ensures
        a.scaled_magnitude() < b.scaled_magnitude(),
{
    let unit = FRACTION_SIZE as nat;
    let (ea, fa) = (a.exponent(), a.fraction());
    let (eb, fb) = (b.exponent(), b.fraction());
    assert(a.magnitude() == ea * unit + fa && fa < unit) by (nonlinear_arith)
        requires
            ea == a.magnitude() / unit,
            fa == a.magnitude() % unit,
            unit > 0,
    ;
    assert(b.magnitude() == eb * unit + fb && fb < unit) by (nonlinear_arith)
        requires
            eb == b.magnitude() / unit,
            fb == b.magnitude() % unit,
            unit > 0,
    ;
    assert(ea <= eb) by (nonlinear_arith)
        requires
            ea * unit + fa < eb * unit + fb,
            fa < unit,
            fb < unit,
    ;
    if ea == eb {
        assert(fa < fb);
        if ea > 0 {
            let p = pow2((ea - 1) as nat);
            lemma_pow2_pos((ea - 1) as nat);
            assert((unit + fa) * p < (unit + fb) * p) by (nonlinear_arith)
                requires
                    fa < fb,
                    p > 0,
            ;
        }
    } else {
        let q = pow2((eb - 1) as nat);
        lemma_pow2_pos((eb - 1) as nat);
        assert(unit * q <= (unit + fb) * q) by (nonlinear_arith)
            requires
                q > 0,
        ;
        if ea == 0 {
            assert(unit * 1 <= unit * q) by (nonlinear_arith)
                requires
                    q >= 1,
            ;
        } else {
            let p = pow2((ea - 1) as nat);
            lemma_pow2_pos((ea - 1) as nat);
            lemma_pow2_unfold(ea);
            if ea < eb - 1 {
                lemma_pow2_strictly_increases(ea, (eb - 1) as nat);
            }
            assert(2 * p <= q);
            assert((unit + fa) * p < unit * q) by (nonlinear_arith)
                requires
                    fa < unit,
                    p > 0,
                    2 * p <= q,
            ;
        }
    }
}

/// Only the patterns of zero encode the size zero.
proof fn lemma_only_zero_has_no_size(a: Scalar)
    ensures
        a.scaled_magnitude() == 0 <==> a.magnitude() == 0,
{
    let zero = Scalar { bits: 0 };
    assert(zero.scaled_magnitude() == 0);
    if a.magnitude() > 0 {
        lemma_magnitude_orders_as_size(zero, a);
    }
}

/// A finite number whose exponent field is below that of 1 has no whole part.
proof fn lemma_whole_below_one(a: Scalar)
    requires
        a.exponent() < EXPONENT_OF_ONE,
    ensures
        a.whole() == 0,
{
    lemma2_to64();
    lemma_pow2_strictly_increases(23, 149);
    if a.exponent() > 0 {
        let e = a.exponent();
        let m = (FRACTION_SIZE as nat) + a.fraction();
        let p = pow2((e - 1) as nat);
        lemma_pow2_pos((e - 1) as nat);
        lemma_pow2_adds(24, (e - 1) as nat);
        if 23 + e < 149 {
            lemma_pow2_strictly_increases(23 + e, 149);
        }
        assert(m * p < pow2(24) * p) by (nonlinear_arith)
            requires
                m < pow2(24),
                p > 0,
        ;
    }
    lemma_basic_div(a.scaled_magnitude() as int, pow2(149) as int);
}

/// A finite number whose exponent field is at least eight above that of 1
/// has a whole part of at least 256.
proof fn lemma_whole_from_256(a: Scalar)
    requires
        a.exponent() >= EXPONENT_OF_ONE + 8,
    ensures
        a.whole() >= 256,
{
    lemma2_to64();
    let e = a.exponent();
    let m = (FRACTION_SIZE as nat) + a.fraction();
    let p = pow2((e - 1) as nat);
    let unit = pow2(149);
    lemma_pow2_pos(149);
    lemma_pow2_pos((e - 1) as nat);
    lemma_pow2_adds(23, (e - 1) as nat);
    lemma_pow2_adds(8, 149);
    if 22 + e > 157 {
        lemma_pow2_strictly_increases(157, (22 + e) as nat);
    }
    assert(pow2(23) * p <= m * p) by (nonlinear_arith)
        requires
            pow2(23) <= m,
            p > 0,
    ;
    assert(unit * 256 <= a.scaled_magnitude());
    lemma_div_multiples_vanish(256, unit as int);
    lemma_div_is_ordered((unit * 256) as int, a.scaled_magnitude() as int, unit as int);
}

/// The whole part of a number from 1 up to, and without, 256 is its fraction
/// with a leading one, without as many of its last bits as the exponent
/// field leaves below the point.
proof fn lemma_whole_is_a_quotient(a: Scalar)
    requires
        EXPONENT_OF_ONE <= a.exponent() < EXPONENT_OF_ONE + 8,
    ensures
        a.whole() == ((FRACTION_SIZE as nat) + a.fraction()) / pow2((150 - a.exponent()) as nat),
{
    let e = a.exponent();
    let m = (FRACTION_SIZE as nat) + a.fraction();
    let p = pow2((e - 1) as nat);
    let d = pow2((150 - e) as nat);
    lemma_pow2_pos((e - 1) as nat);
    lemma_pow2_pos((150 - e) as nat);
    lemma_pow2_adds((e - 1) as nat, (150 - e) as nat);
    lemma_div_multiples_vanish_quotient(p as int, m as int, d as int);
    assert(m * p == p * m) by (nonlinear_arith);
}

/// The order that the comparisons go by is the order of the values: of two
/// finite numbers the one of lower rank is the smaller number, and two of the
/// same rank are the same number.
pub proof fn lemma_rank_orders_as_value(a: Scalar, b: Scalar)
    requires
        a.is_finite(),
        b.is_finite(),
    ensures
        a.rank() < b.rank() <==> a.scaled() < b.scaled(),
        a.rank() == b.rank() <==> a.scaled() == b.scaled(),
{
    lemma_only_zero_has_no_size(a);
    lemma_only_zero_has_no_size(b);
    if a.magnitude() < b.magnitude() {
        lemma_magnitude_orders_as_size(a, b);
    }
    if b.magnitude() < a.magnitude() {
        lemma_magnitude_orders_as_size(b, a);
    }
}

/// The numbers below positive infinity are the finite numbers and negative
/// infinity: every number but positive infinity itself.
pub proof fn lemma_below_infinity(a: Scalar)
    ensures
        a.is_finite() ==> a.spec_lt(Scalar::spec_infinity()),
        a.spec_lt(Scalar::spec_infinity()) <==> !a.spec_is_nan() && a.bits != INFINITY_BITS,
{
}

} // verus!
