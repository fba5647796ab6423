//! Fixed-point decimal numbers with a 96-bit mantissa and a power-of-ten
//! scale, mirroring the representation of `rust_decimal::Decimal`.
//!
//! A `Dec` holds the constituent parts of such a number as plain values, so
//! its mathematical value is a spec-level function of its fields: `val`
//! returns the represented value multiplied by `10^28`, which is always an
//! integer because the scale never exceeds 28.
//!
//! Arithmetic is carried out by `rust_decimal` behind trusted wrappers. The
//! exact rounding that crate performs is not restated here; instead each
//! inexact operation's result is given an uninterpreted name (`add_of`,
//! `sub_of`, ...), and the wrapper states the facts callers rely on: the
//! result is well formed, and it lies strictly within one unit in its own
//! last place of the exact result.

use vstd::arithmetic::div_mod::{
    lemma_div_denominator, lemma_div_is_ordered, lemma_div_is_ordered_by_denominator,
    lemma_div_pos_is_pos, lemma_fundamental_div_mod, lemma_mod_bound,
};
use vstd::arithmetic::mul::lemma_mul_inequality;
use vstd::arithmetic::power::{lemma_pow_adds, lemma_pow_positive, pow};
use vstd::prelude::*;

use rust_decimal::prelude::ToPrimitive;
use rust_decimal::MathematicalOps;

verus! {

/// `10^e`, the power of ten used throughout the value model.
pub open spec fn p10(e: nat) -> int {
    pow(10, e)
}

pub proof fn lemma_p10_pos(e: nat)
    ensures
        p10(e) >= 1,
{
    lemma_pow_positive(10, e);
}

/// Powers of ten divide larger powers of ten: `p10(a) * p10(b - a) == p10(b)`.
pub proof fn lemma_p10_split(a: nat, b: nat)
    requires
        a <= b,
    ensures
        p10(b) == p10(a) * p10((b - a) as nat),
        p10(a) <= p10(b),
        p10(a) >= 1,
        p10(b) >= 1,
{
    lemma_pow_adds(10, a, (b - a) as nat);
    lemma_pow_positive(10, a);
    lemma_pow_positive(10, (b - a) as nat);
    lemma_p10_pos(b);
    assert(p10(a) * 1 == p10(a)) by (nonlinear_arith);
    lemma_mul_inequality(1, p10((b - a) as nat), p10(a));
    assert(p10(a) * p10((b - a) as nat) == p10((b - a) as nat) * p10(a)) by (nonlinear_arith);
}

/// A decimal number: a 96-bit unsigned mantissa in three 32-bit limbs, a
/// scale in `0 ..= 28` giving the power of ten the mantissa is divided by,
/// and a sign flag. The represented value is `(-1)^neg * mantissa / 10^scale`.
#[derive(Clone, Copy, Debug, PartialEq, Eq, Structural)]
pub struct Dec {
    pub lo: u32,
    pub mid: u32,
    pub hi: u32,
    pub scale: u32,
    pub neg: bool,
}

impl Dec {
    /// The unsigned 96-bit mantissa.
    pub open spec fn mant(self) -> nat {
        (self.lo as nat) + (self.mid as nat) * 0x1_0000_0000
            + (self.hi as nat) * 0x1_0000_0000_0000_0000
    }

    /// The mantissa with the sign applied.
    pub open spec fn signed_mant(self) -> int {
        if self.neg {
            -(self.mant() as int)
        } else {
            self.mant() as int
        }
    }

    /// Well-formed: the scale is a representable power of ten.
    pub open spec fn wf(self) -> bool {
        self.scale <= 28
    }

    /// The represented value, multiplied by `10^28` so that it is an integer.
    pub open spec fn val(self) -> int {
        self.signed_mant() * p10((28 - self.scale) as nat)
    }

    /// One unit in the last place of this number, in `val` units: the gap
    /// between adjacent representable values at this scale.
    pub open spec fn ulp(self) -> int {
        p10((28 - self.scale) as nat)
    }

    /// The `Dec` with mantissa `m`, the given scale, and a positive sign.
    pub open spec fn of_u64_scaled(m: u64, scale: u32) -> Dec {
        Dec {
            lo: (m as int % 0x1_0000_0000) as u32,
            mid: (m as int / 0x1_0000_0000) as u32,
            hi: 0,
            scale,
            neg: false,
        }
    }

    /// Builds the decimal `m / 10^scale`.
    pub fn new(m: u64, scale: u32) -> (r: Dec)
        requires
            scale <= 28,
        ensures
            r == Dec::of_u64_scaled(m, scale),
            r.wf(),
            r.mant() == m,
            !r.neg,
            r.scale == scale,
            r.val() == m * p10((28 - scale) as nat),
            r.val() >= 0,
    {
        proof {
            lemma_of_u64_scaled(m, scale);
        }
        Dec {
            lo: (m % 0x1_0000_0000) as u32,
            mid: (m / 0x1_0000_0000) as u32,
            hi: 0,
            scale,
            neg: false,
        }
    }

    /// True exactly when the represented value is zero.
    pub fn is_zero(&self) -> (r: bool)
        requires
            self.wf(),
        ensures
            r == (self.val() == 0),
    {
        proof {
            lemma_val_sign(*self);
        }
        self.lo == 0 && self.mid == 0 && self.hi == 0
    }

    /// True exactly when the represented value is strictly negative.
    pub fn is_neg(&self) -> (r: bool)
        requires
            self.wf(),
        ensures
            r == (self.val() < 0),
    {
        proof {
            lemma_val_sign(*self);
        }
        self.neg && !(self.lo == 0 && self.mid == 0 && self.hi == 0)
    }

    /// The smaller of two decimals; on equal values the receiver is kept,
    /// as `rust_decimal::Decimal::min` does.
    pub fn min(self, other: Dec) -> (r: Dec)
        requires
            self.wf(),
            other.wf(),
        ensures
            r == spec_min(self, other),
            r.wf(),
            r.val() <= self.val(),
            r.val() <= other.val(),
    {
        if self.le(&other) {
            self
        } else {
            other
        }
    }

    /// The larger of two decimals; on equal values the receiver is kept,
    /// as `rust_decimal::Decimal::max` does.
    pub fn max(self, other: Dec) -> (r: Dec)
        requires
            self.wf(),
            other.wf(),
        ensures
            r == spec_max(self, other),
            r.wf(),
            r.val() >= self.val(),
            r.val() >= other.val(),
    {
        if other.le(&self) {
            self
        } else {
            other
        }
    }

    /// Comparison. Relies on `rust_decimal`'s `PartialOrd` implementation,
    /// which orders decimals by their exact represented value.
    #[verifier::external_body]
    pub fn le(&self, other: &Dec) -> (r: bool)
        requires
            self.wf(),
            other.wf(),
        ensures
            r == (self.val() <= other.val()),
    {
        let x = rust_decimal::Decimal::from_parts(self.lo, self.mid, self.hi, self.neg, self.scale);
        let y = rust_decimal::Decimal::from_parts(other.lo, other.mid, other.hi, other.neg, other.scale);
        x <= y
    }

    /// Addition. Relies on `rust_decimal::Decimal::checked_add`: the exact
    /// sum is rounded only to fit the 96-bit mantissa, so a returned value
    /// lies strictly within one unit of its last place of the exact sum;
    /// `None` comes only when even at scale zero the sum's magnitude is out
    /// of range.
    #[verifier::external_body]
    pub fn checked_add(&self, other: &Dec) -> (r: Option<Dec>)
        requires
            self.wf(),
            other.wf(),
        ensures
            r == add_of(*self, *other),
            r is None ==> vstd::math::abs(self.val() + other.val()) > max_mant() * p10(28),
            r matches Some(s) ==> s.wf() && s.val() - (self.val() + other.val()) < s.ulp()
                && (self.val() + other.val()) - s.val() < s.ulp(),
    {
        let x = rust_decimal::Decimal::from_parts(self.lo, self.mid, self.hi, self.neg, self.scale);
        let y = rust_decimal::Decimal::from_parts(other.lo, other.mid, other.hi, other.neg, other.scale);
        match x.checked_add(y) {
            None => None,
            Some(z) => {
                let m = z.mantissa().unsigned_abs();
                Some(Dec { lo: m as u32, mid: (m >> 32) as u32, hi: (m >> 64) as u32, scale: z.scale(), neg: z.is_sign_negative() })
            },
        }
    }

    /// Subtraction. Relies on `rust_decimal::Decimal::checked_sub`, with the
    /// same rounding shape as `checked_add`.
    #[verifier::external_body]
    pub fn checked_sub(&self, other: &Dec) -> (r: Option<Dec>)
        requires
            self.wf(),
            other.wf(),
        ensures
            r == sub_of(*self, *other),
            r is None ==> vstd::math::abs(self.val() - other.val()) > max_mant() * p10(28),
            r matches Some(s) ==> s.wf() && s.val() - (self.val() - other.val()) < s.ulp()
                && (self.val() - other.val()) - s.val() < s.ulp(),
    {
        let x = rust_decimal::Decimal::from_parts(self.lo, self.mid, self.hi, self.neg, self.scale);
        let y = rust_decimal::Decimal::from_parts(other.lo, other.mid, other.hi, other.neg, other.scale);
        match x.checked_sub(y) {
            None => None,
            Some(z) => {
                let m = z.mantissa().unsigned_abs();
                Some(Dec { lo: m as u32, mid: (m >> 32) as u32, hi: (m >> 64) as u32, scale: z.scale(), neg: z.is_sign_negative() })
            },
        }
    }

    /// Multiplication. Relies on `rust_decimal::Decimal::checked_mul`: the
    /// exact product is rounded only to fit the 96-bit mantissa, with
    /// `None` only for a product out of the representable range. The error
    /// bound is stated with both sides scaled by `10^28`, since the exact
    /// product of two `val`s carries a factor `10^56`.
    #[verifier::external_body]
    pub fn checked_mul(&self, other: &Dec) -> (r: Option<Dec>)
        requires
            self.wf(),
            other.wf(),
        ensures
            r == mul_of(*self, *other),
            r is None ==> vstd::math::abs(self.val() * other.val()) > max_mant() * p10(56),
            r matches Some(s) ==> s.wf() && s.val() * p10(28) - self.val() * other.val() < s.ulp()
                * p10(28) && self.val() * other.val() - s.val() * p10(28) < s.ulp() * p10(28),
    {
        let x = rust_decimal::Decimal::from_parts(self.lo, self.mid, self.hi, self.neg, self.scale);
        let y = rust_decimal::Decimal::from_parts(other.lo, other.mid, other.hi, other.neg, other.scale);
        match x.checked_mul(y) {
            None => None,
            Some(z) => {
                let m = z.mantissa().unsigned_abs();
                Some(Dec { lo: m as u32, mid: (m >> 32) as u32, hi: (m >> 64) as u32, scale: z.scale(), neg: z.is_sign_negative() })
            },
        }
    }

    /// Division. Relies on `rust_decimal::Decimal::checked_div`: `None`
    /// exactly on a zero divisor or a quotient out of the representable
    /// range, otherwise the exact quotient rounded only to fit the 96-bit
    /// mantissa. The error bound is the one-ulp bracket multiplied through
    /// by the divisor.
    #[verifier::external_body]
    pub fn checked_div(&self, other: &Dec) -> (r: Option<Dec>)
        requires
            self.wf(),
            other.wf(),
        ensures
            r == div_of(*self, *other),
            other.val() == 0 ==> r is None,
            r is None ==> other.val() == 0 || vstd::math::abs(self.val()) > max_mant()
                * vstd::math::abs(other.val()),
            r matches Some(s) ==> s.wf() && other.val() != 0 && s.val() * other.val() - self.val()
                * p10(28) < s.ulp() * (vstd::math::abs(other.val()) as int) && self.val() * p10(28)
                - s.val() * other.val() < s.ulp() * (vstd::math::abs(other.val()) as int),
    {
        let x = rust_decimal::Decimal::from_parts(self.lo, self.mid, self.hi, self.neg, self.scale);
        let y = rust_decimal::Decimal::from_parts(other.lo, other.mid, other.hi, other.neg, other.scale);
        match x.checked_div(y) {
            None => None,
            Some(z) => {
                let m = z.mantissa().unsigned_abs();
                Some(Dec { lo: m as u32, mid: (m >> 32) as u32, hi: (m >> 64) as u32, scale: z.scale(), neg: z.is_sign_negative() })
            },
        }
    }

    /// Square root. Relies on `rust_decimal`'s `MathematicalOps::sqrt`, which
    /// returns `None` exactly for a negative operand and otherwise runs
    /// Newton's iteration; no accuracy is assumed of the approximation. A
    /// sign flag over a zero mantissa is cleared by the `from_parts`
    /// conversion, so such an operand still has a square root.
    #[verifier::external_body]
    pub fn sqrt(&self) -> (r: Option<Dec>)
        requires
            self.wf(),
        ensures
            r == sqrt_of(*self),
            (r is Some) == (!self.neg || self.mant() == 0),
            r matches Some(s) ==> s.wf() && s.val() >= 0,
    {
        let x = rust_decimal::Decimal::from_parts(self.lo, self.mid, self.hi, self.neg, self.scale);
        match x.sqrt() {
            None => None,
            Some(z) => {
                let m = z.mantissa().unsigned_abs();
                Some(Dec { lo: m as u32, mid: (m >> 32) as u32, hi: (m >> 64) as u32, scale: z.scale(), neg: z.is_sign_negative() })
            },
        }
    }

    /// Rounding toward negative infinity to an integer value. Relies on
    /// `rust_decimal::Decimal::floor`: the result has scale zero, its value
    /// is the mathematical floor, and it is sign-flagged exactly when the
    /// operand was a nonzero negative (a sign flag over a zero mantissa is
    /// cleared by the `from_parts` conversion).
    #[verifier::external_body]
    pub fn floor(&self) -> (r: Dec)
        requires
            self.wf(),
        ensures
            r.wf(),
            r.scale == 0,
            r.neg == (self.neg && self.mant() > 0),
            r.val() == p10(28) * (self.val() / p10(28)),
    {
        let x = rust_decimal::Decimal::from_parts(self.lo, self.mid, self.hi, self.neg, self.scale);
        let z = x.floor();
        let m = z.mantissa().unsigned_abs();
        Dec { lo: m as u32, mid: (m >> 32) as u32, hi: (m >> 64) as u32, scale: z.scale(), neg: z.is_sign_negative() }
    }

    /// Conversion of an integer-valued decimal to `u64`. Relies on
    /// `rust_decimal`'s `ToPrimitive::to_u64`: `None` whenever the sign flag
    /// is set on a nonzero mantissa or the mantissa exceeds 64 bits. Note the
    /// conversion itself clears a signed zero, because `from_parts`
    /// normalizes the sign of a zero mantissa.
    #[verifier::external_body]
    pub fn to_u64(&self) -> (r: Option<u64>)
        requires
            self.wf(),
            self.scale == 0,
        ensures
            (r is Some) == ((!self.neg || self.mant() == 0) && self.mant()
                < 0x1_0000_0000_0000_0000),
            r matches Some(n) ==> n == self.mant(),
    {
        let x = rust_decimal::Decimal::from_parts(self.lo, self.mid, self.hi, self.neg, self.scale);
        x.to_u64()
    }

    /// Reading a serialized decimal. Relies on
    /// `rust_decimal::Decimal::deserialize`: the flags word is masked to
    /// its scale and sign bits, and a kept scale of 29 to 31 is clamped to
    /// 28 by the rounded division that `spec_deserialized` states, the sign
    /// staying as it was.
    #[verifier::external_body]
    pub fn from_bytes(b: &[u8; 16]) -> (r: Dec)
        ensures
            r == spec_deserialized(*b),
    {
        let z = rust_decimal::Decimal::deserialize(*b);
        let m = z.mantissa().unsigned_abs();
        Dec { lo: m as u32, mid: (m >> 32) as u32, hi: (m >> 64) as u32, scale: z.scale(), neg: z.is_sign_negative() }
    }
}

/// A little-endian 32-bit word of a serialized decimal, starting at byte `i`.
pub open spec fn le32(b: [u8; 16], i: int) -> nat {
    (b[i] as nat) + (b[i + 1] as nat) * 0x100 + (b[i + 2] as nat) * 0x1_0000 + (b[i + 3] as nat)
        * 0x100_0000
}

/// The scale bits of a serialized decimal that deserialization keeps: the
/// low five bits of byte 2 (the three high bits belong to the masked-off
/// part of the flags word).
pub open spec fn raw_scale(b: [u8; 16]) -> nat {
    (b[2] % 32) as nat
}

/// The mantissa of a serialized decimal: bytes 4..16, little endian.
pub open spec fn raw_mant(b: [u8; 16]) -> nat {
    le32(b, 4) + le32(b, 8) * 0x1_0000_0000 + le32(b, 12) * 0x1_0000_0000_0000_0000
}

/// The mantissa after deserialization: a kept scale of 29 to 31 is brought
/// back to 28 by dividing the mantissa by the excess power of ten, rounding
/// up whenever the remainder is five or more.
pub open spec fn deser_mant(b: [u8; 16]) -> nat {
    let m = raw_mant(b);
    if raw_scale(b) <= 28 {
        m
    } else {
        let p: nat = if raw_scale(b) == 29 {
            10
        } else if raw_scale(b) == 30 {
            100
        } else {
            1000
        };
        if m % p >= 5 {
            m / p + 1
        } else {
            m / p
        }
    }
}

/// A serialized decimal deserializes to a non-negative value: its sign bit
/// is clear, or its mantissa after deserialization is zero.
pub open spec fn raw_nonneg(b: [u8; 16]) -> bool {
    b[3] < 128 || deser_mant(b) == 0
}

/// The decimal that deserialization reads out of sixteen bytes: the kept
/// scale bits (clamped to 28 with the rounded division), bit 7 of byte 3
/// as the sign, and the mantissa of `deser_mant`.
pub open spec fn spec_deserialized(b: [u8; 16]) -> Dec {
    let m = deser_mant(b);
    Dec {
        lo: (m % 0x1_0000_0000) as u32,
        mid: (m / 0x1_0000_0000 % 0x1_0000_0000) as u32,
        hi: (m / 0x1_0000_0000_0000_0000) as u32,
        scale: if raw_scale(b) <= 28 {
            raw_scale(b) as u32
        } else {
            28
        },
        neg: b[3] >= 128,
    }
}

/// The largest 96-bit mantissa: the magnitude bound of the representable
/// range at scale zero.
pub open spec fn max_mant() -> int {
    0xFFFF_FFFF_FFFF_FFFF_FFFF_FFFF
}

/// What `rust_decimal` returns for the sum of two decimals.
pub uninterp spec fn add_of(a: Dec, b: Dec) -> Option<Dec>;

/// What `rust_decimal` returns for the difference of two decimals.
pub uninterp spec fn sub_of(a: Dec, b: Dec) -> Option<Dec>;

/// What `rust_decimal` returns for the product of two decimals.
pub uninterp spec fn mul_of(a: Dec, b: Dec) -> Option<Dec>;

/// What `rust_decimal` returns for the quotient of two decimals.
pub uninterp spec fn div_of(a: Dec, b: Dec) -> Option<Dec>;

/// What `rust_decimal` returns for the square root of a decimal.
pub uninterp spec fn sqrt_of(a: Dec) -> Option<Dec>;

/// The smaller-valued of two decimals, keeping `a` on ties.
pub open spec fn spec_min(a: Dec, b: Dec) -> Dec {
    if a.val() > b.val() {
        b
    } else {
        a
    }
}

/// The larger-valued of two decimals, keeping `a` on ties.
pub open spec fn spec_max(a: Dec, b: Dec) -> Dec {
    if a.val() < b.val() {
        b
    } else {
        a
    }
}

/// The value of a well-formed decimal is zero, negative or positive exactly
/// as its mantissa and sign flag say.
pub proof fn lemma_val_sign(d: Dec)
    requires
        d.wf(),
    ensures
        (d.val() == 0) == (d.mant() == 0),
        (d.val() < 0) == (d.neg && d.mant() > 0),
        (d.val() > 0) == (!d.neg && d.mant() > 0),
        d.val() == d.signed_mant() * d.ulp(),
{
    lemma_p10_pos((28 - d.scale) as nat);
    let u = p10((28 - d.scale) as nat);
    let s = d.signed_mant();
    assert(s > 0 && u > 0 ==> s * u > 0) by (nonlinear_arith);
    assert(s < 0 && u > 0 ==> s * u < 0) by (nonlinear_arith);
    assert(s == 0 ==> s * u == 0) by (nonlinear_arith);
}

/// The fields written by `Dec::new` decompose `m` exactly.
pub proof fn lemma_of_u64_scaled(m: u64, scale: u32)
    ensures
        Dec::of_u64_scaled(m, scale).mant() == m,
        !Dec::of_u64_scaled(m, scale).neg,
        scale <= 28 ==> Dec::of_u64_scaled(m, scale).wf(),
        scale <= 28 ==> Dec::of_u64_scaled(m, scale).val() == m * p10((28 - scale) as nat),
        scale <= 28 ==> Dec::of_u64_scaled(m, scale).val() >= 0,
{
    lemma_fundamental_div_mod(m as int, 0x1_0000_0000);
    let d = Dec::of_u64_scaled(m, scale);
    assert(d.mant() == m);
    if scale <= 28 {
        lemma_p10_pos((28 - scale) as nat);
        assert(d.val() == (m as int) * p10((28 - scale) as nat));
        assert((m as int) * p10((28 - scale) as nat) >= 0) by (nonlinear_arith)
            requires
                m >= 0,
                p10((28 - scale) as nat) >= 1,
        ;
    }
}

/// What deserialization yields is well formed, carries `deser_mant` as its
/// mantissa, and is non-negative whenever the serialization is.
pub proof fn lemma_deserialized_props(b: [u8; 16])
    ensures
        spec_deserialized(b).wf(),
        spec_deserialized(b).mant() == deser_mant(b),
        raw_nonneg(b) ==> spec_deserialized(b).val() >= 0,
{
    let d = spec_deserialized(b);
    let m = deser_mant(b);
    let w32: int = 0x1_0000_0000;
    assert(raw_mant(b) < 0x1_0000_0000_0000_0000_0000_0000) by {
        assert(le32(b, 4) < 0x1_0000_0000);
        assert(le32(b, 8) < 0x1_0000_0000);
        assert(le32(b, 12) < 0x1_0000_0000);
    };
    assert(m < 0x1_0000_0000_0000_0000_0000_0000) by {
        if raw_scale(b) > 28 {
            let mm = raw_mant(b);
            let p: nat = if raw_scale(b) == 29 {
                10
            } else if raw_scale(b) == 30 {
                100
            } else {
                1000
            };
            lemma_fundamental_div_mod(mm as int, p as int);
            lemma_mod_bound(mm as int, p as int);
            assert(p as int * (mm as int / p as int) <= mm) by (nonlinear_arith)
                requires
                    mm as int == p as int * (mm as int / p as int) + mm as int % p as int,
                    mm as int % p as int >= 0,
            ;
            assert(mm / p <= mm / 10) by {
                lemma_div_is_ordered_by_denominator(mm as int, 10, p as int);
            };
            lemma_div_is_ordered(0, mm as int, 10);
        }
    };
    // The three limbs recompose the mantissa.
    lemma_fundamental_div_mod(m as int, w32);
    lemma_mod_bound(m as int, w32);
    lemma_fundamental_div_mod(m as int / w32, w32);
    lemma_mod_bound(m as int / w32, w32);
    lemma_div_pos_is_pos(m as int, w32);
    lemma_div_pos_is_pos(m as int / w32, w32);
    lemma_div_denominator(m as int, w32, w32);
    assert(w32 * w32 == 0x1_0000_0000_0000_0000) by (nonlinear_arith)
        requires
            w32 == 0x1_0000_0000,
    ;
    assert(m as int / 0x1_0000_0000_0000_0000 < w32) by {
        lemma_div_is_ordered(m as int, 0x1_0000_0000_0000_0000_0000_0000 - 1, 0x1_0000_0000_0000_0000);
        lemma_div_pos_is_pos(m as int, 0x1_0000_0000_0000_0000);
    };
    assert(d.mant() == m) by (nonlinear_arith)
        requires
            m as int == w32 * (m as int / w32) + m as int % w32,
            m as int / w32 == w32 * ((m as int / w32) / w32) + (m as int / w32) % w32,
            (m as int / w32) / w32 == m as int / (w32 * w32),
            w32 * w32 == 0x1_0000_0000_0000_0000,
            d.lo == m as int % w32,
            d.mid == (m as int / w32) % w32,
            d.hi == m as int / (w32 * w32),
            d.mant() == d.lo + d.mid * 0x1_0000_0000 + d.hi * 0x1_0000_0000_0000_0000,
    ;
    lemma_val_sign(d);
    if raw_nonneg(b) {
        if b[3] < 128 {
            assert(!d.neg);
            lemma_p10_pos((28 - d.scale) as nat);
            assert(d.signed_mant() >= 0);
            assert(d.val() >= 0) by (nonlinear_arith)
                requires
                    d.val() == d.signed_mant() * p10((28 - d.scale) as nat),
                    d.signed_mant() >= 0,
                    p10((28 - d.scale) as nat) >= 1,
            ;
        } else {
            assert(d.mant() == 0);
        }
    }
}

} // verus!
