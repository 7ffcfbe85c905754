//! Conversions between rationals, machine integers and the bits of
//! floating point numbers.

use vstd::prelude::*;
use vstd::arithmetic::power2::*;

use crate::natural::{Natural, Integer};
use crate::rational::{Rational, abs};
use crate::Problem;

verus! {

/// The value of a binary fraction: `numerator / 2^shift`, negated when `neg`.
fn pow2_fraction(numerator: u64, shift: u64, neg: bool) -> (res: Rational)
    ensures
        res.same_value(
            if neg {
                -(numerator as int)
            } else {
                numerator as int
            },
            pow2(shift as nat) as int,
        ),
{
    let one = Natural::from_u64(1);
    let d = one.shl(shift);
    proof {
        lemma_pow2_pos(shift as nat);
    }
    let n = Integer::from_natural(Natural::from_u64(numerator));
    let r = match Rational::from_bigint_fraction(n, d) {
        Ok(r) => r,
        Err(_) => {
            proof {
                assert(false);
            }
            Rational::zero()
        },
    };
    if neg {
        let m = r.neg();
        proof {
            assert(m.num() * (pow2(shift as nat) as int) == -(numerator as int) * m.den())
                by (nonlinear_arith)
                requires
                    r.num() * (pow2(shift as nat) as int) == (numerator as int) * r.den(),
                    m.num() == -r.num(),
                    m.den() == r.den(),
            ;
        }
        m
    } else {
        r
    }
}

/// The integer `±magnitude * 2^shift`.
fn pow2_multiple(magnitude: u64, shift: u64, neg: bool) -> (res: Rational)
    ensures
        res.is_int_value(
            if neg {
                -(magnitude * pow2(shift as nat))
            } else {
                magnitude * pow2(shift as nat) as int
            },
        ),
{
    let big = Natural::from_u64(magnitude).shl(shift);
    let sign = if neg {
        crate::Sign::Minus
    } else {
        crate::Sign::Plus
    };
    let i = Integer::from_parts(sign, big);
    Rational::from_bigint(i)
}

/// `x`, negated when `neg`.
pub open spec fn signed(neg: bool, x: int) -> int {
    if neg {
        -x
    } else {
        x
    }
}

/// The number an IEEE 754 single precision bit pattern stands for, as a
/// numerator and denominator; `Infinity` or `NotANumber` for the special
/// exponent.
pub open spec fn f32_bits_value(bits: u32) -> Result<(int, int), Problem> {
    let neg = bits >= 0x8000_0000;
    let exp = (bits / 0x80_0000) % 0x100;
    let sig = bits % 0x80_0000;
    if exp == 0 {
        Ok((signed(neg, sig as int), pow2(149) as int))
    } else if exp <= 150 {
        Ok((signed(neg, 0x80_0000 + sig), pow2((150 - exp) as nat) as int))
    } else if exp < 255 {
        Ok((signed(neg, (0x80_0000 + sig) * pow2((exp - 150) as nat)), 1))
    } else if sig == 0 {
        Err(Problem::Infinity)
    } else {
        Err(Problem::NotANumber)
    }
}

/// The number an IEEE 754 double precision bit pattern stands for, as a
/// numerator and denominator; `Infinity` or `NotANumber` for the special
/// exponent.
pub open spec fn f64_bits_value(bits: u64) -> Result<(int, int), Problem> {
    let neg = bits >= 0x8000_0000_0000_0000;
    let exp = (bits / 0x10_0000_0000_0000) % 0x800;
    let sig = bits % 0x10_0000_0000_0000;
    if exp == 0 {
        Ok((signed(neg, sig as int), pow2(1074) as int))
    } else if exp <= 1075 {
        Ok((signed(neg, 0x10_0000_0000_0000 + sig), pow2((1075 - exp) as nat) as int))
    } else if exp < 2047 {
        Ok((signed(neg, (0x10_0000_0000_0000 + sig) * pow2((exp - 1075) as nat)), 1))
    } else if sig == 0 {
        Err(Problem::Infinity)
    } else {
        Err(Problem::NotANumber)
    }
}

impl Rational {
    /// The exact value of an IEEE 754 single precision number, given its bits.
    pub fn from_f32_bits(bits: u32) -> (res: Result<Rational, Problem>)
        ensures
            f32_bits_value(bits) matches Err(e) ==> res == Err::<Rational, Problem>(e),
            f32_bits_value(bits) matches Ok((n, d)) ==> res matches Ok(r) && r.same_value(n, d),
    {
        let neg = bits >= 0x8000_0000;
        let exp = (bits / 0x80_0000) % 0x100;
        let sig = bits % 0x80_0000;
        if exp == 0 {
            let r = pow2_fraction(sig as u64, 149, neg);
            Ok(r)
        } else if exp <= 150 {
            Ok(pow2_fraction(0x80_0000 + sig as u64, (150 - exp) as u64, neg))
        } else if exp < 255 {
            Ok(pow2_multiple(0x80_0000 + sig as u64, (exp - 150) as u64, neg))
        } else if sig == 0 {
            Err(Problem::Infinity)
        } else {
            Err(Problem::NotANumber)
        }
    }

    /// The exact value of an IEEE 754 double precision number, given its bits.
    pub fn from_f64_bits(bits: u64) -> (res: Result<Rational, Problem>)
        ensures
            f64_bits_value(bits) matches Err(e) ==> res == Err::<Rational, Problem>(e),
            f64_bits_value(bits) matches Ok((n, d)) ==> res matches Ok(r) && r.same_value(n, d),
    {
        let neg = bits >= 0x8000_0000_0000_0000;
        let exp = (bits / 0x10_0000_0000_0000) % 0x800;
        let sig = bits % 0x10_0000_0000_0000;
        if exp == 0 {
            Ok(pow2_fraction(sig, 1074, neg))
        } else if exp <= 1075 {
            Ok(pow2_fraction(0x10_0000_0000_0000 + sig, 1075 - exp, neg))
        } else if exp < 2047 {
            Ok(pow2_multiple(0x10_0000_0000_0000 + sig, exp - 1075, neg))
        } else if sig == 0 {
            Err(Problem::Infinity)
        } else {
            Err(Problem::NotANumber)
        }
    }
}

impl Rational {
    /// The integer `n`.
    pub fn from_i128(n: i128) -> (res: Rational)
        ensures
            res.is_int_value(n as int),
    {
        let sign = if n < 0 {
            crate::Sign::Minus
        } else {
            crate::Sign::Plus
        };
        let m: u128 = if n < 0 {
            if n == i128::MIN {
                0x8000_0000_0000_0000_0000_0000_0000_0000u128
            } else {
                (-n) as u128
            }
        } else {
            n as u128
        };
        let i = Integer::from_parts(sign, Natural::from_u128(m));
        Rational::from_bigint(i)
    }

    /// The integer `n`.
    pub fn from_u128(n: u128) -> (res: Rational)
        ensures
            res.is_int_value(n as int),
    {
        Rational::from_bigint(Integer::from_natural(Natural::from_u128(n)))
    }
}

/// Which machine integer this rational is, if it is an integer between
/// `lo` and `hi`.
pub open spec fn machine_integer(r: Rational, lo: int, hi: int) -> Result<int, Problem> {
    if r.den() != 1 {
        Err(Problem::NotAnInteger)
    } else if lo <= r.num() <= hi {
        Ok(r.num())
    } else {
        Err(Problem::OutOfRange)
    }
}

fn signed_in_range(r: &Rational, lo: i128, hi: i128) -> (res: Result<i128, Problem>)
    ensures
        res matches Ok(v) ==> machine_integer(*r, lo as int, hi as int) == Ok::<int, Problem>(
            v as int,
        ),
        res matches Err(e) ==> machine_integer(*r, lo as int, hi as int) == Err::<int, Problem>(e),
{
    let i = match r.to_big_integer() {
        Some(i) => i,
        None => {
            return Err(Problem::NotAnInteger);
        },
    };
    let m = match i.magnitude().to_u128() {
        Some(m) => m,
        None => {
            return Err(Problem::OutOfRange);
        },
    };
    let v: i128 = if i.sign() == crate::Sign::Minus {
        if m > 0x8000_0000_0000_0000_0000_0000_0000_0000u128 {
            return Err(Problem::OutOfRange);
        }
        if m == 0x8000_0000_0000_0000_0000_0000_0000_0000u128 {
            i128::MIN
        } else {
            -(m as i128)
        }
    } else {
        if m > 0x7fff_ffff_ffff_ffff_ffff_ffff_ffff_ffffu128 {
            return Err(Problem::OutOfRange);
        }
        m as i128
    };
    if v < lo || v > hi {
        Err(Problem::OutOfRange)
    } else {
        Ok(v)
    }
}

fn unsigned_in_range(r: &Rational, hi: u128) -> (res: Result<u128, Problem>)
    ensures
        res matches Ok(v) ==> machine_integer(*r, 0, hi as int) == Ok::<int, Problem>(v as int),
        res matches Err(e) ==> machine_integer(*r, 0, hi as int) == Err::<int, Problem>(e),
{
    let i = match r.to_big_integer() {
        Some(i) => i,
        None => {
            return Err(Problem::NotAnInteger);
        },
    };
    if i.sign() == crate::Sign::Minus {
        return Err(Problem::OutOfRange);
    }
    match i.magnitude().to_u128() {
        Some(m) => {
            if m > hi {
                Err(Problem::OutOfRange)
            } else {
                Ok(m)
            }
        },
        None => Err(Problem::OutOfRange),
    }
}

impl From<i8> for Rational {
    fn from(n: i8) -> (res: Rational)
        ensures
            res.is_int_value(n as int),
    {
        Rational::from_i128(n as i128)
    }
}

impl vstd::std_specs::convert::FromSpecImpl<i8> for Rational {
    open spec fn obeys_from_spec() -> bool {
        false
    }

    open spec fn from_spec(v: i8) -> Rational {
        arbitrary()
    }
}

impl TryFrom<Rational> for i8 {
    type Error = Problem;

    fn try_from(n: Rational) -> (res: Result<i8, Problem>) {
        match signed_in_range(&n, i8::MIN as i128, i8::MAX as i128) {
            Ok(v) => Ok(v as i8),
            Err(e) => Err(e),
        }
    }
}

impl vstd::std_specs::convert::TryFromSpecImpl<Rational> for i8 {
    open spec fn obeys_try_from_spec() -> bool {
        true
    }

    open spec fn try_from_spec(v: Rational) -> Result<i8, Problem> {
        match machine_integer(v, i8::MIN as int, i8::MAX as int) {
            Ok(i) => Ok(i as i8),
            Err(e) => Err(e),
        }
    }
}

impl From<i16> for Rational {
    fn from(n: i16) -> (res: Rational)
        ensures
            res.is_int_value(n as int),
    {
        Rational::from_i128(n as i128)
    }
}

impl vstd::std_specs::convert::FromSpecImpl<i16> for Rational {
    open spec fn obeys_from_spec() -> bool {
        false
    }

    open spec fn from_spec(v: i16) -> Rational {
        arbitrary()
    }
}

impl TryFrom<Rational> for i16 {
    type Error = Problem;

    fn try_from(n: Rational) -> (res: Result<i16, Problem>) {
        match signed_in_range(&n, i16::MIN as i128, i16::MAX as i128) {
            Ok(v) => Ok(v as i16),
            Err(e) => Err(e),
        }
    }
}

impl vstd::std_specs::convert::TryFromSpecImpl<Rational> for i16 {
    open spec fn obeys_try_from_spec() -> bool {
        true
    }

    open spec fn try_from_spec(v: Rational) -> Result<i16, Problem> {
        match machine_integer(v, i16::MIN as int, i16::MAX as int) {
            Ok(i) => Ok(i as i16),
            Err(e) => Err(e),
        }
    }
}

impl From<i32> for Rational {
    fn from(n: i32) -> (res: Rational)
        ensures
            res.is_int_value(n as int),
    {
        Rational::from_i128(n as i128)
    }
}

impl vstd::std_specs::convert::FromSpecImpl<i32> for Rational {
    open spec fn obeys_from_spec() -> bool {
        false
    }

    open spec fn from_spec(v: i32) -> Rational {
        arbitrary()
    }
}

impl TryFrom<Rational> for i32 {
    type Error = Problem;

    fn try_from(n: Rational) -> (res: Result<i32, Problem>) {
        match signed_in_range(&n, i32::MIN as i128, i32::MAX as i128) {
            Ok(v) => Ok(v as i32),
            Err(e) => Err(e),
        }
    }
}

impl vstd::std_specs::convert::TryFromSpecImpl<Rational> for i32 {
    open spec fn obeys_try_from_spec() -> bool {
        true
    }

    open spec fn try_from_spec(v: Rational) -> Result<i32, Problem> {
        match machine_integer(v, i32::MIN as int, i32::MAX as int) {
            Ok(i) => Ok(i as i32),
            Err(e) => Err(e),
        }
    }
}

impl From<i64> for Rational {
    fn from(n: i64) -> (res: Rational)
        ensures
            res.is_int_value(n as int),
    {
        Rational::from_i128(n as i128)
    }
}

impl vstd::std_specs::convert::FromSpecImpl<i64> for Rational {
    open spec fn obeys_from_spec() -> bool {
        false
    }

    open spec fn from_spec(v: i64) -> Rational {
        arbitrary()
    }
}

impl TryFrom<Rational> for i64 {
    type Error = Problem;

    fn try_from(n: Rational) -> (res: Result<i64, Problem>) {
        match signed_in_range(&n, i64::MIN as i128, i64::MAX as i128) {
            Ok(v) => Ok(v as i64),
            Err(e) => Err(e),
        }
    }
}

impl vstd::std_specs::convert::TryFromSpecImpl<Rational> for i64 {
    open spec fn obeys_try_from_spec() -> bool {
        true
    }

    open spec fn try_from_spec(v: Rational) -> Result<i64, Problem> {
        match machine_integer(v, i64::MIN as int, i64::MAX as int) {
            Ok(i) => Ok(i as i64),
            Err(e) => Err(e),
        }
    }
}

impl From<i128> for Rational {
    fn from(n: i128) -> (res: Rational)
        ensures
            res.is_int_value(n as int),
    {
        Rational::from_i128(n as i128)
    }
}

impl vstd::std_specs::convert::FromSpecImpl<i128> for Rational {
    open spec fn obeys_from_spec() -> bool {
        false
    }

    open spec fn from_spec(v: i128) -> Rational {
        arbitrary()
    }
}

impl TryFrom<Rational> for i128 {
    type Error = Problem;

    fn try_from(n: Rational) -> (res: Result<i128, Problem>) {
        match signed_in_range(&n, i128::MIN as i128, i128::MAX as i128) {
            Ok(v) => Ok(v as i128),
            Err(e) => Err(e),
        }
    }
}

impl vstd::std_specs::convert::TryFromSpecImpl<Rational> for i128 {
    open spec fn obeys_try_from_spec() -> bool {
        true
    }

    open spec fn try_from_spec(v: Rational) -> Result<i128, Problem> {
        match machine_integer(v, i128::MIN as int, i128::MAX as int) {
            Ok(i) => Ok(i as i128),
            Err(e) => Err(e),
        }
    }
}

impl From<u8> for Rational {
    fn from(n: u8) -> (res: Rational)
        ensures
            res.is_int_value(n as int),
    {
        Rational::from_u128(n as u128)
    }
}

impl vstd::std_specs::convert::FromSpecImpl<u8> for Rational {
    open spec fn obeys_from_spec() -> bool {
        false
    }

    open spec fn from_spec(v: u8) -> Rational {
        arbitrary()
    }
}

impl TryFrom<Rational> for u8 {
    type Error = Problem;

    fn try_from(n: Rational) -> (res: Result<u8, Problem>) {
        match unsigned_in_range(&n, u8::MAX as u128) {
            Ok(v) => Ok(v as u8),
            Err(e) => Err(e),
        }
    }
}

impl vstd::std_specs::convert::TryFromSpecImpl<Rational> for u8 {
    open spec fn obeys_try_from_spec() -> bool {
        true
    }

    open spec fn try_from_spec(v: Rational) -> Result<u8, Problem> {
        match machine_integer(v, 0, u8::MAX as int) {
            Ok(i) => Ok(i as u8),
            Err(e) => Err(e),
        }
    }
}

impl From<u16> for Rational {
    fn from(n: u16) -> (res: Rational)
        ensures
            res.is_int_value(n as int),
    {
        Rational::from_u128(n as u128)
    }
}

impl vstd::std_specs::convert::FromSpecImpl<u16> for Rational {
    open spec fn obeys_from_spec() -> bool {
        false
    }

    open spec fn from_spec(v: u16) -> Rational {
        arbitrary()
    }
}

impl TryFrom<Rational> for u16 {
    type Error = Problem;

    fn try_from(n: Rational) -> (res: Result<u16, Problem>) {
        match unsigned_in_range(&n, u16::MAX as u128) {
            Ok(v) => Ok(v as u16),
            Err(e) => Err(e),
        }
    }
}

impl vstd::std_specs::convert::TryFromSpecImpl<Rational> for u16 {
    open spec fn obeys_try_from_spec() -> bool {
        true
    }

    open spec fn try_from_spec(v: Rational) -> Result<u16, Problem> {
        match machine_integer(v, 0, u16::MAX as int) {
            Ok(i) => Ok(i as u16),
            Err(e) => Err(e),
        }
    }
}

impl From<u32> for Rational {
    fn from(n: u32) -> (res: Rational)
        ensures
            res.is_int_value(n as int),
    {
        Rational::from_u128(n as u128)
    }
}

impl vstd::std_specs::convert::FromSpecImpl<u32> for Rational {
    open spec fn obeys_from_spec() -> bool {
        false
    }

    open spec fn from_spec(v: u32) -> Rational {
        arbitrary()
    }
}

impl TryFrom<Rational> for u32 {
    type Error = Problem;

    fn try_from(n: Rational) -> (res: Result<u32, Problem>) {
        match unsigned_in_range(&n, u32::MAX as u128) {
            Ok(v) => Ok(v as u32),
            Err(e) => Err(e),
        }
    }
}

impl vstd::std_specs::convert::TryFromSpecImpl<Rational> for u32 {
    open spec fn obeys_try_from_spec() -> bool {
        true
    }

    open spec fn try_from_spec(v: Rational) -> Result<u32, Problem> {
        match machine_integer(v, 0, u32::MAX as int) {
            Ok(i) => Ok(i as u32),
            Err(e) => Err(e),
        }
    }
}

impl From<u64> for Rational {
    fn from(n: u64) -> (res: Rational)
        ensures
            res.is_int_value(n as int),
    {
        Rational::from_u128(n as u128)
    }
}

impl vstd::std_specs::convert::FromSpecImpl<u64> for Rational {
    open spec fn obeys_from_spec() -> bool {
        false
    }

    open spec fn from_spec(v: u64) -> Rational {
        arbitrary()
    }
}

impl TryFrom<Rational> for u64 {
    type Error = Problem;

    fn try_from(n: Rational) -> (res: Result<u64, Problem>) {
        match unsigned_in_range(&n, u64::MAX as u128) {
            Ok(v) => Ok(v as u64),
            Err(e) => Err(e),
        }
    }
}

impl vstd::std_specs::convert::TryFromSpecImpl<Rational> for u64 {
    open spec fn obeys_try_from_spec() -> bool {
        true
    }

    open spec fn try_from_spec(v: Rational) -> Result<u64, Problem> {
        match machine_integer(v, 0, u64::MAX as int) {
            Ok(i) => Ok(i as u64),
            Err(e) => Err(e),
        }
    }
}

impl From<u128> for Rational {
    fn from(n: u128) -> (res: Rational)
        ensures
            res.is_int_value(n as int),
    {
        Rational::from_u128(n as u128)
    }
}

impl vstd::std_specs::convert::FromSpecImpl<u128> for Rational {
    open spec fn obeys_from_spec() -> bool {
        false
    }

    open spec fn from_spec(v: u128) -> Rational {
        arbitrary()
    }
}

impl TryFrom<Rational> for u128 {
    type Error = Problem;

    fn try_from(n: Rational) -> (res: Result<u128, Problem>) {
        match unsigned_in_range(&n, u128::MAX as u128) {
            Ok(v) => Ok(v as u128),
            Err(e) => Err(e),
        }
    }
}

impl vstd::std_specs::convert::TryFromSpecImpl<Rational> for u128 {
    open spec fn obeys_try_from_spec() -> bool {
        true
    }

    open spec fn try_from_spec(v: Rational) -> Result<u128, Problem> {
        match machine_integer(v, 0, u128::MAX as int) {
            Ok(i) => Ok(i as u128),
            Err(e) => Err(e),
        }
    }
}

} // verus!
