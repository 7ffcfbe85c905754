//! Arbitrary precision natural numbers and integers.
//!
//! A [`Natural`] holds its little-endian base 2^32 digits as plain values, so
//! the library can state what each operation computes.  The arithmetic itself
//! is done by `num`'s `BigUint`, reached through the small trusted wrappers at
//! the bottom of this file.

use vstd::prelude::*;
use vstd::arithmetic::div_mod::*;
use vstd::arithmetic::mul::*;
use vstd::arithmetic::power::*;
use num::BigUint;
use num::Integer as NumInteger;

use crate::Sign;

verus! {

/// The base of one digit.
pub open spec fn digit_base() -> nat {
    0x1_0000_0000
}

/// The value of little-endian base 2^32 digits.
pub open spec fn digits_value(s: Seq<u32>) -> nat
    decreases s.len(),
{
    if s.len() == 0 {
        0
    } else {
        s[0] as nat + digit_base() * digits_value(s.skip(1))
    }
}

/// No most significant zero digit.
pub open spec fn normalized(s: Seq<u32>) -> bool {
    s.len() == 0 || s.last() != 0
}

/// The greatest common divisor, by Euclid's algorithm.
pub open spec fn gcd(a: nat, b: nat) -> nat
    decreases b,
{
    if b == 0 {
        a
    } else {
        gcd(b, a % b)
    }
}

/// `d` divides `n`.
pub open spec fn divides(d: nat, n: nat) -> bool {
    exists|k: nat| #[trigger] (d * k) == n
}

/// A natural number of unbounded size.
#[derive(Debug)]
pub struct Natural {
    digits: Vec<u32>,
}

impl Natural {
    #[verifier::type_invariant]
    spec fn inv(self) -> bool {
        normalized(self.digits@)
    }
}

impl View for Natural {
    type V = nat;

    closed spec fn view(&self) -> nat {
        digits_value(self.digits@)
    }
}

pub proof fn lemma_digits_value_positive(s: Seq<u32>)
    requires
        s.len() > 0,
        s.last() != 0,
    ensures
        digits_value(s) > 0,
    decreases s.len(),
{
    if s.len() > 1 {
        assert(s.skip(1).last() == s.last());
        lemma_digits_value_positive(s.skip(1));
        assert(digit_base() * digits_value(s.skip(1)) > 0) by (nonlinear_arith)
            requires
                digits_value(s.skip(1)) > 0,
        ;
    }
}

proof fn lemma_digits_two(lo: u32, hi: u32)
    ensures
        digits_value(seq![lo, hi]) == lo as nat + digit_base() * hi,
        digits_value(seq![lo]) == lo as nat,
        digits_value(Seq::<u32>::empty()) == 0,
{
    let s = seq![lo, hi];
    assert(s.skip(1) =~= seq![hi]);
    assert(seq![hi].skip(1) =~= Seq::<u32>::empty());
    assert(seq![lo].skip(1) =~= Seq::<u32>::empty());
    reveal_with_fuel(digits_value, 3);
}

proof fn lemma_drop_trailing_zero(s: Seq<u32>)
    requires
        s.len() > 0,
        s.last() == 0,
    ensures
        digits_value(s.drop_last()) == digits_value(s),
    decreases s.len(),
{
    if s.len() == 1 {
        assert(s.drop_last() =~= Seq::<u32>::empty());
        assert(s.skip(1) =~= Seq::<u32>::empty());
        assert(s[0] == 0);
    } else {
        let t = s.skip(1);
        assert(t.last() == 0);
        lemma_drop_trailing_zero(t);
        assert(s.drop_last().skip(1) =~= t.drop_last());
        assert(s.drop_last()[0] == s[0]);
    }
}

impl Clone for Natural {
    fn clone(&self) -> (res: Self)
        ensures
            res@ == self@,
    {
        proof {
            use_type_invariant(self);
        }
        let digits = self.digits.clone();
        assert(digits@ =~= self.digits@);
        Natural { digits }
    }
}

impl Natural {
    /// Zero.
    pub fn zero() -> (res: Natural)
        ensures
            res@ == 0,
    {
        proof {
            lemma_digits_two(0, 0);
        }
        Natural { digits: Vec::new() }
    }

    /// The natural number equal to `n`.
    pub fn from_u64(n: u64) -> (res: Natural)
        ensures
            res@ == n,
    {
        let lo = (n % 0x1_0000_0000) as u32;
        let hi = (n / 0x1_0000_0000) as u32;
        proof {
            lemma_digits_two(lo, hi);
        }
        let mut digits = Vec::new();
        if hi != 0 {
            digits.push(lo);
            digits.push(hi);
            assert(digits@ =~= seq![lo, hi]);
        } else if lo != 0 {
            digits.push(lo);
            assert(digits@ =~= seq![lo]);
        } else {
            assert(digits@ =~= Seq::<u32>::empty());
        }
        Natural { digits }
    }

    /// The natural number equal to `n`.
    pub fn from_u128(n: u128) -> (res: Natural)
        ensures
            res@ == n,
    {
        let hi = Natural::from_u64((n / 0x1_0000_0000_0000_0000) as u64);
        let lo = Natural::from_u64((n % 0x1_0000_0000_0000_0000) as u64);
        let shifted = hi.shl(64);
        proof {
            vstd::arithmetic::power2::lemma2_to64();
            vstd::arithmetic::power2::lemma2_to64_rest();
        }
        shifted.add(&lo)
    }

    /// The value as a `u128`, where it fits.
    pub fn to_u128(&self) -> (res: Option<u128>)
        ensures
            res matches Some(v) ==> v == self@,
            res is None ==> self@ > u128::MAX,
    {
        let one = Natural::from_u64(1);
        let base = one.shl(64);
        proof {
            vstd::arithmetic::power2::lemma2_to64();
            vstd::arithmetic::power2::lemma2_to64_rest();
        }
        let (q, r) = self.div_rem(&base);
        proof {
            lemma_fundamental_div_mod(self@ as int, base@ as int);
        }
        match (q.to_u64(), r.to_u64()) {
            (Some(h), Some(l)) => {
                proof {
                    assert(h * 0x1_0000_0000_0000_0000 + l <= u128::MAX) by (nonlinear_arith)
                        requires
                            h <= u64::MAX,
                            l <= u64::MAX,
                    ;
                }
                Some(h as u128 * 0x1_0000_0000_0000_0000u128 + l as u128)
            },
            _ => {
                proof {
                    assert(r@ <= u64::MAX);
                    assert(q@ > u64::MAX);
                    assert(self@ > u128::MAX) by (nonlinear_arith)
                        requires
                            self@ == base@ * q@ + r@,
                            base@ == 0x1_0000_0000_0000_0000,
                            q@ > u64::MAX,
                    ;
                }
                None
            },
        }
    }

    /// Is this zero?
    pub fn is_zero(&self) -> (res: bool)
        ensures
            res == (self@ == 0),
    {
        proof {
            use_type_invariant(self);
            if self.digits@.len() > 0 {
                lemma_digits_value_positive(self.digits@);
            }
        }
        self.digits.len() == 0
    }

    /// The value as a `u64`, where it fits.
    pub fn to_u64(&self) -> (res: Option<u64>)
        ensures
            res matches Some(v) ==> v == self@,
            res is None ==> self@ > u64::MAX,
    {
        proof {
            use_type_invariant(self);
        }
        let len = self.digits.len();
        if len == 0 {
            proof {
                lemma_digits_two(0, 0);
            }
            Some(0)
        } else if len == 1 {
            let lo = self.digits[0];
            proof {
                lemma_digits_two(lo, 0);
                assert(self.digits@ =~= seq![lo]);
            }
            Some(lo as u64)
        } else if len == 2 {
            let lo = self.digits[0];
            let hi = self.digits[1];
            proof {
                lemma_digits_two(lo, hi);
                assert(self.digits@ =~= seq![lo, hi]);
            }
            Some(lo as u64 + 0x1_0000_0000u64 * hi as u64)
        } else {
            proof {
                let s = self.digits@;
                let t = s.skip(2);
                assert(t.last() == s.last());
                lemma_digits_value_positive(t);
                assert(s.skip(1).skip(1) =~= t);
                assert(digits_value(s.skip(1)) >= digit_base() * digits_value(t));
                assert(digits_value(s) >= digit_base() * digits_value(s.skip(1)));
                assert(digit_base() * (digit_base() * digits_value(t)) > u64::MAX)
                    by (nonlinear_arith)
                    requires
                        digits_value(t) >= 1,
                        digit_base() == 0x1_0000_0000,
                ;
                assert(digit_base() * digits_value(s.skip(1)) >= digit_base() * (digit_base()
                    * digits_value(t))) by (nonlinear_arith)
                    requires
                        digits_value(s.skip(1)) >= digit_base() * digits_value(t),
                ;
            }
            None
        }
    }

    /// Is this odd?
    pub fn is_odd(&self) -> (res: bool)
        ensures
            res == (self@ % 2 == 1),
    {
        if self.digits.len() == 0 {
            false
        } else {
            let d = self.digits[0];
            proof {
                let s = self.digits@;
                let r = digits_value(s.skip(1));
                assert(digits_value(s) == d as nat + digit_base() * r);
                assert((d as int + digit_base() * r) % 2 == (d as int) % 2) by {
                    lemma_mul_is_associative(2, 0x8000_0000, r as int);
                    lemma_mod_multiples_vanish((0x8000_0000 * r) as int, d as int, 2);
                }
            }
            d % 2 == 1
        }
    }

    /// This number to the power `e`.
    pub fn pow(&self, e: u64) -> (res: Natural)
        ensures
            res@ == pow(self@ as int, e as nat),
    {
        let mut result = Natural::from_u64(1);
        let mut base = self.clone();
        let mut k = e;
        proof {
            lemma_pow0(base@ as int);
        }
        while k > 0
            invariant
                result@ * pow(base@ as int, k as nat) == pow(self@ as int, e as nat),
            decreases k,
        {
            proof {
                lemma_pow_step(base@ as int, k as nat);
            }
            let ghost old_result = result@;
            let ghost old_base = base@;
            let ghost old_k = k;
            if k % 2 == 1 {
                result = result.mul(&base);
            }
            base = base.mul(&base);
            k = k / 2;
            proof {
                let p = pow((old_base * old_base) as int, k as nat);
                let f: int = if old_k % 2 == 1 { old_base as int } else { 1 };
                assert(result@ == old_result * f);
                assert(result@ * p == old_result * (p * f)) by (nonlinear_arith)
                    requires
                        result@ == old_result * f,
                ;
            }
        }
        proof {
            lemma_pow0(base@ as int);
        }
        result
    }

    pub fn add(&self, other: &Natural) -> (res: Natural)
        ensures
            res@ == self@ + other@,
    {
        big_add(self, other)
    }

    /// Subtraction, where it does not go below zero.
    pub fn sub(&self, other: &Natural) -> (res: Natural)
        requires
            self@ >= other@,
        ensures
            res@ == self@ - other@,
    {
        big_sub(self, other)
    }

    pub fn mul(&self, other: &Natural) -> (res: Natural)
        ensures
            res@ == self@ * other@,
    {
        big_mul(self, other)
    }

    /// Quotient and remainder.
    pub fn div_rem(&self, other: &Natural) -> (res: (Natural, Natural))
        requires
            other@ > 0,
        ensures
            res.0@ == self@ / other@,
            res.1@ == self@ % other@,
    {
        let (q, r) = big_div_rem(self, other);
        proof {
            lemma_fundamental_div_mod_converse(
                self@ as int,
                other@ as int,
                q@ as int,
                r@ as int,
            );
        }
        (q, r)
    }

    pub fn gcd(&self, other: &Natural) -> (res: Natural)
        ensures
            res@ == gcd(self@, other@),
    {
        big_gcd(self, other)
    }

    pub fn less(&self, other: &Natural) -> (res: bool)
        ensures
            res == (self@ < other@),
    {
        big_less(self, other)
    }

    pub fn equal(&self, other: &Natural) -> (res: bool)
        ensures
            res == (self@ == other@),
    {
        big_equal(self, other)
    }

    /// Multiply by 2 to the power `shift`.
    pub fn shl(&self, shift: u64) -> (res: Natural)
        ensures
            res@ == self@ * vstd::arithmetic::power2::pow2(shift as nat),
    {
        big_shl(self, shift)
    }

    /// The largest number whose square is not above this one.
    /// The base `2^32` digits, least significant first, without trailing
    /// zeros.
    pub fn to_digits(&self) -> (res: Vec<u32>)
        ensures
            digits_value(res@) == self@,
            normalized(res@),
    {
        proof {
            use_type_invariant(self);
        }
        self.digits.clone()
    }

    /// The number with these base `2^32` digits, least significant first.
    pub fn from_digits(digits: Vec<u32>) -> (res: Natural)
        ensures
            res@ == digits_value(digits@),
    {
        let mut d = digits;
        let ghost value = digits_value(d@);
        while d.len() > 0 && d[d.len() - 1] == 0
            invariant
                digits_value(d@) == value,
            decreases d.len(),
        {
            let ghost before = d@;
            d.pop();
            proof {
                lemma_drop_trailing_zero(before);
                assert(d@ =~= before.drop_last());
            }
        }
        Natural { digits: d }
    }

    /// Binary digit `k`.
    pub fn bit(&self, k: u64) -> (res: bool)
        ensures
            res == ((self@ / vstd::arithmetic::power2::pow2(k as nat)) % 2 == 1),
    {
        let one = Natural::from_u64(1);
        let p = one.shl(k);
        proof {
            vstd::arithmetic::power2::lemma_pow2_pos(k as nat);
        }
        let (q, _r) = self.div_rem(&p);
        q.is_odd()
    }

    pub fn sqrt_floor(&self) -> (res: Natural)
        ensures
            res@ * res@ <= self@ < (res@ + 1) * (res@ + 1),
    {
        big_sqrt(self)
    }

    /// The number of bits needed to write this number down.
    pub fn bits(&self) -> (res: u64)
        ensures
            self@ == 0 ==> res == 0,
            self@ > 0 ==> vstd::arithmetic::power2::pow2((res - 1) as nat) <= self@
                < vstd::arithmetic::power2::pow2(res as nat),
            res == bit_length(self@),
    {
        let res = big_bits(self);
        proof {
            lemma_bit_length(self@, res as nat);
        }
        res
    }
}

/// An integer of unbounded size: a sign and a magnitude.
#[derive(Debug)]
pub struct Integer {
    sign: Sign,
    magnitude: Natural,
}

impl Integer {
    #[verifier::type_invariant]
    spec fn inv(self) -> bool {
        (self.sign == Sign::NoSign) == (self.magnitude@ == 0)
    }

    pub closed spec fn spec_sign(self) -> Sign {
        self.sign
    }

    pub closed spec fn spec_magnitude(self) -> nat {
        self.magnitude@
    }
}

impl View for Integer {
    type V = int;

    closed spec fn view(&self) -> int {
        self.sign.apply(self.magnitude@)
    }
}

impl Clone for Integer {
    fn clone(&self) -> (res: Self)
        ensures
            res@ == self@,
            res.spec_sign() == self.spec_sign(),
            res.spec_magnitude() == self.spec_magnitude(),
    {
        proof {
            use_type_invariant(self);
        }
        Integer { sign: self.sign, magnitude: self.magnitude.clone() }
    }
}

impl Integer {
    /// The integer with this sign and magnitude; the sign is ignored for
    /// a zero magnitude.
    pub fn from_parts(sign: Sign, magnitude: Natural) -> (res: Integer)
        requires
            sign != Sign::NoSign || magnitude@ == 0,
        ensures
            res.spec_magnitude() == magnitude@,
            res.spec_sign() == (if magnitude@ == 0 {
                Sign::NoSign
            } else {
                sign
            }),
            res@ == res.spec_sign().apply(magnitude@),
    {
        if magnitude.is_zero() {
            Integer { sign: Sign::NoSign, magnitude }
        } else {
            Integer { sign, magnitude }
        }
    }

    /// The integer equal to `n`.
    pub fn from_i64(n: i64) -> (res: Integer)
        ensures
            res@ == n,
    {
        if n < 0 {
            let m = if n == i64::MIN {
                0x8000_0000_0000_0000u64
            } else {
                (-n) as u64
            };
            Integer { sign: Sign::Minus, magnitude: Natural::from_u64(m) }
        } else if n == 0 {
            Integer { sign: Sign::NoSign, magnitude: Natural::zero() }
        } else {
            Integer { sign: Sign::Plus, magnitude: Natural::from_u64(n as u64) }
        }
    }

    /// The integer equal to `n`.
    pub fn from_natural(n: Natural) -> (res: Integer)
        ensures
            res@ == n@,
            res.spec_magnitude() == n@,
    {
        Self::from_parts(Sign::Plus, n)
    }

    pub fn sign(&self) -> (res: Sign)
        ensures
            res == self.spec_sign(),
            res == Sign::Minus <==> self@ < 0,
            res == Sign::NoSign <==> self@ == 0,
            res == Sign::Plus <==> self@ > 0,
    {
        proof {
            use_type_invariant(self);
        }
        self.sign
    }

    pub fn magnitude(&self) -> (res: &Natural)
        ensures
            res@ == self.spec_magnitude(),
            res@ == if self@ < 0 {
                -self@
            } else {
                self@
            },
    {
        proof {
            use_type_invariant(self);
        }
        &self.magnitude
    }

    /// Is this odd?  (The lowest bit in two's complement.)
    pub fn is_odd(&self) -> (res: bool)
        ensures
            res == (self@ % 2 == 1),
    {
        proof {
            use_type_invariant(self);
            let m = self.magnitude@ as int;
            if self.sign == Sign::Minus {
                assert((-m) % 2 == m % 2) by {
                    lemma_fundamental_div_mod(m, 2);
                    lemma_fundamental_div_mod_converse(-m, 2, -(m / 2) - (m % 2), m % 2);
                }
            }
        }
        self.magnitude.is_odd()
    }

    pub fn neg(&self) -> (res: Integer)
        ensures
            res@ == -self@,
    {
        proof {
            use_type_invariant(self);
        }
        let sign = match self.sign {
            Sign::Minus => Sign::Plus,
            Sign::NoSign => Sign::NoSign,
            Sign::Plus => Sign::Minus,
        };
        Integer { sign, magnitude: self.magnitude.clone() }
    }

    /// Half of this integer, rounded down (an arithmetic shift right by one).
    pub fn half_floor(&self) -> (res: Integer)
        ensures
            res@ == self@ / 2,
    {
        proof {
            use_type_invariant(self);
        }
        let two = Natural::from_u64(2);
        let (q, r) = self.magnitude.div_rem(&two);
        proof {
            assert(self@ == self.sign.apply(self.magnitude@));
        }
        match self.sign {
            Sign::Minus => {
                if r.is_zero() {
                    proof {
                        let m = self.magnitude@ as int;
                        lemma_fundamental_div_mod(m, 2);
                        lemma_fundamental_div_mod_converse(-m, 2, -(m / 2), 0);
                        assert(self@ == -m);
                        assert(q@ == m / 2);
                        assert(self@ / 2 == -(q@ as int));
                    }
                    let res = Integer::from_parts(Sign::Minus, q);
                    assert(res@ == -(q@ as int));
                    assert(res@ == self@ / 2);
                    res
                } else {
                    let one = Natural::from_u64(1);
                    let q1 = q.add(&one);
                    proof {
                        let m = self.magnitude@ as int;
                        lemma_fundamental_div_mod(m, 2);
                        assert(r@ == 1);
                        lemma_fundamental_div_mod_converse(-m, 2, -(m / 2) - 1, 1);
                        assert(self@ == -m);
                        assert(self@ / 2 == -(q1@ as int));
                    }
                    let res = Integer::from_parts(Sign::Minus, q1);
                    assert(res@ == -(q1@ as int));
                    assert(res@ == self@ / 2);
                    res
                }
            },
            _ => {
                proof {
                    assert(self@ == self.magnitude@);
                    assert(q@ == self@ / 2);
                }
                let ghost qv = q@;
                let res = Integer::from_parts(Sign::Plus, q);
                assert(res.spec_magnitude() == qv);
                assert(qv == 0 || res.spec_sign() == Sign::Plus);
                assert(res@ == qv);
                res
            },
        }
    }
}

/// The sum of two signed magnitudes.
pub fn signed_add(sa: Sign, a: &Natural, sb: Sign, b: &Natural) -> (res: (Sign, Natural))
    ensures
        res.0.apply(res.1@) == sa.apply(a@) + sb.apply(b@),
        res.0 == Sign::NoSign ==> res.1@ == 0,
{
    let za = sa == Sign::NoSign || a.is_zero();
    let zb = sb == Sign::NoSign || b.is_zero();
    if za {
        if zb {
            return (Sign::NoSign, Natural::zero());
        }
        return (sb, b.clone());
    }
    if zb {
        return (sa, a.clone());
    }
    if sa == sb {
        (sa, a.add(b))
    } else if a.less(b) {
        (sb, b.sub(a))
    } else if b.less(a) {
        (sa, a.sub(b))
    } else {
        (Sign::NoSign, Natural::zero())
    }
}

/// Is one signed magnitude less than another?
pub fn signed_less(sa: Sign, a: &Natural, sb: Sign, b: &Natural) -> (res: bool)
    ensures
        res == (sa.apply(a@) < sb.apply(b@)),
{
    let va: i8 = if a.is_zero() {
        0
    } else {
        match sa {
            Sign::Minus => -1,
            Sign::NoSign => 0,
            Sign::Plus => 1,
        }
    };
    let vb: i8 = if b.is_zero() {
        0
    } else {
        match sb {
            Sign::Minus => -1,
            Sign::NoSign => 0,
            Sign::Plus => 1,
        }
    };
    if va != vb {
        va < vb
    } else if va == 0 {
        false
    } else if va > 0 {
        a.less(b)
    } else {
        b.less(a)
    }
}

impl Integer {
    /// Zero.
    pub fn zero() -> (res: Integer)
        ensures
            res@ == 0,
    {
        Integer::from_i64(0)
    }

    /// Is this zero?
    pub fn is_zero(&self) -> (res: bool)
        ensures
            res == (self@ == 0),
    {
        self.sign() == Sign::NoSign
    }

    pub fn add(&self, other: &Integer) -> (res: Integer)
        ensures
            res@ == self@ + other@,
    {
        let (s, m) = signed_add(self.sign(), self.magnitude(), other.sign(), other.magnitude());
        proof {
            use_type_invariant(self);
            use_type_invariant(other);
        }
        Integer::from_parts(s, m)
    }

    pub fn sub(&self, other: &Integer) -> (res: Integer)
        ensures
            res@ == self@ - other@,
    {
        let n = other.neg();
        self.add(&n)
    }

    pub fn mul(&self, other: &Integer) -> (res: Integer)
        ensures
            res@ == self@ * other@,
    {
        proof {
            use_type_invariant(self);
            use_type_invariant(other);
        }
        let m = self.magnitude.mul(&other.magnitude);
        let s = if self.sign == Sign::NoSign || other.sign == Sign::NoSign {
            Sign::NoSign
        } else if self.sign == other.sign {
            Sign::Plus
        } else {
            Sign::Minus
        };
        proof {
            let a = self.magnitude@;
            let b = other.magnitude@;
            assert(s.apply(a * b) == self.sign.apply(a) * other.sign.apply(b)) by (nonlinear_arith)
                requires
                    self.sign.apply(a) == (match self.sign {
                        Sign::Minus => -(a as int),
                        Sign::NoSign => 0,
                        Sign::Plus => a as int,
                    }),
                    other.sign.apply(b) == (match other.sign {
                        Sign::Minus => -(b as int),
                        Sign::NoSign => 0,
                        Sign::Plus => b as int,
                    }),
                    s.apply(a * b) == (match s {
                        Sign::Minus => -((a * b) as int),
                        Sign::NoSign => 0,
                        Sign::Plus => (a * b) as int,
                    }),
                    s == (if self.sign == Sign::NoSign || other.sign == Sign::NoSign {
                        Sign::NoSign
                    } else if self.sign == other.sign {
                        Sign::Plus
                    } else {
                        Sign::Minus
                    }),
                    (self.sign == Sign::NoSign) == (a == 0),
                    (other.sign == Sign::NoSign) == (b == 0),
            ;
            if s != Sign::NoSign {
                assert(a * b != 0) by (nonlinear_arith)
                    requires
                        a != 0,
                        b != 0,
                ;
            }
        }
        Integer::from_parts(s, m)
    }

    /// This integer times 2 to the power `k`.
    pub fn shl(&self, k: u64) -> (res: Integer)
        ensures
            res@ == self@ * vstd::arithmetic::power2::pow2(k as nat),
    {
        proof {
            use_type_invariant(self);
            vstd::arithmetic::power2::lemma_pow2_pos(k as nat);
        }
        let m = self.magnitude.shl(k);
        proof {
            crate::rational::lemma_apply_mul(self.sign, self.magnitude@,
                vstd::arithmetic::power2::pow2(k as nat));
        }
        Integer::from_parts(self.sign, m)
    }

    /// Floor division by a positive natural number.
    pub fn div_floor(&self, d: &Natural) -> (res: Integer)
        requires
            d@ > 0,
        ensures
            res@ == self@ / (d@ as int),
    {
        proof {
            use_type_invariant(self);
        }
        let (q, r) = self.magnitude.div_rem(d);
        if self.sign == Sign::Minus {
            proof {
                crate::rational::lemma_div_mod_neg(self.magnitude@ as int, d@ as int);
            }
            if r.is_zero() {
                Integer::from_parts(Sign::Minus, q)
            } else {
                let one = Natural::from_u64(1);
                Integer::from_parts(Sign::Minus, q.add(&one))
            }
        } else {
            Integer::from_natural(q)
        }
    }

    /// This integer divided by 2 to the power `k`, rounded down.
    pub fn shr(&self, k: u64) -> (res: Integer)
        ensures
            res@ == self@ / (vstd::arithmetic::power2::pow2(k as nat) as int),
    {
        let one = Natural::from_u64(1);
        let d = one.shl(k);
        proof {
            vstd::arithmetic::power2::lemma_pow2_pos(k as nat);
        }
        self.div_floor(&d)
    }

    /// Is this less than the other?
    pub fn less(&self, other: &Integer) -> (res: bool)
        ensures
            res == (self@ < other@),
    {
        proof {
            use_type_invariant(self);
            use_type_invariant(other);
        }
        signed_less(self.sign, &self.magnitude, other.sign, &other.magnitude)
    }

    /// The number of bits in the magnitude.
    pub fn bits(&self) -> (res: u64)
        ensures
            res == 0 <==> self@ == 0,
            res == bit_length(self.spec_magnitude()),
            res == bit_length(if self@ < 0 { -self@ } else { self@ } as nat),
    {
        proof {
            use_type_invariant(self);
            assert(self.spec_magnitude() == if self@ < 0 { -self@ } else { self@ } as nat);
        }
        let b = self.magnitude.bits();
        proof {
            if self.magnitude@ > 0 {
                vstd::arithmetic::power2::lemma_pow2_pos(b as nat);
                if b == 0 {
                    assert(vstd::arithmetic::power2::pow2(0) == 1) by {
                        vstd::arithmetic::power2::lemma2_to64();
                    }
                }
            }
        }
        b
    }
}

/// A multiple of `g` plus a multiple of `g` is a multiple of `g`.
pub proof fn lemma_mod_zero_combination(x: int, y: int, q: int, g: int)
    requires
        g > 0,
        x % g == 0,
        y % g == 0,
    ensures
        (x * q + y) % g == 0,
{
    lemma_fundamental_div_mod(x, g);
    lemma_fundamental_div_mod(y, g);
    let k = (x / g) * q + y / g;
    assert(x * q + y == k * g) by (nonlinear_arith)
        requires
            x == g * (x / g),
            y == g * (y / g),
            k == (x / g) * q + y / g,
    ;
    lemma_mod_multiples_basic(k, g);
}

/// The number of binary digits of `x`: zero for zero.
pub open spec fn bit_length(x: nat) -> nat
    decreases x,
{
    if x == 0 {
        0
    } else {
        1 + bit_length(x / 2)
    }
}

/// A number of `bit_length(x)` binary digits lies from `2^(b-1)` up to
/// below `2^b`.
pub proof fn lemma_bit_length_bounds(x: nat)
    requires
        x >= 1,
    ensures
        vstd::arithmetic::power2::pow2((bit_length(x) - 1) as nat) <= x
            < vstd::arithmetic::power2::pow2(bit_length(x)),
        bit_length(x) >= 1,
    decreases x,
{
    vstd::arithmetic::power2::lemma2_to64();
    if x == 1 {
        assert(bit_length(0) == 0);
        assert(bit_length(1) == 1);
    } else {
        let b = x / 2;
        lemma_bit_length_bounds(b);
        let lb = bit_length(b);
        assert(bit_length(x) == 1 + lb);
        vstd::arithmetic::power2::lemma_pow2_unfold(lb);
        vstd::arithmetic::power2::lemma_pow2_unfold(lb + 1);
        let p = vstd::arithmetic::power2::pow2((lb - 1) as nat);
        let q = vstd::arithmetic::power2::pow2(lb);
        assert(q == 2 * p);
        assert(vstd::arithmetic::power2::pow2(lb + 1) == 2 * q);
        assert(q <= x < 2 * q) by (nonlinear_arith)
            requires
                p <= b < q,
                b == x / 2,
                q == 2 * p,
                x >= 2,
        ;
    }
}

/// A number from `2^(b-1)` up to below `2^b` has `b` binary digits.
pub proof fn lemma_bit_length(x: nat, b: nat)
    requires
        x == 0 ==> b == 0,
        x > 0 ==> vstd::arithmetic::power2::pow2((b - 1) as nat) <= x
            < vstd::arithmetic::power2::pow2(b),
    ensures
        b == bit_length(x),
    decreases x,
{
    if x > 0 {
        vstd::arithmetic::power2::lemma2_to64();
        if b == 0 {
            assert(false);
        } else if b == 1 {
            assert(x == 1);
            assert(bit_length(0) == 0);
        } else {
            vstd::arithmetic::power2::lemma_pow2_unfold((b - 1) as nat);
            vstd::arithmetic::power2::lemma_pow2_unfold(b);
            let h = vstd::arithmetic::power2::pow2((b - 2) as nat);
            assert(x / 2 >= h && x / 2 < 2 * h) by (nonlinear_arith)
                requires
                    2 * h <= x < 4 * h,
            ;
            assert((b - 1 - 1) as nat == (b - 2) as nat);
            lemma_bit_length(x / 2, (b - 1) as nat);
        }
    }
}

/// The greatest common divisor is zero only for two zeros, and otherwise
/// divides both arguments.
pub proof fn lemma_gcd_divides(a: nat, b: nat)
    ensures
        (gcd(a, b) == 0) == (a == 0 && b == 0),
        gcd(a, b) > 0 ==> a % gcd(a, b) == 0 && b % gcd(a, b) == 0,
    decreases b,
{
    if b == 0 {
        if a > 0 {
            lemma_mod_self_0(a as int);
        }
    } else {
        let r = a % b;
        lemma_gcd_divides(b, r);
        let g = gcd(a, b);
        assert(g == gcd(b, r));
        lemma_fundamental_div_mod(a as int, b as int);
        lemma_mod_zero_combination(b as int, r as int, (a / b) as int, g as int);
        assert(a as int == b * (a / b) + r);
        assert(b * (a / b) == (b as int) * ((a / b) as int));
    }
}

/// Every common divisor of `a` and `b` divides their greatest common divisor.
pub proof fn lemma_common_divisor_divides_gcd(a: nat, b: nat, c: nat)
    requires
        c > 0,
        a % c == 0,
        b % c == 0,
    ensures
        gcd(a, b) % c == 0,
    decreases b,
{
    if b > 0 {
        let r = a % b;
        lemma_fundamental_div_mod(a as int, b as int);
        assert(r as int == a - b * (a / b));
        lemma_mod_zero_combination(b as int, a as int, -((a / b) as int), c as int);
        assert(b * (-((a / b) as int)) + a == r) by (nonlinear_arith)
            requires
                r as int == a - b * (a / b),
        ;
        lemma_common_divisor_divides_gcd(b, r, c);
    }
}

/// Dividing two numbers by their greatest common divisor leaves them coprime.
pub proof fn lemma_divided_by_gcd_coprime(a: nat, b: nat, a1: nat, b1: nat)
    requires
        gcd(a, b) > 0,
        a == a1 * gcd(a, b),
        b == b1 * gcd(a, b),
    ensures
        gcd(a1, b1) == 1,
{
    let g = gcd(a, b);
    lemma_gcd_divides(a, b);
    if a1 == 0 && b1 == 0 {
        assert(a == 0 && b == 0);
    }
    lemma_gcd_divides(a1, b1);
    let h = gcd(a1, b1);
    assert(h > 0);
    lemma_fundamental_div_mod(a1 as int, h as int);
    lemma_fundamental_div_mod(b1 as int, h as int);
    let hg = h * g;
    assert(hg > 0) by (nonlinear_arith)
        requires
            h > 0,
            g > 0,
            hg == h * g,
    ;
    assert(a == (a1 / h) * hg) by (nonlinear_arith)
        requires
            a == a1 * g,
            a1 == h * (a1 / h),
            hg == h * g,
    ;
    assert(b == (b1 / h) * hg) by (nonlinear_arith)
        requires
            b == b1 * g,
            b1 == h * (b1 / h),
            hg == h * g,
    ;
    lemma_mod_multiples_basic((a1 / h) as int, hg as int);
    lemma_mod_multiples_basic((b1 / h) as int, hg as int);
    lemma_common_divisor_divides_gcd(a, b, hg);
    lemma_fundamental_div_mod(g as int, hg as int);
    let k = g / hg;
    assert(g == hg * k);
    if k <= 0 {
        assert(hg * k <= 0) by (nonlinear_arith)
            requires
                hg > 0,
                k <= 0,
        ;
    }
    assert(h <= 1) by (nonlinear_arith)
        requires
            g == h * g * k,
            g > 0,
            k >= 1,
            h > 0,
    ;
}

/// One step of exponentiation by squaring.
pub proof fn lemma_pow_step(b: int, e: nat)
    requires
        e > 0,
    ensures
        pow(b, e) == pow(b * b, e / 2) * (if e % 2 == 1 {
            b
        } else {
            1
        }),
{
    lemma_square_is_pow2(b);
    lemma_pow_multiplies(b, 2, e / 2);
    lemma_pow_adds(b, 2 * (e / 2), e % 2);
    lemma_pow0(b);
    lemma_pow1(b);
    assert(e == 2 * (e / 2) + e % 2);
}

/// Scaling both arguments scales the greatest common divisor.
pub proof fn lemma_gcd_scale(x: nat, y: nat, k: nat)
    ensures
        gcd(k * x, k * y) == k * gcd(x, y),
    decreases y,
{
    if y == 0 {
        assert(k * y == 0) by (nonlinear_arith)
            requires
                y == 0,
        ;
    } else if k == 0 {
        assert(k * x == 0 && k * y == 0) by (nonlinear_arith)
            requires
                k == 0,
        ;
        assert(gcd(0, 0) == 0);
        assert(k * gcd(x, y) == 0) by (nonlinear_arith)
            requires
                k == 0,
        ;
    } else {
        let q = x / y;
        let r = x % y;
        lemma_fundamental_div_mod(x as int, y as int);
        assert(k * x == q * (k * y) + k * r) by (nonlinear_arith)
            requires
                x == y * q + r,
        ;
        assert(0 <= k * r < k * y) by (nonlinear_arith)
            requires
                0 <= r < y,
                k > 0,
        ;
        assert(k * y > 0) by (nonlinear_arith)
            requires
                y > 0,
                k > 0,
        ;
        lemma_fundamental_div_mod_converse((k * x) as int, (k * y) as int, q as int, (k * r) as int);
        assert((k * x) % (k * y) == k * r);
        lemma_gcd_scale(y, r, k);
    }
}

/// A number that divides `a * d` and has no common factor with `a`
/// divides `d`.
pub proof fn lemma_coprime_divides(a: nat, b: nat, d: nat)
    requires
        b > 0,
        gcd(a, b) == 1,
        (a * d) % b == 0,
    ensures
        d % b == 0,
{
    lemma_mod_multiples_basic(d as int, b as int);
    lemma_mul_is_commutative(b as int, d as int);
    assert((b * d) % b == 0);
    lemma_common_divisor_divides_gcd(a * d, b * d, b);
    lemma_mul_is_commutative(a as int, d as int);
    lemma_mul_is_commutative(b as int, d as int);
    lemma_gcd_scale(a, b, d);
    assert(gcd(d * a, d * b) == d * 1);
}

// ---------------------------------------------------------------------
// Trusted wrappers around num's BigUint.  Each converts the digits into a
// BigUint, makes one call, and converts the result back to digits with
// `to_u32_digits`, which never ends in a zero digit.
// ---------------------------------------------------------------------
/// `BigUint + BigUint`: the sum of the two values.
#[verifier::external_body]
fn big_add(a: &Natural, b: &Natural) -> (res: Natural)
    ensures
        res@ == a@ + b@,
{
    let x = BigUint::new(a.digits.clone()) + BigUint::new(b.digits.clone());
    Natural { digits: x.to_u32_digits() }
}

/// `BigUint - BigUint`: the difference, which num computes where it is not
/// negative (and panics otherwise, which `requires` rules out).
#[verifier::external_body]
fn big_sub(a: &Natural, b: &Natural) -> (res: Natural)
    requires
        a@ >= b@,
    ensures
        res@ == a@ - b@,
{
    let x = BigUint::new(a.digits.clone()) - BigUint::new(b.digits.clone());
    Natural { digits: x.to_u32_digits() }
}

/// `BigUint * BigUint`: the product.
#[verifier::external_body]
fn big_mul(a: &Natural, b: &Natural) -> (res: Natural)
    ensures
        res@ == a@ * b@,
{
    let x = BigUint::new(a.digits.clone()) * BigUint::new(b.digits.clone());
    Natural { digits: x.to_u32_digits() }
}

/// `Integer::div_rem` of BigUint: quotient and remainder with
/// `a == q * b + r` and `r < b`; num panics on a zero divisor, which
/// `requires` rules out.
#[verifier::external_body]
fn big_div_rem(a: &Natural, b: &Natural) -> (res: (Natural, Natural))
    requires
        b@ > 0,
    ensures
        a@ == res.0@ * b@ + res.1@,
        res.1@ < b@,
{
    let (q, r) = BigUint::new(a.digits.clone()).div_rem(&BigUint::new(b.digits.clone()));
    (Natural { digits: q.to_u32_digits() }, Natural { digits: r.to_u32_digits() })
}

/// `Integer::gcd` of BigUint (Stein's algorithm): the greatest common
/// divisor, with gcd(0, b) == b and gcd(a, 0) == a.
#[verifier::external_body]
fn big_gcd(a: &Natural, b: &Natural) -> (res: Natural)
    ensures
        res@ == gcd(a@, b@),
{
    let x = BigUint::new(a.digits.clone()).gcd(&BigUint::new(b.digits.clone()));
    Natural { digits: x.to_u32_digits() }
}

/// `BigUint < BigUint`: numeric comparison.
#[verifier::external_body]
fn big_less(a: &Natural, b: &Natural) -> (res: bool)
    ensures
        res == (a@ < b@),
{
    BigUint::new(a.digits.clone()) < BigUint::new(b.digits.clone())
}

/// `BigUint == BigUint`: numeric equality.
#[verifier::external_body]
fn big_equal(a: &Natural, b: &Natural) -> (res: bool)
    ensures
        res == (a@ == b@),
{
    BigUint::new(a.digits.clone()) == BigUint::new(b.digits.clone())
}

/// `BigUint << u64`: multiplication by a power of two.
#[verifier::external_body]
fn big_shl(a: &Natural, shift: u64) -> (res: Natural)
    ensures
        res@ == a@ * vstd::arithmetic::power2::pow2(shift as nat),
{
    let x = BigUint::new(a.digits.clone()) << shift;
    Natural { digits: x.to_u32_digits() }
}

/// `BigUint::sqrt`: the truncated square root, `r * r <= a < (r + 1) * (r + 1)`.
#[verifier::external_body]
fn big_sqrt(a: &Natural) -> (res: Natural)
    ensures
        res@ * res@ <= a@ < (res@ + 1) * (res@ + 1),
{
    let x = BigUint::new(a.digits.clone()).sqrt();
    Natural { digits: x.to_u32_digits() }
}

/// `BigUint::bits`: the fewest bits that express the value (0 for zero).
#[verifier::external_body]
fn big_bits(a: &Natural) -> (res: u64)
    ensures
        a@ == 0 ==> res == 0,
        a@ > 0 ==> vstd::arithmetic::power2::pow2((res - 1) as nat) <= a@
            < vstd::arithmetic::power2::pow2(res as nat),
{
    BigUint::new(a.digits.clone()).bits()
}

} // verus!
