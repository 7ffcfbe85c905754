//! Exact rational numbers, always held in lowest terms.

use vstd::prelude::*;
use vstd::arithmetic::div_mod::*;
use vstd::arithmetic::mul::*;
use vstd::arithmetic::power::*;
use vstd::arithmetic::power2::*;

use crate::natural::{Natural, Integer, gcd, signed_add, signed_less, lemma_gcd_divides, lemma_divided_by_gcd_coprime, lemma_coprime_divides, lemma_common_divisor_divides_gcd};
use crate::{Problem, Sign};

pub mod convert;
pub mod text;

verus! {

/// The absolute value of an integer.
pub open spec fn abs(x: int) -> nat {
    if x < 0 {
        (-x) as nat
    } else {
        x as nat
    }
}

/// The sign of an integer.
pub open spec fn sign_of(x: int) -> Sign {
    if x < 0 {
        Sign::Minus
    } else if x == 0 {
        Sign::NoSign
    } else {
        Sign::Plus
    }
}

/// Two ways of writing one number, with non-zero denominators, are zero
/// together.
proof fn lemma_zero_in_step(rn: int, rd: int, n: int, d: int)
    requires
        rn * d == n * rd,
        rd > 0,
        d != 0,
    ensures
        rn == 0 <==> n == 0,
{
    assert(rn == 0 <==> n == 0) by (nonlinear_arith)
        requires
            rn * d == n * rd,
            rd > 0,
            d != 0,
    ;
}

/// The sign of a product.
pub open spec fn sign_product(a: Sign, b: Sign) -> Sign {
    match (a, b) {
        (Sign::NoSign, _) => Sign::NoSign,
        (_, Sign::NoSign) => Sign::NoSign,
        (Sign::Plus, Sign::Plus) => Sign::Plus,
        (Sign::Minus, Sign::Minus) => Sign::Plus,
        _ => Sign::Minus,
    }
}

/// The opposite sign.
pub open spec fn sign_negate(a: Sign) -> Sign {
    match a {
        Sign::Minus => Sign::Plus,
        Sign::NoSign => Sign::NoSign,
        Sign::Plus => Sign::Minus,
    }
}

pub fn multiply_signs(a: Sign, b: Sign) -> (res: Sign)
    ensures
        res == sign_product(a, b),
{
    match (a, b) {
        (Sign::NoSign, _) => Sign::NoSign,
        (_, Sign::NoSign) => Sign::NoSign,
        (Sign::Plus, Sign::Plus) => Sign::Plus,
        (Sign::Minus, Sign::Minus) => Sign::Plus,
        _ => Sign::Minus,
    }
}

pub fn negate_sign(a: Sign) -> (res: Sign)
    ensures
        res == sign_negate(a),
{
    match a {
        Sign::Minus => Sign::Plus,
        Sign::NoSign => Sign::NoSign,
        Sign::Plus => Sign::Minus,
    }
}

pub proof fn lemma_apply_mul(s: Sign, n: nat, m: nat)
    ensures
        s.apply(n * m) == s.apply(n) * m,
{
    match s {
        Sign::Minus => {
            assert(-((n * m) as int) == (-(n as int)) * m) by (nonlinear_arith);
        },
        _ => {},
    }
}

pub proof fn lemma_apply_product(a: Sign, b: Sign, n: nat, m: nat)
    ensures
        sign_product(a, b).apply(n * m) == a.apply(n) * b.apply(m),
{
    assert(sign_product(a, b).apply(n * m) == a.apply(n) * b.apply(m)) by (nonlinear_arith)
        requires
            a.apply(n) == (match a {
                Sign::Minus => -(n as int),
                Sign::NoSign => 0,
                Sign::Plus => n as int,
            }),
            b.apply(m) == (match b {
                Sign::Minus => -(m as int),
                Sign::NoSign => 0,
                Sign::Plus => m as int,
            }),
            sign_product(a, b).apply(n * m) == (match sign_product(a, b) {
                Sign::Minus => -((n * m) as int),
                Sign::NoSign => 0,
                Sign::Plus => (n * m) as int,
            }),
            sign_product(a, b) == (match (a, b) {
                (Sign::NoSign, _) => Sign::NoSign,
                (_, Sign::NoSign) => Sign::NoSign,
                (Sign::Plus, Sign::Plus) => Sign::Plus,
                (Sign::Minus, Sign::Minus) => Sign::Plus,
                _ => Sign::Minus,
            }),
    ;
}

/// An exact rational number, always held in lowest terms with a positive
/// denominator.
#[derive(Debug)]
pub struct Rational {
    sign: Sign,
    numerator: Natural,
    denominator: Natural,
}

impl Rational {
    /// The numerator, with the sign.
    pub closed spec fn num(self) -> int {
        self.sign.apply(self.numerator@)
    }

    /// The denominator.
    pub closed spec fn den(self) -> nat {
        self.denominator@
    }

    pub closed spec fn sign_matches(self) -> bool {
        (self.sign == Sign::NoSign) == (self.numerator@ == 0)
    }

    /// Lowest terms, with a positive denominator.
    #[verifier::type_invariant]
    pub open spec fn inv(self) -> bool {
        &&& self.sign_matches()
        &&& self.den() > 0
        &&& gcd(abs(self.num()), self.den()) == 1
    }

    /// This rational and `n / d` are the same number.
    pub open spec fn same_value(self, n: int, d: int) -> bool {
        self.num() * d == n * self.den()
    }

    /// The two rationals are the same number.
    pub open spec fn eq_value(self, other: Rational) -> bool {
        self.num() * other.den() == other.num() * self.den()
    }

    /// This rational is the integer `n`.
    pub open spec fn is_int_value(self, n: int) -> bool {
        self.num() == n && self.den() == 1
    }

    proof fn lemma_num_abs(self)
        requires
            self.sign_matches(),
        ensures
            abs(self.num()) == self.numerator@,
            sign_of(self.num()) == self.sign,
    {
    }

    /// The fraction `sign n / d` in lowest terms.
    fn reduce(sign: Sign, n: Natural, d: Natural) -> (res: Rational)
        requires
            d@ > 0,
        ensures
            res.same_value(sign.apply(n@), d@ as int),
            res.num() == 0 <==> sign.apply(n@) == 0,
    {
        if sign == Sign::NoSign || n.is_zero() {
            let res = Self::zero();
            proof {
                assert(sign.apply(n@) == 0);
                assert(res.num() * d@ == 0);
            }
            return res;
        }
        let g = n.gcd(&d);
        proof {
            lemma_gcd_divides(n@, d@);
        }
        let (n1, _r1) = n.div_rem(&g);
        let (d1, _r2) = d.div_rem(&g);
        proof {
            lemma_fundamental_div_mod(n@ as int, g@ as int);
            lemma_fundamental_div_mod(d@ as int, g@ as int);
            lemma_mul_is_commutative(g@ as int, n1@ as int);
            lemma_mul_is_commutative(g@ as int, d1@ as int);
            assert(n@ == n1@ * g@);
            assert(d@ == d1@ * g@);
            lemma_divided_by_gcd_coprime(n@, d@, n1@, d1@);
            assert(d1@ == 0 ==> d@ == 0) by (nonlinear_arith)
                requires
                    d@ == d1@ * g@,
            ;
            assert(n1@ == 0 ==> n@ == 0) by (nonlinear_arith)
                requires
                    n@ == n1@ * g@,
            ;
            lemma_apply_mul(sign, n1@, d@);
            lemma_apply_mul(sign, n@, d1@);
            assert(n1@ * d@ == n@ * d1@) by (nonlinear_arith)
                requires
                    n@ == n1@ * g@,
                    d@ == d1@ * g@,
            ;
        }
        let res = Rational { sign, numerator: n1, denominator: d1 };
        proof {
            res.lemma_num_abs();
        }
        res
    }

    /// Zero.
    pub fn zero() -> (res: Rational)
        ensures
            res.is_int_value(0),
    {
        proof {
            lemma_gcd_one(0);
        }
        Rational { sign: Sign::NoSign, numerator: Natural::zero(), denominator: Natural::from_u64(1) }
    }

    /// One.
    pub fn one() -> (res: Rational)
        ensures
            res.is_int_value(1),
    {
        Self::new(1)
    }

    /// The integer `n`.
    pub fn new(n: i64) -> (res: Rational)
        ensures
            res.is_int_value(n as int),
    {
        let i = Integer::from_i64(n);
        Self::from_bigint(i)
    }

    /// The integer `n`.
    pub fn from_bigint(n: Integer) -> (res: Rational)
        ensures
            res.is_int_value(n@),
    {
        let sign = n.sign();
        let magnitude = n.magnitude().clone();
        let ghost magnitude_value = magnitude@;
        proof {
            lemma_gcd_one(magnitude_value);
        }
        let res = Rational { sign, numerator: magnitude, denominator: Natural::from_u64(1) };
        proof {
            lemma_gcd_one(magnitude_value);
            res.lemma_num_abs();
        }
        res
    }

    /// The fraction `numerator / denominator`, or `DivideByZero` for a zero
    /// denominator.
    pub fn fraction(numerator: i64, denominator: i64) -> (res: Result<Rational, Problem>)
        ensures
            denominator == 0 <==> res is Err,
            res matches Err(e) ==> e == Problem::DivideByZero,
            res matches Ok(r) ==> r.same_value(numerator as int, denominator as int),
    {
        if denominator == 0 {
            return Err(Problem::DivideByZero);
        }
        let n = Integer::from_i64(numerator);
        let d = Integer::from_i64(denominator);
        let sign = multiply_signs(n.sign(), d.sign());
        let res = Self::reduce(sign, n.magnitude().clone(), d.magnitude().clone());
        proof {
            let nm = n.spec_magnitude();
            let dm = d.spec_magnitude();
            lemma_apply_product(n.spec_sign(), d.spec_sign(), nm, dm);
            // n = sn * nm, d = sd * dm; sign * nm / dm == n / d
            assert(sign.apply(nm) * (denominator as int) == (numerator as int) * (dm as int))
                by (nonlinear_arith)
                requires
                    numerator as int == n.spec_sign().apply(nm),
                    denominator as int == d.spec_sign().apply(dm),
                    d.spec_sign() != Sign::NoSign,
                    sign == sign_product(n.spec_sign(), d.spec_sign()),
                    sign.apply(nm) == (match sign {
                        Sign::Minus => -(nm as int),
                        Sign::NoSign => 0,
                        Sign::Plus => nm as int,
                    }),
                    n.spec_sign().apply(nm) == (match n.spec_sign() {
                        Sign::Minus => -(nm as int),
                        Sign::NoSign => 0,
                        Sign::Plus => nm as int,
                    }),
                    d.spec_sign().apply(dm) == (match d.spec_sign() {
                        Sign::Minus => -(dm as int),
                        Sign::NoSign => 0,
                        Sign::Plus => dm as int,
                    }),
                    sign_product(n.spec_sign(), d.spec_sign()) == (match (n.spec_sign(), d.spec_sign()) {
                        (Sign::NoSign, _) => Sign::NoSign,
                        (_, Sign::NoSign) => Sign::NoSign,
                        (Sign::Plus, Sign::Plus) => Sign::Plus,
                        (Sign::Minus, Sign::Minus) => Sign::Plus,
                        _ => Sign::Minus,
                    }),
            ;
            use_type_invariant(&res);
            assert(res.num() * dm == sign.apply(nm) * res.den());
            assert(res.num() * (denominator as int) == (numerator as int) * res.den())
                by (nonlinear_arith)
                requires
                    res.num() * dm == sign.apply(nm) * res.den(),
                    sign.apply(nm) * (denominator as int) == (numerator as int) * (dm as int),
                    dm > 0,
                    (denominator as int) == dm || (denominator as int) == -dm,
            ;
        }
        Ok(res)
    }
}

impl Clone for Rational {
    fn clone(&self) -> (res: Self)
        ensures
            res.num() == self.num(),
            res.den() == self.den(),
    {
        proof {
            use_type_invariant(self);
        }
        Rational {
            sign: self.sign,
            numerator: self.numerator.clone(),
            denominator: self.denominator.clone(),
        }
    }
}

impl Rational {
    /// The fraction `numerator / denominator`, or `DivideByZero` for a zero
    /// denominator.
    pub fn from_bigint_fraction(numerator: Integer, denominator: Natural) -> (res: Result<
        Rational,
        Problem,
    >)
        ensures
            denominator@ == 0 <==> res is Err,
            res matches Err(e) ==> e == Problem::DivideByZero,
            res matches Ok(r) ==> r.same_value(numerator@, denominator@ as int),
    {
        if denominator.is_zero() {
            return Err(Problem::DivideByZero);
        }
        let sign = numerator.sign();
        let magnitude = numerator.magnitude().clone();
        proof {
            assert(sign.apply(magnitude@) == numerator@);
        }
        Ok(Self::reduce(sign, magnitude, denominator))
    }

    /// The sign of this number.
    pub fn sign(&self) -> (res: Sign)
        ensures
            res == sign_of(self.num()),
    {
        proof {
            use_type_invariant(self);
            self.lemma_num_abs();
        }
        self.sign
    }

    /// Is this number an integer?
    pub fn is_integer(&self) -> (res: bool)
        ensures
            res == (self.den() == 1),
    {
        let one = Natural::from_u64(1);
        self.denominator.equal(&one)
    }

    /// The denominator.
    pub fn denominator(&self) -> (res: &Natural)
        ensures
            res@ == self.den(),
    {
        &self.denominator
    }

    /// The size of the numerator.
    pub fn magnitude(&self) -> (res: &Natural)
        ensures
            res@ == abs(self.num()),
    {
        proof {
            use_type_invariant(self);
            self.lemma_num_abs();
        }
        &self.numerator
    }

    /// This number as an integer, if it is one.
    pub fn to_big_integer(&self) -> (res: Option<Integer>)
        ensures
            res is Some <==> self.den() == 1,
            res matches Some(i) ==> i@ == self.num(),
    {
        proof {
            use_type_invariant(self);
        }
        if self.is_integer() {
            Some(Integer::from_parts(self.sign, self.numerator.clone()))
        } else {
            None
        }
    }

    /// The negation.
    pub fn neg(&self) -> (res: Rational)
        ensures
            res.num() == -self.num(),
            res.den() == self.den(),
    {
        proof {
            use_type_invariant(self);
        }
        let sign = negate_sign(self.sign);
        Rational { sign, numerator: self.numerator.clone(), denominator: self.denominator.clone() }
    }

    /// The sum.
    pub fn add(&self, other: &Rational) -> (res: Rational)
        ensures
            res.same_value(
                self.num() * other.den() + other.num() * self.den(),
                (self.den() * other.den()) as int,
            ),
    {
        proof {
            use_type_invariant(self);
            use_type_invariant(other);
        }
        let x = self.numerator.mul(&other.denominator);
        let y = other.numerator.mul(&self.denominator);
        let (s, m) = signed_add(self.sign, &x, other.sign, &y);
        let d = self.denominator.mul(&other.denominator);
        proof {
            lemma_apply_mul(self.sign, self.numerator@, other.denominator@);
            lemma_apply_mul(other.sign, other.numerator@, self.denominator@);
            lemma_mul_strictly_positive(self.den() as int, other.den() as int);
        }
        Self::reduce(s, m, d)
    }

    /// The difference.
    pub fn sub(&self, other: &Rational) -> (res: Rational)
        ensures
            res.same_value(
                self.num() * other.den() - other.num() * self.den(),
                (self.den() * other.den()) as int,
            ),
    {
        let n = other.neg();
        let res = self.add(&n);
        proof {
            assert(n.num() * self.den() == -(other.num() * self.den())) by (nonlinear_arith)
                requires
                    n.num() == -other.num(),
            ;
        }
        res
    }

    /// The product.
    pub fn mul(&self, other: &Rational) -> (res: Rational)
        ensures
            res.same_value(self.num() * other.num(), (self.den() * other.den()) as int),
            res.num() == 0 <==> (self.num() == 0 || other.num() == 0),
    {
        proof {
            use_type_invariant(self);
            use_type_invariant(other);
        }
        let s = multiply_signs(self.sign, other.sign);
        let m = self.numerator.mul(&other.numerator);
        let d = self.denominator.mul(&other.denominator);
        proof {
            lemma_apply_product(self.sign, other.sign, self.numerator@, other.numerator@);
            lemma_mul_strictly_positive(self.den() as int, other.den() as int);
        }
        let res = Self::reduce(s, m, d);
        proof {
            use_type_invariant(&res);
            lemma_zero_in_step(
                res.num(),
                res.den() as int,
                self.num() * other.num(),
                (self.den() * other.den()) as int,
            );
            assert(self.num() * other.num() == 0 <==> (self.num() == 0 || other.num() == 0))
                by (nonlinear_arith);
        }
        res
    }

    /// The reciprocal, or `DivideByZero` for zero.
    pub fn inverse(&self) -> (res: Result<Rational, Problem>)
        ensures
            self.num() == 0 <==> res is Err,
            res matches Err(e) ==> e == Problem::DivideByZero,
            res matches Ok(r) ==> r.same_value(self.den() as int, self.num()) && r.num() != 0,
    {
        proof {
            use_type_invariant(self);
        }
        if self.numerator.is_zero() {
            return Err(Problem::DivideByZero);
        }
        let r = Self::reduce(self.sign, self.denominator.clone(), self.numerator.clone());
        proof {
            let a = self.numerator@;
            let d = self.denominator@;
            assert(r.num() * (a as int) == self.sign.apply(d) * r.den());
            if self.sign == Sign::Minus {
                assert(r.num() * (-(a as int)) == (d as int) * r.den()) by (nonlinear_arith)
                    requires
                        r.num() * (a as int) == -(d as int) * r.den(),
                ;
            }
            use_type_invariant(&r);
            lemma_zero_in_step(r.num(), r.den() as int, self.den() as int, self.num());
        }
        Ok(r)
    }

    /// The quotient; the divisor must not be zero.
    pub fn div(&self, other: &Rational) -> (res: Rational)
        requires
            other.num() != 0,
        ensures
            res.same_value(self.num() * other.den(), self.den() * other.num()),
            res.num() == 0 <==> self.num() == 0,
    {
        proof {
            use_type_invariant(self);
            use_type_invariant(other);
        }
        let s = multiply_signs(self.sign, other.sign);
        let m = self.numerator.mul(&other.denominator);
        let d = self.denominator.mul(&other.numerator);
        proof {
            lemma_mul_strictly_positive(self.den() as int, other.numerator@ as int);
        }
        let r = Self::reduce(s, m, d);
        proof {
            let na = self.numerator@ as int;
            let nb = other.numerator@ as int;
            let da = self.den() as int;
            let db = other.den() as int;
            lemma_apply_product(self.sign, other.sign, self.numerator@, other.denominator@);
            assert(r.num() * (da * nb) == s.apply(m@) * r.den());
            assert(s.apply(m@) == self.num() * other.sign.apply(other.denominator@));
            if other.sign == Sign::Plus {
                assert(other.num() == nb);
            } else {
                assert(other.sign == Sign::Minus);
                assert(other.num() == -nb);
                assert(r.num() * (da * (-nb)) == (self.num() * db) * r.den()) by (nonlinear_arith)
                    requires
                        r.num() * (da * nb) == s.apply(m@) * r.den(),
                        s.apply(m@) == self.num() * (-db),
                ;
            }
            use_type_invariant(&r);
            assert(self.den() * other.num() != 0) by (nonlinear_arith)
                requires
                    self.den() > 0,
                    other.num() != 0,
            ;
            lemma_zero_in_step(r.num(), r.den() as int, self.num() * other.den(), self.den()
                * other.num());
            assert(self.num() * other.den() == 0 <==> self.num() == 0) by (nonlinear_arith)
                requires
                    other.den() > 0,
            ;
        }
        r
    }

    /// Value equality.
    pub fn equals(&self, other: &Rational) -> (res: bool)
        ensures
            res == (self.num() * other.den() == other.num() * self.den()),
    {
        let x = self.numerator.mul(&other.denominator);
        let y = other.numerator.mul(&self.denominator);
        proof {
            lemma_apply_mul(self.sign, self.numerator@, other.denominator@);
            lemma_apply_mul(other.sign, other.numerator@, self.denominator@);
        }
        let a = signed_less(self.sign, &x, other.sign, &y);
        let b = signed_less(other.sign, &y, self.sign, &x);
        !a && !b
    }

    /// Is this number less than the other?
    pub fn less(&self, other: &Rational) -> (res: bool)
        ensures
            res == (self.num() * other.den() < other.num() * self.den()),
    {
        let x = self.numerator.mul(&other.denominator);
        let y = other.numerator.mul(&self.denominator);
        proof {
            lemma_apply_mul(self.sign, self.numerator@, other.denominator@);
            lemma_apply_mul(other.sign, other.numerator@, self.denominator@);
        }
        signed_less(self.sign, &x, other.sign, &y)
    }

    /// The largest integer not above this number times 2 to the power `shift`.
    pub fn shifted_big_integer(&self, shift: u64) -> (res: Integer)
        ensures
            res@ == (self.num() * pow2(shift as nat)) / (self.den() as int),
    {
        proof {
            use_type_invariant(self);
        }
        let n = self.numerator.shl(shift);
        let (q, r) = n.div_rem(&self.denominator);
        let ghost p = pow2(shift as nat);
        let ghost na = self.numerator@ as int;
        let ghost d = self.den() as int;
        proof {
            lemma_fundamental_div_mod(n@ as int, d);
            lemma_apply_mul(self.sign, self.numerator@, p);
            assert(self.num() * p == self.sign.apply(n@));
        }
        if self.sign == Sign::Minus {
            if r.is_zero() {
                proof {
                    lemma_div_mod_neg(n@ as int, d);
                }
                Integer::from_parts(Sign::Minus, q)
            } else {
                let one = Natural::from_u64(1);
                let q1 = q.add(&one);
                proof {
                    lemma_div_mod_neg(n@ as int, d);
                }
                Integer::from_parts(Sign::Minus, q1)
            }
        } else {
            Integer::from_natural(q)
        }
    }

    /// The fractional part: this number minus the largest integer not above it.
    pub fn fract(&self) -> (res: Rational)
        ensures
            res.same_value(self.num() % (self.den() as int), self.den() as int),
    {
        proof {
            use_type_invariant(self);
        }
        let (_q, r) = self.numerator.div_rem(&self.denominator);
        let ghost d = self.den() as int;
        let ghost na = self.numerator@ as int;
        proof {
            lemma_fundamental_div_mod(na, d);
        }
        if self.sign == Sign::Minus && !r.is_zero() {
            let m = self.denominator.sub(&r);
            proof {
                lemma_div_mod_neg(na, d);
            }
            Self::reduce(Sign::Plus, m, self.denominator.clone())
        } else {
            proof {
                if self.sign == Sign::Minus {
                    lemma_div_mod_neg(na, d);
                }
            }
            Self::reduce(Sign::Plus, r, self.denominator.clone())
        }
    }

    /// The integer part, rounded toward zero.
    pub fn trunc(&self) -> (res: Rational)
        ensures
            res.den() == 1,
            res.num() == if self.num() < 0 {
                -(abs(self.num()) / self.den())
            } else {
                self.num() / (self.den() as int)
            },
    {
        proof {
            use_type_invariant(self);
            self.lemma_num_abs();
        }
        let (q, _r) = self.numerator.div_rem(&self.denominator);
        let i = Integer::from_parts(self.sign, q);
        Self::from_bigint(i)
    }
}

/// Floor division and remainder of a negated number.
pub proof fn lemma_div_mod_neg(n: int, d: int)
    requires
        n >= 0,
        d > 0,
    ensures
        n % d == 0 ==> (-n) / d == -(n / d) && (-n) % d == 0,
        n % d != 0 ==> (-n) / d == -(n / d) - 1 && (-n) % d == d - n % d,
{
    lemma_fundamental_div_mod(n, d);
    let q = n / d;
    let r = n % d;
    if r == 0 {
        assert(-n == (-q) * d + 0) by (nonlinear_arith)
            requires
                n == d * q + r,
                r == 0,
        ;
        lemma_fundamental_div_mod_converse(-n, d, -q, 0);
    } else {
        assert(-n == (-q - 1) * d + (d - r)) by (nonlinear_arith)
            requires
                n == d * q + r,
        ;
        lemma_fundamental_div_mod_converse(-n, d, -q - 1, d - r);
    }
}

impl Rational {
    /// This number to an integer power.  Zero to a negative power is
    /// `DivideByZero`; an exponent beyond the `u64` range is `OutOfRange`.
    pub fn powi(&self, exp: &Integer) -> (res: Result<Rational, Problem>)
        ensures
            abs(exp@) > u64::MAX ==> res == Err::<Rational, Problem>(Problem::OutOfRange),
            abs(exp@) <= u64::MAX && exp@ < 0 && self.num() == 0 ==> res == Err::<
                Rational,
                Problem,
            >(Problem::DivideByZero),
            res matches Err(e) ==> e == Problem::OutOfRange || e == Problem::DivideByZero,
            res is Ok <==> abs(exp@) <= u64::MAX && (exp@ >= 0 || self.num() != 0),
            res matches Ok(r) ==> (exp@ >= 0 ==> r.same_value(
                pow(self.num(), abs(exp@)),
                pow(self.den() as int, abs(exp@)),
            )) && (exp@ < 0 ==> r.same_value(
                pow(self.den() as int, abs(exp@)),
                pow(self.num(), abs(exp@)),
            )),
            self.num() != 0 ==> (res matches Ok(r) ==> r.num() != 0),
    {
        proof {
            use_type_invariant(self);
        }
        let k = match exp.magnitude().to_u64() {
            Some(k) => k,
            None => {
                return Err(Problem::OutOfRange);
            },
        };
        let negative = exp.sign() == Sign::Minus;
        if negative && self.numerator.is_zero() {
            return Err(Problem::DivideByZero);
        }
        let n = self.numerator.pow(k);
        let d = self.denominator.pow(k);
        let sign = if k % 2 == 1 {
            self.sign
        } else {
            Sign::Plus
        };
        proof {
            lemma_pow_neg(self.numerator@ as int, k as nat);
            lemma_pow_positive(self.den() as int, k as nat);
            if self.numerator@ > 0 {
                lemma_pow_positive(self.numerator@ as int, k as nat);
            }
            if self.numerator@ == 0 {
                if k > 0 {
                    lemma0_pow(k as nat);
                }
            }
            assert(sign.apply(n@) == pow(self.num(), k as nat));
            if self.numerator@ > 0 {
                assert(sign != Sign::NoSign);
                assert(sign.apply(d@) != 0);
            }
        }
        if negative {
            let r = Self::reduce(sign, d, n);
            proof {
                let p = pow(self.num(), k as nat);
                let q = pow(self.den() as int, k as nat);
                assert(r.num() * (n@ as int) == sign.apply(d@) * r.den());
                if sign == Sign::Minus {
                    assert(r.num() * p == q * r.den()) by (nonlinear_arith)
                        requires
                            r.num() * (n@ as int) == -q * r.den(),
                            p == -(n@ as int),
                    ;
                }
            }
            Ok(r)
        } else {
            Ok(Self::reduce(sign, n, d))
        }
    }
}

/// Powers of a negated number.
pub proof fn lemma_pow_neg(x: int, k: nat)
    ensures
        pow(-x, k) == if k % 2 == 1 {
            -pow(x, k)
        } else {
            pow(x, k)
        },
    decreases k,
{
    reveal(pow);
    if k > 0 {
        lemma_pow_neg(x, (k - 1) as nat);
        assert(pow(-x, k) == (-x) * pow(-x, (k - 1) as nat));
        assert(pow(x, k) == x * pow(x, (k - 1) as nat));
        let a = pow(x, (k - 1) as nat);
        if k % 2 == 1 {
            assert((k - 1) as nat % 2 == 0);
            assert((-x) * a == -(x * a)) by (nonlinear_arith);
        } else {
            assert((k - 1) as nat % 2 == 1);
            assert((-x) * (-a) == x * a) by (nonlinear_arith);
        }
    }
}

/// `j * j` divides `b`, for some `j` of at least two.
pub open spec fn square_divides(j: nat, b: nat) -> bool {
    j >= 2 && b % (j * j) == 0
}

/// No square other than one divides `b`.
pub open spec fn squarefree(b: nat) -> bool {
    forall|j: nat| !#[trigger] square_divides(j, b)
}

/// The largest bound below which the square part of a number is extracted.
pub open spec fn square_search_limit() -> nat {
    0x100_0000_0000
}

proof fn lemma_square_factor_survives(b: nat, k: nat, j: nat)
    requires
        k >= 2,
        b % (k * k) == 0,
        square_divides(j, b / (k * k)),
    ensures
        square_divides(j, b),
{
    let kk = k * k;
    assert(kk > 0) by (nonlinear_arith)
        requires
            k >= 2,
            kk == k * k,
    ;
    lemma_fundamental_div_mod(b as int, kk as int);
    let c = b / kk;
    let jj = j * j;
    assert(jj > 0) by (nonlinear_arith)
        requires
            j >= 2,
            jj == j * j,
    ;
    lemma_fundamental_div_mod(c as int, jj as int);
    let t = c / jj;
    assert(b == jj * (t * kk)) by (nonlinear_arith)
        requires
            b == kk * c,
            c == jj * t,
    ;
    lemma_mod_multiples_basic((t * kk) as int, jj as int);
    lemma_mul_is_commutative(jj as int, (t * kk) as int);
}

/// Split `m` into `s * s * b` with `b` squarefree, by trial division.
fn split_square(m: u64) -> (res: (u64, u64))
    requires
        0 < m < square_search_limit(),
    ensures
        res.0 * res.0 * res.1 == m,
        res.1 >= 1,
        squarefree(res.1 as nat),
{
    let mut b = m;
    let mut s: u64 = 1;
    let mut k: u64 = 2;
    loop
        invariant
            s * s * b == m,
            b >= 1,
            b <= m,
            2 <= k <= 0x10_0000,
            s <= 0x10_0000,
            m < square_search_limit(),
            forall|j: nat| 2 <= j < k ==> !#[trigger] square_divides(j, b as nat),
        ensures
            k * k > b,
            s * s * b == m,
            b >= 1,
            forall|j: nat| 2 <= j < k ==> !#[trigger] square_divides(j, b as nat),
        decreases b, 0x10_0000 - k,
    {
        proof {
            assert(4 <= k * k <= 0x100_0000_0000) by (nonlinear_arith)
                requires
                    2 <= k <= 0x10_0000,
            ;
        }
        let kk = k * k;
        if kk > b {
            break;
        }
        if b % kk == 0 {
            let ghost old_b = b;
            let ghost old_s = s;
            proof {
                lemma_fundamental_div_mod(b as int, kk as int);
                assert forall|j: nat| 2 <= j < k implies !#[trigger] square_divides(
                    j,
                    (old_b / kk) as nat,
                ) by {
                    if square_divides(j, (old_b / kk) as nat) {
                        lemma_square_factor_survives(old_b as nat, k as nat, j);
                    }
                }
                assert(s * k <= 0x10_0000) by (nonlinear_arith)
                    requires
                        s * s * b == m,
                        b == kk * (b / kk),
                        kk == k * k,
                        k >= 2,
                        b >= 1,
                        m < 0x100_0000_0000,
                ;
                assert((s * k) * (s * k) * (b / kk) == m) by (nonlinear_arith)
                    requires
                        s * s * b == m,
                        b == kk * (b / kk),
                        kk == k * k,
                ;
            }
            proof {
                assert(1 <= b / kk < b) by (nonlinear_arith)
                    requires
                        b == kk * (b / kk),
                        kk >= 4,
                        b >= 1,
                ;
            }
            b = b / kk;
            s = s * k;
        } else {
            proof {
                assert(k + 1 <= 0x10_0000) by (nonlinear_arith)
                    requires
                        k * k <= b,
                        b < 0x100_0000_0000,
                ;
            }
            k = k + 1;
        }
    }
    proof {
        assert forall|j: nat| !#[trigger] square_divides(j, b as nat) by {
            if j >= k {
                assert(j * j >= k * k) by (nonlinear_arith)
                    requires
                        j >= k,
                        k >= 0,
                ;
                lemma_small_mod(b as nat, j * j);
            }
        }
    }
    (s, b)
}

/// `a * a * b` is the rational `x`.
pub open spec fn square_times(a: Rational, b: int, x: Rational) -> bool {
    a.num() * a.num() * b * x.den() == x.num() * (a.den() * a.den())
}

/// `(n / d)^2` is the rational `x`.
pub open spec fn square_witness(x: Rational, n: int, d: int) -> bool {
    d > 0 && n * n * x.den() == x.num() * (d * d)
}

/// The rational `x` is the square of a rational.
pub open spec fn is_perfect_square(x: Rational) -> bool {
    exists|n: int, d: int| #[trigger] square_witness(x, n, d)
}

/// The square root of a squarefree integer above one is irrational.
pub proof fn lemma_squarefree_root_irrational(b: nat, n: int, d: int)
    requires
        squarefree(b),
        b >= 2,
        d > 0,
    ensures
        n * n != b * (d * d),
{
    if n * n == b * (d * d) {
        let an = abs(n);
        let dn = d as nat;
        assert(an * an == n * n) by (nonlinear_arith)
            requires
                an == (if n < 0 { -n } else { n }),
        ;
        let g = gcd(an, dn);
        lemma_gcd_divides(an, dn);
        lemma_fundamental_div_mod(an as int, g as int);
        lemma_fundamental_div_mod(dn as int, g as int);
        let n1 = an / g;
        let d1 = dn / g;
        assert(an == n1 * g && dn == d1 * g) by {
            lemma_mul_is_commutative(g as int, n1 as int);
            lemma_mul_is_commutative(g as int, d1 as int);
        }
        lemma_divided_by_gcd_coprime(an, dn, n1, d1);
        assert(n1 * n1 == b * (d1 * d1)) by (nonlinear_arith)
            requires
                an * an == b * (dn * dn),
                an == n1 * g,
                dn == d1 * g,
                g > 0,
        ;
        // d1 divides n1 * n1, and shares no factor with n1, so it divides n1.
        assert(d1 > 0) by (nonlinear_arith)
            requires
                dn == d1 * g,
                dn > 0,
        ;
        assert((n1 * n1) % d1 == 0) by {
            assert(n1 * n1 == (b * d1) * d1) by (nonlinear_arith)
                requires
                    n1 * n1 == b * (d1 * d1),
            ;
            lemma_mod_multiples_basic((b * d1) as int, d1 as int);
        }
        lemma_gcd_symmetric(n1, d1);
        lemma_coprime_divides(n1, d1, n1);
        lemma_mod_self_0(d1 as int);
        lemma_common_divisor_divides_gcd(n1, d1, d1);
        assert(1nat % d1 == 0);
        if d1 > 1 {
            lemma_small_mod(1, d1);
        }
        assert(d1 == 1);
        assert(n1 * n1 == b) by (nonlinear_arith)
            requires
                n1 * n1 == b * (d1 * d1),
                d1 == 1,
        ;
        if n1 >= 2 {
            assert(b % (n1 * n1) == 0) by {
                lemma_mod_self_0((n1 * n1) as int);
            }
            assert(square_divides(n1, b));
        } else {
            assert(n1 * n1 <= 1) by (nonlinear_arith)
                requires
                    n1 <= 1,
            ;
        }
    }
}

/// Greatest common divisors do not depend on the order of the arguments.
pub proof fn lemma_gcd_symmetric(a: nat, b: nat)
    ensures
        gcd(a, b) == gcd(b, a),
{
    lemma_gcd_divides(a, b);
    lemma_gcd_divides(b, a);
    if gcd(a, b) > 0 && gcd(b, a) > 0 {
        lemma_common_divisor_divides_gcd(a, b, gcd(b, a));
        lemma_common_divisor_divides_gcd(b, a, gcd(a, b));
        let x = gcd(a, b);
        let y = gcd(b, a);
        lemma_fundamental_div_mod(x as int, y as int);
        lemma_fundamental_div_mod(y as int, x as int);
        assert(x == y) by (nonlinear_arith)
            requires
                x == y * (x / y),
                y == x * (y / x),
                x > 0,
                y > 0,
        ;
    }
}

impl Rational {
    /// Is this number small enough for [`Rational::extract_square_reduced`]?
    pub fn extract_square_will_succeed(&self) -> (res: bool)
        ensures
            res == (abs(self.num()) * self.den() < square_search_limit()),
    {
        proof {
            use_type_invariant(self);
            self.lemma_num_abs();
        }
        let m = self.numerator.mul(&self.denominator);
        match m.to_u64() {
            Some(v) => v < 0x100_0000_0000,
            None => false,
        }
    }

    /// Write the size of this number as `square * square * rest`, where
    /// `square` is rational and `rest` is a squarefree positive integer.
    pub fn extract_square_reduced(&self) -> (res: (Rational, Rational))
        requires
            abs(self.num()) * self.den() < square_search_limit(),
        ensures
            res.0.num() >= 0,
            res.0.num() == 0 <==> self.num() == 0,
            res.1.den() == 1,
            res.1.num() >= 1,
            squarefree(res.1.num() as nat),
            res.0.num() * res.0.num() * res.1.num() * self.den() == abs(self.num()) * (res.0.den()
                * res.0.den()),
    {
        proof {
            use_type_invariant(self);
            self.lemma_num_abs();
        }
        let m = self.numerator.mul(&self.denominator);
        let v = match m.to_u64() {
            Some(v) => v,
            None => {
                proof {
                    assert(false);
                }
                0
            },
        };
        if v == 0 {
            let z = Self::zero();
            let one = Self::one();
            proof {
                assert(squarefree(1)) by {
                    assert forall|j: nat| !#[trigger] square_divides(j, 1) by {
                        if j >= 2 {
                            assert(j * j > 1) by (nonlinear_arith)
                                requires
                                    j >= 2,
                            ;
                            lemma_small_mod(1, j * j);
                        }
                    }
                }
                assert(abs(self.num()) == 0) by (nonlinear_arith)
                    requires
                        abs(self.num()) * self.den() == 0,
                        self.den() > 0,
                ;
            }
            proof {
                assert(z.num() * z.num() * one.num() * self.den() == 0) by (nonlinear_arith)
                    requires
                        z.num() == 0,
                ;
                assert(abs(self.num()) * (z.den() * z.den()) == 0) by (nonlinear_arith)
                    requires
                        abs(self.num()) == 0,
                ;
            }
            return (z, one);
        }
        let (sq, rest) = split_square(v);
        let sq_n = Natural::from_u64(sq);
        let square = Self::reduce(Sign::Plus, sq_n, self.denominator.clone());
        let rest_r = Self::from_bigint(Integer::from_natural(Natural::from_u64(rest)));
        proof {
            use_type_invariant(&square);
            let a = square.num();
            let ad = square.den() as int;
            let d = self.den() as int;
            let n = abs(self.num()) as int;
            // a / ad == sq / d and sq * sq * rest == n * d
            assert(a * d == (sq as int) * ad);
            assert(a >= 0) by (nonlinear_arith)
                requires
                    a * d == (sq as int) * ad,
                    d > 0,
                    ad > 0,
                    sq >= 0,
            ;
            assert(a * a * (rest as int) * d == n * (ad * ad)) by (nonlinear_arith)
                requires
                    a * d == (sq as int) * ad,
                    (sq as int) * (sq as int) * (rest as int) == n * d,
                    d > 0,
            ;
            assert(a == 0 <==> n == 0) by (nonlinear_arith)
                requires
                    a * a * (rest as int) * d == n * (ad * ad),
                    rest >= 1,
                    d > 0,
                    ad > 0,
                    n >= 0,
            ;
        }
        (square, rest_r)
    }
}

impl PartialEq for Rational {
    fn eq(&self, other: &Rational) -> (res: bool) {
        self.equals(other)
    }
}

impl vstd::std_specs::cmp::PartialEqSpecImpl for Rational {
    open spec fn obeys_eq_spec() -> bool {
        true
    }

    open spec fn eq_spec(&self, other: &Rational) -> bool {
        self.eq_value(*other)
    }
}

impl core::ops::Add for Rational {
    type Output = Rational;

    fn add(self, other: Rational) -> (res: Rational)
        ensures
            res.same_value(
                self.num() * other.den() + other.num() * self.den(),
                (self.den() * other.den()) as int,
            ),
    {
        Rational::add(&self, &other)
    }
}

impl vstd::std_specs::ops::AddSpecImpl for Rational {
    open spec fn obeys_add_spec() -> bool {
        false
    }

    open spec fn add_req(self, other: Rational) -> bool {
        true
    }

    open spec fn add_spec(self, other: Rational) -> Rational {
        arbitrary()
    }
}

impl core::ops::Sub for Rational {
    type Output = Rational;

    fn sub(self, other: Rational) -> (res: Rational)
        ensures
            res.same_value(
                self.num() * other.den() - other.num() * self.den(),
                (self.den() * other.den()) as int,
            ),
    {
        Rational::sub(&self, &other)
    }
}

impl vstd::std_specs::ops::SubSpecImpl for Rational {
    open spec fn obeys_sub_spec() -> bool {
        false
    }

    open spec fn sub_req(self, other: Rational) -> bool {
        true
    }

    open spec fn sub_spec(self, other: Rational) -> Rational {
        arbitrary()
    }
}

impl core::ops::Mul for Rational {
    type Output = Rational;

    fn mul(self, other: Rational) -> (res: Rational)
        ensures
            res.same_value(self.num() * other.num(), (self.den() * other.den()) as int),
    {
        Rational::mul(&self, &other)
    }
}

impl vstd::std_specs::ops::MulSpecImpl for Rational {
    open spec fn obeys_mul_spec() -> bool {
        false
    }

    open spec fn mul_req(self, other: Rational) -> bool {
        true
    }

    open spec fn mul_spec(self, other: Rational) -> Rational {
        arbitrary()
    }
}

impl core::ops::Div for Rational {
    type Output = Rational;

    fn div(self, other: Rational) -> (res: Rational)
        ensures
            res.same_value(self.num() * other.den(), self.den() * other.num()),
    {
        Rational::div(&self, &other)
    }
}

impl vstd::std_specs::ops::DivSpecImpl for Rational {
    open spec fn obeys_div_spec() -> bool {
        false
    }

    open spec fn div_req(self, other: Rational) -> bool {
        other.num() != 0
    }

    open spec fn div_spec(self, other: Rational) -> Rational {
        arbitrary()
    }
}

impl core::ops::Neg for Rational {
    type Output = Rational;

    fn neg(self) -> (res: Rational)
        ensures
            res.num() == -self.num(),
            res.den() == self.den(),
    {
        Rational::neg(&self)
    }
}

impl vstd::std_specs::ops::NegSpecImpl for Rational {
    open spec fn obeys_neg_spec() -> bool {
        false
    }

    open spec fn neg_req(self) -> bool {
        true
    }

    open spec fn neg_spec(self) -> Rational {
        arbitrary()
    }
}

impl core::str::FromStr for Rational {
    type Err = Problem;

    fn from_str(s: &str) -> (res: Result<Rational, Problem>)
        ensures
            crate::rational::text::parse_result(res, s@),
    {
        Rational::parse_text(s)
    }
}

/// What is left of `d` once every factor two and five is divided out.
pub open spec fn without_twos_and_fives(d: nat) -> nat
    decreases d,
{
    if d == 0 {
        0
    } else if d % 2 == 0 {
        without_twos_and_fives(d / 2)
    } else if d % 5 == 0 {
        without_twos_and_fives(d / 5)
    } else {
        d
    }
}

impl Rational {
    /// The decimal expansion of this number does not end: its denominator
    /// has a prime factor other than two and five.
    pub open spec fn prefers_fraction(self) -> bool {
        without_twos_and_fives(self.den()) != 1
    }

    /// Should this number be shown as a fraction rather than as a decimal?
    /// Yes where its decimal expansion does not end.
    pub fn prefer_fraction(&self) -> (res: bool)
        ensures
            res == self.prefers_fraction(),
    {
        proof {
            use_type_invariant(self);
        }
        let two = Natural::from_u64(2);
        let five = Natural::from_u64(5);
        let mut d = self.denominator.clone();
        while !d.is_zero()
            invariant
                two@ == 2,
                five@ == 5,
                without_twos_and_fives(d@) == without_twos_and_fives(self.den()),
            decreases d@,
        {
            let (q2, r2) = d.div_rem(&two);
            if r2.is_zero() {
                d = q2;
            } else {
                let (q5, r5) = d.div_rem(&five);
                if r5.is_zero() {
                    d = q5;
                } else {
                    let one = Natural::from_u64(1);
                    return !d.equal(&one);
                }
            }
        }
        true
    }
}

/// A number has only one way to be written in lowest terms.
pub proof fn lemma_lowest_terms_unique(a: int, b: nat, c: int, d: nat)
    requires
        b > 0,
        d > 0,
        gcd(abs(a), b) == 1,
        gcd(abs(c), d) == 1,
        a * d == c * b,
    ensures
        a == c,
        b == d,
{
    assert(abs(a) * d == abs(c) * b) by (nonlinear_arith)
        requires
            a * d == c * b,
            b > 0,
            d > 0,
            abs(a) == (if a < 0 { -a } else { a }),
            abs(c) == (if c < 0 { -c } else { c }),
    ;
    lemma_mod_multiples_basic(abs(c) as int, b as int);
    lemma_mod_multiples_basic(abs(a) as int, d as int);
    assert((abs(c) * b) % b == 0);
    assert((abs(a) * d) % b == 0);
    assert((abs(a) * d) % d == 0);
    assert((abs(c) * b) % d == 0);
    lemma_coprime_divides(abs(a), b, d);
    lemma_coprime_divides(abs(c), d, b);
    lemma_fundamental_div_mod(d as int, b as int);
    lemma_fundamental_div_mod(b as int, d as int);
    assert(b == d) by (nonlinear_arith)
        requires
            d == b * (d / b),
            b == d * (b / d),
            b > 0,
            d > 0,
    ;
    assert(a == c) by (nonlinear_arith)
        requires
            a * d == c * b,
            b == d,
            d > 0,
    ;
}

impl Rational {
    /// Two rationals with the same value are written the same way.
    pub proof fn lemma_same_value_same_terms(self, other: Rational)
        requires
            self.inv(),
            other.inv(),
            self.eq_value(other),
        ensures
            self.num() == other.num(),
            self.den() == other.den(),
    {
        lemma_lowest_terms_unique(self.num(), self.den(), other.num(), other.den());
    }
}

pub proof fn lemma_gcd_one(a: nat)
    ensures
        gcd(a, 1) == 1,
        gcd(1, a) == 1,
{
    assert(a % 1 == 0);
    assert(gcd(1, 0) == 1);
    assert(gcd(a, 1) == gcd(1, a % 1));
    if a > 0 {
        if a > 1 {
            lemma_small_mod(1, a);
        }
        if a == 1 {
            assert(gcd(1, 1) == gcd(1, 0));
        } else {
            assert(gcd(1, a) == gcd(a, 1));
        }
    }
}

} // verus!
