//! Real numbers as the product of a rational and a recognised kind of
//! irrational number, with a computable number for everything else.

use vstd::prelude::*;

use crate::computable::{Computable, Node, Signal, clone_signal};
use crate::natural::{Integer, Natural};
use crate::rational::{Rational, abs, sign_of};
use crate::{Problem, Sign};

pub mod arith;
pub mod functions;
pub mod power;
pub mod text;

verus! {

/// The kind of (possibly irrational) number a rational is multiplied by.
#[derive(Debug)]
pub enum Class {
    /// Exactly one.
    One,
    /// Exactly π.
    Pi,
    /// The square root of a positive integer with no integer square root.
    Sqrt(Rational),
    /// e to a non-zero rational power.
    Exp(Rational),
    /// The natural logarithm of a rational above one.
    Ln(Rational),
    /// The base ten logarithm of a rational above one.
    Log10(Rational),
    /// The sine of π times a rational between 0 and 1/2.
    SinPi(Rational),
    /// The tangent of π times a rational between 0 and 1/2.
    TanPi(Rational),
    /// Any other number, held only by the computable part.
    Irrational,
}

/// Two classes are known to stand for the same number.  Nothing is known
/// about two irrationals, so they never compare equal.
pub open spec fn same_class(a: Class, b: Class) -> bool {
    match (a, b) {
        (Class::One, Class::One) => true,
        (Class::Pi, Class::Pi) => true,
        (Class::Sqrt(r), Class::Sqrt(s)) => r.eq_value(s),
        (Class::Exp(r), Class::Exp(s)) => r.eq_value(s),
        (Class::Ln(r), Class::Ln(s)) => r.eq_value(s),
        (Class::Log10(r), Class::Log10(s)) => r.eq_value(s),
        (Class::SinPi(r), Class::SinPi(s)) => r.eq_value(s),
        (Class::TanPi(r), Class::TanPi(s)) => r.eq_value(s),
        _ => false,
    }
}

/// The rational argument of a class is in the range the class is kept in.
pub open spec fn class_valid(c: Class) -> bool {
    match c {
        Class::Sqrt(r) => r.den() == 1 && r.num() >= 2,
        Class::Exp(r) => r.num() != 0,
        Class::Ln(r) => r.num() > r.den(),
        Class::Log10(r) => r.num() > r.den(),
        Class::SinPi(r) => 0 < r.num() && 2 * r.num() < r.den(),
        Class::TanPi(r) => 0 < r.num() && 2 * r.num() < r.den(),
        _ => true,
    }
}

/// `k` squared.
pub open spec fn whole_square(k: nat) -> int {
    (k * k) as int
}

/// The class argument is in the form the class is kept in: a square root
/// of a whole number that is not a square; a sine or tangent of π times
/// neither 1/6, 1/4 nor 1/3; a base ten logarithm of no multiple of ten.
pub open spec fn class_canonical(c: Class) -> bool {
    match c {
        Class::Sqrt(r) => !exists|k: nat| #[trigger] whole_square(k) == r.num(),
        Class::Log10(r) => !(r.den() == 1 && r.num() % 10 == 0),
        Class::SinPi(r) => !(r.num() == 1 && (r.den() == 6 || r.den() == 4 || r.den() == 3)),
        Class::TanPi(r) => !(r.num() == 1 && (r.den() == 6 || r.den() == 4 || r.den() == 3)),
        _ => true,
    }
}

/// Is the class argument in the form its class is kept in?
pub fn class_is_canonical(c: &Class) -> (res: bool)
    ensures
        class_valid(*c) ==> res == class_canonical(*c),
{
    match c {
        Class::Sqrt(r) => {
            proof {
                use_type_invariant(r);
            }
            let m = r.magnitude();
            let s = m.sqrt_floor();
            let square = s.mul(&s);
            let res = !square.equal(m);
            proof {
                if class_valid(*c) {
                    let n = r.num();
                    let t = s@;
                    if res {
                        assert forall|k: nat| #[trigger] whole_square(k) != n by {
                            if k <= t {
                                assert(k * k <= t * t) by (nonlinear_arith)
                                    requires
                                        k <= t,
                                ;
                            } else {
                                assert(k * k >= (t + 1) * (t + 1)) by (nonlinear_arith)
                                    requires
                                        k >= t + 1,
                                ;
                            }
                        }
                    } else {
                        assert(whole_square(t) == n);
                    }
                }
            }
            res
        },
        Class::Log10(r) => {
            let ten = Natural::from_u64(10);
            let (_q, rest) = r.magnitude().div_rem(&ten);
            !(r.is_integer() && rest.is_zero())
        },
        Class::SinPi(r) | Class::TanPi(r) => {
            proof {
                use_type_invariant(r);
            }
            let one = Natural::from_u64(1);
            let d = r.denominator();
            !(r.sign() == Sign::Plus && r.magnitude().equal(&one) && (d.equal(&Natural::from_u64(6))
                || d.equal(&Natural::from_u64(4)) || d.equal(&Natural::from_u64(3))))
        },
        _ => true,
    }
}

/// Two classes are the same, with the same rational argument.
pub open spec fn class_copy(a: Class, b: Class) -> bool {
    match (a, b) {
        (Class::One, Class::One) => true,
        (Class::Pi, Class::Pi) => true,
        (Class::Irrational, Class::Irrational) => true,
        (Class::Sqrt(r), Class::Sqrt(s)) => r.num() == s.num() && r.den() == s.den(),
        (Class::Exp(r), Class::Exp(s)) => r.num() == s.num() && r.den() == s.den(),
        (Class::Ln(r), Class::Ln(s)) => r.num() == s.num() && r.den() == s.den(),
        (Class::Log10(r), Class::Log10(s)) => r.num() == s.num() && r.den() == s.den(),
        (Class::SinPi(r), Class::SinPi(s)) => r.num() == s.num() && r.den() == s.den(),
        (Class::TanPi(r), Class::TanPi(s)) => r.num() == s.num() && r.den() == s.den(),
        _ => false,
    }
}

impl Class {
    /// The same class, with the rational argument compared by value.
    pub open spec fn is(self, other: Class) -> bool {
        same_class(self, other) || (self is Irrational && other is Irrational)
    }

    /// Is this class known to stand for the same number as the other?
    pub fn same(&self, other: &Class) -> (res: bool)
        ensures
            res == same_class(*self, *other),
    {
        match (self, other) {
            (Class::One, Class::One) => true,
            (Class::Pi, Class::Pi) => true,
            (Class::Sqrt(r), Class::Sqrt(s)) => r.equals(s),
            (Class::Exp(r), Class::Exp(s)) => r.equals(s),
            (Class::Ln(r), Class::Ln(s)) => r.equals(s),
            (Class::Log10(r), Class::Log10(s)) => r.equals(s),
            (Class::SinPi(r), Class::SinPi(s)) => r.equals(s),
            (Class::TanPi(r), Class::TanPi(s)) => r.equals(s),
            _ => false,
        }
    }

    /// Does the class stand for a number known to be non-zero?  Every
    /// class does but the irrational one, whose computable number may be
    /// zero.
    fn is_non_zero(&self) -> (res: bool)
        ensures
            res == !(self is Irrational),
    {
        match self {
            Class::Irrational => false,
            _ => true,
        }
    }

    /// Is this a natural logarithm?
    fn is_ln(&self) -> (res: bool)
        ensures
            res == self is Ln,
    {
        match self {
            Class::Ln(_) => true,
            _ => false,
        }
    }

    fn is_one(&self) -> (res: bool)
        ensures
            res == self is One,
    {
        match self {
            Class::One => true,
            _ => false,
        }
    }

    /// e to the power `br`: one when `br` is zero.
    pub(crate) fn make_exp(br: Rational) -> (res: (Class, Computable))
        ensures
            br.num() == 0 ==> res.0 is One && res.1.node_spec() is One,
            br.num() != 0 ==> (res.0 matches Class::Exp(q) && q.num() == br.num() && q.den()
                == br.den()) && res.1.node_spec() is Exp,
    {
        let zero = Rational::zero();
        if br.equals(&zero) {
            (Class::One, Computable::one())
        } else {
            let c = br.clone();
            (Class::Exp(c), Computable::e(br))
        }
    }
}

impl PartialEq for Class {
    fn eq(&self, other: &Class) -> (res: bool) {
        self.same(other)
    }
}

impl vstd::std_specs::cmp::PartialEqSpecImpl for Class {
    open spec fn obeys_eq_spec() -> bool {
        true
    }

    open spec fn eq_spec(&self, other: &Class) -> bool {
        same_class(*self, *other)
    }
}

impl Clone for Class {
    fn clone(&self) -> (res: Self)
        ensures
            res.is(*self),
            class_copy(res, *self),
    {
        match self {
            Class::One => Class::One,
            Class::Pi => Class::Pi,
            Class::Sqrt(r) => Class::Sqrt(r.clone()),
            Class::Exp(r) => Class::Exp(r.clone()),
            Class::Ln(r) => Class::Ln(r.clone()),
            Class::Log10(r) => Class::Log10(r.clone()),
            Class::SinPi(r) => Class::SinPi(r.clone()),
            Class::TanPi(r) => Class::TanPi(r.clone()),
            Class::Irrational => Class::Irrational,
        }
    }
}

/// (More) real numbers: a rational multiplied by a number of a recognised
/// class, with a computable number carrying the value for other numbers.
#[derive(Debug)]
pub struct Real {
    rational: Rational,
    class: Class,
    computable: Computable,
    signal: Option<Signal>,
}

impl Real {
    /// The class argument is in its range, and a zero factor goes with
    /// the class of one.
    #[verifier::type_invariant]
    pub open spec fn inv(self) -> bool {
        &&& class_valid(self.class_spec())
        &&& (self.rational_spec().num() == 0 ==> self.class_spec() is One)
    }

    /// The rational factor.
    pub closed spec fn rational_spec(self) -> Rational {
        self.rational
    }

    /// The class of the other factor.
    pub closed spec fn class_spec(self) -> Class {
        self.class
    }

    /// The computable number standing for the other factor.
    pub closed spec fn computable_spec(self) -> Computable {
        self.computable
    }

    /// This real is written as `other` is: the same rational factor, the
    /// same class, and the same computable expression.
    pub open spec fn is_copy_of(self, other: Real) -> bool {
        &&& self.rational_spec().num() == other.rational_spec().num()
        &&& self.rational_spec().den() == other.rational_spec().den()
        &&& class_copy(self.class_spec(), other.class_spec())
        &&& crate::computable::same_node(
            self.computable_spec().node_spec(),
            other.computable_spec().node_spec(),
        )
    }

    /// The flag that asks this number's calculations to stop, if any.
    pub closed spec fn signal_spec(self) -> Option<Signal> {
        self.signal
    }

    /// The rational factor is the integer `n` and the class is `class`.
    pub open spec fn is_rational_times(self, n: int, class: Class) -> bool {
        self.rational_spec().is_int_value(n) && self.class_spec().is(class)
    }

    /// The rational factor equals `r`.
    pub open spec fn factor_is(self, r: Rational) -> bool {
        self.rational_spec().eq_value(r)
    }

    fn build(rational: Rational, class: Class, computable: Computable) -> (res: Real)
        requires
            class_valid(class),
            rational.num() == 0 ==> class is One,
        ensures
            res.rational_spec() == rational,
            res.class_spec() == class,
            res.computable_spec() == computable,
    {
        Real { rational, class, computable, signal: None }
    }
}

impl Clone for Real {
    fn clone(&self) -> (res: Self)
        ensures
            res.rational_spec().eq_value(self.rational_spec()),
            res.rational_spec().num() == self.rational_spec().num(),
            res.rational_spec().den() == self.rational_spec().den(),
            res.class_spec().is(self.class_spec()),
            class_copy(res.class_spec(), self.class_spec()),
            res.is_copy_of(*self),
    {
        proof {
            use_type_invariant(self);
        }
        Real {
            rational: self.rational.clone(),
            class: self.class.clone(),
            computable: self.computable.clone(),
            signal: clone_signal(&self.signal),
        }
    }
}

impl Real {
    /// Provide an atomic flag to signal early abort of calculations.
    /// The provided flag can be used e.g. from another execution thread.
    /// Aborted calculations may have incorrect results.
    pub fn abort(&mut self, s: Signal)
        ensures
            final(self).rational_spec() == old(self).rational_spec(),
            final(self).class_spec() == old(self).class_spec(),
            final(self).computable_spec().node_spec() == old(self).computable_spec().node_spec(),
            final(self).signal_spec() == Some(s),
            final(self).computable_spec().signal_spec() == Some(s),
    {
        proof {
            use_type_invariant(&*self);
        }
        let t = clone_signal(&Some(s));
        match t {
            Some(t) => {
                self.signal = Some(t);
                let u = clone_signal(&self.signal);
                match u {
                    Some(u) => self.computable.abort(u),
                    None => {},
                }
            },
            None => {},
        }
    }

    /// Zero, the additive identity.
    pub fn zero() -> (res: Real)
        ensures
            res.is_rational_times(0, Class::One),
            res.computable_spec().node_spec() is One,
    {
        Self::build(Rational::zero(), Class::One, Computable::one())
    }

    /// The specified [`Rational`] as a Real.
    pub fn new(rational: Rational) -> (res: Real)
        ensures
            res.rational_spec() == rational,
            res.class_spec() is One,
            res.computable_spec().node_spec() is One,
    {
        Self::build(rational, Class::One, Computable::one())
    }

    /// π, the ratio of a circle's circumference to its diameter.
    pub fn pi() -> (res: Real)
        ensures
            res.is_rational_times(1, Class::Pi),
            res.computable_spec().node_spec() is Pi,
    {
        Self::build(Rational::one(), Class::Pi, Computable::pi())
    }

    /// e, Euler's number and the base of the natural logarithm function.
    pub fn e() -> (res: Real)
        ensures
            res.rational_spec().is_int_value(1),
            res.class_spec() matches Class::Exp(r) && r.is_int_value(1),
            res.computable_spec().node_spec() is Exp,
    {
        let one = Rational::one();
        let two = one.clone();
        let three = one.clone();
        Self::build(one, Class::Exp(two), Computable::e(three))
    }

    /// Is this Real exactly zero?
    pub fn definitely_zero(&self) -> (res: bool)
        ensures
            res == (self.rational_spec().num() == 0),
    {
        self.rational.sign() == Sign::NoSign
    }

    /// Are two Reals definitely unequal?  So where one is zero and the
    /// other has a non-zero factor and a class that is never zero.
    pub fn definitely_not_equal(&self, other: &Self) -> (res: bool)
        ensures
            res == ((self.rational_spec().num() == 0 && other.rational_spec().num() != 0
                && !(other.class_spec() is Irrational)) || (other.rational_spec().num() == 0
                && self.rational_spec().num() != 0 && !(self.class_spec() is Irrational))),
    {
        if self.rational.sign() == Sign::NoSign {
            return other.class.is_non_zero() && other.rational.sign() != Sign::NoSign;
        }
        if other.rational.sign() == Sign::NoSign {
            return self.class.is_non_zero() && self.rational.sign() != Sign::NoSign;
        }
        false
    }

    /// Is this Real an integer?
    pub fn is_integer(&self) -> (res: bool)
        ensures
            res == (self.class_spec() is One && self.rational_spec().den() == 1),
    {
        self.class.is_one() && self.rational.is_integer()
    }

    /// Is this Real known to be rational?
    pub fn is_rational(&self) -> (res: bool)
        ensures
            res == self.class_spec() is One,
    {
        self.class.is_one()
    }

    /// Should we display this Real as a fraction?
    pub fn prefer_fraction(&self) -> (res: bool)
        ensures
            res == (self.class_spec() is One && self.rational_spec().prefers_fraction()),
    {
        self.class.is_one() && self.rational.prefer_fraction()
    }
}

/// Any outcome: the place where a proof names the outcome that a step of a
/// calculation gave.
pub open spec fn candidate(v: Result<Real, Problem>) -> bool {
    true
}

/// Is the class argument in the range its class is kept in?
pub fn class_in_range(c: &Class) -> (res: bool)
    ensures
        res == class_valid(*c),
{
    proof {
        vstd::arithmetic::power2::lemma2_to64();
    }
    match c {
        Class::Sqrt(r) => {
            proof {
                use_type_invariant(r);
            }
            r.is_integer() && r.sign() == Sign::Plus && !r.magnitude().less(&Natural::from_u64(2))
        },
        Class::Exp(r) => r.sign() != Sign::NoSign,
        Class::Ln(r) | Class::Log10(r) => {
            proof {
                use_type_invariant(r);
            }
            r.sign() == Sign::Plus && r.denominator().less(r.magnitude())
        },
        Class::SinPi(r) | Class::TanPi(r) => {
            proof {
                use_type_invariant(r);
            }
            r.sign() == Sign::Plus && r.magnitude().shl(1).less(r.denominator())
        },
        _ => true,
    }
}

impl Real {
    /// The rational factor.
    pub fn rational(&self) -> (res: &Rational)
        ensures
            *res == self.rational_spec(),
    {
        &self.rational
    }

    /// The class of the other factor.
    pub fn class(&self) -> (res: &Class)
        ensures
            *res == self.class_spec(),
    {
        &self.class
    }

    /// The computable number standing for the other factor.
    pub fn computable(&self) -> (res: &Computable)
        ensures
            *res == self.computable_spec(),
    {
        &self.computable
    }

    /// The real with these parts, or `OutOfRange` when the class argument
    /// is outside the range or the form its class is kept in.  A zero
    /// factor makes the real zero, which is kept with the class of one.
    pub fn from_parts(rational: Rational, class: Class, computable: Computable) -> (res: Result<
        Real,
        Problem,
    >)
        ensures
            class_valid(class) && class_canonical(class) <==> res is Ok,
            res matches Err(e) ==> e == Problem::OutOfRange,
            res matches Ok(r) ==> r.rational_spec() == rational && if rational.num() != 0 {
                r.class_spec() == class && r.computable_spec() == computable
            } else {
                r.class_spec() is One && r.computable_spec().node_spec() is One
            },
    {
        if class_in_range(&class) && class_is_canonical(&class) {
            if rational.sign() == Sign::NoSign {
                return Ok(Self::new(rational));
            }
            Ok(Self::build(rational, class, computable))
        } else {
            Err(Problem::OutOfRange)
        }
    }
}

/// `r` is the reciprocal of `x`.
pub open spec fn reciprocal(r: Rational, x: Rational) -> bool {
    r.num() * x.num() == (x.den() as int) * (r.den() as int)
}

/// `r` is the product of `x` and `y`.
pub open spec fn product(r: Rational, x: Rational, y: Rational) -> bool {
    r.same_value(x.num() * y.num(), (x.den() * y.den()) as int)
}

/// `r` is the quotient of `x` and `y`.
pub open spec fn quotient(r: Rational, x: Rational, y: Rational) -> bool {
    r.same_value(x.num() * (y.den() as int), (x.den() as int) * y.num())
}

/// `r` is the sum of `x` and `y`.
pub open spec fn sum(r: Rational, x: Rational, y: Rational) -> bool {
    r.same_value(x.num() * y.den() + y.num() * x.den(), (x.den() * y.den()) as int)
}

/// `r` is the reciprocal of the non-zero real `x`: exact for rationals,
/// square roots of whole numbers and powers of e, irrational otherwise.
pub open spec fn inverse_result(r: Real, x: Real) -> bool {
    match x.class_spec() {
        Class::One => r.class_spec() is One && reciprocal(r.rational_spec(), x.rational_spec()),
        Class::Sqrt(s) => if s.den() == 1 {
            r.class_spec() == x.class_spec() && r.rational_spec().same_value(
                x.rational_spec().den() as int,
                x.rational_spec().num() * s.num(),
            )
        } else {
            r.is_inverse_irrational(x)
        },
        Class::Exp(e) => (r.class_spec() matches Class::Exp(y) && y.num() == -e.num() && y.den()
            == e.den()) && reciprocal(r.rational_spec(), x.rational_spec()),
        _ => r.is_inverse_irrational(x),
    }
}

impl Real {
    /// `c` is the computable number with this real's value, as folding
    /// builds it.
    pub open spec fn folds_to(self, c: Computable) -> bool {
        if self.class_spec() is One {
            c.node_spec() matches Node::Ratio(r) && r.num() == self.rational_spec().num() && r.den()
                == self.rational_spec().den()
        } else if self.rational_spec().is_int_value(1) {
            c.node_spec() == self.computable_spec().node_spec()
        } else {
            c.node_spec() matches Node::Multiply(a, b) && (a.node_spec() matches Node::Ratio(r)
                && r.eq_value(self.rational_spec())) && b.node_spec()
                == self.computable_spec().node_spec()
        }
    }

    /// The computable number with this real's value.
    pub fn fold(self) -> (res: Computable)
        ensures
            self.folds_to(res),
    {
        if self.class.is_one() {
            return Computable::rational(self.rational);
        }
        let one = Rational::one();
        proof {
            use_type_invariant(&self.rational);
        }
        if self.rational.equals(&one) {
            proof {
                use_type_invariant(&one);
                self.rational.lemma_same_value_same_terms(one);
            }
            self.computable
        } else {
            proof {
                if self.rational.is_int_value(1) {
                    assert(self.rational.eq_value(one));
                }
            }
            Computable::multiply(Computable::rational(self.rational), self.computable)
        }
    }

    /// The irrational reciprocal of `x`.
    pub open spec fn is_inverse_irrational(self, x: Real) -> bool {
        &&& self.class_spec() is Irrational
        &&& reciprocal(self.rational_spec(), x.rational_spec())
        &&& self.computable_spec().node_spec() == Node::Inverse(x.computable_spec())
    }

    /// The irrational real carried by `computable` alone.
    fn make_irrational(computable: Computable) -> (res: Real)
        ensures
            res.is_rational_times(1, Class::Irrational),
            res.computable_spec() == computable,
    {
        Self::build(Rational::one(), Class::Irrational, computable)
    }

    /// The negation of `x`: the rational factor negated, the rest kept.
    pub open spec fn neg_spec(res: Real, x: Real) -> bool {
        &&& res.rational_spec().num() == -x.rational_spec().num()
        &&& res.rational_spec().den() == x.rational_spec().den()
        &&& res.class_spec() == x.class_spec()
        &&& res.computable_spec() == x.computable_spec()
    }

    /// The negation.
    pub fn neg(self) -> (res: Real)
        ensures
            Self::neg_spec(res, self),
    {
        proof {
            use_type_invariant(&self);
        }
        Real {
            rational: self.rational.neg(),
            class: self.class,
            computable: self.computable,
            signal: self.signal,
        }
    }

    /// What `inverse` gives: `DivideByZero` for zero, else the reciprocal.
    pub open spec fn inverse_spec(res: Result<Real, Problem>, x: Real) -> bool {
        &&& x.rational_spec().num() == 0 <==> res is Err
        &&& res matches Err(e) ==> e == Problem::DivideByZero
        &&& res matches Ok(r) ==> inverse_result(r, x)
    }

    /// The inverse of this Real, or `DivideByZero` if this real is zero.
    pub fn inverse(self) -> (res: Result<Self, Problem>)
        ensures
            Self::inverse_spec(res, self),
    {
        proof {
            use_type_invariant(&self);
        }
        if self.definitely_zero() {
            return Err(Problem::DivideByZero);
        }
        match &self.class {
            Class::One => {
                let rational = match self.rational.inverse() {
                    Ok(r) => r,
                    Err(e) => {
                        return Err(e);
                    },
                };
                return Ok(Self::build(rational, Class::One, Computable::one()));
            },
            Class::Sqrt(sqrt) => {
                if let Some(root) = sqrt.to_big_integer() {
                    let rs = Rational::from_bigint(root);
                    let product = self.rational.mul(&rs);
                    let rational = match product.inverse() {
                        Ok(r) => r,
                        Err(e) => {
                            proof {
                                use_type_invariant(&self.rational);
                                use_type_invariant(&rs);
                                use_type_invariant(&product);
                                assert(product.num() != 0) by (nonlinear_arith)
                                    requires
                                        product.num() * (self.rational.den() * rs.den()) == (
                                        self.rational.num() * rs.num()) * product.den(),
                                        self.rational.num() != 0,
                                        rs.num() != 0,
                                        product.den() > 0,
                                ;
                            }
                            return Err(e);
                        },
                    };
                    proof {
                        use_type_invariant(&self.rational);
                        use_type_invariant(&product);
                        let x = self.rational;
                        assert(rational.num() * product.num() == product.den() * rational.den());
                        assert(product.num() * (x.den() * 1) == (x.num() * sqrt.num())
                            * product.den());
                        assert(rational.num() * (x.num() * sqrt.num()) == (x.den() as int)
                            * rational.den()) by (nonlinear_arith)
                            requires
                                rational.num() * product.num() == product.den()
                                    * rational.den(),
                                product.num() * x.den() == (x.num() * sqrt.num())
                                    * product.den(),
                                product.den() > 0,
                                x.den() > 0,
                        ;
                    }
                    return Ok(Self::build(rational, self.class, self.computable));
                }
            },
            Class::Exp(exp) => {
                let exp = exp.neg();
                let rational = match self.rational.inverse() {
                    Ok(r) => r,
                    Err(e) => {
                        return Err(e);
                    },
                };
                let e2 = exp.clone();
                let c = Computable::e(e2);
                return Ok(Self::build(rational, Class::Exp(exp), c));
            },
            _ => {},
        }
        let rational = match self.rational.inverse() {
            Ok(r) => r,
            Err(e) => {
                return Err(e);
            },
        };
        Ok(Self::build(rational, Class::Irrational, Computable::inverse(self.computable)))
    }
}

} // verus!
