//! Arithmetic on reals: sums, products and quotients, kept exact where the
//! classes of the operands allow.

use vstd::prelude::*;
use vstd::arithmetic::power::{pow, lemma_pow_positive};

use crate::computable::{Computable, Node};
use crate::natural::{Integer, Natural};
use crate::rational::{Rational, abs};
use crate::reals::{Class, Real, class_valid, same_class, inverse_result, quotient};
use crate::reals::functions::{is_root_of, lemma_rest_one_iff_square, small_for_roots};
use crate::reals::functions::ln_rational_result;
use crate::Problem;

verus! {

/// The numerator of `b` to the power `k`, over the denominator below.
pub open spec fn power_num(b: Rational, k: int) -> int {
    if k >= 0 {
        pow(b.num(), abs(k))
    } else {
        pow(b.den() as int, abs(k))
    }
}

/// The denominator of `b` to the power `k`.
pub open spec fn power_den(b: Rational, k: int) -> int {
    if k >= 0 {
        pow(b.den() as int, abs(k))
    } else {
        pow(b.num(), abs(k))
    }
}

/// `res` is the irrational sum of the folded values of `x` and `y`.
pub open spec fn is_sum_of(res: Real, x: Real, y: Real) -> bool {
    &&& res.class_spec() is Irrational
    &&& res.rational_spec().is_int_value(1)
    &&& res.computable_spec().node_spec() matches Node::Add(l, r) && x.folds_to(l) && y.folds_to(r)
}

/// Both rational factors are whole numbers within the `u64` range.
pub open spec fn log_sum_ok(x: Real, y: Real) -> bool {
    &&& x.rational_spec().den() == 1
    &&& y.rational_spec().den() == 1
    &&& abs(x.rational_spec().num()) <= u64::MAX
    &&& abs(y.rational_spec().num()) <= u64::MAX
}

/// The sum of two non-zero reals of different classes: two whole
/// multiples of logarithms are the logarithm of the product of powers,
/// anything else is summed as computable numbers.
pub open spec fn unlike_sum(res: Real, x: Real, y: Real) -> bool {
    match (x.class_spec(), y.class_spec()) {
        (Class::Ln(b), Class::Ln(d)) => if log_sum_ok(x, y) {
            let a = x.rational_spec().num();
            let c = y.rational_spec().num();
            exists|p: Rational|
                p.same_value(
                    power_num(b, a) * power_num(d, c),
                    power_den(b, a) * power_den(d, c),
                ) && #[trigger] ln_rational_result(res, p)
        } else {
            is_sum_of(res, x, y)
        },
        _ => is_sum_of(res, x, y),
    }
}

impl Real {
    /// `b^a * d^c` for whole `a` and `c`: `NotAnInteger` when either is not
    /// whole.
    fn simple_log_sum(a: Rational, b: Rational, c: Rational, d: Rational) -> (res: Result<
        Rational,
        Problem,
    >)
        requires
            b.num() > 0,
            d.num() > 0,
        ensures
            res is Ok <==> (a.den() == 1 && c.den() == 1 && abs(a.num()) <= u64::MAX && abs(
                c.num(),
            ) <= u64::MAX),
            (a.den() != 1 || c.den() != 1) ==> res == Err::<Rational, Problem>(
                Problem::NotAnInteger,
            ),
            res matches Ok(p) ==> p.num() > 0 && p.same_value(
                power_num(b, a.num()) * power_num(d, c.num()),
                power_den(b, a.num()) * power_den(d, c.num()),
            ),
    {
        let ai = match a.to_big_integer() {
            Some(i) => i,
            None => {
                return Err(Problem::NotAnInteger);
            },
        };
        let ci = match c.to_big_integer() {
            Some(i) => i,
            None => {
                return Err(Problem::NotAnInteger);
            },
        };
        let left = match b.powi(&ai) {
            Ok(l) => l,
            Err(e) => {
                return Err(e);
            },
        };
        let right = match d.powi(&ci) {
            Ok(r) => r,
            Err(e) => {
                return Err(e);
            },
        };
        let p = left.mul(&right);
        proof {
            use_type_invariant(&b);
            use_type_invariant(&d);
            use_type_invariant(&left);
            use_type_invariant(&right);
            use_type_invariant(&p);
            let ln = power_num(b, a.num());
            let ld = power_den(b, a.num());
            let rn = power_num(d, c.num());
            let rd = power_den(d, c.num());
            lemma_pow_positive(b.num(), abs(a.num()));
            lemma_pow_positive(b.den() as int, abs(a.num()));
            lemma_pow_positive(d.num(), abs(c.num()));
            lemma_pow_positive(d.den() as int, abs(c.num()));
            assert(left.same_value(ln, ld));
            assert(right.same_value(rn, rd));
            lemma_product_value(left, ln, ld, right, rn, rd, p);
            assert(p.num() > 0) by (nonlinear_arith)
                requires
                    p.num() * (ld * rd) == (ln * rn) * p.den(),
                    ln > 0,
                    rn > 0,
                    ld > 0,
                    rd > 0,
                    p.den() > 0,
            ;
        }
        Ok(p)
    }
}

/// A product of rationals has the product of their values.
pub proof fn lemma_product_value(
    x: Rational,
    xn: int,
    xd: int,
    y: Rational,
    yn: int,
    yd: int,
    p: Rational,
)
    requires
        x.den() > 0,
        y.den() > 0,
        x.same_value(xn, xd),
        y.same_value(yn, yd),
        p.same_value(x.num() * y.num(), (x.den() * y.den()) as int),
    ensures
        p.same_value(xn * yn, xd * yd),
{
    let a = x.num();
    let b = x.den() as int;
    let c = y.num();
    let e = y.den() as int;
    let q = p.num();
    let r = p.den() as int;
    assert(q * (b * e) == (a * c) * r);
    assert(a * xd == xn * b);
    assert(c * yd == yn * e);
    assert(q * (b * e) * (xd * yd) == (a * xd) * (c * yd) * r) by (nonlinear_arith)
        requires
            q * (b * e) == (a * c) * r,
    ;
    assert((a * xd) * (c * yd) * r == (xn * yn) * r * (b * e)) by (nonlinear_arith)
        requires
            a * xd == xn * b,
            c * yd == yn * e,
    ;
    assert(q * (xd * yd) == (xn * yn) * r) by (nonlinear_arith)
        requires
            q * (b * e) * (xd * yd) == (xn * yn) * r * (b * e),
            b > 0,
            e > 0,
    ;
}

impl Real {
    /// The sum.  Reals of the same class add their rational factors; zero
    /// leaves the other operand; whole multiples of logarithms combine into
    /// one logarithm; anything else is summed as computable numbers.
    pub fn add(self, other: Real) -> (res: Real)
        ensures
            same_class(self.class_spec(), other.class_spec()) ==> ({
                let n = self.rational_spec().num() * other.rational_spec().den()
                    + other.rational_spec().num() * self.rational_spec().den();
                &&& n == 0 ==> res.is_rational_times(0, Class::One)
                &&& n != 0 ==> res.rational_spec().same_value(
                    n,
                    (self.rational_spec().den() * other.rational_spec().den()) as int,
                ) && res.class_spec() == self.class_spec() && res.computable_spec()
                    == self.computable_spec()
            }),
            !same_class(self.class_spec(), other.class_spec()) ==> {
                &&& self.rational_spec().num() == 0 ==> res == other
                &&& self.rational_spec().num() != 0 && other.rational_spec().num() == 0 ==> res
                    == self
                &&& self.rational_spec().num() != 0 && other.rational_spec().num() != 0
                    ==> unlike_sum(res, self, other)
            },
    {
        proof {
            use_type_invariant(&self);
            use_type_invariant(&other);
        }
        if self.class.same(&other.class) {
            let rational = self.rational.add(&other.rational);
            if rational.sign() == crate::Sign::NoSign {
                proof {
                    use_type_invariant(&rational);
                    let d = (self.rational.den() * other.rational.den()) as int;
                    let n = self.rational.num() * other.rational.den() + other.rational.num()
                        * self.rational.den();
                    assert(n == 0) by (nonlinear_arith)
                        requires
                            rational.num() * d == n * rational.den(),
                            rational.num() == 0,
                            rational.den() > 0,
                    ;
                }
                return Self::zero();
            }
            proof {
                use_type_invariant(&rational);
                use_type_invariant(&self.rational);
                use_type_invariant(&other.rational);
                assert(rational.num() != 0);
                let d = (self.rational.den() * other.rational.den()) as int;
                assert(d > 0) by (nonlinear_arith)
                    requires
                        d == self.rational.den() * other.rational.den(),
                        self.rational.den() > 0,
                        other.rational.den() > 0,
                ;
                let n = self.rational.num() * other.rational.den() + other.rational.num()
                    * self.rational.den();
                assert(n != 0) by (nonlinear_arith)
                    requires
                        rational.num() * d == n * rational.den(),
                        rational.num() != 0,
                        d > 0,
                        rational.den() > 0,
                ;
            }
            return Real {
                rational,
                class: self.class,
                computable: self.computable,
                signal: self.signal,
            };
        }
        if self.definitely_zero() {
            return other;
        }
        if other.definitely_zero() {
            return self;
        }
        let ghost x = self;
        let ghost y = other;
        if let (Class::Ln(b), Class::Ln(d)) = (&self.class, &other.class) {
            proof {
                use_type_invariant(b);
                use_type_invariant(d);
            }
            let sr = self.rational.clone();
            let or = other.rational.clone();
            let bc = b.clone();
            let dc = d.clone();
            if let Ok(r) = Self::simple_log_sum(sr, bc, or, dc) {
                if let Ok(simple) = Self::ln_rational(r) {
                    proof {
                        assert(ln_rational_result(simple, r));
                    }
                    return simple;
                }
            }
        }
        let left = self.fold();
        let right = other.fold();
        let computable = left.add(right);
        Self::make_irrational(computable)
    }

    /// What `sub` gives: the sum of `x` and the negation of `y`.
    pub open spec fn sub_spec(res: Real, x: Real, y: Real) -> bool {
        exists|m: Real|
            #[trigger] Self::neg_spec(m, y) && #[trigger] Self::add_spec(res, x, m)
    }

    /// The difference: the sum with the negation.
    pub fn sub(self, other: Real) -> (res: Real)
        ensures
            Self::sub_spec(res, self, other),
    {
        let m = other.neg();
        let res = self.add(m);
        proof {
            assert(Self::neg_spec(m, other) && Self::add_spec(res, self, m));
        }
        res
    }

    /// What `add` gives for `x` and `y`.
    pub open spec fn add_spec(res: Real, x: Real, y: Real) -> bool {
        &&& same_class(x.class_spec(), y.class_spec()) ==> ({
            let n = x.rational_spec().num() * y.rational_spec().den() + y.rational_spec().num()
                * x.rational_spec().den();
            &&& n == 0 ==> res.is_rational_times(0, Class::One)
            &&& n != 0 ==> res.rational_spec().same_value(
                n,
                (x.rational_spec().den() * y.rational_spec().den()) as int,
            ) && res.class_spec() == x.class_spec() && res.computable_spec() == x.computable_spec()
        })
        &&& !same_class(x.class_spec(), y.class_spec()) ==> {
            &&& x.rational_spec().num() == 0 ==> res == y
            &&& x.rational_spec().num() != 0 && y.rational_spec().num() == 0 ==> res == x
            &&& x.rational_spec().num() != 0 && y.rational_spec().num() != 0 ==> unlike_sum(
                res,
                x,
                y,
            )
        }
    }
}

/// `m` is the square root of the whole number `p`, as `multiply_sqrts`
/// writes it: a rational times the square root of a squarefree number
/// when `p` is small enough to have its square part taken out, else one
/// times the square root of `p` itself.
pub open spec fn root_of_product(m: Real, p: Rational) -> bool {
    if small_for_roots(p) {
        is_root_of(m, p)
    } else {
        m.rational_spec().is_int_value(1) && (m.class_spec() matches Class::Sqrt(b)
            && b.num() == p.num() && b.den() == p.den())
    }
}

/// `m` is the product of the square roots of the whole numbers `x` and `y`.
pub open spec fn sqrt_product(m: Real, x: Rational, y: Rational) -> bool {
    if x.eq_value(y) {
        m.class_spec() is One && m.rational_spec() == x
    } else {
        exists|p: Rational|
            p.den() == 1 && p.num() == x.num() * y.num() && #[trigger] root_of_product(m, p)
    }
}

/// `r` is the product of the rationals `x` and `y`.
pub open spec fn is_product(r: Rational, x: Rational, y: Rational) -> bool {
    r.same_value(x.num() * y.num(), (x.den() * y.den()) as int)
}

impl Real {
    /// What `mul` gives for `x` and `y`.
    pub open spec fn mul_spec(res: Real, x: Real, y: Real) -> bool {
        if x.rational_spec().num() == 0 || y.rational_spec().num() == 0 {
            res.is_rational_times(0, Class::One)
        } else if x.class_spec() is One {
            is_product(res.rational_spec(), x.rational_spec(), y.rational_spec())
                && res.class_spec() == y.class_spec() && res.computable_spec()
                == y.computable_spec()
        } else if y.class_spec() is One {
            is_product(res.rational_spec(), x.rational_spec(), y.rational_spec())
                && res.class_spec() == x.class_spec() && res.computable_spec()
                == x.computable_spec()
        } else {
            match (x.class_spec(), y.class_spec()) {
                (Class::Sqrt(a), Class::Sqrt(b)) => exists|m: Real|
                    #[trigger] sqrt_product(m, a, b) && res.class_spec() == m.class_spec()
                        && res.computable_spec() == m.computable_spec()
                        && res.rational_spec().same_value(
                        m.rational_spec().num() * x.rational_spec().num() * y.rational_spec().num(),
                        (m.rational_spec().den() * x.rational_spec().den() * y.rational_spec().den()) as int,
                    ),
                (Class::Exp(a), Class::Exp(b)) => {
                    &&& is_product(res.rational_spec(), x.rational_spec(), y.rational_spec())
                    &&& a.num() * b.den() + b.num() * a.den() == 0 ==> res.class_spec() is One
                    &&& a.num() * b.den() + b.num() * a.den() != 0 ==> (
                    res.class_spec() matches Class::Exp(e) && e.same_value(
                        a.num() * b.den() + b.num() * a.den(),
                        (a.den() * b.den()) as int,
                    ))
                },
                (Class::Pi, Class::Pi) => {
                    &&& is_product(res.rational_spec(), x.rational_spec(), y.rational_spec())
                    &&& res.class_spec() is Irrational
                    &&& res.computable_spec().node_spec() matches Node::Square(c) && c.node_spec()
                        is Pi
                },
                _ => {
                    &&& is_product(res.rational_spec(), x.rational_spec(), y.rational_spec())
                    &&& res.class_spec() is Irrational
                    &&& res.computable_spec().node_spec() == Node::Multiply(
                        x.computable_spec(),
                        y.computable_spec(),
                    )
                },
            }
        }
    }

    /// The product of the square roots of two whole numbers above one.
    fn multiply_sqrts(x: Rational, y: Rational) -> (res: Real)
        requires
            x.den() == 1,
            x.num() >= 2,
            y.den() == 1,
            y.num() >= 2,
        ensures
            sqrt_product(res, x, y),
    {
        if x.equals(&y) {
            return Self::build(x, Class::One, Computable::one());
        }
        let product = x.mul(&y);
        proof {
            use_type_invariant(&product);
            assert(product.num() == x.num() * y.num() && product.den() == 1) by {
                lemma_whole_product(x, y, product);
            }
            assert(product.num() >= 4) by (nonlinear_arith)
                requires
                    product.num() == x.num() * y.num(),
                    x.num() >= 2,
                    y.num() >= 2,
            ;
        }
        if !product.extract_square_will_succeed() {
            let p2 = product.clone();
            let c = Computable::sqrt_rational(p2);
            let res = Self::build(Rational::one(), Class::Sqrt(product), c);
            proof {
                assert(root_of_product(res, product));
            }
            return res;
        }
        let (a, b) = product.extract_square_reduced();
        let one = Rational::one();
        proof {
            use_type_invariant(&a);
            use_type_invariant(&b);
            lemma_rest_one_iff_square(product, a, b);
        }
        if b.equals(&one) {
            let res = Self::build(a, Class::One, Computable::one());
            proof {
                assert(root_of_product(res, product));
            }
            res
        } else {
            let b2 = b.clone();
            let c = Computable::sqrt_rational(b2);
            let res = Self::build(a, Class::Sqrt(b), c);
            proof {
                assert(root_of_product(res, product));
            }
            res
        }
    }

    /// The product.  Zero is absorbed, a rational scales the other
    /// operand, square roots and powers of e combine exactly, and anything
    /// else is multiplied as computable numbers.
    pub fn mul(self, other: Real) -> (res: Real)
        ensures
            Self::mul_spec(res, self, other),
    {
        proof {
            use_type_invariant(&self);
            use_type_invariant(&other);
        }
        if self.definitely_zero() || other.definitely_zero() {
            return Self::zero();
        }
        if self.class.is_one() {
            let rational = self.rational.mul(&other.rational);
            return Real { rational, class: other.class, computable: other.computable, signal: other.signal };
        }
        if other.class.is_one() {
            let rational = self.rational.mul(&other.rational);
            return Real { rational, class: self.class, computable: self.computable, signal: self.signal };
        }
        let rational = self.rational.mul(&other.rational);
        match (self.class, other.class) {
            (Class::Sqrt(r), Class::Sqrt(s)) => {
                let square = Self::multiply_sqrts(r, s);
                proof {
                    use_type_invariant(&square);
                    use_type_invariant(&square.rational);
                    use_type_invariant(&self.rational);
                    use_type_invariant(&other.rational);
                }
                let first = square.rational.mul(&self.rational);
                let product = first.mul(&other.rational);
                proof {
                    use_type_invariant(&first);
                    let m = square.rational;
                    let x = self.rational;
                    let y = other.rational;
                    lemma_product_value(
                        first,
                        m.num() * x.num(),
                        (m.den() * x.den()) as int,
                        y,
                        y.num(),
                        y.den() as int,
                        product,
                    );
                    assert(sqrt_product(square, r, s));
                }
                Real {
                    rational: product,
                    class: square.class,
                    computable: square.computable,
                    signal: square.signal,
                }
            },
            (Class::Exp(r), Class::Exp(s)) => {
                let sum = r.add(&s);
                proof {
                    use_type_invariant(&sum);
                    use_type_invariant(&r);
                    use_type_invariant(&s);
                    let n = r.num() * s.den() + s.num() * r.den();
                    let d = (r.den() * s.den()) as int;
                    assert(d > 0) by (nonlinear_arith)
                        requires
                            d == r.den() * s.den(),
                            r.den() > 0,
                            s.den() > 0,
                    ;
                    assert((sum.num() == 0) == (n == 0)) by (nonlinear_arith)
                        requires
                            sum.num() * d == n * sum.den(),
                            sum.den() > 0,
                            d > 0,
                    ;
                }
                let (class, computable) = Class::make_exp(sum);
                Self::build(rational, class, computable)
            },
            (Class::Pi, Class::Pi) => {
                Self::build(rational, Class::Irrational, Computable::pi().square())
            },
            (c, _) => {
                proof {
                    assert(class_valid(Class::Irrational));
                }
                Self::build(rational, Class::Irrational, self.computable.multiply(other.computable))
            },
        }
    }
}

/// The product of two whole numbers is whole.
proof fn lemma_whole_product(x: Rational, y: Rational, p: Rational)
    requires
        x.den() == 1,
        y.den() == 1,
        p.inv(),
        is_product(p, x, y),
    ensures
        p.num() == x.num() * y.num(),
        p.den() == 1,
{
    let n = x.num() * y.num();
    assert(p.num() == n * p.den()) by (nonlinear_arith)
        requires
            p.num() * ((x.den() * y.den()) as int) == n * p.den(),
            x.den() == 1,
            y.den() == 1,
    ;
    lemma_multiple_whole(p, n);
    assert(p.num() == n) by (nonlinear_arith)
        requires
            p.num() == n * p.den(),
            p.den() == 1,
    ;
}

/// A rational in lowest terms that is a whole multiple of its own
/// denominator is whole.
proof fn lemma_multiple_whole(p: Rational, n: int)
    requires
        p.inv(),
        p.num() == n * p.den(),
    ensures
        p.den() == 1,
{
    if p.den() != 1 {
        let d = p.den();
        vstd::arithmetic::div_mod::lemma_mod_multiples_basic(n, d as int);
        vstd::arithmetic::mul::lemma_mul_is_commutative(n, d as int);
        crate::reals::functions::lemma_mod_zero_abs(p.num(), d as int);
        vstd::arithmetic::div_mod::lemma_mod_self_0(d as int);
        crate::natural::lemma_common_divisor_divides_gcd(abs(p.num()), d, d);
        vstd::arithmetic::div_mod::lemma_small_mod(1, d);
    }
}

impl Real {
    /// What `div` gives for `x` and `y`.
    pub open spec fn div_spec(res: Result<Real, Problem>, x: Real, y: Real) -> bool {
        if y.rational_spec().num() == 0 {
            res == Err::<Real, Problem>(Problem::DivideByZero)
        } else if x.rational_spec().num() == 0 {
            res matches Ok(r) && r.is_rational_times(0, Class::One)
        } else if same_class(x.class_spec(), y.class_spec()) {
            res matches Ok(r) && r.class_spec() is One && quotient(
                r.rational_spec(),
                x.rational_spec(),
                y.rational_spec(),
            )
        } else if y.class_spec() is One {
            res matches Ok(r) && quotient(r.rational_spec(), x.rational_spec(), y.rational_spec())
                && r.class_spec() == x.class_spec() && r.computable_spec() == x.computable_spec()
        } else if x.class_spec() is Ln && (y.class_spec() matches Class::Ln(t) && t.num() == 10
            && t.den() == 1) {
            res matches Ok(r) && quotient(r.rational_spec(), x.rational_spec(), y.rational_spec())
                && (r.class_spec() matches Class::Log10(a) && x.class_spec() == Class::Ln(a)) && (
            r.computable_spec().node_spec() matches Node::Multiply(c, d) && c
                == x.computable_spec() && (d.node_spec() matches Node::Inverse(e) && (
            e.node_spec() matches Node::Ln(f) && (f.node_spec() matches Node::Ratio(ten)
                && ten.is_int_value(10)))))
        } else {
            res matches Ok(r) && exists|i: Real|
                inverse_result(i, y) && #[trigger] Self::mul_spec(r, x, i)
        }
    }

    /// The quotient, or `DivideByZero` for a zero divisor.  Reals of the
    /// same class divide to a rational, a rational divisor scales, and the
    /// logarithm of ten divides a logarithm into a base ten logarithm;
    /// otherwise the dividend is multiplied by the divisor's inverse.
    pub fn div(self, other: Real) -> (res: Result<Real, Problem>)
        ensures
            Self::div_spec(res, self, other),
    {
        proof {
            use_type_invariant(&self);
            use_type_invariant(&other);
        }
        if other.definitely_zero() {
            return Err(Problem::DivideByZero);
        }
        if self.definitely_zero() {
            return Ok(Self::zero());
        }
        if self.class.same(&other.class) {
            let rational = self.rational.div(&other.rational);
            return Ok(Self::new(rational));
        }
        if other.class.is_one() {
            let rational = self.rational.div(&other.rational);
            return Ok(
                Real { rational, class: self.class, computable: self.computable, signal: self.signal },
            );
        }
        if other.class.is_ln() && self.class.is_ln() {
            let ten = Rational::new(10);
            let is_ten = match &other.class {
                Class::Ln(t) => {
                    proof {
                        use_type_invariant(t);
                    }
                    let b = t.equals(&ten);
                    proof {
                        if b {
                            assert(t.num() == 10 * t.den());
                            lemma_multiple_whole(*t, 10);
                        }
                    }
                    b
                },
                _ => false,
            };
            if is_ten {
                match self.class {
                    Class::Ln(r) => {
                        let rational = self.rational.div(&other.rational);
                        let ten_c = Computable::integer(Integer::from_natural(Natural::from_u64(10)));
                        let scale = ten_c.ln().inverse();
                        let computable = self.computable.multiply(scale);
                        return Ok(
                            Real { rational, class: Class::Log10(r), computable, signal: self.signal },
                        );
                    },
                    _ => {},
                }
            }
        }
        let ghost y = other;
        let inverted = match other.inverse() {
            Ok(i) => i,
            Err(e) => {
                return Err(e);
            },
        };
        let res = self.mul(inverted);
        proof {
            assert(Self::mul_spec(res, self, inverted));
        }
        Ok(res)
    }
}

impl core::ops::Add for Real {
    type Output = Real;

    fn add(self, other: Real) -> (res: Real)
        ensures
            Real::add_spec(res, self, other),
    {
        Real::add(self, other)
    }
}

impl vstd::std_specs::ops::AddSpecImpl for Real {
    open spec fn obeys_add_spec() -> bool {
        false
    }

    open spec fn add_req(self, other: Real) -> bool {
        true
    }

    open spec fn add_spec(self, other: Real) -> Real {
        arbitrary()
    }
}

impl core::ops::Sub for Real {
    type Output = Real;

    fn sub(self, other: Real) -> (res: Real)
        ensures
            Real::sub_spec(res, self, other),
    {
        Real::sub(self, other)
    }
}

impl vstd::std_specs::ops::SubSpecImpl for Real {
    open spec fn obeys_sub_spec() -> bool {
        false
    }

    open spec fn sub_req(self, other: Real) -> bool {
        true
    }

    open spec fn sub_spec(self, other: Real) -> Real {
        arbitrary()
    }
}

impl core::ops::Mul for Real {
    type Output = Real;

    fn mul(self, other: Real) -> (res: Real)
        ensures
            Real::mul_spec(res, self, other),
    {
        Real::mul(self, other)
    }
}

impl vstd::std_specs::ops::MulSpecImpl for Real {
    open spec fn obeys_mul_spec() -> bool {
        false
    }

    open spec fn mul_req(self, other: Real) -> bool {
        true
    }

    open spec fn mul_spec(self, other: Real) -> Real {
        arbitrary()
    }
}

impl core::ops::Div for Real {
    type Output = Result<Real, Problem>;

    fn div(self, other: Real) -> (res: Result<Real, Problem>)
        ensures
            Real::div_spec(res, self, other),
    {
        Real::div(self, other)
    }
}

impl vstd::std_specs::ops::DivSpecImpl for Real {
    open spec fn obeys_div_spec() -> bool {
        false
    }

    open spec fn div_req(self, other: Real) -> bool {
        true
    }

    open spec fn div_spec(self, other: Real) -> Result<Real, Problem> {
        arbitrary()
    }
}

impl core::ops::Neg for Real {
    type Output = Real;

    fn neg(self) -> (res: Real)
        ensures
            res.rational_spec().num() == -self.rational_spec().num(),
            res.rational_spec().den() == self.rational_spec().den(),
            res.class_spec() == self.class_spec(),
            res.computable_spec() == self.computable_spec(),
    {
        Real::neg(self)
    }
}

impl vstd::std_specs::ops::NegSpecImpl for Real {
    open spec fn obeys_neg_spec() -> bool {
        false
    }

    open spec fn neg_req(self) -> bool {
        true
    }

    open spec fn neg_spec(self) -> Real {
        arbitrary()
    }
}

/// Two reals are known to be equal: equal rational factors and classes
/// known to stand for the same number.  Irrationals are never known equal.
pub open spec fn known_equal(x: Real, y: Real) -> bool {
    x.rational_spec().eq_value(y.rational_spec()) && same_class(x.class_spec(), y.class_spec())
}

/// The real is known to be the rational `r`.
pub open spec fn is_rational_value(x: Real, r: Rational) -> bool {
    x.class_spec() is One && x.rational_spec().eq_value(r)
}

impl PartialEq for Real {
    fn eq(&self, other: &Real) -> (res: bool) {
        self.rational.equals(&other.rational) && self.class.same(&other.class)
    }
}

impl vstd::std_specs::cmp::PartialEqSpecImpl for Real {
    open spec fn obeys_eq_spec() -> bool {
        true
    }

    open spec fn eq_spec(&self, other: &Real) -> bool {
        known_equal(*self, *other)
    }
}

/// A real equals a rational when it is known to be that rational.
impl PartialEq<Rational> for Real {
    fn eq(&self, other: &Rational) -> (res: bool) {
        self.class.is_one() && self.rational.equals(other)
    }
}

impl vstd::std_specs::cmp::PartialEqSpecImpl<Rational> for Real {
    open spec fn obeys_eq_spec() -> bool {
        true
    }

    open spec fn eq_spec(&self, other: &Rational) -> bool {
        is_rational_value(*self, *other)
    }
}

/// A rational equals a real when the real is known to be that rational.
impl PartialEq<Real> for Rational {
    fn eq(&self, other: &Real) -> (res: bool) {
        other.class.is_one() && self.equals(&other.rational)
    }
}

impl vstd::std_specs::cmp::PartialEqSpecImpl<Real> for Rational {
    open spec fn obeys_eq_spec() -> bool {
        true
    }

    open spec fn eq_spec(&self, other: &Real) -> bool {
        other.class_spec() is One && self.eq_value(other.rational_spec())
    }
}

} // verus!
