//! Powers of reals: whole exponents exactly where the class allows,
//! other exponents through logarithms.

use vstd::prelude::*;

use crate::computable::{Computable, Node, exact_value, same_node};
use crate::natural::{Integer, Natural};
use crate::rational::{Rational, abs, sign_of};
use crate::reals::{Class, Real, candidate};
use crate::reals::arith::{power_num, power_den};
use crate::reals::functions::Function;
use crate::{Problem, Sign};

verus! {

/// `c` is `e` to the power of `k` times the logarithm of `v`, negated with
/// `negated`.
pub open spec fn is_exp_ln_power(c: Computable, v: Computable, k: int, negated: bool) -> bool {
    let body = |m: Computable|
        m.node_spec() matches Node::Exp(p) && (p.node_spec() matches Node::Multiply(l, i) && (
        l.node_spec() matches Node::Ln(w) && w.node_spec() == v.node_spec()) && (i.node_spec() matches Node::Ratio(
            q,
        ) && q.is_int_value(k)));
    if negated {
        c.node_spec() matches Node::Negate(m) && body(m)
    } else {
        body(c)
    }
}

/// `r` is `e` to the power `k` times the logarithm of the folded `x`,
/// negated or not.
pub open spec fn folded_power(r: Real, x: Real, k: int) -> bool {
    &&& r.class_spec() is Irrational
    &&& r.rational_spec().is_int_value(1)
    &&& exists|f: Computable|
        #[trigger] x.folds_to(f) && (is_exp_ln_power(r.computable_spec(), f, k, false)
            || is_exp_ln_power(r.computable_spec(), f, k, true))
}

/// `c` is the power `k` of a computable number shaped as `v` through
/// logarithms, by the sign of `v`.
pub open spec fn ln_power_form(c: Computable, v: Computable, k: int) -> bool {
    ||| is_exp_ln_power(c, v, k, false)
    ||| exists|w: Computable| w.node_spec() == Node::Negate(v) && #[trigger] negated_power(c, w, k)
}

/// `c` is the power `k` of the negative `v` through logarithms: that of
/// `-v`, negated for odd `k`.
pub open spec fn negative_power_form(c: Computable, v: Computable, k: int) -> bool {
    exists|w: Computable| w.node_spec() == Node::Negate(v) && #[trigger] negated_power(c, w, k)
}

/// `c` is the power `k` of `v` through logarithms, negated for odd `k`.
pub open spec fn negated_power(c: Computable, v: Computable, k: int) -> bool {
    is_exp_ln_power(c, v, k, k % 2 == 1)
}

/// The sign of `x` can be told: it is not of the irrational class, or its
/// computable number is a non-zero rational expression.
pub open spec fn sign_known(x: Real) -> bool {
    ||| !(x.class_spec() is Irrational)
    ||| exact_value(x.computable_spec().node_spec()) matches Some((n, d)) && n * d != 0
}

/// What the power `k` of `v` through logarithms is for the sign `s` of
/// `v`: nothing for zero, the plain form for a positive `v`, and the form
/// through `-v` for a negative one.
pub open spec fn powi_by_sign(res: Option<Computable>, v: Computable, k: int, s: Sign) -> bool {
    match s {
        Sign::NoSign => res is None,
        Sign::Plus => res matches Some(c) && is_exp_ln_power(c, v, k, false),
        Sign::Minus => res matches Some(c) && negative_power_form(c, v, k),
    }
}

impl Real {
    /// `value` to the power `exp` as a computable number, through its
    /// logarithm; a negative value is negated first and the result negated
    /// back for an odd power.  `None` when the sign of `value` cannot be
    /// told.
    fn compute_exp_ln_powi(value: &Computable, exp: Integer) -> (res: Option<Computable>)
        ensures
            res matches Some(c) ==> exists|v: Computable|
                same_node(v.node_spec(), value.node_spec()) && #[trigger] ln_power_form(c, v, exp@),
            exact_value(value.node_spec()) matches Some((n, d)) ==> exists|v: Computable|
                same_node(v.node_spec(), value.node_spec()) && #[trigger] powi_by_sign(
                    res,
                    v,
                    exp@,
                    sign_of(n * d),
                ),
    {
        let s = value.sign();
        let v = value.clone();
        let ghost gv = v;
        let res = match s {
            Sign::NoSign => None,
            Sign::Plus => {
                let k = Computable::integer(exp);
                let c = v.ln().multiply(k).exp();
                proof {
                    assert(ln_power_form(c, gv, exp@));
                }
                Some(c)
            },
            Sign::Minus => {
                let w = v.negate();
                let ghost gw = w;
                let odd = exp.is_odd();
                let k = Computable::integer(exp);
                let p = w.ln().multiply(k).exp();
                if odd {
                    let c = p.negate();
                    proof {
                        assert(negated_power(c, gw, exp@));
                        assert(negative_power_form(c, gv, exp@));
                        assert(ln_power_form(c, gv, exp@));
                    }
                    Some(c)
                } else {
                    proof {
                        assert(negated_power(p, gw, exp@));
                        assert(negative_power_form(p, gv, exp@));
                        assert(ln_power_form(p, gv, exp@));
                    }
                    Some(p)
                }
            },
        };
        proof {
            assert(powi_by_sign(res, gv, exp@, s));
        }
        res
    }

    /// `base` to the power `exp`, by repeated squaring and multiplying: a
    /// copy of `base` for the power one, and zero for zero to a power of two
    /// or more.
    fn recursive_powi(base: &Real, exp: &Natural) -> (res: Real)
        ensures
            exp@ == 1 ==> res.is_copy_of(*base),
            exp@ >= 2 && base.rational_spec().num() == 0 ==> res.is_rational_times(0, Class::One),
    {
        let one = Natural::from_u64(1);
        if exp.equal(&one) {
            return base.clone();
        }
        let mut result = Self::new(Rational::one());
        let top = exp.bits();
        let mut b = top;
        let ghost zero_base = base.rational_spec().num() == 0;
        proof {
            if exp@ >= 2 {
                crate::natural::lemma_bit_length_bounds(exp@);
            }
        }
        while b > 0
            invariant
                b <= top,
                zero_base == (base.rational_spec().num() == 0),
                exp@ >= 2 ==> vstd::arithmetic::power2::pow2((top - 1) as nat) <= exp@
                    < vstd::arithmetic::power2::pow2(top as nat),
                zero_base && exp@ >= 2 && b < top ==> result.is_rational_times(0, Class::One),
                zero_base && exp@ >= 2 && b == top ==> result.is_rational_times(1, Class::One),
            decreases b,
        {
            b = b - 1;
            let copy = result.clone();
            result = copy.mul(result);
            let set = exp.bit(b);
            proof {
                if zero_base && exp@ >= 2 && b + 1 == top {
                    let p = vstd::arithmetic::power2::pow2(b as nat);
                    vstd::arithmetic::power2::lemma_pow2_pos(b as nat);
                    vstd::arithmetic::power2::lemma_pow2_unfold(top as nat);
                    assert(p <= exp@ < 2 * p);
                    assert(exp@ / p == 1) by {
                        vstd::arithmetic::div_mod::lemma_fundamental_div_mod_converse(
                            exp@ as int,
                            p as int,
                            1,
                            exp@ - p,
                        );
                    }
                    assert(set);
                }
            }
            if set {
                result = result.mul(base.clone());
            }
        }
        result
    }

    /// A whole power through logarithms, by the sign of this real; for a
    /// real whose sign cannot be told, by repeated multiplication.
    fn exp_ln_powi(self, exp: Integer) -> (res: Result<Self, Problem>)
        ensures
            res is Ok,
            sign_known(self) && self.rational_spec().num() != 0 ==> (res matches Ok(r)
                && folded_power(r, self, exp@)),
    {
        match self.best_sign() {
            Sign::NoSign => {
                if exp.sign() == Sign::Minus {
                    Ok(Self::recursive_powi(&self, exp.magnitude()).neg())
                } else {
                    Ok(Self::recursive_powi(&self, exp.magnitude()))
                }
            },
            Sign::Plus => {
                let value = self.fold();
                let k = Computable::integer(exp);
                Ok(Self::make_irrational(value.ln().multiply(k).exp()))
            },
            Sign::Minus => {
                let odd = exp.is_odd();
                let value = self.fold();
                let k = Computable::integer(exp);
                if odd {
                    Ok(Self::make_irrational(value.ln().multiply(k).exp().negate()))
                } else {
                    Ok(Self::make_irrational(value.ln().multiply(k).exp()))
                }
            },
        }
    }

    /// What `powi` gives for `x` and the exponent `e`.
    pub open spec fn powi_spec(res: Result<Real, Problem>, x: Real, e: int) -> bool {
        if e == 1 {
            res == Ok::<Real, Problem>(x)
        } else if e == 0 {
            &&& x.rational_spec().num() == 0 ==> res == Err::<Real, Problem>(Problem::NotANumber)
            &&& x.rational_spec().num() != 0 ==> (res matches Ok(r) && r.is_rational_times(
                1,
                Class::One,
            ))
        } else if e < 0 && x.rational_spec().num() == 0 {
            res == Err::<Real, Problem>(Problem::NotANumber)
        } else {
            &&& res is Ok
            &&& abs(e) > u64::MAX && x.rational_spec().num() != 0 && sign_known(x) ==> (res matches Ok(
                r,
            ) && folded_power(r, x, e))
            &&& abs(e) <= u64::MAX ==> match x.class_spec() {
                Class::One => res matches Ok(r) && r.class_spec() is One
                    && r.rational_spec().same_value(
                    power_num(x.rational_spec(), e),
                    power_den(x.rational_spec(), e),
                ) && r.computable_spec() == x.computable_spec(),
                Class::Sqrt(s) => res matches Ok(r) && if e % 2 == 1 {
                    (r.class_spec() matches Class::Sqrt(t) && t.num() == s.num() && t.den()
                        == s.den()) && r.computable_spec() == x.computable_spec()
                        && r.rational_spec().same_value(
                        power_num(x.rational_spec(), e) * power_num(s, e / 2),
                        power_den(x.rational_spec(), e) * power_den(s, e / 2),
                    )
                } else {
                    r.class_spec() is One && r.rational_spec().same_value(
                        power_num(x.rational_spec(), e) * power_num(s, e / 2),
                        power_den(x.rational_spec(), e) * power_den(s, e / 2),
                    )
                },
                _ => res matches Ok(r) && (x.rational_spec().num() != 0 && !(x.class_spec() is Irrational)
                    ==> (folded_power(r, x, e) || (r.class_spec() is Irrational
                    && r.rational_spec().same_value(
                    power_num(x.rational_spec(), e),
                    power_den(x.rational_spec(), e),
                ) && exists|v: Computable|
                    crate::computable::same_node(v.node_spec(), x.computable_spec().node_spec())
                        && #[trigger] ln_power_form(r.computable_spec(), v, e))))
                    && (x.rational_spec().num() != 0 && x.class_spec() is Irrational ==> (exact_value(
                    x.computable_spec().node_spec(),
                ) matches Some((n, d)) ==> (n * d != 0 ==> {
                    &&& r.class_spec() is Irrational
                    &&& r.rational_spec().same_value(
                        power_num(x.rational_spec(), e),
                        power_den(x.rational_spec(), e),
                    )
                    &&& exists|v: Computable|
                        same_node(v.node_spec(), x.computable_spec().node_spec())
                            && #[trigger] powi_by_sign(Some(r.computable_spec()), v, e, sign_of(n * d))
                }))),
            }
        }
    }

    /// Raise this Real to a whole power: `NotANumber` for zero to a power
    /// that is not positive.  Rationals and square roots stay exact.
    pub fn powi(self, exp: Integer) -> (res: Result<Self, Problem>)
        ensures
            Self::powi_spec(res, self, exp@),
    {
        proof {
            use_type_invariant(&self);
            use_type_invariant(&self.rational);
        }
        let one = Natural::from_u64(1);
        if exp.sign() == Sign::Plus && exp.magnitude().equal(&one) {
            return Ok(self);
        }
        if exp.sign() == Sign::NoSign {
            if self.definitely_zero() {
                return Err(Problem::NotANumber);
            } else {
                return Ok(Self::new(Rational::one()));
            }
        }
        if exp.sign() == Sign::Minus && self.definitely_zero() {
            return Err(Problem::NotANumber);
        }
        if let Ok(rational) = self.rational.powi(&exp) {
            match &self.class {
                Class::One => {
                    return Ok(Self::build(rational, Class::One, self.computable));
                },
                Class::Sqrt(sqrt) => {
                    proof {
                        use_type_invariant(sqrt);
                    }
                    let odd = exp.is_odd();
                    let half = exp.half_floor();
                    if let Ok(rf2) = sqrt.powi(&half) {
                        let product = rational.mul(&rf2);
                        proof {
                            use_type_invariant(&rational);
                            use_type_invariant(&rf2);
                            crate::reals::arith::lemma_product_value(
                                rational,
                                power_num(self.rational, exp@),
                                power_den(self.rational, exp@),
                                rf2,
                                power_num(*sqrt, exp@ / 2),
                                power_den(*sqrt, exp@ / 2),
                                product,
                            );
                        }
                        if odd {
                            let s2 = sqrt.clone();
                            return Ok(Self::build(product, Class::Sqrt(s2), self.computable));
                        } else {
                            return Ok(Self::new(product));
                        }
                    }
                },
                _ => {
                    let e2 = exp.clone();
                    if let Some(computable) = Self::compute_exp_ln_powi(&self.computable, e2) {
                        let res = Self::build(rational, Class::Irrational, computable);
                        return Ok(res);
                    }
                },
            }
        }
        self.exp_ln_powi(exp)
    }
}

/// `r` is `e` to the power of `y` times the logarithm of `x`, folded.
pub open spec fn is_power_of(r: Real, x: Real, y: Real) -> bool {
    &&& r.class_spec() is Irrational
    &&& r.rational_spec().is_int_value(1)
    &&& r.computable_spec().node_spec() matches Node::Exp(p) && (p.node_spec() matches Node::Multiply(
        l,
        m,
    ) && (l.node_spec() matches Node::Ln(v) && x.folds_to(v)) && y.folds_to(m))
}

impl Real {
    /// What `pow_arb` gives for `x` and `y`.
    pub open spec fn pow_arb_spec(res: Result<Real, Problem>, x: Real, y: Real) -> bool {
        &&& res matches Err(e) ==> e == Problem::NotAnInteger
        &&& res matches Ok(r) ==> r.is_rational_times(0, Class::One) || is_power_of(r, x, y)
        &&& !(x.class_spec() is Irrational) ==> {
            &&& x.rational_spec().num() < 0 ==> res is Err
            &&& x.rational_spec().num() > 0 ==> (res matches Ok(r) && is_power_of(r, x, y))
            &&& x.rational_spec().num() == 0 && !(y.class_spec() is Irrational) ==> (
            y.rational_spec().num() > 0 <==> res is Ok)
        }
    }

    /// A power with an exponent that is not known to be whole: zero for
    /// zero to a positive power, `NotAnInteger` for zero to another power
    /// and for a negative base; otherwise through logarithms.
    fn pow_arb(self, exponent: Self) -> (res: Result<Self, Problem>)
        ensures
            Self::pow_arb_spec(res, self, exponent),
    {
        match self.best_sign() {
            Sign::NoSign => {
                if exponent.best_sign() == Sign::Plus {
                    Ok(Self::zero())
                } else {
                    Err(Problem::NotAnInteger)
                }
            },
            Sign::Minus => Err(Problem::NotAnInteger),
            Sign::Plus => {
                let value = self.fold();
                let exp = exponent.fold();
                Ok(Self::make_irrational(value.ln().multiply(exp).exp()))
            },
        }
    }

    /// What `pow_fraction` gives for `x` and the exponent `q`.
    pub open spec fn pow_fraction_spec(res: Result<Real, Problem>, x: Real, q: Rational) -> bool {
        if q.den() == 2 {
            exists|p: Result<Real, Problem>|
                #[trigger] Self::powi_spec(p, x, q.num()) && (p matches Err(e) ==> res == Err::<
                    Real,
                    Problem,
                >(e)) && (p matches Ok(v) ==> Self::sqrt_spec(res, v))
        } else {
            exists|y: Real| y.class_spec() is One && y.rational_spec() == q && #[trigger] Self::pow_arb_spec(res, x, y)
        }
    }

    /// A power with a rational exponent that is not whole: a whole power
    /// then a square root for halves, through logarithms otherwise.
    fn pow_fraction(self, exponent: Rational) -> (res: Result<Self, Problem>)
        ensures
            Self::pow_fraction_spec(res, self, exponent),
    {
        proof {
            use_type_invariant(&exponent);
            vstd::arithmetic::power2::lemma2_to64();
        }
        let two = Natural::from_u64(2);
        if exponent.denominator().equal(&two) {
            let n = exponent.shifted_big_integer(1);
            proof {
                assert(n@ == exponent.num() * 2 / 2);
                assert(n@ == exponent.num());
            }
            let ghost x = self;
            let p = self.powi(n);
            proof {
                assert(Self::powi_spec(p, x, exponent.num()));
            }
            match p {
                Ok(v) => v.sqrt(),
                Err(e) => Err(e),
            }
        } else {
            let y = Self::new(exponent);
            let res = self.pow_arb(y);
            proof {
                assert(Self::pow_arb_spec(res, self, y));
            }
            res
        }
    }

    /// Is this real `e`, to the power one, times some rational?
    pub open spec fn is_times_e(x: Real) -> bool {
        x.class_spec() matches Class::Exp(n) && n.is_int_value(1)
    }

    /// `q` is the rational `r` as a real.
    pub open spec fn rational_real(q: Real, r: Rational) -> bool {
        q.class_spec() is One && q.rational_spec() == r
    }

    /// What `pow` gives for `x` and `y`.  For `e` times a rational other
    /// than one: the rational to the power `y` (of a copy of `y`), times
    /// `e` to the power `y`; the first problem met is the answer.
    pub open spec fn pow_spec(res: Result<Real, Problem>, x: Real, y: Real) -> bool
        decreases
            if Self::is_times_e(x) {
                1int
            } else {
                0int
            },
    {
        if Self::is_times_e(x) {
            if x.rational_spec().is_int_value(1) {
                Self::exp_spec(res, y)
            } else {
                exists|q: Real, y2: Real, l: Result<Real, Problem>|
                    #![trigger Self::rational_real(q, x.rational_spec()), y2.is_copy_of(y), candidate(l)]
                    Self::rational_real(q, x.rational_spec()) && y2.is_copy_of(y) && candidate(l)
                        && if q.class_spec() is One {
                        Self::pow_spec(l, q, y2) && match l {
                            Err(e) => res == Err::<Real, Problem>(e),
                            Ok(lv) => exists|ev: Result<Real, Problem>|
                                #[trigger] candidate(ev) && Self::exp_spec(ev, y) && match ev {
                                    Err(e2) => res == Err::<Real, Problem>(e2),
                                    Ok(e) => res matches Ok(r) && Self::mul_spec(r, lv, e),
                                },
                        }
                    } else {
                        false
                    }
            }
        } else if y.class_spec() is One {
            if y.rational_spec().den() == 1 {
                Self::powi_spec(res, x, y.rational_spec().num())
            } else {
                Self::pow_fraction_spec(res, x, y.rational_spec())
            }
        } else if y.rational_spec().num() == 0 {
            Self::powi_spec(res, x, 0)
        } else {
            Self::pow_arb_spec(res, x, y)
        }
    }

    /// Raise this Real to a real power.  For `e` times a rational the
    /// exponential of the exponent is used; rational exponents go through
    /// whole powers and square roots where they can.
    pub fn pow(self, exponent: Self) -> (res: Result<Self, Problem>)
        ensures
            Self::pow_spec(res, self, exponent),
        decreases
            if self.class_spec() is Exp {
                1int
            } else {
                0int
            },
    {
        proof {
            use_type_invariant(&self);
            use_type_invariant(&exponent);
        }
        let one = Rational::one();
        let is_e = match &self.class {
            Class::Exp(n) => {
                proof {
                    use_type_invariant(n);
                    use_type_invariant(&one);
                }
                let b = n.equals(&one);
                proof {
                    if b {
                        n.lemma_same_value_same_terms(one);
                    }
                }
                b
            },
            _ => false,
        };
        if is_e {
            proof {
                use_type_invariant(&self.rational);
            }
            if self.rational.equals(&one) {
                proof {
                    use_type_invariant(&one);
                    self.rational.lemma_same_value_same_terms(one);
                }
                return exponent.exp();
            } else {
                let ghost x = self;
                let base = Self::new(self.rational);
                let y2 = exponent.clone();
                let ghost gy2 = y2;
                let ghost gbase = base;
                let l = base.pow(y2);
                proof {
                    assert(Self::rational_real(gbase, x.rational_spec()));
                    assert(gy2.is_copy_of(exponent));
                    assert(candidate(l));
                }
                let left = match l {
                    Ok(l) => l,
                    Err(e) => {
                        return Err(e);
                    },
                };
                let ev = exponent.exp();
                proof {
                    assert(candidate(ev));
                }
                let e = match ev {
                    Ok(e) => e,
                    Err(err) => {
                        return Err(err);
                    },
                };
                let res = left.mul(e);
                proof {
                    assert(Self::mul_spec(res, left, e));
                }
                return Ok(res);
            }
        }
        if exponent.class.is_one() {
            let r = exponent.rational;
            match r.to_big_integer() {
                Some(n) => {
                    return self.powi(n);
                },
                None => {
                    return self.pow_fraction(r);
                },
            }
        }
        if exponent.definitely_zero() {
            return self.powi(Integer::zero());
        }
        self.pow_arb(exponent)
    }
}

} // verus!
