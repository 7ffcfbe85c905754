//! Square roots, exponentials, logarithms and trigonometric functions of
//! reals, exact where the class of the argument allows.

use vstd::prelude::*;
use vstd::arithmetic::power2::pow2;
use vstd::arithmetic::power::{
    pow,
    lemma_pow1,
    lemma1_pow,
    lemma_pow_adds,
    lemma_pow_positive,
    lemma_pow_increases,
};

use crate::computable::{Computable, Node};
use crate::rational::{
    Rational,
    abs,
    sign_of,
    sign_product,
    square_times,
    square_witness,
    is_perfect_square,
    squarefree,
    square_search_limit,
    lemma_squarefree_root_irrational,
    lemma_gcd_symmetric,
    lemma_lowest_terms_unique,
};
use crate::natural::{Integer, Natural, gcd, lemma_common_divisor_divides_gcd, lemma_gcd_divides};
use crate::reals::{Class, Real, class_valid};
use crate::{Problem, Sign};

verus! {

/// The one-argument functions a computable number can apply.
pub enum Function {
    Exp,
    Ln,
    Sqrt,
    Sin,
    Cos,
    Tan,
}

impl Real {
    /// This real is irrational with rational factor one, its computable
    /// part being `f` applied to the folded value of `x`.
    pub open spec fn is_function_of(self, f: Function, x: Real) -> bool {
        &&& self.class_spec() is Irrational
        &&& self.rational_spec().is_int_value(1)
        &&& match (f, self.computable_spec().node_spec()) {
            (Function::Exp, Node::Exp(c)) => x.folds_to(c),
            (Function::Ln, Node::Ln(c)) => x.folds_to(c),
            (Function::Sqrt, Node::Sqrt(c)) => x.folds_to(c),
            (Function::Sin, Node::Sin(c)) => x.folds_to(c),
            (Function::Cos, Node::Cos(c)) => x.folds_to(c),
            (Function::Tan, Node::Tan(c)) => x.folds_to(c),
            _ => false,
        }
    }

    /// `f` of this real, as an irrational computed from its folded value.
    fn make_computable(self, f: Function) -> (res: Real)
        ensures
            res.is_function_of(f, self),
    {
        let ghost x = self;
        let c = self.fold();
        let computable = match f {
            Function::Exp => c.exp(),
            Function::Ln => c.ln(),
            Function::Sqrt => c.sqrt(),
            Function::Sin => c.sin(),
            Function::Cos => c.cos(),
            Function::Tan => c.tan(),
        };
        Self::make_irrational(computable)
    }

    /// Our best attempt to discern the [`Sign`] of this Real: exact for
    /// every class but the irrational one, where the computable part is
    /// asked for its sign.
    pub fn best_sign(&self) -> (res: Sign)
        ensures
            !(self.class_spec() is Irrational) ==> res == sign_of(self.rational_spec().num()),
            self.class_spec() is Irrational && self.rational_spec().num() == 0 ==> res
                == Sign::NoSign,
            self.class_spec() is Irrational ==> exists|c: Sign| res == sign_product(
                sign_of(self.rational_spec().num()),
                c,
            ),
            self.class_spec() is Irrational && crate::computable::exact_value(
                self.computable_spec().node_spec(),
            ) is None ==> irrational_sign_allowed(*self, res),
            self.class_spec() is Irrational ==> (crate::computable::exact_value(
                self.computable_spec().node_spec(),
            ) matches Some((n, d)) ==> res == sign_product(
                sign_of(self.rational_spec().num()),
                sign_of(n * d),
            )),
    {
        proof {
            use_type_invariant(self);
        }
        match &self.class {
            Class::Irrational => {
                let c = self.computable.sign();
                let r = self.rational.sign();
                let res = crate::rational::multiply_signs(r, c);
                assert(res == sign_product(sign_of(self.rational_spec().num()), c));
                res
            },
            _ => self.rational.sign(),
        }
    }
}

/// `s` is the sign of the rational factor of `x` times that of some
/// approximation of its computable part.
pub open spec fn sign_seen(x: Real, s: Sign) -> bool {
    exists|w: nat, v: int|
        #![trigger crate::computable::approximates(x.computable_spec().node_spec(), w, v, x.computable_spec().signal_spec() is Some)]
        crate::computable::approximates(
            x.computable_spec().node_spec(),
            w,
            v,
            x.computable_spec().signal_spec() is Some,
        ) && s == sign_product(sign_of(x.rational_spec().num()), sign_of(v))
}

/// A sign that `best_sign` may give for a real of the irrational class
/// whose computable number is not a rational expression: the sign seen in
/// an approximation, and no sign only where the computation was asked to
/// stop or the number looks like zero.
pub open spec fn irrational_sign_allowed(x: Real, s: Sign) -> bool {
    &&& s == Sign::NoSign || sign_seen(x, s)
    &&& s == Sign::NoSign ==> x.computable_spec().signal_spec() is Some
        || crate::computable::looks_zero(
        x.computable_spec().node_spec(),
        x.computable_spec().signal_spec() is Some,
    )
}

/// The rational is small enough to have its square part taken out.
pub open spec fn small_for_roots(x: Rational) -> bool {
    abs(x.num()) * x.den() < square_search_limit()
}

/// `r` is the square root of the positive rational `x`: a non-negative
/// rational when `x` is a perfect square, otherwise a rational times the
/// square root of a squarefree integer.
pub open spec fn is_root_of(r: Real, x: Rational) -> bool {
    &&& r.rational_spec().num() >= 0
    &&& if is_perfect_square(x) {
        r.class_spec() is One && square_times(r.rational_spec(), 1, x)
    } else {
        r.class_spec() matches Class::Sqrt(b) && squarefree(b.num() as nat) && square_times(
            r.rational_spec(),
            b.num(),
            x,
        )
    }
}

/// After taking the square part `a` out of a positive `x`, the squarefree
/// rest is one exactly when `x` is a perfect square.
pub proof fn lemma_rest_one_iff_square(x: Rational, a: Rational, b: Rational)
    requires
        x.num() > 0,
        x.den() > 0,
        a.den() > 0,
        a.num() >= 0,
        b.num() >= 1,
        squarefree(b.num() as nat),
        a.num() * a.num() * b.num() * x.den() == x.num() * (a.den() * a.den()),
    ensures
        (b.num() == 1) <==> is_perfect_square(x),
{
    if b.num() == 1 {
        assert(square_witness(x, a.num(), a.den() as int));
    }
    if is_perfect_square(x) && b.num() != 1 {
        let (n, d) = choose|n: int, d: int| #[trigger] square_witness(x, n, d);
        let an = a.num();
        let ad = a.den() as int;
        let xd = x.den() as int;
        let xn = x.num();
        let bn = b.num();
        assert(an > 0) by (nonlinear_arith)
            requires
                an * an * bn * xd == xn * (ad * ad),
                xn > 0,
                ad > 0,
                an >= 0,
        ;
        let big_n = n * ad;
        let big_d = d * an;
        assert(big_d > 0) by (nonlinear_arith)
            requires
                big_d == d * an,
                d > 0,
                an > 0,
        ;
        let nn = n * n;
        let dd = d * d;
        let aa = an * an;
        let adad = ad * ad;
        assert(big_n * big_n == nn * adad) by (nonlinear_arith)
            requires
                big_n == n * ad,
                nn == n * n,
                adad == ad * ad,
        ;
        assert(big_d * big_d == dd * aa) by (nonlinear_arith)
            requires
                big_d == d * an,
                dd == d * d,
                aa == an * an,
        ;
        assert(nn * adad * xd == (nn * xd) * adad) by (nonlinear_arith);
        assert(nn * xd == xn * dd);
        assert(bn * (dd * aa) * xd == dd * (aa * bn * xd)) by (nonlinear_arith);
        assert(aa * bn * xd == xn * adad);
        assert((xn * dd) * adad == dd * (xn * adad)) by (nonlinear_arith);
        assert(big_n * big_n * xd == bn * (big_d * big_d) * xd);
        assert(big_n * big_n == bn * (big_d * big_d)) by (nonlinear_arith)
            requires
                big_n * big_n * xd == bn * (big_d * big_d) * xd,
                xd > 0,
        ;
        lemma_squarefree_root_irrational(bn as nat, big_n, big_d);
    }
}

impl Real {
    /// What `exp` gives for `x`.
    pub open spec fn exp_spec(res: Result<Real, Problem>, x: Real) -> bool {
        &&& res matches Err(e) ==> e == Problem::OutOfRange
        &&& x.rational_spec().num() == 0 ==> (res matches Ok(r) && r.is_rational_times(
            1,
            Class::One,
        ))
        &&& x.rational_spec().num() != 0 ==> match x.class_spec() {
            Class::One => res matches Ok(r) && r.rational_spec().is_int_value(1) && (
            r.class_spec() matches Class::Exp(q) && q.num() == x.rational_spec().num() && q.den()
                == x.rational_spec().den()) && (r.computable_spec().node_spec() matches Node::Exp(
                c,
            ) && c.node_spec() == Node::Ratio(x.rational_spec())),
            Class::Ln(l) => if x.rational_spec().den() == 1 {
                let n = x.rational_spec().num();
                if abs(n) > u64::MAX {
                    res is Err
                } else {
                    res matches Ok(r) && r.class_spec() is One && r.rational_spec().same_value(
                        crate::reals::arith::power_num(l, n),
                        crate::reals::arith::power_den(l, n),
                    )
                }
            } else {
                res matches Ok(r) && r.is_function_of(Function::Exp, x)
            },
            _ => res matches Ok(r) && r.is_function_of(Function::Exp, x),
        }
    }
}

impl Real {
    /// What `sqrt` gives for `x`.
    pub open spec fn sqrt_spec(res: Result<Real, Problem>, x: Real) -> bool {
        &&& res matches Err(e) ==> e == Problem::SqrtNegative
        &&& !(x.class_spec() is Irrational) ==> (res is Err <==> x.rational_spec().num() < 0)
        &&& x.class_spec() is Irrational ==> (crate::computable::exact_value(
            x.computable_spec().node_spec(),
        ) matches Some((n, d)) ==> (res is Err <==> sign_product(
            sign_of(x.rational_spec().num()),
            sign_of(n * d),
        ) == Sign::Minus))
        &&& x.class_spec() is Irrational && crate::computable::exact_value(
            x.computable_spec().node_spec(),
        ) is None ==> exists|s: Sign|
            #![trigger irrational_sign_allowed(x, s)]
            irrational_sign_allowed(x, s) && (res is Err <==> s == Sign::Minus)
        &&& x.rational_spec().num() == 0 ==> (res matches Ok(r) && r.is_rational_times(
            0,
            Class::One,
        ))
        &&& res matches Ok(r) ==> (x.rational_spec().num() != 0 ==> match x.class_spec() {
            Class::One => if small_for_roots(x.rational_spec()) {
                is_root_of(r, x.rational_spec())
            } else {
                r.is_function_of(Function::Sqrt, x)
            },
            Class::Pi => if small_for_roots(x.rational_spec()) && is_perfect_square(
                x.rational_spec(),
            ) {
                &&& r.class_spec() is Irrational
                &&& r.rational_spec().num() >= 0
                &&& square_times(r.rational_spec(), 1, x.rational_spec())
                &&& r.computable_spec().node_spec() == Node::Sqrt(x.computable_spec())
            } else {
                r.is_function_of(Function::Sqrt, x)
            },
            Class::Exp(q) => if small_for_roots(x.rational_spec()) && is_perfect_square(
                x.rational_spec(),
            ) {
                &&& r.class_spec() matches Class::Exp(h) && h.same_value(
                    q.num(),
                    (2 * q.den()) as int,
                )
                &&& r.rational_spec().num() >= 0
                &&& square_times(r.rational_spec(), 1, x.rational_spec())
            } else {
                r.is_function_of(Function::Sqrt, x)
            },
            _ => r.is_function_of(Function::Sqrt, x),
        })
    }
}

impl Real {
    /// The square root of this Real, or `SqrtNegative` if it is negative.
    pub fn sqrt(self) -> (res: Result<Real, Problem>)
        ensures
            Self::sqrt_spec(res, self),
    {
        proof {
            use_type_invariant(&self);
            use_type_invariant(&self.rational);
        }
        if self.best_sign() == Sign::Minus {
            return Err(Problem::SqrtNegative);
        }
        if self.definitely_zero() {
            return Ok(Self::zero());
        }
        let ghost x = self.rational;
        match &self.class {
            Class::One => {
                if self.rational.extract_square_will_succeed() {
                    let (square, rest) = self.rational.extract_square_reduced();
                    let one = Rational::one();
                    proof {
                        use_type_invariant(&square);
                        use_type_invariant(&rest);
                        lemma_rest_one_iff_square(x, square, rest);
                    }
                    if rest.equals(&one) {
                        return Ok(Self::build(square, Class::One, Computable::one()));
                    } else {
                        let r2 = rest.clone();
                        let c = Computable::sqrt_rational(r2);
                        return Ok(Self::build(square, Class::Sqrt(rest), c));
                    }
                }
            },
            Class::Pi => {
                if self.rational.extract_square_will_succeed() {
                    let (square, rest) = self.rational.extract_square_reduced();
                    let one = Rational::one();
                    proof {
                        use_type_invariant(&square);
                        use_type_invariant(&rest);
                        lemma_rest_one_iff_square(x, square, rest);
                    }
                    if rest.equals(&one) {
                        return Ok(Self::build(square, Class::Irrational, self.computable.sqrt()));
                    }
                }
            },
            Class::Exp(exp) => {
                if self.rational.extract_square_will_succeed() {
                    let (square, rest) = self.rational.extract_square_reduced();
                    let one = Rational::one();
                    proof {
                        use_type_invariant(&square);
                        use_type_invariant(&rest);
                        lemma_rest_one_iff_square(x, square, rest);
                    }
                    if rest.equals(&one) {
                        let two = Rational::new(2);
                        let half = exp.div(&two);
                        proof {
                            use_type_invariant(&half);
                            use_type_invariant(exp);
                            assert(half.num() != 0) by (nonlinear_arith)
                                requires
                                    half.num() * (exp.den() * 2) == exp.num() * 1 * half.den(),
                                    exp.num() != 0,
                                    half.den() > 0,
                            ;
                        }
                        let h2 = half.clone();
                        return Ok(Self::build(square, Class::Exp(half), Computable::e(h2)));
                    }
                }
            },
            _ => {},
        }
        Ok(self.make_computable(Function::Sqrt))
    }

    /// The exponential function of this Real.  An integer multiple of a
    /// logarithm gives a rational power, `OutOfRange` when the multiple is
    /// beyond the `u64` range.
    pub fn exp(self) -> (res: Result<Real, Problem>)
        ensures
            Self::exp_spec(res, self),
    {
        proof {
            use_type_invariant(&self);
            use_type_invariant(&self.rational);
        }
        if self.definitely_zero() {
            return Ok(Self::new(Rational::one()));
        }
        match &self.class {
            Class::One => {
                let q = self.rational.clone();
                let c = Computable::e(self.rational);
                return Ok(Self::build(Rational::one(), Class::Exp(q), c));
            },
            Class::Ln(ln) => {
                if let Some(k) = self.rational.to_big_integer() {
                    proof {
                        use_type_invariant(ln);
                    }
                    return match ln.powi(&k) {
                        Ok(p) => Ok(Self::new(p)),
                        Err(e) => Err(e),
                    };
                }
            },
            _ => {},
        }
        Ok(self.make_computable(Function::Exp))
    }
}

/// `n` is a power of `base` with an exponent of at least one.
pub open spec fn is_power_of(n: nat, base: nat) -> bool {
    exists|m: nat| m >= 1 && #[trigger] pow(base as int, m) == n
}

proof fn lemma_pow_at_least_pow2(b: nat, k: nat)
    requires
        b >= 2,
    ensures
        pow(b as int, k) >= pow2(k),
    decreases k,
{
    reveal(pow);
    if k > 0 {
        lemma_pow_at_least_pow2(b, (k - 1) as nat);
        vstd::arithmetic::power2::lemma_pow2_unfold(k);
        lemma_pow_positive(b as int, (k - 1) as nat);
        assert(b * pow(b as int, (k - 1) as nat) >= 2 * pow2((k - 1) as nat)) by (nonlinear_arith)
            requires
                b >= 2,
                pow(b as int, (k - 1) as nat) >= pow2((k - 1) as nat),
        ;
    }
}

/// A number at least `2^k` has more than `k` binary digits.
proof fn lemma_bits_above(x: nat, bx: nat, k: nat)
    requires
        x >= pow2(k),
        x < pow2(bx),
    ensures
        k < bx,
{
    if bx <= k {
        if bx < k {
            vstd::arithmetic::power2::lemma_pow2_strictly_increases(bx, k);
        }
    }
}

/// The number of binary digits of `x`.
pub open spec fn has_bits(x: nat, b: nat) -> bool {
    &&& x == 0 ==> b == 0
    &&& x > 0 ==> pow2((b - 1) as nat) <= x < pow2(b)
}

/// Raising a base of at least two to a larger power gives more binary
/// digits, and to a power at most as large, at most as many.
proof fn lemma_power_bits(base: nat, a: nat, b: nat, ba: nat, bb: nat)
    requires
        base >= 2,
        has_bits(pow(base as int, a) as nat, ba),
        has_bits(pow(base as int, b) as nat, bb),
    ensures
        a > b ==> ba > bb,
        a <= b ==> ba <= bb,
{
    let x = pow(base as int, a);
    let y = pow(base as int, b);
    lemma_pow_positive(base as int, a);
    lemma_pow_positive(base as int, b);
    assert(bb >= 1 && ba >= 1) by {
        if bb == 0 {
            assert(pow2(0) == 1) by {
                vstd::arithmetic::power2::lemma2_to64();
            }
        }
        if ba == 0 {
            assert(pow2(0) == 1) by {
                vstd::arithmetic::power2::lemma2_to64();
            }
        }
    }
    if a > b {
        lemma_pow_adds(base as int, b, (a - b) as nat);
        lemma_pow_increases(base, 1, (a - b) as nat);
        lemma_pow1(base as int);
        assert(x >= 2 * y) by (nonlinear_arith)
            requires
                x == y * pow(base as int, (a - b) as nat),
                pow(base as int, (a - b) as nat) >= base,
                base >= 2,
                y > 0,
        ;
        vstd::arithmetic::power2::lemma_pow2_unfold(bb);
        lemma_bits_above(x as nat, ba, bb);
    } else {
        lemma_pow_increases(base, a, b);
        if ba > bb {
            if ba - 1 > bb {
                vstd::arithmetic::power2::lemma_pow2_strictly_increases(bb, (ba - 1) as nat);
            }
        }
    }
}

/// `Some(m)` with `base^m == n` and `m` at least one, found by dividing by
/// the squares `base^2`, `base^4`, ... and then by the powers on the way
/// back down; `None` when `n` is no such power.
fn integer_log(n: &Natural, base: u32) -> (res: Option<u64>)
    requires
        n@ > 0,
        base >= 2,
    ensures
        res matches Some(m) ==> m >= 1 && pow(base as int, m as nat) == n@,
        is_power_of(n@, base as nat) ==> res is Some,
{
    let ghost b = base as nat;
    let ghost is_power = is_power_of(n@, b);
    let ghost mm: nat = choose|m: nat| m >= 1 && #[trigger] pow(base as int, m) == n@;
    let mut total: u64 = 0;
    let mut powers: Vec<Natural> = Vec::new();
    let mut steps: Vec<u128> = Vec::new();
    let mut next = Natural::from_u64(base as u64);
    let mut step: u128 = 1;
    powers.push(next.clone());
    steps.push(step);
    let mut reduced = n.clone();
    proof {
        lemma_pow1(base as int);
        vstd::arithmetic::power::lemma_pow0(base as int);
        vstd::arithmetic::power2::lemma2_to64();
    }
    let bits_n = n.bits();
    loop
        invariant_except_break
            step == steps@[steps@.len() - 1],
            next@ == pow(base as int, step as nat),
            step <= u64::MAX,
        invariant
            powers@.len() == steps@.len(),
            powers@.len() >= 1,
            forall|j: int|
                0 <= j < powers@.len() ==> #[trigger] powers@[j]@ == pow(
                    base as int,
                    steps@[j] as nat,
                ),
            steps@[0] == 1,
            forall|j: int| 0 < j < steps@.len() ==> #[trigger] steps@[j] == 2 * steps@[j - 1],
            forall|j: int| 0 <= j < steps@.len() ==> #[trigger] steps@[j] >= 1,
            step >= 1,
            n@ == reduced@ * pow(base as int, total as nat),
            reduced@ >= 1,
            base >= 2,
            b == base,
            has_bits(n@, bits_n as nat),
            n@ > 0,
            is_power == is_power_of(n@, b),
            is_power ==> mm >= 1 && pow(base as int, mm) == n@,
            is_power ==> total <= mm && reduced@ == pow(base as int, (mm - total) as nat),
        ensures
            step == 2 * steps@[steps@.len() - 1],
            is_power ==> mm - total < step,
        decreases reduced@,
    {
        let ghost old_step = step;
        next = next.mul(&next);
        step = step * 2;
        proof {
            lemma_pow_adds(base as int, old_step as nat, old_step as nat);
            lemma_pow_positive(base as int, step as nat);
            lemma_pow_positive(base as int, old_step as nat);
            lemma_pow_increases(b, 1, old_step as nat);
            lemma_pow1(base as int);
        }
        let bits_next = next.bits();
        let bits_reduced = reduced.bits();
        proof {
            if is_power {
                lemma_power_bits(b, step as nat, (mm - total) as nat, bits_next as nat, bits_reduced as nat);
            }
        }
        if bits_next > bits_reduced {
            proof {
                if is_power {
                    assert(step > mm - total);
                }
            }
            break;
        }
        let (div, rem) = reduced.div_rem(&next);
        proof {
            lemma_pow_at_least_pow2(b, step as nat);
            lemma_bits_above(next@, bits_next as nat, step as nat);
            if is_power {
                let r = (mm - total) as nat;
                assert(step <= r);
                lemma_pow_adds(base as int, step as nat, (r - step) as nat);
                lemma_pow_positive(base as int, (r - step) as nat);
                vstd::arithmetic::div_mod::lemma_mod_multiples_basic(
                    pow(base as int, (r - step) as nat),
                    next@ as int,
                );
                vstd::arithmetic::div_mod::lemma_div_multiples_vanish(
                    pow(base as int, (r - step) as nat),
                    next@ as int,
                );
                vstd::arithmetic::mul::lemma_mul_is_commutative(
                    next@ as int,
                    pow(base as int, (r - step) as nat),
                );
            }
        }
        if !rem.is_zero() {
            return None;
        }
        proof {
            assert(next@ >= 4) by (nonlinear_arith)
                requires
                    next@ == pow(base as int, old_step as nat) * pow(base as int, old_step as nat),
                    pow(base as int, old_step as nat) >= base,
                    base >= 2,
            ;
            assert(reduced@ == next@ * div@) by {
                vstd::arithmetic::div_mod::lemma_fundamental_div_mod(reduced@ as int, next@ as int);
            }
            assert(div@ >= 1 && div@ < reduced@) by (nonlinear_arith)
                requires
                    reduced@ == next@ * div@,
                    reduced@ >= 1,
                    next@ >= 4,
            ;
        }
        if total as u128 > u64::MAX as u128 - step {
            proof {
                if is_power {
                    lemma_pow_at_least_pow2(b, mm);
                    lemma_bits_above(n@, bits_n as nat, mm);
                }
            }
            return None;
        }
        proof {
            lemma_pow_adds(base as int, total as nat, step as nat);
            assert(n@ == div@ * pow(base as int, (total + step) as nat)) by (nonlinear_arith)
                requires
                    n@ == reduced@ * pow(base as int, total as nat),
                    reduced@ == next@ * div@,
                    next@ == pow(base as int, step as nat),
                    pow(base as int, (total + step) as nat) == pow(base as int, total as nat)
                        * pow(base as int, step as nat),
            ;
            if is_power {
                let r = (mm - total) as nat;
                assert(div@ == pow(base as int, (r - step) as nat));
            }
        }
        let ghost old_steps = steps@;
        powers.push(next.clone());
        steps.push(step);
        proof {
            assert(steps@[steps@.len() - 1] == 2 * steps@[steps@.len() - 2]);
            assert forall|j: int| 0 < j < steps@.len() implies #[trigger] steps@[j] == 2 * steps@[j - 1] by {
                if j < steps@.len() - 1 {
                    assert(steps@[j] == old_steps[j]);
                    assert(steps@[j - 1] == old_steps[j - 1]);
                }
            }
            assert forall|j: int| 0 <= j < steps@.len() implies #[trigger] steps@[j] >= 1 by {
                if j < steps@.len() - 1 {
                    assert(steps@[j] == old_steps[j]);
                }
            }
        }
        total = total + step as u64;
        reduced = div;
    }
    let ghost bound: nat = step as nat;
    let one = Natural::from_u64(1);
    while powers.len() > 0
        invariant_except_break
            powers@.len() > 0 ==> bound == 2 * steps@[steps@.len() - 1],
            powers@.len() == 0 ==> bound == 1,
            is_power ==> mm - total < bound,
        invariant
            powers@.len() == steps@.len(),
            forall|j: int|
                0 <= j < powers@.len() ==> #[trigger] powers@[j]@ == pow(
                    base as int,
                    steps@[j] as nat,
                ),
            powers@.len() > 0 ==> steps@[0] == 1,
            forall|j: int| 0 < j < steps@.len() ==> #[trigger] steps@[j] == 2 * steps@[j - 1],
            forall|j: int| 0 <= j < steps@.len() ==> #[trigger] steps@[j] >= 1,
            n@ == reduced@ * pow(base as int, total as nat),
            one@ == 1,
            base >= 2,
            b == base,
            has_bits(n@, bits_n as nat),
            n@ > 0,
            is_power == is_power_of(n@, b),
            is_power ==> mm >= 1 && pow(base as int, mm) == n@,
            is_power ==> total <= mm && reduced@ == pow(base as int, (mm - total) as nat),
        ensures
            n@ == reduced@ * pow(base as int, total as nat),
            is_power ==> total <= mm && reduced@ == pow(base as int, (mm - total) as nat),
            is_power ==> mm - total < 1 || reduced@ == 1,
        decreases powers@.len(),
    {
        let ghost old_steps = steps@;
        let power = powers.pop().unwrap();
        let s = steps.pop().unwrap();
        proof {
            assert(power@ == pow(base as int, s as nat));
            lemma_pow_positive(base as int, s as nat);
            if steps@.len() > 0 {
                assert(s == old_steps[old_steps.len() - 1]);
                assert(s == 2 * steps@[steps@.len() - 1]);
            } else {
                assert(s == old_steps[0]);
            }
        }
        if reduced.equal(&one) {
            break;
        }
        let bits_power = power.bits();
        let bits_reduced = reduced.bits();
        proof {
            if is_power {
                lemma_power_bits(b, s as nat, (mm - total) as nat, bits_power as nat, bits_reduced as nat);
            }
        }
        if bits_power > bits_reduced {
            proof {
                bound = s as nat;
            }
            continue;
        }
        let (div, rem) = reduced.div_rem(&power);
        proof {
            if is_power {
                let r = (mm - total) as nat;
                assert(s <= r);
                lemma_pow_adds(base as int, s as nat, (r - s) as nat);
                lemma_pow_positive(base as int, (r - s) as nat);
                vstd::arithmetic::div_mod::lemma_mod_multiples_basic(
                    pow(base as int, (r - s) as nat),
                    power@ as int,
                );
                vstd::arithmetic::div_mod::lemma_div_multiples_vanish(
                    pow(base as int, (r - s) as nat),
                    power@ as int,
                );
                vstd::arithmetic::mul::lemma_mul_is_commutative(
                    power@ as int,
                    pow(base as int, (r - s) as nat),
                );
            }
        }
        if !rem.is_zero() {
            return None;
        }
        if s > u64::MAX as u128 || total > u64::MAX - s as u64 {
            proof {
                if is_power {
                    lemma_pow_at_least_pow2(b, mm);
                    lemma_bits_above(n@, bits_n as nat, mm);
                }
            }
            return None;
        }
        proof {
            assert(reduced@ == power@ * div@) by {
                vstd::arithmetic::div_mod::lemma_fundamental_div_mod(reduced@ as int, power@ as int);
            }
            lemma_pow_adds(base as int, total as nat, s as nat);
            assert(n@ == div@ * pow(base as int, (total + s) as nat)) by (nonlinear_arith)
                requires
                    n@ == reduced@ * pow(base as int, total as nat),
                    reduced@ == power@ * div@,
                    power@ == pow(base as int, s as nat),
                    pow(base as int, (total + s) as nat) == pow(base as int, total as nat)
                        * pow(base as int, s as nat),
            ;
            if is_power {
                let r = (mm - total) as nat;
                assert(div@ == pow(base as int, (r - s) as nat));
            }
            bound = s as nat;
        }
        total = total + s as u64;
        reduced = div;
    }
    proof {
        if is_power {
            if mm - total < 1 {
                assert(reduced@ == pow(base as int, 0));
            }
            assert(reduced@ == 1);
            if mm - total > 0 {
                lemma_pow_increases(b, 1, (mm - total) as nat);
            }
            assert(total == mm);
        }
    }
    if reduced.equal(&one) && total > 0 {
        Some(total)
    } else {
        None
    }
}

/// `res` is `k` times the natural logarithm of a rational `b` above one,
/// for a non-zero whole `k` with `b^k == x`.
pub open spec fn is_ln_of(res: Real, x: Rational) -> bool {
    &&& res.rational_spec().den() == 1
    &&& res.rational_spec().num() != 0
    &&& abs(res.rational_spec().num()) <= u64::MAX
    &&& res.class_spec() matches Class::Ln(b) && {
        let k = res.rational_spec().num();
        &&& k > 0 ==> x.same_value(pow(b.num(), abs(k)), pow(b.den() as int, abs(k)))
        &&& k < 0 ==> x.same_value(pow(b.den() as int, abs(k)), pow(b.num(), abs(k)))
    }
}

/// The bases whose logarithms are kept symbolic for whole powers, in the
/// order in which they are tried.
pub open spec fn small_bases() -> Seq<nat> {
    seq![2nat, 3, 5, 6, 7, 10]
}

/// The first of `small_bases()`, from position `k` on, of which `n` is a
/// power with an exponent of at least one.
pub open spec fn first_small_base_from(n: nat, k: nat) -> Option<nat>
    decreases 6 - k,
{
    if k >= 6 {
        None
    } else if is_power_of(n, small_bases()[k as int]) {
        Some(small_bases()[k as int])
    } else {
        first_small_base_from(n, k + 1)
    }
}

/// The first of the small bases of which `n` is a power.
pub open spec fn first_small_base(n: nat) -> Option<nat> {
    first_small_base_from(n, 0)
}

/// `res` is `k` times the logarithm of the whole number `base`.
pub open spec fn is_ln_of_base(res: Real, base: nat) -> bool {
    res.class_spec() matches Class::Ln(b) && b.num() == base && b.den() == 1
}

/// The logarithm of `x`, a rational above zero. It is zero for one. For a
/// whole power of one of the small bases (or the inverse of one), it is a
/// whole multiple of the logarithm of the first such base; otherwise it is
/// one times the logarithm of `x` above one, and minus one times the
/// logarithm of `1/x` below one.
pub open spec fn ln_rational_result(res: Real, x: Rational) -> bool {
    if x.num() == x.den() {
        res.is_rational_times(0, Class::One)
    } else {
        let above = x.num() > x.den();
        let top: int = if above { x.num() } else { x.den() as int };
        let bottom: int = if above { x.den() as int } else { x.num() };
        &&& is_ln_of(res, x)
        &&& match (if bottom == 1 { first_small_base(top as nat) } else { None }) {
            Some(base) => is_ln_of_base(res, base),
            None => {
                &&& res.rational_spec().is_int_value(if above { 1 } else { -1 })
                &&& res.class_spec() matches Class::Ln(b) && b.same_value(top, bottom)
            },
        }
    }
}

impl Real {
    /// For an integer above one that is a power of 2, 3, 5, 6, 7 or 10,
    /// the exponent times the logarithm of that base.
    fn ln_small(r: &Rational) -> (res: Option<Real>)
        requires
            r.num() > r.den(),
            r.den() > 0,
        ensures
            res is Some <==> r.den() == 1 && first_small_base(r.num() as nat) is Some,
            res matches Some(x) ==> r.den() == 1 && is_ln_of(x, *r) && x.rational_spec().num() > 0
                && is_ln_of_base(x, first_small_base(r.num() as nat)->0),
    {
        let n = match r.to_big_integer() {
            Some(n) => n,
            None => {
                return None;
            },
        };
        let n = n.magnitude();
        let bases: [u32; 6] = [2, 3, 5, 6, 7, 10];
        let mut k: usize = 0;
        while k < 6
            invariant
                n@ == r.num(),
                r.den() == 1,
                r.num() > 1,
                bases@ == seq![2u32, 3, 5, 6, 7, 10],
                k <= 6,
                first_small_base(r.num() as nat) == first_small_base_from(r.num() as nat, k as nat),
            decreases 6 - k,
        {
            let base = bases[k];
            assert(base as nat == small_bases()[k as int]);
            if let Some(m) = integer_log(n, base) {
                assert(pow(base as int, m as nat) == n@);
                assert(is_power_of(n@, base as nat));
                let b = Rational::new(base as i64);
                let b2 = b.clone();
                let count = Rational::from_bigint(Integer::from_natural(Natural::from_u64(m)));
                proof {
                    lemma1_pow(m as nat);
                    assert(r.same_value(pow(b.num(), m as nat), pow(b.den() as int, m as nat)));
                }
                let c = Computable::ln(Computable::rational(b2));
                return Some(Self::build(count, Class::Ln(b), c));
            }
            k = k + 1;
        }
        None
    }

    /// The natural logarithm of a positive rational, using the logarithm
    /// of a rational above one: `ln(1/2)` is written as `-ln(2)`.
    pub(crate) fn ln_rational(r: Rational) -> (res: Result<Real, Problem>)
        requires
            r.num() > 0,
        ensures
            res matches Ok(x) && ln_rational_result(x, r),
    {
        proof {
            use_type_invariant(&r);
        }
        let one = Rational::one();
        if r.less(&one) {
            proof {
                assert(r.num() < r.den()) by (nonlinear_arith)
                    requires
                        r.num() * one.den() < one.num() * r.den(),
                        one.num() == 1,
                        one.den() == 1,
                ;
            }
            let inv = match r.inverse() {
                Ok(i) => i,
                Err(e) => {
                    return Err(e);
                },
            };
            proof {
                use_type_invariant(&inv);
                assert(inv.num() > inv.den()) by (nonlinear_arith)
                    requires
                        inv.num() * r.num() == r.den() * inv.den(),
                        r.num() < r.den(),
                        r.num() > 0,
                        inv.den() > 0,
                ;
                lemma_gcd_symmetric(abs(r.num()), r.den());
                lemma_lowest_terms_unique(inv.num(), inv.den(), r.den() as int, r.num() as nat);
                assert(inv.num() == r.den() && inv.den() == r.num());
            }
            if let Some(answer) = Self::ln_small(&inv) {
                let res = answer.neg();
                proof {
                    if let Class::Ln(b) = answer.class_spec() {
                        let k = abs(answer.rational_spec().num());
                        lemma1_pow(k);
                        let p = pow(b.num(), k);
                        assert(inv.num() * 1 == p * inv.den());
                        assert(inv.num() == p);
                        assert(r.num() * p == r.den()) by (nonlinear_arith)
                            requires
                                inv.num() * r.num() == r.den() * inv.den(),
                                inv.den() == 1,
                                inv.num() == p,
                        ;
                        assert(pow(b.den() as int, k) == 1);
                        assert(r.same_value(pow(b.den() as int, k), pow(b.num(), k)));
                    }
                }
                return Ok(res);
            }
            let i2 = inv.clone();
            let c = Computable::ln(Computable::rational(i2));
            let minus_one = Rational::new(-1);
            proof {
                lemma_pow1(inv.num());
                lemma_pow1(inv.den() as int);
                assert(r.num() < r.den());
                assert(r.num() * inv.num() == inv.den() * r.den()) by (nonlinear_arith)
                    requires
                        inv.num() * r.num() == r.den() * inv.den(),
                ;
            }
            return Ok(Self::build(minus_one, Class::Ln(inv), c));
        }
        if r.equals(&one) {
            return Ok(Self::zero());
        }
        if let Some(answer) = Self::ln_small(&r) {
            return Ok(answer);
        }
        let r2 = r.clone();
        let c = Computable::ln(Computable::rational(r2));
        proof {
            lemma_pow1(r.num());
            lemma_pow1(r.den() as int);
        }
        Ok(Self::build(Rational::one(), Class::Ln(r), c))
    }

    /// The natural logarithm of this Real, or `NotANumber` if it is not
    /// positive.
    pub fn ln(self) -> (res: Result<Real, Problem>)
        ensures
            Self::ln_spec(res, self),
    {
        proof {
            use_type_invariant(&self);
            use_type_invariant(&self.rational);
        }
        if self.best_sign() != Sign::Plus {
            return Err(Problem::NotANumber);
        }
        match &self.class {
            Class::One => {
                return Self::ln_rational(self.rational);
            },
            Class::Exp(exp) => {
                let one = Rational::one();
                if self.rational.equals(&one) {
                    proof {
                        use_type_invariant(&one);
                        self.rational.lemma_same_value_same_terms(one);
                    }
                    return Ok(Self::new(exp.clone()));
                }
            },
            _ => {},
        }
        Ok(self.make_computable(Function::Ln))
    }
}

/// The whole part of `q` (rounded down) is odd.
pub open spec fn floor_odd(q: Rational) -> bool {
    (q.num() / (q.den() as int)) % 2 == 1
}

/// The numerator, over the denominator of `q`, of its fractional part.
pub open spec fn frac_num(q: Rational) -> int {
    q.num() % (q.den() as int)
}

/// The numerator, over the denominator of `q`, of its fractional part
/// reflected into the lower half: `f` or `1 - f`, whichever is at most a
/// half.
pub open spec fn reflected(q: Rational) -> int {
    let f = frac_num(q);
    if 2 * f > q.den() {
        q.den() - f
    } else {
        f
    }
}

/// A half.
fn half() -> (res: Rational)
    ensures
        res.same_value(1, 2),
        res.num() != 0,
{
    let two = Rational::new(2);
    Rational::one().div(&two)
}

/// The fractional part reflected into the lower half: what is needed of a
/// multiple of π for its sine, with whether the whole part is odd (the sine
/// then changes sign).
pub fn curve(r: Rational) -> (res: (bool, Rational))
    ensures
        res.0 == floor_odd(r),
        res.1.same_value(reflected(r), r.den() as int),
{
    proof {
        use_type_invariant(&r);
        vstd::arithmetic::power2::lemma2_to64();
    }
    let whole = r.shifted_big_integer(0);
    let (flip, s) = reflect(&r);
    (whole.is_odd(), s)
}

/// The fractional part reflected into the lower half, with whether it was
/// reflected: what is needed of a multiple of π for its tangent.
fn tan_curve(r: Rational) -> (res: (bool, Rational))
    ensures
        res.0 == (2 * frac_num(r) > r.den()),
        res.1.same_value(reflected(r), r.den() as int),
{
    reflect(&r)
}

/// The fractional part of `r`, and whether it is above a half, in which
/// case one minus it.
fn reflect(r: &Rational) -> (res: (bool, Rational))
    ensures
        res.0 == (2 * frac_num(*r) > r.den()),
        res.1.same_value(reflected(*r), r.den() as int),
{
    proof {
        use_type_invariant(r);
    }
    let s = r.fract();
    let h = half();
    proof {
        use_type_invariant(&s);
        use_type_invariant(&h);
    }
    let ghost f = frac_num(*r);
    let ghost d = r.den() as int;
    proof {
        assert(0 <= f < d);
        assert(s.num() * d == f * s.den());
    }
    if h.less(&s) {
        let one = Rational::one();
        let t = one.sub(&s);
        proof {
            use_type_invariant(&t);
            assert(2 * f > d) by (nonlinear_arith)
                requires
                    h.num() * s.den() < s.num() * h.den(),
                    h.num() * 2 == 1 * h.den(),
                    s.num() * d == f * s.den(),
                    h.den() > 0,
                    s.den() > 0,
                    d > 0,
            ;
            assert(t.num() * s.den() == (s.den() - s.num()) * t.den()) by (nonlinear_arith)
                requires
                    t.num() * (1 * s.den()) == (1 * s.den() - s.num() * 1) * t.den(),
            ;
            assert(t.num() * d == (d - f) * t.den()) by (nonlinear_arith)
                requires
                    t.num() * s.den() == (s.den() - s.num()) * t.den(),
                    s.num() * d == f * s.den(),
                    s.den() > 0,
            ;
        }
        (true, t)
    } else {
        proof {
            assert(!(2 * f > d)) by (nonlinear_arith)
                requires
                    !(h.num() * s.den() < s.num() * h.den()),
                    h.num() * 2 == 1 * h.den(),
                    s.num() * d == f * s.den(),
                    h.den() > 0,
                    s.den() > 0,
                    d > 0,
            ;
        }
        (false, s)
    }
}

pub proof fn lemma_mod_zero_abs(num: int, c: int)
    requires
        c > 0,
        num % c == 0,
    ensures
        (abs(num) as int) % c == 0,
{
    vstd::arithmetic::div_mod::lemma_fundamental_div_mod(num, c);
    let k = num / c;
    if num < 0 {
        assert(abs(num) == c * (-k)) by (nonlinear_arith)
            requires
                num == c * k,
                num < 0,
                abs(num) == -num,
        ;
        vstd::arithmetic::div_mod::lemma_mod_multiples_basic(-k, c);
        vstd::arithmetic::mul::lemma_mul_is_commutative(c, -k);
    }
}

/// A fraction in lowest terms that is not whole has a non-zero fractional
/// part, and one that is not a half is not exactly a half past a whole.
proof fn lemma_fraction_parts(q: Rational)
    requires
        q.inv(),
        q.den() != 1,
    ensures
        frac_num(q) != 0,
        q.den() != 2 ==> 2 * frac_num(q) != q.den(),
{
    let d = q.den() as int;
    let n = q.num();
    if n % d == 0 {
        lemma_mod_zero_abs(n, d);
        vstd::arithmetic::div_mod::lemma_mod_self_0(d);
        lemma_common_divisor_divides_gcd(abs(n), q.den(), q.den());
        assert(1nat % q.den() == 0);
        vstd::arithmetic::div_mod::lemma_small_mod(1, q.den());
    }
    if q.den() != 2 && 2 * (n % d) == d {
        let h = n % d;
        vstd::arithmetic::div_mod::lemma_fundamental_div_mod(n, d);
        let k = n / d;
        assert(n == h * (2 * k + 1)) by (nonlinear_arith)
            requires
                n == d * k + h,
                d == 2 * h,
        ;
        assert(h > 0);
        vstd::arithmetic::div_mod::lemma_mod_multiples_basic(2 * k + 1, h);
        vstd::arithmetic::mul::lemma_mul_is_commutative(h, 2 * k + 1);
        lemma_mod_zero_abs(n, h);
        vstd::arithmetic::div_mod::lemma_mod_multiples_basic(2, h);
        vstd::arithmetic::mul::lemma_mul_is_commutative(h, 2);
        lemma_common_divisor_divides_gcd(abs(n), q.den(), h as nat);
        vstd::arithmetic::div_mod::lemma_small_mod(1, h as nat);
    }
}

/// `res` is the sine of `q` times π: zero for whole `q`, the known exact
/// values for denominators 2, 3, 4 and 6, and otherwise plus or minus the
/// sine of π times the reflected fractional part, negative when the whole
/// part of `q` is odd.
pub open spec fn sin_pi_result(res: Real, q: Rational) -> bool {
    if q.den() == 1 {
        res.is_rational_times(0, Class::One)
    } else {
        let sign: int = if floor_odd(q) {
            -1
        } else {
            1
        };
        if q.den() == 2 {
            res.is_rational_times(sign, Class::One)
        } else if q.den() == 3 {
            res.rational_spec().same_value(sign, 2) && (res.class_spec() matches Class::Sqrt(b)
                && b.is_int_value(3))
        } else if q.den() == 4 {
            res.rational_spec().same_value(sign, 2) && (res.class_spec() matches Class::Sqrt(b)
                && b.is_int_value(2))
        } else if q.den() == 6 {
            res.rational_spec().same_value(sign, 2) && res.class_spec() is One
        } else {
            res.rational_spec().is_int_value(sign) && (res.class_spec() matches Class::SinPi(s)
                && s.same_value(reflected(q), q.den() as int)) && res.computable_spec().node_spec() is Sin
        }
    }
}

impl Real {
    /// The sine of π times the rational `q`.
    fn sin_pi(q: Rational) -> (res: Real)
        ensures
            sin_pi_result(res, q),
    {
        proof {
            use_type_invariant(&q);
        }
        if q.is_integer() {
            return Self::zero();
        }
        proof {
            lemma_fraction_parts(q);
        }
        let d = q.denominator();
        let special: Option<Real> = if d.equal(&Natural::from_u64(2)) {
            Some(Self::new(Rational::one()))
        } else if d.equal(&Natural::from_u64(3)) {
            let c = Computable::sqrt_rational(Rational::new(3));
            Some(Self::build(half(), Class::Sqrt(Rational::new(3)), c))
        } else if d.equal(&Natural::from_u64(4)) {
            let c = Computable::sqrt_rational(Rational::new(2));
            Some(Self::build(half(), Class::Sqrt(Rational::new(2)), c))
        } else if d.equal(&Natural::from_u64(6)) {
            Some(Self::new(half()))
        } else {
            None
        };
        proof {
            vstd::arithmetic::power2::lemma2_to64();
        }
        match special {
            Some(value) => {
                let whole = q.shifted_big_integer(0);
                proof {
                    assert(vstd::arithmetic::power2::pow2(0) == 1);
                    assert(q.num() * 1 == q.num());
                    assert(whole@ == q.num() / (q.den() as int));
                }
                if whole.is_odd() {
                    let res = value.neg();
                    proof {
                        assert(floor_odd(q));
                        if q.den() == 3 || q.den() == 4 || q.den() == 6 {
                            assert(value.rational_spec().same_value(1, 2));
                            assert(res.rational_spec().same_value(-1, 2));
                        }
                    }
                    res
                } else {
                    proof {
                        assert(!floor_odd(q));
                    }
                    value
                }
            },
            None => {
                let (neg, r) = curve(q);
                proof {
                    use_type_invariant(&r);
                    let f = frac_num(q);
                    let g = reflected(q);
                    let dd = q.den() as int;
                    assert(0 < g && 2 * g < dd);
                    assert(0 < r.num() && 2 * r.num() < r.den()) by (nonlinear_arith)
                        requires
                            r.num() * dd == g * r.den(),
                            0 < g,
                            2 * g < dd,
                            r.den() > 0,
                            dd > 0,
                    ;
                }
                let r2 = r.clone();
                let angle = Computable::pi().multiply(Computable::rational(r2));
                if neg {
                    Self::build(Rational::new(-1), Class::SinPi(r), angle.sin())
                } else {
                    Self::build(Rational::one(), Class::SinPi(r), angle.sin())
                }
            },
        }
    }

    /// What `sin` gives for `x`: zero for zero, an exact value at the
    /// multiples of π where one is known, else the sine as a computable
    /// number.
    pub open spec fn sin_spec(res: Real, x: Real) -> bool {
        &&& x.rational_spec().num() == 0 ==> res.is_rational_times(0, Class::One)
        &&& x.rational_spec().num() != 0 ==> match x.class_spec() {
            Class::One => res.class_spec() is Irrational && res.rational_spec().is_int_value(1)
                && (res.computable_spec().node_spec() matches Node::Sin(c) && (
            c.node_spec() matches Node::Ratio(q) && q.num() == x.rational_spec().num()
                && q.den() == x.rational_spec().den())),
            Class::Pi => sin_pi_result(res, x.rational_spec()),
            _ => res.is_function_of(Function::Sin, x),
        }
    }

    /// The sine of this Real.
    pub fn sin(self) -> (res: Real)
        ensures
            Self::sin_spec(res, self),
    {
        proof {
            use_type_invariant(&self);
        }
        if self.definitely_zero() {
            return Self::zero();
        }
        match &self.class {
            Class::One => {
                let q = self.rational.clone();
                let c = Computable::rational(q).sin();
                return Self::make_irrational(c);
            },
            Class::Pi => {
                return Self::sin_pi(self.rational);
            },
            _ => {},
        }
        self.make_computable(Function::Sin)
    }

    /// What `cos` gives for `x`.
    pub open spec fn cos_spec(res: Real, x: Real) -> bool {
        &&& x.rational_spec().num() == 0 ==> res.is_rational_times(1, Class::One)
        &&& x.rational_spec().num() != 0 ==> match x.class_spec() {
            Class::One => res.class_spec() is Irrational && res.rational_spec().is_int_value(1) && (
            res.computable_spec().node_spec() matches Node::Cos(c) && (c.node_spec() matches Node::Ratio(
                q,
            ) && q.num() == x.rational_spec().num() && q.den() == x.rational_spec().den())),
            Class::Pi => exists|q: Rational|
                q.inv() && q.same_value(
                    2 * x.rational_spec().num() + x.rational_spec().den(),
                    (2 * x.rational_spec().den()) as int,
                ) && #[trigger] sin_pi_result(res, q),
            _ => res.is_function_of(Function::Cos, x),
        }
    }

    /// The cosine of this Real.  For a multiple of π it is the sine of
    /// that multiple plus a half.
    pub fn cos(self) -> (res: Real)
        ensures
            Self::cos_spec(res, self),
    {
        proof {
            use_type_invariant(&self);
        }
        if self.definitely_zero() {
            return Self::new(Rational::one());
        }
        match &self.class {
            Class::One => {
                let q = self.rational.clone();
                let c = Computable::rational(q).cos();
                return Self::make_irrational(c);
            },
            Class::Pi => {
                let h = half();
                let q = self.rational.add(&h);
                proof {
                    use_type_invariant(&h);
                    use_type_invariant(&q);
                    use_type_invariant(&self.rational);
                    let x = self.rational;
                    assert(q.same_value(2 * x.num() + x.den(), (2 * x.den()) as int)) by (nonlinear_arith)
                        requires
                            q.num() * (x.den() * h.den()) == (x.num() * h.den() + h.num() * x.den()) * q.den(),
                            h.num() * 2 == 1 * h.den(),
                            h.den() > 0,
                    ;
                }
                let res = Self::sin_pi(q);
                proof {
                    assert(sin_pi_result(res, q));
                }
                return res;
            },
            _ => {},
        }
        self.make_computable(Function::Cos)
    }
}

impl Real {
    /// What `ln` gives for `x`.
    pub open spec fn ln_spec(res: Result<Real, Problem>, x: Real) -> bool {
        &&& res matches Err(e) ==> e == Problem::NotANumber
        &&& !(x.class_spec() is Irrational) ==> (res is Err <==> x.rational_spec().num() <= 0)
        &&& x.rational_spec().num() == 0 ==> res is Err
        &&& res matches Ok(r) ==> match x.class_spec() {
            Class::One => ln_rational_result(r, x.rational_spec()),
            Class::Exp(q) => if x.rational_spec().is_int_value(1) {
                r.class_spec() is One && r.rational_spec().num() == q.num()
                    && r.rational_spec().den() == q.den()
            } else {
                r.is_function_of(Function::Ln, x)
            },
            _ => r.is_function_of(Function::Ln, x),
        }
    }

    /// The natural logarithm of ten.
    pub open spec fn is_ln_ten(t: Real) -> bool {
        &&& t.rational_spec().is_int_value(1)
        &&& t.class_spec() matches Class::Ln(b) && b.is_int_value(10)
    }

    fn ln_ten() -> (res: Real)
        ensures
            Self::is_ln_ten(res),
    {
        let ten = Rational::new(10);
        let c = Computable::integer(Integer::from_natural(Natural::from_u64(10))).ln();
        Self::build(Rational::one(), Class::Ln(ten), c)
    }

    /// What `log10` gives for `x`: `NotANumber` for a number that is not
    /// positive, else the natural logarithm divided by that of ten.
    pub open spec fn log10_spec(res: Result<Real, Problem>, x: Real) -> bool {
        &&& res matches Err(e) ==> e == Problem::NotANumber
        &&& !(x.class_spec() is Irrational) ==> (res is Err <==> x.rational_spec().num() <= 0)
        &&& res matches Ok(r) ==> exists|l: Real, t: Real|
            Self::ln_spec(Ok(l), x) && Self::is_ln_ten(t) && #[trigger] Self::div_spec(Ok(r), l, t)
    }

    /// The base ten logarithm of this Real, or `NotANumber` if it is not
    /// positive: its natural logarithm divided by that of ten.
    pub fn log10(self) -> (res: Result<Real, Problem>)
        ensures
            Self::log10_spec(res, self),
    {
        let ghost x = self;
        let l = match self.ln() {
            Ok(l) => l,
            Err(e) => {
                return Err(e);
            },
        };
        let t = Self::ln_ten();
        let res = l.div(t);
        proof {
            assert(Self::div_spec(res, l, t));
        }
        res
    }
}

/// The reflected fractional part of a fraction in lowest terms is in
/// lowest terms over the same denominator.
proof fn lemma_reflected_coprime(q: Rational)
    requires
        q.inv(),
        q.den() > 1,
    ensures
        0 <= reflected(q),
        gcd(reflected(q) as nat, q.den()) == 1,
{
    let d = q.den() as int;
    let n = q.num();
    let f = n % d;
    let r = reflected(q);
    let g = gcd(r as nat, q.den());
    lemma_gcd_divides(r as nat, q.den());
    assert(g > 0);
    vstd::arithmetic::div_mod::lemma_fundamental_div_mod(r, g as int);
    vstd::arithmetic::div_mod::lemma_fundamental_div_mod(d, g as int);
    let a = d / (g as int);
    let b = r / (g as int);
    assert(d == g * a);
    assert(r == g * b);
    vstd::arithmetic::div_mod::lemma_fundamental_div_mod(n, d);
    let k = n / d;
    assert(n == d * k + f);
    let c: int = if r == f {
        b
    } else {
        a - b
    };
    assert(f == g * c) by (nonlinear_arith)
        requires
            r == f ==> c == b,
            r != f ==> c == a - b && f == d - r,
            d == g * a,
            r == g * b,
    ;
    assert(n == g * (a * k + c)) by (nonlinear_arith)
        requires
            n == d * k + f,
            d == g * a,
            f == g * c,
    ;
    vstd::arithmetic::div_mod::lemma_mod_multiples_basic(a * k + c, g as int);
    vstd::arithmetic::mul::lemma_mul_is_commutative(g as int, a * k + c);
    lemma_mod_zero_abs(n, g as int);
    lemma_common_divisor_divides_gcd(abs(n), q.den(), g);
    if g > 1 {
        vstd::arithmetic::div_mod::lemma_small_mod(1, g);
    }
}

/// `res` is the tangent of `q` times π: zero for whole `q`, `NotANumber`
/// for an odd number of half turns, the known exact values for
/// denominators 3, 4 and 6, and otherwise plus or minus the tangent of π
/// times the reflected fractional part, negative when the fractional part
/// is above a half.
pub open spec fn tan_pi_result(res: Result<Real, Problem>, q: Rational) -> bool {
    if q.den() == 1 {
        res matches Ok(r) && r.is_rational_times(0, Class::One)
    } else if q.den() == 2 {
        res == Err::<Real, Problem>(Problem::NotANumber)
    } else {
        let sign: int = if 2 * frac_num(q) > q.den() {
            -1
        } else {
            1
        };
        res matches Ok(r) && if q.den() == 3 {
            r.rational_spec().is_int_value(sign) && (r.class_spec() matches Class::Sqrt(b)
                && b.is_int_value(3))
        } else if q.den() == 4 {
            r.is_rational_times(sign, Class::One)
        } else if q.den() == 6 {
            r.rational_spec().same_value(sign, 3) && (r.class_spec() matches Class::Sqrt(b)
                && b.is_int_value(3))
        } else {
            r.rational_spec().is_int_value(sign) && (r.class_spec() matches Class::TanPi(n)
                && n.same_value(reflected(q), q.den() as int)) && r.computable_spec().node_spec() is Tan
        }
    }
}

/// A third.
fn third() -> (res: Rational)
    ensures
        res.same_value(1, 3),
        res.num() != 0,
{
    let three = Rational::new(3);
    Rational::one().div(&three)
}

impl Real {
    /// The tangent of π times the rational `q`.
    fn tan_pi(q: Rational) -> (res: Result<Real, Problem>)
        ensures
            tan_pi_result(res, q),
    {
        proof {
            use_type_invariant(&q);
        }
        if q.is_integer() {
            return Ok(Self::zero());
        }
        proof {
            lemma_fraction_parts(q);
            lemma_reflected_coprime(q);
        }
        let ghost g = q;
        let (neg, n) = tan_curve(q);
        proof {
            use_type_invariant(&n);
            crate::rational::lemma_lowest_terms_unique(
                n.num(),
                n.den(),
                reflected(g),
                g.den(),
            );
        }
        let d = n.denominator();
        if d.equal(&Natural::from_u64(2)) {
            return Err(Problem::NotANumber);
        }
        let special: Option<Real> = if d.equal(&Natural::from_u64(3)) {
            let c = Computable::sqrt_rational(Rational::new(3));
            Some(Self::build(Rational::one(), Class::Sqrt(Rational::new(3)), c))
        } else if d.equal(&Natural::from_u64(4)) {
            Some(Self::new(Rational::one()))
        } else if d.equal(&Natural::from_u64(6)) {
            let c = Computable::sqrt_rational(Rational::new(3));
            Some(Self::build(third(), Class::Sqrt(Rational::new(3)), c))
        } else {
            None
        };
        match special {
            Some(value) => {
                if neg {
                    Ok(value.neg())
                } else {
                    Ok(value)
                }
            },
            None => {
                proof {
                    let dd = g.den() as int;
                    let r = reflected(g);
                    assert(0 < r && 2 * r < dd);
                    assert(0 < n.num() && 2 * n.num() < n.den());
                }
                let n2 = n.clone();
                let angle = Computable::pi().multiply(Computable::rational(n2));
                if neg {
                    Ok(Self::build(Rational::new(-1), Class::TanPi(n), angle.tan()))
                } else {
                    Ok(Self::build(Rational::one(), Class::TanPi(n), angle.tan()))
                }
            },
        }
    }

    /// What `tan` gives for `x`.
    pub open spec fn tan_spec(res: Result<Real, Problem>, x: Real) -> bool {
        if x.rational_spec().num() == 0 {
            res matches Ok(r) && r.is_rational_times(0, Class::One)
        } else {
            match x.class_spec() {
                Class::One => res matches Ok(r) && r.class_spec() is Irrational
                    && r.rational_spec().is_int_value(1) && (
                r.computable_spec().node_spec() matches Node::Tan(c) && (
                c.node_spec() matches Node::Ratio(q) && q.num() == x.rational_spec().num()
                    && q.den() == x.rational_spec().den())),
                Class::Pi => tan_pi_result(res, x.rational_spec()),
                _ => exists|s: Real, c: Real, y: Real|
                    #![trigger Self::div_spec(res, s, c), y.is_copy_of(x)]
                    y.is_copy_of(x) && Self::sin_spec(s, y) && Self::cos_spec(c, x)
                        && Self::div_spec(res, s, c),
            }
        }
    }

    /// The tangent of this Real: `NotANumber` at odd multiples of a half
    /// turn; the sine over the cosine for classes without an exact rule.
    pub fn tan(self) -> (res: Result<Real, Problem>)
        ensures
            Self::tan_spec(res, self),
    {
        proof {
            use_type_invariant(&self);
        }
        if self.definitely_zero() {
            return Ok(Self::zero());
        }
        match &self.class {
            Class::One => {
                let q = self.rational.clone();
                let c = Computable::rational(q).tan();
                return Ok(Self::make_irrational(c));
            },
            Class::Pi => {
                return Self::tan_pi(self.rational);
            },
            _ => {},
        }
        let ghost x = self;
        let y = self.clone();
        let ghost gy = y;
        let s = y.sin();
        let c = self.cos();
        proof {
            assert(c.is_function_of(Function::Cos, x));
        }
        let res = s.div(c);
        proof {
            assert(gy.is_copy_of(x) && Self::sin_spec(s, gy) && Self::cos_spec(c, x));
            assert(Self::div_spec(res, s, c));
        }
        res
    }
}

} // verus!
