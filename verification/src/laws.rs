//! Laws of the library: what holds of every input, across several
//! operations.

use vstd::prelude::*;
use vstd::arithmetic::power::lemma_pow_positive;

use crate::rational::{Rational, abs};
use crate::rational::convert::machine_integer;
use crate::rational::text::{parse_result, text_value};
use crate::reals::{Class, Real, class_valid, class_copy, same_class, inverse_result};
use crate::reals::arith::{known_equal, is_rational_value, power_num, power_den};
use crate::reals::functions::{is_root_of, small_for_roots, sin_pi_result};
use crate::reals::text::real_parse_result;
use crate::natural::{gcd, bit_length, lemma_bit_length_bounds};
use crate::rational::lemma_gcd_one;
use crate::rational::text::{decimal_chars, digit_char_spec, int_chars, lemma_zero_char};
use crate::computable::{Node, approximates};
use crate::computable::approx::{
    GUARD,
    MAX_PRECISION,
    leading_position,
    msd_limit,
    sign_bits,
    clamp_scale,
    exact_iter_msd,
    exact_msd,
    lowest_terms,
    nearest,
    nearest_scaled,
};
use crate::computable::decimal::{
    exponent_fits,
    lemma_exponent_unique,
    lemma_place_digits_decimal,
    lemma_place_digits_shift,
    lemma_pow2_below_pow10,
    lemma_trimmed_prefix,
    lemma_trimmed_zeros,
    place_digits,
    rounded_quotient,
    scaled_divisor,
    digits_exact,
    zero_places,
};
use crate::computable::format::{
    EXP_LIMIT,
    Places,
    bits_for,
    digit_chars,
    exact_digits,
    lemma_decimal_chars_bounds,
    places_or_default,
    positional_chars,
    sign_chars,
    text_exact,
    trimmed,
    zero_digits,
};
use vstd::arithmetic::power::{pow, lemma_pow_adds};
use vstd::arithmetic::power2::{pow2, lemma_pow2_pos, lemma_pow2_strictly_increases};
use vstd::arithmetic::div_mod::lemma_fundamental_div_mod_converse;
use crate::Problem;
use crate::simple::{Simple, Symbols};

verus! {

/// The rational argument of a class, where it has one.
pub open spec fn class_argument(c: Class) -> Option<Rational> {
    match c {
        Class::Sqrt(r) => Some(r),
        Class::Exp(r) => Some(r),
        Class::Ln(r) => Some(r),
        Class::Log10(r) => Some(r),
        Class::SinPi(r) => Some(r),
        Class::TanPi(r) => Some(r),
        _ => None,
    }
}

/// Every rational in the real is in lowest terms with a positive
/// denominator, and its class argument is in range: what holds of every
/// real the library makes.
pub open spec fn real_valid(x: Real) -> bool {
    &&& x.rational_spec().inv()
    &&& class_valid(x.class_spec())
    &&& (x.rational_spec().num() == 0 ==> x.class_spec() is One)
    &&& class_argument(x.class_spec()) matches Some(a) ==> a.inv()
}

proof fn lemma_eq_value_transitive(a: Rational, b: Rational, c: Rational)
    requires
        b.den() > 0,
        a.eq_value(b),
        b.eq_value(c),
    ensures
        a.eq_value(c),
{
    let an = a.num();
    let ad = a.den() as int;
    let bn = b.num();
    let bd = b.den() as int;
    let cn = c.num();
    let cd = c.den() as int;
    assert(an * bd * cd == cn * bd * ad) by (nonlinear_arith)
        requires
            an * bd == bn * ad,
            bn * cd == cn * bd,
    ;
    assert(an * cd == cn * ad) by (nonlinear_arith)
        requires
            an * bd * cd == cn * bd * ad,
            bd > 0,
    ;
}

/// Known equality of reals is symmetric.
pub proof fn law_equality_symmetric(x: Real, y: Real)
    ensures
        known_equal(x, y) == known_equal(y, x),
{
}

/// Known equality of reals is transitive.
pub proof fn law_equality_transitive(x: Real, y: Real, z: Real)
    requires
        real_valid(y),
        known_equal(x, y),
        known_equal(y, z),
    ensures
        known_equal(x, z),
{
    lemma_eq_value_transitive(x.rational_spec(), y.rational_spec(), z.rational_spec());
    match (x.class_spec(), y.class_spec(), z.class_spec()) {
        (Class::Sqrt(a), Class::Sqrt(b), Class::Sqrt(c)) => lemma_eq_value_transitive(a, b, c),
        (Class::Exp(a), Class::Exp(b), Class::Exp(c)) => lemma_eq_value_transitive(a, b, c),
        (Class::Ln(a), Class::Ln(b), Class::Ln(c)) => lemma_eq_value_transitive(a, b, c),
        (Class::Log10(a), Class::Log10(b), Class::Log10(c)) => lemma_eq_value_transitive(a, b, c),
        (Class::SinPi(a), Class::SinPi(b), Class::SinPi(c)) => lemma_eq_value_transitive(a, b, c),
        (Class::TanPi(a), Class::TanPi(b), Class::TanPi(c)) => lemma_eq_value_transitive(a, b, c),
        _ => {},
    }
}

/// A real equals a rational exactly when the rational equals the real.
pub proof fn law_rational_equality_symmetric(x: Real, r: Rational)
    ensures
        is_rational_value(x, r) == (x.class_spec() is One && r.eq_value(x.rational_spec())),
{
}

/// A real that is not an irrational of unknown kind added to its negation
/// is exactly zero.
pub proof fn law_add_negation(x: Real, m: Real, res: Real)
    requires
        real_valid(x),
        !(x.class_spec() is Irrational),
        m.rational_spec().num() == -x.rational_spec().num(),
        m.rational_spec().den() == x.rational_spec().den(),
        m.class_spec() == x.class_spec(),
        Real::add_spec(res, x, m),
    ensures
        res.is_rational_times(0, Class::One),
{
    let n = x.rational_spec().num();
    let d = x.rational_spec().den() as int;
    assert(n * d + (-n) * d == 0) by (nonlinear_arith);
    assert(same_class(x.class_spec(), m.class_spec()));
}

/// A rational, a square root of a whole number or a power of e, times its
/// inverse, is exactly one.
pub proof fn law_inverse_product(x: Real, i: Real, p: Real)
    requires
        real_valid(x),
        real_valid(i),
        x.rational_spec().num() != 0,
        x.class_spec() is One || x.class_spec() is Sqrt || x.class_spec() is Exp,
        inverse_result(i, x),
        Real::mul_spec(p, x, i),
    ensures
        p.class_spec() is One,
        p.rational_spec().same_value(1, 1),
{
    let xn = x.rational_spec().num();
    let xd = x.rational_spec().den() as int;
    let inn = i.rational_spec().num();
    let ind = i.rational_spec().den() as int;
    let pn = p.rational_spec().num();
    let pd = p.rational_spec().den() as int;
    match x.class_spec() {
        Class::One => {
            assert(inn * xn == xd * ind);
            assert(xd * ind > 0) by (nonlinear_arith)
                requires
                    xd > 0,
                    ind > 0,
            ;
            assert(inn != 0);
            assert(pn * (xd * ind) == (xn * inn) * pd);
            assert(pn == pd) by (nonlinear_arith)
                requires
                    pn * (xd * ind) == (xn * inn) * pd,
                    inn * xn == xd * ind,
                    xd * ind != 0,
            ;
        },
        Class::Sqrt(s) => {
            assert(s.den() == 1);
            let sn = s.num();
            assert(inn * (xn * sn) == xd * ind);
            assert(xd * ind != 0 && inn != 0) by (nonlinear_arith)
                requires
                    inn * (xn * sn) == xd * ind,
                    xd > 0,
                    ind > 0,
            ;
            assert(i.class_spec() == x.class_spec());
            let m = choose|m: Real|
                #[trigger] crate::reals::arith::sqrt_product(m, s, s) && p.class_spec()
                    == m.class_spec() && p.computable_spec() == m.computable_spec()
                    && p.rational_spec().same_value(
                    m.rational_spec().num() * x.rational_spec().num() * i.rational_spec().num(),
                    (m.rational_spec().den() * x.rational_spec().den()
                        * i.rational_spec().den()) as int,
                );
            assert(s.eq_value(s));
            assert(m.rational_spec() == s);
            assert(pn * (1 * xd * ind) == (sn * xn * inn) * pd);
            assert(pn == pd) by (nonlinear_arith)
                requires
                    pn * (1 * xd * ind) == (sn * xn * inn) * pd,
                    inn * (xn * sn) == xd * ind,
                    xd * ind != 0,
            ;
        },
        Class::Exp(e) => {
            assert(inn * xn == xd * ind);
            assert(xd * ind != 0 && inn != 0) by (nonlinear_arith)
                requires
                    inn * xn == xd * ind,
                    xd > 0,
                    ind > 0,
                    xn != 0,
            ;
            if let Class::Exp(f) = i.class_spec() {
                let en = e.num();
                let ed = e.den() as int;
                assert(en * ed + (-en) * ed == 0) by (nonlinear_arith);
                assert(e.num() * f.den() + f.num() * e.den() == 0);
            }
            assert(pn * (xd * ind) == (xn * inn) * pd);
            assert(pn == pd) by (nonlinear_arith)
                requires
                    pn * (xd * ind) == (xn * inn) * pd,
                    inn * xn == xd * ind,
                    xd * ind != 0,
            ;
        },
        _ => {},
    }
}

/// The logarithm of e to a non-zero rational power is that rational.
pub proof fn law_ln_of_exp(x: Real, e: Real, res: Result<Real, Problem>)
    requires
        real_valid(x),
        x.class_spec() is One,
        Real::exp_spec(Ok(e), x),
        Real::ln_spec(res, e),
    ensures
        res matches Ok(l) && l.class_spec() is One && l.rational_spec().num()
            == x.rational_spec().num() && l.rational_spec().den() == x.rational_spec().den(),
{
    if x.rational_spec().num() == 0 {
        assert(gcd(0, x.rational_spec().den()) == x.rational_spec().den()) by {
            reveal_with_fuel(gcd, 2);
        }
    }
}

/// e to the logarithm of a positive rational is that rational.
pub proof fn law_exp_of_ln(x: Real, l: Real, res: Result<Real, Problem>)
    requires
        real_valid(x),
        real_valid(l),
        x.class_spec() is One,
        x.rational_spec().num() > 0,
        Real::ln_spec(Ok(l), x),
        Real::exp_spec(res, l),
    ensures
        res matches Ok(r) && r.class_spec() is One && r.rational_spec().eq_value(
            x.rational_spec(),
        ),
{
    let q = x.rational_spec();
    if q.num() == q.den() {
        assert(l.is_rational_times(0, Class::One));
    } else {
        if let Class::Ln(b) = l.class_spec() {
            let k = l.rational_spec().num();
            let big_n = power_num(b, k);
            let big_d = power_den(b, k);
            lemma_pow_positive(b.num(), abs(k));
            lemma_pow_positive(b.den() as int, abs(k));
            assert(big_d > 0);
            assert(q.same_value(big_n, big_d));
            if let Ok(r) = res {
                let rr = r.rational_spec();
                assert(rr.same_value(big_n, big_d));
                assert(rr.num() * q.den() == q.num() * rr.den()) by (nonlinear_arith)
                    requires
                        rr.num() * big_d == big_n * rr.den(),
                        q.num() * big_d == big_n * q.den(),
                        big_d > 0,
                ;
            }
        }
    }
}

/// Reading back the text of a rational gives the same number.
pub proof fn law_rational_text_round_trip(r: Rational, s: Seq<char>, res: Result<Rational, Problem>)
    requires
        r.inv(),
        text_value(s) == Some((r.num(), r.den())),
        parse_result(res, s),
    ensures
        res matches Ok(q) && q.eq_value(r),
{
}

/// A machine integer made a rational converts back to the same integer.
pub proof fn law_integer_round_trip(r: Rational, n: int, lo: int, hi: int)
    requires
        r.is_int_value(n),
        lo <= n <= hi,
    ensures
        machine_integer(r, lo, hi) == Ok::<int, Problem>(n),
{
}

/// The square of the square root of a non-negative rational small enough
/// to have its square part taken out is that rational.
pub proof fn law_square_of_root(x: Real, s: Real, p: Real)
    requires
        real_valid(x),
        real_valid(s),
        x.class_spec() is One,
        x.rational_spec().num() > 0,
        small_for_roots(x.rational_spec()),
        is_root_of(s, x.rational_spec()),
        Real::mul_spec(p, s, s),
    ensures
        p.class_spec() is One,
        p.rational_spec().eq_value(x.rational_spec()),
{
    let q = x.rational_spec();
    let a = s.rational_spec();
    let an = a.num();
    let ad = a.den() as int;
    let pn = p.rational_spec().num();
    let pd = p.rational_spec().den() as int;
    let qn = q.num();
    let qd = q.den() as int;
    if s.class_spec() is One {
        assert(crate::rational::square_times(a, 1, q));
        assert(an * an * 1 * qd == qn * (ad * ad));
        assert(an != 0) by (nonlinear_arith)
            requires
                an * an * 1 * qd == qn * (ad * ad),
                qn > 0,
                ad > 0,
        ;
        assert(pn * (ad * ad) == (an * an) * pd);
        assert(pn * qd == qn * pd) by (nonlinear_arith)
            requires
                pn * (ad * ad) == (an * an) * pd,
                an * an * 1 * qd == qn * (ad * ad),
                ad > 0,
        ;
    } else {
        if let Class::Sqrt(b) = s.class_spec() {
            let bn = b.num();
            assert(b.den() == 1);
            assert(crate::rational::square_times(a, bn, q));
            assert(an * an * bn * qd == qn * (ad * ad));
            assert(an != 0) by (nonlinear_arith)
                requires
                    an * an * bn * qd == qn * (ad * ad),
                    qn > 0,
                    ad > 0,
            ;
            let m = choose|m: Real|
                #[trigger] crate::reals::arith::sqrt_product(m, b, b) && p.class_spec()
                    == m.class_spec() && p.computable_spec() == m.computable_spec()
                    && p.rational_spec().same_value(
                    m.rational_spec().num() * s.rational_spec().num() * s.rational_spec().num(),
                    (m.rational_spec().den() * s.rational_spec().den()
                        * s.rational_spec().den()) as int,
                );
            assert(b.eq_value(b));
            assert(m.rational_spec() == b);
            assert(pn * (1 * ad * ad) == (bn * an * an) * pd);
            assert(pn * qd == qn * pd) by (nonlinear_arith)
                requires
                    pn * (1 * ad * ad) == (bn * an * an) * pd,
                    an * an * bn * qd == qn * (ad * ad),
                    ad > 0,
            ;
        }
    }
}

/// The sine of a whole multiple of π is exactly zero.
pub proof fn law_sin_whole_multiple(q: Rational, res: Real)
    requires
        q.den() == 1,
        sin_pi_result(res, q),
    ensures
        res.is_rational_times(0, Class::One),
{
}

/// The cosine of a whole multiple `n` of π is exactly one for even `n`
/// and minus one for odd `n`.
pub proof fn law_cos_whole_multiple(x: Real, res: Real)
    requires
        real_valid(x),
        x.class_spec() is Pi,
        x.rational_spec().den() == 1,
        x.rational_spec().num() != 0,
        Real::cos_spec(res, x),
    ensures
        res.is_rational_times(
            if x.rational_spec().num() % 2 == 0 {
                1
            } else {
                -1
            },
            Class::One,
        ),
{
    let n = x.rational_spec().num();
    let q = choose|q: Rational|
        q.inv() && q.same_value(
            2 * x.rational_spec().num() + x.rational_spec().den(),
            (2 * x.rational_spec().den()) as int,
        ) && #[trigger] sin_pi_result(res, q);
    let a = 2 * n + 1;
    assert(abs(a) % 2 == 1) by {
        if a < 0 {
            assert(abs(a) == -2 * n - 1);
            assert((-2 * n - 1) % 2 == 1) by (nonlinear_arith);
        } else {
            assert((2 * n + 1) % 2 == 1) by (nonlinear_arith);
        }
    }
    assert(gcd(abs(a), 2) == 1) by {
        reveal_with_fuel(gcd, 4);
        assert(2nat % 1nat == 0);
    }
    crate::rational::lemma_lowest_terms_unique(q.num(), q.den(), a, 2);
    assert(q.den() == 2 && q.num() == a);
    assert(a / 2 == n) by (nonlinear_arith)
        requires
            a == 2 * n + 1,
    ;
}

/// A name other than `pi` and `e` evaluates to a copy of the value it was
/// given: the same rational factor, class and computable number, so it
/// keeps the whole value and not only its exact part.
pub proof fn law_name_is_a_copy_of_its_value(
    name: Seq<char>,
    names: Symbols,
    v: Real,
    res: Result<Real, Problem>,
)
    requires
        Simple::symbol_result(res, name, names),
        name != "pi"@,
        name != "e"@,
        names.value_of(name) == Some(v),
    ensures
        res matches Ok(r) && r.is_copy_of(v),
{
}

/// Zero is the identity of addition on either side: adding it gives the
/// same class and an equal rational factor, and for every class but the
/// irrational one the very same number.
pub proof fn law_zero_is_identity(x: Real, z: Real, r: Real, l: Real)
    requires
        real_valid(x),
        z.is_rational_times(0, Class::One),
        Real::add_spec(r, x, z),
        Real::add_spec(l, z, x),
    ensures
        class_copy(r.class_spec(), x.class_spec()),
        r.rational_spec().eq_value(x.rational_spec()),
        class_copy(l.class_spec(), x.class_spec()),
        l.rational_spec().eq_value(x.rational_spec()),
        !(x.class_spec() is One) ==> r == x && l == x,
{
    let (xn, xd) = (x.rational_spec().num(), x.rational_spec().den() as int);
    let zd = z.rational_spec().den() as int;
    assert(zd == 1);
    if x.class_spec() is One {
        let n = xn * zd + 0 * xd;
        assert(n == xn);
        if xn == 0 {
            assert(gcd(0, x.rational_spec().den()) == x.rational_spec().den()) by {
                reveal_with_fuel(gcd, 2);
            }
        } else {
            let rr = r.rational_spec();
            assert(rr.num() * (xd * zd) == n * rr.den());
            let ll = l.rational_spec();
            assert(ll.num() * (zd * xd) == (0 * xd + xn * zd) * ll.den());
        }
    }
}

/// Inverting a non-zero rational, a rational times a power of e, or a
/// rational times the square root of a whole number twice gives back the
/// same number: the same class and the same rational factor.
pub proof fn law_inverse_twice(x: Real, r: Real, t: Real)
    requires
        real_valid(x),
        real_valid(r),
        real_valid(t),
        x.rational_spec().num() != 0,
        x.class_spec() is One || x.class_spec() is Sqrt || x.class_spec() is Exp,
        inverse_result(r, x),
        inverse_result(t, r),
    ensures
        same_class(t.class_spec(), x.class_spec()),
        t.rational_spec().eq_value(x.rational_spec()),
{
    let (xn, xd) = (x.rational_spec().num(), x.rational_spec().den() as int);
    let (rn, rd) = (r.rational_spec().num(), r.rational_spec().den() as int);
    let (tn, td) = (t.rational_spec().num(), t.rational_spec().den() as int);
    match x.class_spec() {
        Class::Sqrt(b) => {
            let bn = b.num();
            assert(rn * (xn * bn) == xd * rd);
            assert(rn != 0) by (nonlinear_arith)
                requires
                    rn * (xn * bn) == xd * rd,
                    xd > 0,
                    rd > 0,
            ;
            assert(r.class_spec() == x.class_spec());
            assert(tn * (rn * bn) == rd * td);
            assert(tn * xd == xn * td) by (nonlinear_arith)
                requires
                    rn * (xn * bn) == xd * rd,
                    tn * (rn * bn) == rd * td,
                    rn != 0,
                    bn >= 2,
            ;
        },
        _ => {
            assert(rn * xn == xd * rd);
            assert(rn != 0) by (nonlinear_arith)
                requires
                    rn * xn == xd * rd,
                    xd > 0,
                    rd > 0,
            ;
            assert(tn * rn == rd * td);
            assert(tn * xd == xn * td) by (nonlinear_arith)
                requires
                    rn * xn == xd * rd,
                    tn * rn == rd * td,
                    rn != 0,
            ;
        },
    }
}

/// The cosine of a multiple of π is the sine of that multiple plus a
/// half: both are the sine of π times one and the same rational, so they
/// have the same class and rational factor.
pub proof fn law_cos_is_shifted_sine(x: Real, h: Real, y: Real, c: Real, s: Real)
    requires
        real_valid(x),
        real_valid(h),
        real_valid(y),
        x.class_spec() is Pi,
        h.class_spec() is Pi,
        h.rational_spec().same_value(1, 2),
        Real::add_spec(y, x, h),
        Real::cos_spec(c, x),
        Real::sin_spec(s, y),
    ensures
        exists|q: Rational| q.inv() && #[trigger] sin_pi_result(c, q) && sin_pi_result(s, q),
{
    let (xn, xd) = (x.rational_spec().num(), x.rational_spec().den());
    let (hn, hd) = (h.rational_spec().num(), h.rational_spec().den());
    assert(gcd(1, 2) == 1) by {
        reveal_with_fuel(gcd, 4);
        assert(2nat % 1nat == 0);
    }
    crate::rational::lemma_lowest_terms_unique(hn, hd, 1, 2);
    let q = choose|q: Rational|
        q.inv() && q.same_value(2 * xn + xd, (2 * xd) as int) && #[trigger] sin_pi_result(c, q);
    let n = xn * hd + hn * xd;
    assert(n == 2 * xn + xd);
    if n == 0 {
        assert((2 * xn + xd) * q.den() == 0) by (nonlinear_arith)
            requires
                2 * xn + xd == 0,
        ;
        assert(q.num() * (2 * xd) == 0);
        assert(q.num() == 0) by (nonlinear_arith)
            requires
                q.num() * (2 * xd) == 0,
                xd > 0,
        ;
        assert(gcd(0, q.den()) == q.den()) by {
            reveal_with_fuel(gcd, 2);
        }
        assert(q.den() == 1);
        assert(sin_pi_result(s, q));
    } else {
        let r = y.rational_spec();
        assert(r.same_value(n, (xd * 2) as int));
        assert(y.class_spec() is Pi);
        assert(r.num() != 0) by (nonlinear_arith)
            requires
                r.num() * (xd * 2) == n * r.den(),
                n != 0,
                r.den() > 0,
                xd > 0,
        ;
        assert(sin_pi_result(s, r));
        assert(q.num() * r.den() == r.num() * q.den()) by (nonlinear_arith)
            requires
                q.num() * (2 * xd) == n * q.den(),
                r.num() * (xd * 2) == n * r.den(),
                xd > 0,
        ;
        crate::rational::lemma_lowest_terms_unique(q.num(), q.den(), r.num(), r.den());
        assert(sin_pi_result(s, q));
    }
}

/// A rational written as text by a real reads back as the same real.
pub proof fn law_real_text_round_trip(x: Real, s: Seq<char>, res: Result<Real, Problem>)
    requires
        real_valid(x),
        x.class_spec() is One,
        text_value(s) == Some((x.rational_spec().num(), x.rational_spec().den())),
        real_parse_result(res, s),
    ensures
        res matches Ok(r) && known_equal(r, x),
{
}

/// A whole number, written positionally with no precision asked for and no
/// plus sign, comes out as its decimal digits, with a minus sign when it is
/// negative; the computation behind it is exact.
#[verifier::spinoff_prover]
pub proof fn law_display_whole_number(n: int)
    requires
        abs(n) < pow2(MAX_PRECISION as nat),
    ensures
        text_exact(n, 1, None, false),
        sign_chars(n * 1 < 0, false) + positional_chars(
            exact_digits(n, 1, None, false).0,
            exact_digits(n, 1, None, false).1,
            places_or_default(None),
            false,
        ) == int_chars(n),
{
    let a = abs(n);
    let m = exact_iter_msd(n, 1);
    assert(bits_for(32) == 128);
    assert(places_or_default(None) == 32);
    lemma_zero_char();
    if n == 0 {
        assert(exact_msd(0, 1) is None);
        assert(m == 0);
        assert(clamp_scale(-128) == -128);
        assert(0 * pow2(128) == 0);
        lemma_fundamental_div_mod_converse(1, 2, 0, 1);
        assert(nearest(0, 1) == 0);
        assert(nearest_scaled(0, 1, clamp_scale(-128)) == 0);
        assert(zero_digits(Places::Zero(32), true) =~= seq![0u8]);
        let whole = Seq::new(1, |i: int| if i < 1 { digit_char_spec(0u8 as nat) } else { '0' });
        assert(whole =~= seq!['0']);
        assert(decimal_chars(0) =~= seq!['0']);
        assert(int_chars(0) =~= seq!['0']);
        assert(sign_chars(false, false) =~= Seq::<char>::empty());
        assert(positional_chars(seq![0u8], 0, 32, false) =~= seq!['0']);
    } else {
        lemma_gcd_one(a);
        assert(a / 1 == a && 1nat / 1 == 1);
        assert(lowest_terms(n, 1) == (a, 1nat));
        lemma_bit_length_bounds(a);
        let l = bit_length(a);
        assert(bit_length(1) == 1) by {
            assert(bit_length(0) == 0);
        }
        assert(l <= MAX_PRECISION) by {
            if l > MAX_PRECISION {
                if l - 1 > MAX_PRECISION {
                    lemma_pow2_strictly_increases(MAX_PRECISION as nat, (l - 1) as nat);
                }
            }
        }
        assert(exact_msd(n, 1) == Some(l - 1));
        assert(m == l - 1);
        let bits = 128 + m;
        assert(bits == bits_for(places_or_default(None)) + (if m > 0 { m } else { 0 }));
        assert(clamp_scale(m - bits) == -128);
        let big = pow2(128);
        lemma_pow2_pos(128);
        let x = n * big;
        assert(nearest_scaled(n, 1, -128) == (2 * x + 1) / 2);
        lemma_fundamental_div_mod_converse(2 * x + 1, 2, x, 1);
        let mag = abs(x);
        assert(mag == a * big) by (nonlinear_arith)
            requires
                x == n * big,
                big > 0,
                mag == abs(x),
                a == abs(n),
        ;
        let shift = (bits - m) as nat;
        assert(shift == 128);
        lemma_decimal_chars_bounds(a);
        let k = decimal_chars(a).len();
        let e = k - 1;
        let p = pow(10, e as nat);
        lemma_pow_positive(10, e as nat);
        assert(pow(10, (e + 1) as nat) == 10 * p) by {
            reveal(pow);
        }
        assert(scaled_divisor(128, e) == big * (p as nat));
        assert(scaled_divisor(128, e + 1) == big * ((10 * p) as nat));
        assert(big * (p as nat) <= mag < big * ((10 * p) as nat)) by (nonlinear_arith)
            requires
                p <= a < 10 * p,
                mag == a * big,
                big > 0,
        ;
        assert(exponent_fits(mag, 128, e));
        lemma_exponent_unique(mag, 128, e);
        let d = big * (p as nat);
        assert(d > 0) by (nonlinear_arith)
            requires
                d == big * (p as nat),
                big > 0,
                p > 0,
        ;
        assert(big * ((10 * p) as nat) == 10 * d) by (nonlinear_arith)
            requires
                d == big * (p as nat),
                p > 0,
        ;
        lemma_pow2_below_pow10(MAX_PRECISION as nat, EXP_LIMIT as nat);
        lemma_pow_positive(10, EXP_LIMIT as nat);
        assert(mag < scaled_divisor(128, EXP_LIMIT as int)) by (nonlinear_arith)
            requires
                mag == a * big,
                a < pow2(MAX_PRECISION as nat),
                pow2(MAX_PRECISION as nat) < pow(10, EXP_LIMIT as nat),
                scaled_divisor(128, EXP_LIMIT as int) == big * (pow(10, EXP_LIMIT as nat) as nat),
                big > 0,
        ;
        assert(digits_exact(mag, 128, EXP_LIMIT as int));
        assert(text_exact(n, 1, None, false));
        let count = Places::Zero(32).count(e);
        assert(count == k + 32);
        let scaled = mag * (pow(10, (count - 1) as nat) as nat);
        let y = a * (pow(10, 32) as nat);
        lemma_pow_adds(10, e as nat, 32);
        assert((count - 1) as nat == e as nat + 32);
        lemma_pow_positive(10, 32);
        assert(scaled == d * y) by (nonlinear_arith)
            requires
                scaled == mag * (pow(10, (count - 1) as nat) as nat),
                pow(10, (count - 1) as nat) == p * pow(10, 32),
                mag == a * big,
                d == big * (p as nat),
                y == a * (pow(10, 32) as nat),
                p > 0,
                pow(10, 32) > 0,
        ;
        lemma_fundamental_div_mod_converse(scaled as int, d as int, y as int, 0);
        assert(rounded_quotient(mag, d, count as nat) == y);
        lemma_pow_adds(10, k, 32);
        assert(y < pow(10, count as nat)) by (nonlinear_arith)
            requires
                a < pow(10, k),
                y == a * (pow(10, 32) as nat),
                pow(10, count as nat) == pow(10, k) * pow(10, 32),
                pow(10, 32) > 0,
        ;
        let digits_p = place_digits(a, k);
        lemma_place_digits_shift(a, k, 32);
        assert(place_digits(y, count as nat) == digits_p + zero_places(32));
        lemma_trimmed_zeros(digits_p, 32);
        let t = trimmed(digits_p);
        assert(exact_digits(n, 1, None, false) == (t, e));
        lemma_place_digits_decimal(a, k);
        lemma_trimmed_prefix(digits_p);
        assert(digits_p[0] != 0) by {
            assert(digit_chars(digits_p)[0] == digit_char_spec(digits_p[0] as nat));
            if digits_p[0] == 0 {
                assert(digit_chars(digits_p)[0] == '0');
            }
        }
        assert(t.len() >= 1);
        let whole = Seq::new(k, |i: int| if i < t.len() { digit_char_spec(t[i] as nat) } else { '0' });
        assert(whole =~= digit_chars(digits_p)) by {
            assert forall|i: int| 0 <= i < k implies #[trigger] whole[i] == digit_chars(digits_p)[i] by {
                if i < t.len() {
                    assert(t[i] == digits_p[i]);
                } else {
                    assert(digits_p[i] == 0);
                }
            }
        }
        assert(positional_chars(t, e, 32, false) == whole);
        assert(sign_chars(n * 1 < 0, false) + decimal_chars(a) =~= int_chars(n));
    }
}

/// The cosine of a rational `q` with `|q| <= 1`: every approximation `x`
/// with `w` bits of what `cos` gives, not cut short, lies within one unit
/// of the band from `(1 - q^2/2) 2^w` to `(1 - 11 q^2/24) 2^w` in which
/// the Taylor series of the cosine puts `cos(q) 2^w`.
pub proof fn law_cosine_of_a_rational(q: Real, c: Real, w: nat, x: int)
    requires
        q.class_spec() is One,
        q.rational_spec().num() != 0,
        q.rational_spec().num() * q.rational_spec().num() <= q.rational_spec().den()
            * q.rational_spec().den(),
        Real::cos_spec(c, q),
        w + 64 <= MAX_PRECISION,
        approximates(c.computable_spec().node_spec(), w, x, false),
    ensures
        2 * q.rational_spec().den() * q.rational_spec().den() * (x + 1) >= pow2(w) * (2
            * q.rational_spec().den() * q.rational_spec().den() - q.rational_spec().num()
            * q.rational_spec().num()),
        24 * q.rational_spec().den() * q.rational_spec().den() * (x - 1) <= pow2(w) * (24
            * q.rational_spec().den() * q.rational_spec().den() - 11 * q.rational_spec().num()
            * q.rational_spec().num()),
{
}

/// The sine of a rational `q` with `|q| <= 1`: every approximation `x`
/// with `w` bits of what `sin` gives, not cut short, lies within one unit
/// of the band from `(5/6) q 2^w` to `q 2^w` in which the Taylor series
/// of the sine puts `sin(q) 2^w`; so, once `2^w` is at least twice the
/// denominator of `q`, it has the sign of `q`.
pub proof fn law_sine_of_a_rational(q: Real, s: Real, w: nat, x: int)
    requires
        real_valid(q),
        q.class_spec() is One,
        q.rational_spec().num() != 0,
        q.rational_spec().num() * q.rational_spec().num() <= q.rational_spec().den()
            * q.rational_spec().den(),
        Real::sin_spec(s, q),
        w + 64 <= MAX_PRECISION,
        approximates(s.computable_spec().node_spec(), w, x, false),
    ensures
        q.rational_spec().num() > 0 ==> q.rational_spec().den() * (x - 1) <= pow2(w)
            * q.rational_spec().num() && 6 * q.rational_spec().den() * (x + 1) >= 5 * pow2(w)
            * q.rational_spec().num(),
        q.rational_spec().num() < 0 ==> q.rational_spec().den() * (x + 1) >= pow2(w)
            * q.rational_spec().num() && 6 * q.rational_spec().den() * (x - 1) <= 5 * pow2(w)
            * q.rational_spec().num(),
        pow2(w) >= 2 * q.rational_spec().den() ==> (q.rational_spec().num() > 0 ==> x > 0)
            && (q.rational_spec().num() < 0 ==> x < 0),
{
    let n = q.rational_spec().num();
    let d = q.rational_spec().den() as int;
    let v = pow2(w) as int;
    if v >= 2 * d {
        if n > 0 {
            assert(6 * d * (x + 1) >= 10 * d) by (nonlinear_arith)
                requires
                    6 * d * (x + 1) >= 5 * v * n,
                    v >= 2 * d,
                    n >= 1,
                    d >= 0,
            ;
            assert(x > 0) by (nonlinear_arith)
                requires
                    6 * d * (x + 1) >= 10 * d,
                    d > 0,
            ;
        }
        if n < 0 {
            assert(6 * d * (x - 1) <= -10 * d) by (nonlinear_arith)
                requires
                    6 * d * (x - 1) <= 5 * v * n,
                    v >= 2 * d,
                    n <= -1,
                    d >= 0,
            ;
            assert(x < 0) by (nonlinear_arith)
                requires
                    6 * d * (x - 1) <= -10 * d,
                    d > 0,
            ;
        }
    }
}

/// The search for the leading digit goes far enough: where the
/// approximation with the last precision it tries shows more than the
/// guard bits, the leading digit stands above the position `stop` at
/// which the search may give up, so it gives up only on numbers below
/// that position.
pub proof fn law_search_sees_past_the_stop(stop: int, x: int)
    requires
        -4096 <= stop <= 0,
        bit_length(abs(x)) > GUARD,
    ensures
        leading_position(x, msd_limit(stop)) > stop,
{
}

/// The sign is read with the guard bits below the leading digit: at the
/// position `e` of that digit, the precision it is read with reaches
/// `GUARD` bits below it, so the approximation shows the digit.
pub proof fn law_sign_read_below_the_leading_digit(e: int)
    requires
        -4096 < e,
    ensures
        e + sign_bits(e) >= GUARD,
{
}

} // verus!
