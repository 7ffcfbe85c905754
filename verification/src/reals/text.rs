//! Reals as text, and reals from text and from machine integers.

use vstd::prelude::*;

use crate::computable::approx::{exact_msd, exact_iter_msd, nearest_scaled, clamp_scale, MAX_PRECISION};
use crate::rational::abs;
use vstd::arithmetic::power2::pow2;
use crate::computable::format::{
    displayed_as,
    scientific_as,
    exact_digits,
    places_or_default,
    positional_chars,
    precision_ok,
    scientific_chars,
    sign_chars,
    text_exact,
};
use crate::computable::{Computable, Node, approximates, exact_value};
use crate::computable::approx::rounded_shift;
use crate::natural::{Integer, Natural, bit_length};
use crate::Sign;
use crate::rational::Rational;
use crate::rational::convert::f64_bits_value;
use crate::rational::text::{append_chars, chars_to_string, rational_chars, str_chars, text_value};
use crate::reals::{Class, Real};
use crate::Problem;

verus! {

/// What reading the text `s` as a real gives: the rational it stands
/// for, or the problem reading it as a rational meets.
pub open spec fn real_parse_result(res: Result<Real, Problem>, s: Seq<char>) -> bool {
    &&& text_value(s) is None <==> res == Err::<Real, Problem>(Problem::ParseError)
    &&& text_value(s) matches Some((n, d)) ==> (d == 0 <==> res == Err::<Real, Problem>(
        Problem::DivideByZero))
    &&& res matches Ok(r) ==> r.class_spec() is One && (text_value(s) matches Some((n, d)) && d > 0
        && r.rational_spec().same_value(n, d as int))
    &&& res matches Err(e) ==> e == Problem::ParseError || e == Problem::DivideByZero
}

/// Append the characters of `s`.
fn push_text(out: &mut Vec<char>, s: &str)
    ensures
        final(out)@ == old(out)@ + s@,
{
    let chars = str_chars(s);
    append_chars(out, &chars);
}

/// The text written after the rational factor for each class.
pub open spec fn class_suffix(c: Class) -> Seq<char> {
    match c {
        Class::One => Seq::empty(),
        Class::Pi => " Pi"@,
        Class::Exp(n) => " x e**("@ + rational_chars(n.num(), n.den()) + ")"@,
        Class::Ln(n) => " x ln("@ + rational_chars(n.num(), n.den()) + ")"@,
        Class::Log10(n) => " x log10("@ + rational_chars(n.num(), n.den()) + ")"@,
        Class::Sqrt(n) => " √("@ + rational_chars(n.num(), n.den()) + ")"@,
        Class::SinPi(n) => " x sin("@ + rational_chars(n.num(), n.den()) + " x Pi)"@,
        Class::TanPi(n) => " x tan("@ + rational_chars(n.num(), n.den()) + " x Pi)"@,
        Class::Irrational => " x Irrational"@,
    }
}

/// The text positional formatting gives for the rational `q`.
pub open spec fn rational_display(q: Rational, precision: Option<usize>, sign_plus: bool) -> Seq<char> {
    sign_chars(q.num() < 0, sign_plus) + positional_chars(
        exact_digits(q.num(), q.den() as int, precision, false).0,
        exact_digits(q.num(), q.den() as int, precision, false).1,
        places_or_default(precision),
        precision is Some,
    )
}

/// The text scientific formatting gives for the rational `q`, with
/// `marker` before the exponent.
pub open spec fn rational_scientific(q: Rational, precision: Option<usize>, sign_plus: bool, marker: char) -> Seq<char> {
    sign_chars(q.num() < 0, sign_plus) + scientific_chars(
        exact_digits(q.num(), q.den() as int, precision, true).0,
        exact_digits(q.num(), q.den() as int, precision, true).1,
        marker,
    )
}

/// A rational is written positionally by `decimal` when its most
/// significant binary digit is known to be from 19 places below the point
/// to below 60 places above it.
pub open spec fn positional_range(q: Rational) -> bool {
    exact_msd(q.num(), q.den() as int) matches Some(e) && -19 <= e < 60
}

impl Real {
    /// The number as text: the rational factor, then the class: ` Pi`,
    /// ` x e**(r)`, ` x ln(r)`, ` x log10(r)`, ` √(r)`, ` x sin(r x Pi)`,
    /// ` x tan(r x Pi)` or ` x Irrational`; nothing for a rational.
    pub fn to_string(&self) -> (res: String)
        ensures
            res@ == rational_chars(self.rational_spec().num(), self.rational_spec().den())
                + class_suffix(self.class_spec()),
            self.class_spec() is One ==> text_value(res@) == Some(
                (self.rational_spec().num(), self.rational_spec().den()),
            ),
    {
        let mut out = self.rational.text();
        match &self.class {
            Class::One => {},
            Class::Pi => push_text(&mut out, " Pi"),
            Class::Exp(n) => {
                push_text(&mut out, " x e**(");
                append_chars(&mut out, &n.text());
                push_text(&mut out, ")");
            },
            Class::Ln(n) => {
                push_text(&mut out, " x ln(");
                append_chars(&mut out, &n.text());
                push_text(&mut out, ")");
            },
            Class::Log10(n) => {
                push_text(&mut out, " x log10(");
                append_chars(&mut out, &n.text());
                push_text(&mut out, ")");
            },
            Class::Sqrt(n) => {
                push_text(&mut out, " √(");
                append_chars(&mut out, &n.text());
                push_text(&mut out, ")");
            },
            Class::SinPi(n) => {
                push_text(&mut out, " x sin(");
                append_chars(&mut out, &n.text());
                push_text(&mut out, " x Pi)");
            },
            Class::TanPi(n) => {
                push_text(&mut out, " x tan(");
                append_chars(&mut out, &n.text());
                push_text(&mut out, " x Pi)");
            },
            Class::Irrational => push_text(&mut out, " x Irrational"),
        }
        proof {
            let q = self.rational_spec();
            assert(out@ =~= rational_chars(q.num(), q.den()) + class_suffix(self.class_spec()));
            if self.class_spec() is One {
                assert(out@ =~= rational_chars(q.num(), q.den()));
            }
        }
        chars_to_string(&out)
    }

    /// This number in positional decimal notation, see
    /// [`Computable::display`].
    pub fn display(&self, precision: Option<usize>, sign_plus: bool) -> (res: String)
        requires
            precision_ok(precision),
        ensures
            self.class_spec() is One ==> (text_exact(
                self.rational_spec().num(),
                self.rational_spec().den() as int,
                precision,
                false,
            ) ==> res@ == rational_display(self.rational_spec(), precision, sign_plus)),
            !(self.class_spec() is One) ==> exists|x: Real, c: Computable|
                x.is_copy_of(*self) && #[trigger] x.folds_to(c) && displayed_as(c, precision, sign_plus, res@),
    {
        let copy = self.clone();
        let ghost x = copy;
        let c = copy.fold();
        proof {
            use_type_invariant(self);
            use_type_invariant(&self.rational);
            Self::lemma_rational_sign(self.rational_spec());
        }
        let res = c.display(precision, sign_plus);
        proof {
            assert(x.folds_to(c));
        }
        res
    }

    /// The factor's numerator times its denominator is negative just when
    /// the numerator is.
    proof fn lemma_rational_sign(q: Rational)
        requires
            q.den() > 0,
        ensures
            q.num() * q.den() < 0 <==> q.num() < 0,
    {
        assert(q.num() * q.den() < 0 <==> q.num() < 0) by (nonlinear_arith)
            requires
                q.den() > 0,
        ;
    }

    /// This number in scientific notation with a lower case `e`, see
    /// [`Computable::lower_exp`].
    pub fn lower_exp(&self, precision: Option<usize>, sign_plus: bool) -> (res: String)
        requires
            precision_ok(precision),
        ensures
            self.class_spec() is One ==> (text_exact(
                self.rational_spec().num(),
                self.rational_spec().den() as int,
                precision,
                true,
            ) ==> res@ == rational_scientific(self.rational_spec(), precision, sign_plus, 'e')),
            !(self.class_spec() is One) ==> exists|x: Real, c: Computable|
                x.is_copy_of(*self) && #[trigger] x.folds_to(c) && scientific_as(c, precision, sign_plus, 'e', res@),
    {
        let copy = self.clone();
        let ghost x = copy;
        let c = copy.fold();
        proof {
            use_type_invariant(self);
            use_type_invariant(&self.rational);
            Self::lemma_rational_sign(self.rational_spec());
        }
        let res = c.lower_exp(precision, sign_plus);
        proof {
            assert(x.folds_to(c));
        }
        res
    }

    /// This number in scientific notation with an upper case `E`.
    pub fn upper_exp(&self, precision: Option<usize>, sign_plus: bool) -> (res: String)
        requires
            precision_ok(precision),
        ensures
            self.class_spec() is One ==> (text_exact(
                self.rational_spec().num(),
                self.rational_spec().den() as int,
                precision,
                true,
            ) ==> res@ == rational_scientific(self.rational_spec(), precision, sign_plus, 'E')),
            !(self.class_spec() is One) ==> exists|x: Real, c: Computable|
                x.is_copy_of(*self) && #[trigger] x.folds_to(c) && scientific_as(c, precision, sign_plus, 'E', res@),
    {
        let copy = self.clone();
        let ghost x = copy;
        let c = copy.fold();
        proof {
            use_type_invariant(self);
            use_type_invariant(&self.rational);
            Self::lemma_rational_sign(self.rational_spec());
        }
        let res = c.upper_exp(precision, sign_plus);
        proof {
            assert(x.folds_to(c));
        }
        res
    }

    /// Format this Real as a decimal rather than rational: positionally
    /// when its most significant digit is at most about nineteen binary
    /// places below the point and below sixty above it, in scientific
    /// notation otherwise.
    pub fn decimal(&self, precision: Option<usize>, sign_plus: bool) -> (res: String)
        requires
            precision_ok(precision),
        ensures
            self.class_spec() is One ==> {
                let q = self.rational_spec();
                if positional_range(q) {
                    text_exact(q.num(), q.den() as int, precision, false) ==> res@ == rational_display(
                        q,
                        precision,
                        sign_plus,
                    )
                } else {
                    text_exact(q.num(), q.den() as int, precision, true) ==> res@
                        == rational_scientific(q, precision, sign_plus, 'e')
                }
            },
            !(self.class_spec() is One) ==> exists|x: Real, c: Computable|
                x.is_copy_of(*self) && #[trigger] x.folds_to(c) && (displayed_as(c, precision, sign_plus, res@)
                    || scientific_as(c, precision, sign_plus, 'e', res@)),
    {
        let copy = self.clone();
        let ghost x = copy;
        let folded = copy.fold();
        proof {
            use_type_invariant(self);
            use_type_invariant(&self.rational);
            Self::lemma_rational_sign(self.rational_spec());
        }
        let res = match folded.iter_msd_stop(-20) {
            Some(e) => {
                if -19 <= e && e < 60 {
                    folded.display(precision, sign_plus)
                } else {
                    folded.lower_exp(precision, sign_plus)
                }
            },
            None => folded.lower_exp(precision, sign_plus),
        };
        proof {
            assert(x.folds_to(folded));
        }
        res
    }

    /// Read a rational number from text as a Real.
    pub fn parse_text(s: &str) -> (res: Result<Real, Problem>)
        ensures
            real_parse_result(res, s@),
    {
        match Rational::parse_text(s) {
            Ok(r) => Ok(Self::new(r)),
            Err(e) => Err(e),
        }
    }
}

/// A plain value a real can be read from: a whole number, the bits of an
/// `f64`, or text.
pub enum Scalar {
    Integer(i128),
    Float(u64),
    Text(String),
}

impl Real {
    /// A real from a plain value: a whole number that fits in an `i64`
    /// (`BadInteger` otherwise), exactly the value a float holds
    /// (`Infinity` or `NotANumber` for those floats), or the number text
    /// stands for.
    pub fn from_scalar(v: Scalar) -> (res: Result<Real, Problem>)
        ensures
            match v {
                Scalar::Integer(x) => if i64::MIN <= x <= i64::MAX {
                    res matches Ok(r) && r.class_spec() is One && r.rational_spec().is_int_value(
                        x as int,
                    )
                } else {
                    res == Err::<Real, Problem>(Problem::BadInteger)
                },
                Scalar::Float(b) => match f64_bits_value(b) {
                    Err(e) => res == Err::<Real, Problem>(e),
                    Ok((n, d)) => res matches Ok(r) && r.class_spec() is One
                        && r.rational_spec().same_value(n, d),
                },
                Scalar::Text(s) => real_parse_result(res, s@),
            },
    {
        match v {
            Scalar::Integer(x) => {
                if x < i64::MIN as i128 || x > i64::MAX as i128 {
                    Err(Problem::BadInteger)
                } else {
                    Ok(Real::new(Rational::new(x as i64)))
                }
            },
            Scalar::Float(b) => match Rational::from_f64_bits(b) {
                Ok(r) => Ok(Real::new(r)),
                Err(e) => Err(e),
            },
            Scalar::Text(s) => Real::parse_text(s.as_str()),
        }
    }
}

impl core::str::FromStr for Real {
    type Err = Problem;

    fn from_str(s: &str) -> (res: Result<Real, Problem>)
        ensures
            real_parse_result(res, s@),
    {
        Real::parse_text(s)
    }
}

impl From<Rational> for Real {
    fn from(r: Rational) -> (res: Real)
        ensures
            res.class_spec() is One,
            res.rational_spec() == r,
    {
        Real::new(r)
    }
}

impl vstd::std_specs::convert::FromSpecImpl<Rational> for Real {
    open spec fn obeys_from_spec() -> bool {
        false
    }

    open spec fn from_spec(v: Rational) -> Real {
        arbitrary()
    }
}

impl From<i32> for Real {
    fn from(n: i32) -> (res: Real)
        ensures
            res.is_rational_times(n as int, Class::One),
    {
        Real::new(Rational::new(n as i64))
    }
}

impl vstd::std_specs::convert::FromSpecImpl<i32> for Real {
    open spec fn obeys_from_spec() -> bool {
        false
    }

    open spec fn from_spec(v: i32) -> Real {
        arbitrary()
    }
}

impl From<i64> for Real {
    fn from(n: i64) -> (res: Real)
        ensures
            res.is_rational_times(n as int, Class::One),
    {
        Real::new(Rational::new(n))
    }
}

impl vstd::std_specs::convert::FromSpecImpl<i64> for Real {
    open spec fn obeys_from_spec() -> bool {
        false
    }

    open spec fn from_spec(v: i64) -> Real {
        arbitrary()
    }
}

impl From<u32> for Real {
    fn from(n: u32) -> (res: Real)
        ensures
            res.is_rational_times(n as int, Class::One),
    {
        Real::new(Rational::new(n as i64))
    }
}

impl vstd::std_specs::convert::FromSpecImpl<u32> for Real {
    open spec fn obeys_from_spec() -> bool {
        false
    }

    open spec fn from_spec(v: u32) -> Real {
        arbitrary()
    }
}

impl From<u64> for Real {
    fn from(n: u64) -> (res: Real)
        ensures
            res.is_rational_times(n as int, Class::One),
    {
        Real::new(Rational::from_u128(n as u128))
    }
}

impl vstd::std_specs::convert::FromSpecImpl<u64> for Real {
    open spec fn obeys_from_spec() -> bool {
        false
    }

    open spec fn from_spec(v: u64) -> Real {
        arbitrary()
    }
}

/// The bits of the `f64` with the given sign, biased exponent and
/// fraction field.
fn f64_bits(negative: bool, biased: u64, fraction: u64) -> (res: u64)
    requires
        biased < 2048,
        fraction < 0x10_0000_0000_0000,
    ensures
        res == (if negative {
            0x8000_0000_0000_0000int
        } else {
            0int
        }) + biased * 0x10_0000_0000_0000 + fraction,
{
    let sign: u64 = if negative {
        0x8000_0000_0000_0000
    } else {
        0
    };
    sign + biased * 0x10_0000_0000_0000 + fraction
}

/// `x / 2^k` rounded down, as a `u64` where it fits.
fn truncated_bits(x: &Natural, k: u64) -> (res: Option<u64>)
    ensures
        res matches Some(v) ==> v == x@ / vstd::arithmetic::power2::pow2(k as nat),
        res is None <==> x@ / vstd::arithmetic::power2::pow2(k as nat) > u64::MAX,
{
    let i = Integer::from_natural(x.clone());
    let r = i.shr(k);
    proof {
        vstd::arithmetic::power2::lemma_pow2_pos(k as nat);
        vstd::arithmetic::div_mod::lemma_div_pos_is_pos(x@ as int, vstd::arithmetic::power2::pow2(k as nat) as int);
    }
    r.magnitude().to_u64()
}

/// The significand, with its leading bit, of a number of `n` bits cut down
/// (or widened) to 53 bits.
pub open spec fn significand(m: nat, n: nat) -> int {
    if n >= 53 {
        (m as int) / (pow2((n - 53) as nat) as int)
    } else {
        (m * pow2((53 - n) as nat)) as int
    }
}

/// `m * 2^u` rounded down, for a positive or negative `u`.
pub open spec fn scaled_down(m: nat, u: int) -> int {
    if u >= 0 {
        (m * pow2(u as nat)) as int
    } else {
        (m as int) / (pow2((-u) as nat) as int)
    }
}

/// The bits of the `f64` nearest to `a * 2^p` toward zero: the sign of
/// `a`; zero for zero; infinity where the number is too large for an `f64`
/// or the integer `a` has more than `2^32` bits; a normal number with the
/// top 53 bits of `a` where its exponent allows; otherwise a subnormal
/// number counting units of `2^-1074`.
pub open spec fn f64_truncated(a: int, p: int) -> int {
    let m = abs(a);
    let n = bit_length(m);
    let sign = if a < 0 {
        0x8000_0000_0000_0000int
    } else {
        0int
    };
    let biased = n + p + 1022;
    if n == 0 {
        sign
    } else if n > 0x1_0000_0000 || biased >= 2047 {
        sign + 2047 * 0x10_0000_0000_0000
    } else if biased >= 1 {
        sign + biased * 0x10_0000_0000_0000 + (significand(m, n) - 0x10_0000_0000_0000)
    } else {
        sign + scaled_down(m, p + 1074)
    }
}

/// `a` is what `Computable::approx` gives for the number `n` at the scale
/// `2^p`: an approximation with `-p` bits, or one with no bits shifted
/// down `p` places, for a scale within the largest working precision.
pub open spec fn approximation_at(n: Node, p: int, a: int, halted: bool) -> bool {
    ||| p <= 0 && approximates(n, (-clamp_scale(p)) as nat, a, halted)
    ||| p > 0 && scaled_up_approximation(n, p, a, halted)
}

/// `a` is an approximation of `n` with no bits, shifted down `p` places.
pub open spec fn scaled_up_approximation(n: Node, p: int, a: int, halted: bool) -> bool {
    exists|y: int|
        #![trigger approximates(n, 0, y, halted)]
        approximates(n, 0, y, halted) && a == rounded_shift(y, clamp_scale(p) as nat)
}

/// Between `A * D` and `2 * A * D` the quotient by `D` lies between `A`
/// and `2 * A`.
proof fn lemma_quotient_between(m: int, d: int, a: int)
    requires
        d > 0,
        a >= 0,
        a * d <= m < 2 * a * d,
    ensures
        a <= m / d < 2 * a,
{
    vstd::arithmetic::div_mod::lemma_fundamental_div_mod(m, d);
    vstd::arithmetic::div_mod::lemma_mod_pos_bound(m, d);
    let q = m / d;
    let r = m % d;
    assert(a <= q) by (nonlinear_arith)
        requires
            a * d <= m,
            m == d * q + r,
            0 <= r < d,
            d > 0,
    ;
    assert(q < 2 * a) by (nonlinear_arith)
        requires
            m < 2 * a * d,
            m == d * q + r,
            0 <= r,
            d > 0,
    ;
}

/// A number of `n` bits has a significand of exactly 53 bits.
proof fn lemma_significand_bounds(m: nat, n: nat)
    requires
        n >= 1,
        pow2((n - 1) as nat) <= m < pow2(n),
    ensures
        0x10_0000_0000_0000 <= significand(m, n) < 0x20_0000_0000_0000,
{
    vstd::arithmetic::power2::lemma2_to64();
    vstd::arithmetic::power2::lemma2_to64_rest();
    if n >= 53 {
        let d = pow2((n - 53) as nat) as int;
        vstd::arithmetic::power2::lemma_pow2_pos((n - 53) as nat);
        vstd::arithmetic::power2::lemma_pow2_adds(52, (n - 53) as nat);
        vstd::arithmetic::power2::lemma_pow2_adds(53, (n - 53) as nat);
        assert((52 + (n - 53) as nat) as nat == (n - 1) as nat);
        assert((53 + (n - 53) as nat) as nat == n);
        assert(pow2((n - 1) as nat) == pow2(52) * d);
        assert(pow2(n) == pow2(53) * d);
        let a = pow2(52) as int;
        assert(pow2(53) * d == 2 * a * d) by (nonlinear_arith)
            requires
                pow2(53) == 2 * a,
        ;
        lemma_quotient_between(m as int, d, a);
    } else {
        let e = pow2((53 - n) as nat) as int;
        vstd::arithmetic::power2::lemma_pow2_pos((53 - n) as nat);
        vstd::arithmetic::power2::lemma_pow2_adds((n - 1) as nat, (53 - n) as nat);
        vstd::arithmetic::power2::lemma_pow2_adds(n, (53 - n) as nat);
        assert(((n - 1) as nat + (53 - n) as nat) as nat == 52);
        assert((n + (53 - n) as nat) as nat == 53);
        vstd::arithmetic::mul::lemma_mul_inequality(pow2((n - 1) as nat) as int, m as int, e);
        vstd::arithmetic::mul::lemma_mul_strict_inequality(m as int, pow2(n) as int, e);
        assert(significand(m, n) == m * e);
    }
}

/// Below the normal range the units of `2^-1074` number fewer than
/// `2^52`.
proof fn lemma_subnormal_bounds(m: nat, n: nat, u: int)
    requires
        n >= 1,
        m < pow2(n),
        n + u <= 52,
    ensures
        0 <= scaled_down(m, u) < 0x10_0000_0000_0000,
{
    vstd::arithmetic::power2::lemma2_to64();
    vstd::arithmetic::power2::lemma2_to64_rest();
    if u >= 0 {
        let e = pow2(u as nat) as int;
        vstd::arithmetic::power2::lemma_pow2_pos(u as nat);
        vstd::arithmetic::power2::lemma_pow2_adds(n, u as nat);
        vstd::arithmetic::mul::lemma_mul_strict_inequality(m as int, pow2(n) as int, e);
        if n + u < 52 {
            vstd::arithmetic::power2::lemma_pow2_strictly_increases((n + u) as nat, 52);
        }
    } else {
        let d = pow2((-u) as nat) as int;
        vstd::arithmetic::power2::lemma_pow2_pos((-u) as nat);
        vstd::arithmetic::div_mod::lemma_div_pos_is_pos(m as int, d);
        if n + u >= 0 {
            vstd::arithmetic::power2::lemma_pow2_adds((n + u) as nat, (-u) as nat);
            assert(pow2(n) == pow2((n + u) as nat) * d);
            vstd::arithmetic::div_mod::lemma_div_by_multiple_is_strongly_ordered(
                m as int,
                pow2(n) as int,
                pow2((n + u) as nat) as int,
                d,
            );
            vstd::arithmetic::div_mod::lemma_div_by_multiple(pow2((n + u) as nat) as int, d);
            if n + u < 52 {
                vstd::arithmetic::power2::lemma_pow2_strictly_increases((n + u) as nat, 52);
            }
        } else {
            vstd::arithmetic::power2::lemma_pow2_strictly_increases(n, (-u) as nat);
            vstd::arithmetic::div_mod::lemma_basic_div(m as int, d);
        }
    }
}

/// The bits of the `f64` nearest to `a * 2^p` toward zero.
fn f64_bits_of_scaled(a: &Integer, p: i64) -> (res: u64)
    requires
        -(MAX_PRECISION as int) - 70 <= p <= MAX_PRECISION as int,
    ensures
        res == f64_truncated(a@, p as int),
{
    let negative = a.sign() == Sign::Minus;
    let m = a.magnitude();
    let n = m.bits();
    proof {
        assert(m@ == abs(a@));
    }
    if n == 0 {
        return f64_bits(negative, 0, 0);
    }
    if n > 0x1_0000_0000 {
        return f64_bits(negative, 2047, 0);
    }
    proof {
        crate::natural::lemma_bit_length_bounds(m@);
    }
    // The value is m * 2^p, with 2^(n - 1) <= m < 2^n.
    let top: i64 = n as i64 + p;
    // The value is about 2^(top - 1); the biased exponent of the f64.
    let biased: i64 = top - 1 + 1023;
    if biased >= 2047 {
        return f64_bits(negative, 2047, 0);
    }
    if biased >= 1 {
        proof {
            lemma_significand_bounds(m@, n as nat);
        }
        let q = if n >= 53 {
            truncated_bits(m, n - 53)
        } else {
            m.shl(53 - n).to_u64()
        };
        match q {
            Some(q) => {
                if q >= 0x20_0000_0000_0000 {
                    if biased + 1 >= 2047 {
                        return f64_bits(negative, 2047, 0);
                    }
                    return f64_bits(negative, (biased + 1) as u64, 0);
                }
                if q < 0x10_0000_0000_0000 {
                    return f64_bits(negative, biased as u64, 0);
                }
                return f64_bits(negative, biased as u64, q - 0x10_0000_0000_0000);
            },
            None => {
                return f64_bits(negative, 2047, 0);
            },
        }
    }
    // Subnormal: the fraction counts units of 2^-1074.
    let units: i64 = p + 1074;
    proof {
        lemma_subnormal_bounds(m@, n as nat, units as int);
    }
    let q = if units >= 0 {
        if units > 64 {
            None
        } else {
            m.shl(units as u64).to_u64()
        }
    } else if -units > 0x1_0000_0000 {
        proof {
            vstd::arithmetic::power2::lemma_pow2_strictly_increases(n as nat, (-units) as nat);
            vstd::arithmetic::power2::lemma_pow2_pos((-units) as nat);
            vstd::arithmetic::div_mod::lemma_basic_div(m@ as int, pow2((-units) as nat) as int);
        }
        Some(0)
    } else {
        truncated_bits(m, (-units) as u64)
    };
    match q {
        Some(q) => {
            if q >= 0x10_0000_0000_0000 {
                f64_bits(negative, 1, 0)
            } else {
                f64_bits(negative, 0, q)
            }
        },
        None => f64_bits(negative, 1, 0),
    }
}

impl Real {
    /// The bits of an `f64` for this Real: an approximation to seventy
    /// bits cut down toward zero to the `f64` precision; infinity beyond
    /// the `f64` range, subnormal numbers below the normal range.  For a
    /// rational Real the approximation is the value rounded to the nearest
    /// multiple of `2^(e - 70)`, `2^e` being its leading power of two.
    pub fn to_f64_bits(&self) -> (res: u64)
        ensures
            exists|a: int, p: int|
                -(MAX_PRECISION as int) - 70 <= p <= MAX_PRECISION as int && res
                    == #[trigger] f64_truncated(a, p),
            self.class_spec() is One ==> ({
                let q = self.rational_spec();
                let p = exact_iter_msd(q.num(), q.den() as int) - 70;
                res == f64_truncated(nearest_scaled(q.num(), q.den() as int, clamp_scale(p)), p)
            }),
            exists|x: Real, c: Computable, a: int, p: int|
                #![trigger x.folds_to(c), f64_truncated(a, p)]
                x.is_copy_of(*self) && x.folds_to(c) && res == f64_truncated(a, p) && (exact_value(
                    c.node_spec(),
                ) is None ==> approximation_at(c.node_spec(), p, a, c.signal_spec() is Some)),
    {
        let copy = self.clone();
        let ghost x = copy;
        let c = copy.fold();
        let msd = c.iter_msd();
        let a = c.approx(msd - 70);
        let res = f64_bits_of_scaled(&a, msd - 70);
        proof {
            assert(res == f64_truncated(a@, (msd - 70) as int));
            assert(x.folds_to(c));
            if exact_value(c.node_spec()) is None {
                if msd - 70 > 0 {
                    assert(scaled_up_approximation(c.node_spec(), (msd - 70) as int, a@, c.signal_spec() is Some));
                }
                assert(approximation_at(c.node_spec(), (msd - 70) as int, a@, c.signal_spec() is Some));
            }
        }
        res
    }
}

} // verus!
