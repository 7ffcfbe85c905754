//! Reading rationals from text.

use vstd::prelude::*;
use vstd::arithmetic::power::*;
use vstd::arithmetic::mul::*;

use crate::natural::{Natural, Integer};
use crate::rational::{Rational, abs};
use crate::{Problem, Sign};

verus! {

/// An ASCII decimal digit.
pub open spec fn is_digit(c: char) -> bool {
    '0' <= c && c <= '9'
}

/// The value of an ASCII decimal digit.
pub open spec fn digit_value(c: char) -> nat {
    (c as nat - '0' as nat) as nat
}

/// Every character is a decimal digit.
pub open spec fn all_digits(s: Seq<char>) -> bool {
    forall|i: int| 0 <= i < s.len() ==> is_digit(#[trigger] s[i])
}

/// The value of a string of decimal digits.
pub open spec fn decimal(s: Seq<char>) -> nat
    decreases s.len(),
{
    if s.len() == 0 {
        0
    } else {
        decimal(s.drop_last()) * 10 + digit_value(s.last())
    }
}

/// How many decimal digits the text starts with.
pub open spec fn leading_digits(s: Seq<char>) -> nat
    decreases s.len(),
{
    if s.len() == 0 || !is_digit(s[0]) {
        0
    } else {
        1 + leading_digits(s.skip(1))
    }
}

/// The value of an unsigned number written as digits, as digits with a
/// decimal point, or as a fraction of two digit strings, as a numerator and
/// a denominator; `None` for any other text.
pub open spec fn unsigned_text_value(t: Seq<char>) -> Option<(nat, nat)> {
    let a = leading_digits(t) as int;
    if a == t.len() {
        if a > 0 {
            Some((decimal(t), 1nat))
        } else {
            None
        }
    } else if t[a] == '/' {
        let b = t.skip(a + 1);
        if a > 0 && b.len() > 0 && all_digits(b) {
            Some((decimal(t.take(a)), decimal(b)))
        } else {
            None
        }
    } else if t[a] == '.' {
        let f = t.skip(a + 1);
        if all_digits(f) && a + f.len() > 0 {
            Some((decimal(t.take(a) + f), pow(10, f.len()) as nat))
        } else {
            None
        }
    } else {
        None
    }
}

/// The value of a number written as text, with an optional leading minus
/// sign, as a numerator and a denominator.
pub open spec fn text_value(s: Seq<char>) -> Option<(int, nat)> {
    if s.len() > 0 && s[0] == '-' {
        match unsigned_text_value(s.skip(1)) {
            Some((n, d)) => Some((-n, d)),
            None => None,
        }
    } else {
        match unsigned_text_value(s) {
            Some((n, d)) => Some((n as int, d)),
            None => None,
        }
    }
}

proof fn lemma_leading_digits(s: Seq<char>, i: int)
    requires
        0 <= i <= s.len(),
        all_digits(s.take(i)),
        i == s.len() || !is_digit(s[i]),
    ensures
        leading_digits(s) == i,
    decreases i,
{
    if i > 0 {
        assert(is_digit(s.take(i)[0]));
        assert forall|j: int| 0 <= j < i - 1 implies is_digit(#[trigger] s.skip(1).take(i - 1)[j]) by {
            assert(s.skip(1).take(i - 1)[j] == s.take(i)[j + 1]);
        }
        lemma_leading_digits(s.skip(1), i - 1);
    }
}

/// Accumulate the decimal digits of `s[start..end]` onto `acc`, counting
/// powers of ten in `scale`.
fn accumulate_digits(s: &Vec<char>, start: usize, end: usize) -> (res: (Natural, Natural))
    requires
        start <= end <= s@.len(),
        all_digits(s@.subrange(start as int, end as int)),
    ensures
        res.0@ == decimal(s@.subrange(start as int, end as int)),
        res.1@ == pow(10, (end - start) as nat),
{
    let ten = Natural::from_u64(10);
    let mut acc = Natural::zero();
    let mut scale = Natural::from_u64(1);
    let mut i = start;
    proof {
        reveal(pow);
        assert(s@.subrange(start as int, start as int) =~= Seq::<char>::empty());
    }
    while i < end
        invariant
            start <= i <= end <= s@.len(),
            all_digits(s@.subrange(start as int, end as int)),
            acc@ == decimal(s@.subrange(start as int, i as int)),
            scale@ == pow(10, (i - start) as nat),
            ten@ == 10,
        decreases end - i,
    {
        let c = s[i];
        proof {
            let t = s@.subrange(start as int, end as int);
            assert(t[i - start] == c);
            assert(is_digit(c));
            let u = s@.subrange(start as int, i + 1);
            assert(u.drop_last() =~= s@.subrange(start as int, i as int));
            reveal(pow);
            assert(pow(10, (i + 1 - start) as nat) == 10 * pow(10, (i - start) as nat));
        }
        let d = Natural::from_u64((c as u32 - '0' as u32) as u64);
        acc = acc.mul(&ten).add(&d);
        scale = scale.mul(&ten);
        i = i + 1;
    }
    (acc, scale)
}

fn digits_prefix_end(s: &Vec<char>, start: usize) -> (res: usize)
    requires
        start <= s@.len(),
    ensures
        start <= res <= s@.len(),
        all_digits(s@.subrange(start as int, res as int)),
        res == s@.len() || !is_digit(s@[res as int]),
{
    let mut i = start;
    while i < s.len() && '0' <= s[i] && s[i] <= '9'
        invariant
            start <= i <= s@.len(),
            all_digits(s@.subrange(start as int, i as int)),
        decreases s@.len() - i,
    {
        proof {
            assert forall|j: int| 0 <= j < i + 1 - start implies is_digit(
                #[trigger] s@.subrange(start as int, i + 1)[j],
            ) by {
                if j < i - start {
                    assert(s@.subrange(start as int, i + 1)[j] == s@.subrange(
                        start as int,
                        i as int,
                    )[j]);
                }
            }
        }
        i = i + 1;
    }
    i
}

/// Read an unsigned number from the characters from `start` on.
fn parse_unsigned(s: &Vec<char>, start: usize) -> (res: Option<(Natural, Natural)>)
    requires
        start <= s@.len(),
    ensures
        unsigned_text_value(s@.skip(start as int)) is None ==> res is None,
        unsigned_text_value(s@.skip(start as int)) matches Some((n, d)) ==> res matches Some(
            (x, y),
        ) && x@ == n && y@ == d,
{
    let ghost t = s@.skip(start as int);
    let a = digits_prefix_end(s, start);
    proof {
        assert(t.take(a - start) =~= s@.subrange(start as int, a as int));
        lemma_leading_digits(t, a - start);
        if a < s.len() {
            assert(t[a - start] == s@[a as int]);
        }
        assert(t.len() == s@.len() - start);
    }
    if a == s.len() {
        if a > start {
            let (n, _) = accumulate_digits(s, start, a);
            proof {
                assert(t =~= s@.subrange(start as int, a as int));
            }
            Some((n, Natural::from_u64(1)))
        } else {
            None
        }
    } else if s[a] == '/' {
        parse_fraction(s, start, a)
    } else if s[a] == '.' {
        parse_point(s, start, a)
    } else {
        None
    }
}

/// Read `digits / digits`, where the numerator runs from `start` to `a`.
fn parse_fraction(s: &Vec<char>, start: usize, a: usize) -> (res: Option<(Natural, Natural)>)
    requires
        start <= a < s@.len(),
        s@[a as int] == '/',
        leading_digits(s@.skip(start as int)) == a - start,
        all_digits(s@.subrange(start as int, a as int)),
    ensures
        unsigned_text_value(s@.skip(start as int)) is None ==> res is None,
        unsigned_text_value(s@.skip(start as int)) matches Some((n, d)) ==> res matches Some(
            (x, y),
        ) && x@ == n && y@ == d,
{
    let ghost t = s@.skip(start as int);
    proof {
        assert(t[a - start] == s@[a as int]);
    }
    let len = s.len();
    assert(a < len);
    let b = digits_prefix_end(s, a + 1);
    if a > start && b > a + 1 && b == s.len() {
        let (n, _) = accumulate_digits(s, start, a);
        let (d, _) = accumulate_digits(s, a + 1, b);
        proof {
            assert(t.skip(a - start + 1) =~= s@.subrange(a + 1, b as int));
            assert(t.take(a - start) =~= s@.subrange(start as int, a as int));
        }
        Some((n, d))
    } else {
        proof {
            if b < s.len() {
                assert(t.skip(a - start + 1)[b - a - 1] == s@[b as int]);
            }
            if b == a + 1 {
                assert(t.skip(a - start + 1).len() == s@.len() - a - 1);
            }
        }
        None
    }
}

/// Read `digits . digits`, where the whole part runs from `start` to `a`.
fn parse_point(s: &Vec<char>, start: usize, a: usize) -> (res: Option<(Natural, Natural)>)
    requires
        start <= a < s@.len(),
        s@[a as int] == '.',
        leading_digits(s@.skip(start as int)) == a - start,
        all_digits(s@.subrange(start as int, a as int)),
    ensures
        unsigned_text_value(s@.skip(start as int)) is None ==> res is None,
        unsigned_text_value(s@.skip(start as int)) matches Some((n, d)) ==> res matches Some(
            (x, y),
        ) && x@ == n && y@ == d,
{
    let ghost t = s@.skip(start as int);
    proof {
        assert(t[a - start] == s@[a as int]);
    }
    let len = s.len();
    assert(a < len);
    let b = digits_prefix_end(s, a + 1);
    if b == s.len() && (a > start || b > a + 1) {
        let (n1, _) = accumulate_digits(s, start, a);
        let (n2, scale) = accumulate_digits(s, a + 1, b);
        let n = n1.mul(&scale).add(&n2);
        proof {
            let f = s@.subrange(a + 1, b as int);
            assert(t.skip(a - start + 1) =~= f);
            assert(t.take(a - start) =~= s@.subrange(start as int, a as int));
            lemma_decimal_concat(s@.subrange(start as int, a as int), f);
        }
        Some((n, scale))
    } else {
        proof {
            if b < s.len() {
                assert(t.skip(a - start + 1)[b - a - 1] == s@[b as int]);
            }
            assert(t.skip(a - start + 1).len() == s@.len() - a - 1);
        }
        None
    }
}

/// Read a number from its characters: digits, digits with a decimal point,
/// or a fraction of digits, with an optional leading minus sign.
pub fn parse_chars(s: &Vec<char>) -> (res: Result<Rational, Problem>)
    ensures
        text_value(s@) is None <==> res == Err::<Rational, Problem>(Problem::ParseError),
        text_value(s@) matches Some((n, d)) ==> (d == 0 <==> res == Err::<Rational, Problem>(
            Problem::DivideByZero)),
        res matches Ok(r) ==> text_value(s@) matches Some((n, d)) && d > 0 && r.same_value(
            n,
            d as int,
        ),
        res is Err ==> res == Err::<Rational, Problem>(Problem::ParseError) || res == Err::<
            Rational,
            Problem,
        >(Problem::DivideByZero),
{
    let negative = s.len() > 0 && s[0] == '-';
    let start: usize = if negative {
        1
    } else {
        0
    };
    proof {
        assert(s@.skip(0) =~= s@);
    }
    let sign = if negative {
        Sign::Minus
    } else {
        Sign::Plus
    };
    match parse_unsigned(s, start) {
        None => Err(Problem::ParseError),
        Some((n, d)) => {
            if d.is_zero() {
                Err(Problem::DivideByZero)
            } else {
                let i = Integer::from_parts(sign, n);
                Rational::from_bigint_fraction(i, d)
            }
        },
    }
}

/// The digits of two strings written one after the other.
pub proof fn lemma_decimal_concat(a: Seq<char>, f: Seq<char>)
    ensures
        decimal(a + f) == decimal(a) * (pow(10, f.len()) as nat) + decimal(f),
    decreases f.len(),
{
    reveal(pow);
    if f.len() == 0 {
        assert(a + f =~= a);
        assert(pow(10, 0) == 1);
        assert(f.len() == 0);
        assert(pow(10, f.len()) == 1);
        assert(decimal(f) == 0);
        let p = pow(10, f.len());
        assert(decimal(a) * (p as nat) == decimal(a)) by (nonlinear_arith)
            requires
                p == 1,
        ;
    } else {
        assert((a + f).drop_last() =~= a + f.drop_last());
        assert((a + f).last() == f.last());
        lemma_decimal_concat(a, f.drop_last());
        let p = pow(10, (f.len() - 1) as nat);
        assert(pow(10, f.len()) == 10 * p);
        lemma_pow_positive(10, (f.len() - 1) as nat);
        let da = decimal(a);
        let df = decimal(f.drop_last());
        let af = a + f;
        assert(af.len() > 0);
        assert(decimal(af) == decimal(af.drop_last()) * 10 + digit_value(af.last()));
        assert(decimal(af.drop_last()) == decimal(a + f.drop_last()));
        assert(pow(10, f.drop_last().len()) == p);
        assert(decimal(a + f.drop_last()) == da * (p as nat) + df);
        assert(decimal(a + f) == (da * p + df) * 10 + digit_value(f.last()));
        assert(decimal(f) == df * 10 + digit_value(f.last()));
        assert((da * p + df) * 10 == da * (10 * p) + df * 10) by (nonlinear_arith);
        assert(decimal(a + f) == da * pow(10, f.len()) + decimal(f));
        assert(pow(10, f.len()) > 0);
        assert((pow(10, f.len()) as nat) == pow(10, f.len()));
    }
}

/// The decimal digit character for `d`.
pub open spec fn digit_char_spec(d: nat) -> char {
    ((d + 48) as u8) as char
}

/// The decimal digit character for `d`.
pub fn digit_char(d: u64) -> (c: char)
    requires
        d < 10,
    ensures
        is_digit(c),
        digit_value(c) == d,
        c == digit_char_spec(d as nat),
{
    let b: u8 = d as u8 + 48;
    let c = b as char;
    c
}

proof fn lemma_decimal_prepend(c: char, s: Seq<char>)
    ensures
        decimal(seq![c] + s) == digit_value(c) * (pow(10, s.len()) as nat) + decimal(s),
{
    lemma_decimal_concat(seq![c], s);
    assert(seq![c].drop_last() =~= Seq::<char>::empty());
    assert(seq![c].last() == c);
    assert(decimal(Seq::<char>::empty()) == 0);
    assert(decimal(seq![c]) == digit_value(c));
}

/// The decimal digits of `n`, without leading zeros.
pub open spec fn decimal_chars(n: nat) -> Seq<char>
    decreases n,
{
    if n < 10 {
        seq![digit_char_spec(n)]
    } else {
        decimal_chars(n / 10).push(digit_char_spec(n % 10))
    }
}

/// The character for the digit zero.
pub proof fn lemma_zero_char()
    ensures
        digit_char_spec(0) == '0',
{
    lemma_digit_char_round_trip('0');
}

proof fn lemma_digit_char_round_trip(c: char)
    requires
        is_digit(c),
    ensures
        digit_char_spec(digit_value(c)) == c,
{
    let v = c as nat;
    assert(48 <= v <= 57);
    assert(digit_value(c) + 48 == v);
    assert((v as u8) as nat == v);
    assert(((v as u8) as char) as nat == v);

}

/// Digits without a leading zero are the decimal digits of their value.
pub proof fn lemma_canonical_decimal(s: Seq<char>)
    requires
        all_digits(s),
        s.len() >= 1,
        s.len() > 1 ==> s[0] != '0',
    ensures
        s == decimal_chars(decimal(s)),
    decreases s.len(),
{
    let t = s.drop_last();
    let c = s.last();
    assert(is_digit(c)) by {
        assert(is_digit(s[s.len() - 1]));
    }
    lemma_digit_char_round_trip(c);
    assert(digit_value(c) < 10);
    if s.len() == 1 {
        assert(t.len() == 0);
        assert(decimal(t) == 0);
        assert(decimal(s) == decimal(t) * 10 + digit_value(c));
        assert(decimal(s) == digit_value(c));
        assert(s =~= seq![c]);
    } else {
        assert(all_digits(t)) by {
            assert forall|i: int| 0 <= i < t.len() implies is_digit(#[trigger] t[i]) by {
                assert(t[i] == s[i]);
            }
        }
        assert(t[0] == s[0]);
        lemma_canonical_decimal(t);
        assert(t =~= seq![t[0]] + t.skip(1));
        lemma_decimal_prepend(t[0], t.skip(1));
        lemma_pow_positive(10, t.skip(1).len());
        assert(is_digit(t[0]));
        assert(digit_value(t[0]) >= 1);
        assert(decimal(t) >= 1) by (nonlinear_arith)
            requires
                decimal(t) == digit_value(t[0]) * (pow(10, t.skip(1).len()) as nat) + decimal(
                    t.skip(1),
                ),
                digit_value(t[0]) >= 1,
                pow(10, t.skip(1).len()) > 0,
        ;
        let n = decimal(s);
        assert(n == decimal(t) * 10 + digit_value(c));
        assert(n / 10 == decimal(t) && n % 10 == digit_value(c)) by (nonlinear_arith)
            requires
                n == decimal(t) * 10 + digit_value(c),
                digit_value(c) < 10,
        ;
        assert(s =~= t.push(c));
    }
}

/// A whole number in decimal, with a minus sign when negative.
pub open spec fn int_chars(e: int) -> Seq<char> {
    (if e < 0 {
        seq!['-']
    } else {
        Seq::empty()
    }) + decimal_chars(abs(e))
}

/// The text of the rational `n / d`: the whole number `n`, then, unless
/// `d` is one, a slash and the digits of `d`.
pub open spec fn rational_chars(n: int, d: nat) -> Seq<char> {
    int_chars(n) + if d == 1 {
        Seq::empty()
    } else {
        seq!['/'] + decimal_chars(d)
    }
}

/// The decimal digits of a natural number, without leading zeros.
pub fn natural_text(n: &Natural) -> (res: Vec<char>)
    ensures
        all_digits(res@),
        decimal(res@) == n@,
        res@.len() >= 1,
        res@.len() > 1 ==> res@[0] != '0',
        res@ == decimal_chars(n@),
{
    let ten = Natural::from_u64(10);
    let mut rest = n.clone();
    let mut out: Vec<char> = Vec::new();
    proof {
        reveal(pow);
    }
    loop
        invariant_except_break
            out@.len() > 0 ==> rest@ > 0,
        invariant
            ten@ == 10,
            all_digits(out@),
            decimal(out@) + rest@ * pow(10, out@.len()) == n@,
        ensures
            all_digits(out@),
            decimal(out@) == n@,
            out@.len() >= 1,
            out@.len() > 1 ==> out@[0] != '0',
        decreases rest@,
    {
        let (q, r) = rest.div_rem(&ten);
        let d = match r.to_u64() {
            Some(x) => x,
            None => 0,
        };
        let c = digit_char(d);
        let ghost old_out = out@;
        let ghost old_rest = rest@;
        out.insert(0, c);
        proof {
            reveal(pow);
            assert(out@ =~= seq![c] + old_out);
            lemma_decimal_prepend(c, old_out);
            lemma_pow_positive(10, old_out.len());
            assert(pow(10, out@.len()) == 10 * pow(10, old_out.len()));
            assert(old_rest == q@ * 10 + d);
            assert(decimal(out@) + q@ * pow(10, out@.len()) == n@) by (nonlinear_arith)
                requires
                    decimal(out@) == d * pow(10, old_out.len()) + decimal(old_out),
                    decimal(old_out) + old_rest * pow(10, old_out.len()) == n@,
                    old_rest == q@ * 10 + d,
                    pow(10, out@.len()) == 10 * pow(10, old_out.len()),
            ;
            assert forall|i: int| 0 <= i < out@.len() implies is_digit(#[trigger] out@[i]) by {
                if i > 0 {
                    assert(out@[i] == old_out[i - 1]);
                }
            }
            if q@ == 0 && old_out.len() > 0 {
                assert(d == old_rest);
                assert(out@[0] == c);
            }
        }
        rest = q;
        if rest.is_zero() {
            proof {
                assert(pow(10, out@.len()) * 0 == 0) by (nonlinear_arith);
            }
            break;
        }
    }
    proof {
        lemma_canonical_decimal(out@);
    }
    out
}

/// The string made of these characters, by `String`'s `FromIterator<char>`.
#[verifier::external_body]
pub(crate) fn chars_to_string(chars: &Vec<char>) -> (res: String)
    ensures
        res@ == chars@,
{
    chars.iter().collect()
}

/// What reading the text `s` as a number gives: `ParseError` for text
/// that is not a number, `DivideByZero` for a fraction over zero, and
/// otherwise the number the text stands for.
pub open spec fn parse_result(res: Result<Rational, Problem>, s: Seq<char>) -> bool {
    &&& text_value(s) is None <==> res == Err::<Rational, Problem>(Problem::ParseError)
    &&& text_value(s) matches Some((n, d)) ==> (d == 0 <==> res == Err::<Rational, Problem>(
        Problem::DivideByZero))
    &&& res matches Ok(r) ==> text_value(s) matches Some((n, d)) && d > 0 && r.same_value(
        n,
        d as int,
    )
    &&& res matches Err(e) ==> e == Problem::ParseError || e == Problem::DivideByZero
}

/// The characters of a string.
pub(crate) fn str_chars(s: &str) -> (res: Vec<char>)
    ensures
        res@ == s@,
{
    let mut v: Vec<char> = Vec::new();
    proof {
        broadcast use vstd::string::axiom_spec_iter;
    }
    for c in it: s.chars()
        invariant
            it.seq() == s@,
            v@ == it.seq().take(it.index() as int),
    {
        v.push(c);
    }
    v
}

impl Rational {
    /// Read a number from text: digits, digits with a decimal point, or a
    /// fraction of digits, with an optional leading minus sign.
    pub fn parse_text(s: &str) -> (res: Result<Rational, Problem>)
        ensures
            parse_result(res, s@),
    {
        let chars = str_chars(s);
        parse_chars(&chars)
    }
}

/// Append the characters of `v` to `out`.
pub(crate) fn append_chars(out: &mut Vec<char>, v: &Vec<char>)
    ensures
        final(out)@ == old(out)@ + v@,
{
    let ghost start = out@;
    let mut i: usize = 0;
    while i < v.len()
        invariant
            i <= v@.len(),
            out@ == start + v@.take(i as int),
        decreases v@.len() - i,
    {
        out.push(v[i]);
        i = i + 1;
        proof {
            assert(v@.take(i as int) =~= v@.take((i - 1) as int).push(v@[i - 1]));
        }
    }
    proof {
        assert(v@.take(v@.len() as int) =~= v@);
    }
}

proof fn lemma_digits_read_back(a: Seq<char>)
    requires
        all_digits(a),
        a.len() > 0,
    ensures
        unsigned_text_value(a) == Some((decimal(a), 1nat)),
{
    assert(a.take(a.len() as int) =~= a);
    lemma_leading_digits(a, a.len() as int);
}

proof fn lemma_fraction_read_back(a: Seq<char>, b: Seq<char>)
    requires
        all_digits(a),
        all_digits(b),
        a.len() > 0,
        b.len() > 0,
    ensures
        unsigned_text_value(a + seq!['/'] + b) == Some((decimal(a), decimal(b))),
{
    let t = a + seq!['/'] + b;
    let n = a.len() as int;
    assert(t.take(n) =~= a);
    assert(t[n] == '/');
    lemma_leading_digits(t, n);
    assert(t.skip(n + 1) =~= b);
}

impl Rational {
    /// The characters of [`Rational::to_string`].
    pub fn text(&self) -> (res: Vec<char>)
        ensures
            text_value(res@) == Some((self.num(), self.den())),
            res@ == rational_chars(self.num(), self.den()),
    {
        proof {
            use_type_invariant(self);
        }
        let mut out: Vec<char> = Vec::new();
        let negative = self.sign() == Sign::Minus;
        if negative {
            out.push('-');
        }
        let ghost sign_part = out@;
        let digits = natural_text(self.magnitude());
        append_chars(&mut out, &digits);
        let ghost a = digits@;
        if self.is_integer() {
            proof {
                lemma_digits_read_back(a);
                if negative {
                    assert(out@[0] == '-');
                    assert(out@.skip(1) =~= a);
                } else {
                    assert(out@ =~= a);
                    assert(a.len() > 0 && is_digit(a[0]));
                }
                assert(out@ =~= rational_chars(self.num(), self.den()));
            }
            out
        } else {
            out.push('/');
            let below = natural_text(self.denominator());
            append_chars(&mut out, &below);
            proof {
                let b = below@;
                lemma_fraction_read_back(a, b);
                if negative {
                    assert(out@[0] == '-');
                    assert(out@.skip(1) =~= a + seq!['/'] + b);
                } else {
                    assert(out@ =~= a + seq!['/'] + b);
                    assert(is_digit(out@[0]));
                }
                assert(out@ =~= rational_chars(self.num(), self.den()));
            }
            out
        }
    }

    /// The number as text: an optional minus sign and the digits of the
    /// numerator, then for a fraction a slash and the digits of the
    /// denominator.  Reading the text back gives the same number.
    pub fn to_string(&self) -> (res: String)
        ensures
            text_value(res@) == Some((self.num(), self.den())),
            res@ == rational_chars(self.num(), self.den()),
    {
        chars_to_string(&self.text())
    }
}

} // verus!
