//! Writing computable numbers as decimal text, either positionally or in
//! scientific notation.

use vstd::prelude::*;
use vstd::arithmetic::power::*;
use vstd::arithmetic::power2::pow2;
use vstd::arithmetic::div_mod::{lemma_basic_div, lemma_fundamental_div_mod};

use crate::computable::{Computable, Node, exact_value, approximates};
use crate::computable::approx::{MAX_PRECISION, clamp_scale, exact_iter_msd, nearest_scaled};
use crate::computable::decimal::{
    scaled_divisor,
    exponent_fits,
    decimal_exponent,
    place_digits,
    rounded_quotient,
    digits_result,
    digits_exact,
    lemma_scaled_step,
    lemma_exponent_unique,
    lemma_place_digits,
    lemma_pow2_below_pow10,
    lemma_number_below,
    lemma_long_division_step,
    lemma_digits_result_decimal,
};
use crate::natural::Natural;
use crate::rational::text::{
    append_chars,
    chars_to_string,
    decimal_chars,
    digit_char,
    int_chars,
    digit_char_spec,
    natural_text,
};
use crate::rational::abs;
use crate::Sign;

verus! {

/// Places written after the point when no precision is asked for.
pub const DEFAULT_PRECISION: usize = 32;

/// The most places that can be asked for.
pub const MAX_PLACES: usize = 0xffff_ffff;

/// The largest decimal exponent handled.
pub const EXP_LIMIT: i64 = 0x100_0000_0000;

/// Some approximation of the number `n` is negative.
pub open spec fn seen_negative(n: Node, halted: bool) -> bool {
    exists|w: nat, x: int| #![trigger approximates(n, w, x, halted)] approximates(n, w, x, halted) && x < 0
}

/// `num` and `first` are the decimal digits, and the exponent of the first,
/// that formatting takes from `a`, an approximation of the number `n` at
/// the working precision that the leading position `msd` sets.
pub open spec fn digits_of_approximation(
    n: Node,
    precision: Option<usize>,
    scientific: bool,
    msd: int,
    a: int,
    num: Seq<u8>,
    first: int,
    halted: bool,
) -> bool {
    let bits = bits_for(places_or_default(precision)) + (if msd > 0 {
        msd
    } else {
        0
    });
    &&& -(MAX_PRECISION as int) <= msd <= MAX_PRECISION
    &&& approximates(n, (-clamp_scale(msd - bits)) as nat, a, halted)
    &&& (a == 0 ==> num == zero_digits(digit_places(precision, scientific), digits_stop(precision, scientific))
        && first == 0)
    &&& (digits_exact(abs(a), (bits - msd) as nat, EXP_LIMIT as int) ==> (num, first) == digits_result(
        abs(a),
        (bits - msd) as nat,
        digit_places(precision, scientific),
        digits_stop(precision, scientific),
    ))
}

/// `s` is positional text that formatting can write for the number `n`: a
/// sign (minus only where some approximation was negative), then the
/// digits of an approximation, where they come out as decimal digits.
pub open spec fn positional_text(
    n: Node,
    precision: Option<usize>,
    sign_plus: bool,
    s: Seq<char>,
    halted: bool,
) -> bool {
    exists|negative: bool, msd: int, a: int, num: Seq<u8>, first: int|
        #![trigger digits_of_approximation(n, precision, false, msd, a, num, first, halted), sign_chars(negative, sign_plus)]
        digits_of_approximation(n, precision, false, msd, a, num, first, halted) && (negative ==> seen_negative(n, halted))
            && (all_decimal(num) ==> s == sign_chars(negative, sign_plus) + positional_chars(
            num,
            first,
            places_or_default(precision),
            precision is Some,
        ))
}

/// `s` is scientific text with `marker` that formatting can write for the
/// number `n`.
pub open spec fn scientific_text(
    n: Node,
    precision: Option<usize>,
    sign_plus: bool,
    marker: char,
    s: Seq<char>,
    halted: bool,
) -> bool {
    exists|negative: bool, msd: int, a: int, num: Seq<u8>, first: int|
        #![trigger digits_of_approximation(n, precision, true, msd, a, num, first, halted), sign_chars(negative, sign_plus)]
        digits_of_approximation(n, precision, true, msd, a, num, first, halted) && (negative ==> seen_negative(n, halted))
            && (all_decimal(num) ==> s == sign_chars(negative, sign_plus) + scientific_chars(
            num,
            first,
            marker,
        ))
}

/// `s` is what `display` writes for `c`: the exact digits of a rational
/// expression where they are known, else positional text of an
/// approximation.
pub open spec fn displayed_as(c: Computable, precision: Option<usize>, sign_plus: bool, s: Seq<char>) -> bool {
    &&& exact_value(c.node_spec()) matches Some((n, d)) ==> (text_exact(n, d, precision, false) ==> s
        == sign_chars(n * d < 0, sign_plus) + positional_chars(
        exact_digits(n, d, precision, false).0,
        exact_digits(n, d, precision, false).1,
        places_or_default(precision),
        precision is Some,
    ))
    &&& exact_value(c.node_spec()) is None ==> positional_text(c.node_spec(), precision, sign_plus, s, c.signal_spec() is Some)
}

/// `s` is what `lower_exp` (or `upper_exp`, with `marker`) writes for `c`.
pub open spec fn scientific_as(
    c: Computable,
    precision: Option<usize>,
    sign_plus: bool,
    marker: char,
    s: Seq<char>,
) -> bool {
    &&& exact_value(c.node_spec()) matches Some((n, d)) ==> (text_exact(n, d, precision, true) ==> s
        == sign_chars(n * d < 0, sign_plus) + scientific_chars(
        exact_digits(n, d, precision, true).0,
        exact_digits(n, d, precision, true).1,
        marker,
    ))
    &&& exact_value(c.node_spec()) is None ==> scientific_text(c.node_spec(), precision, sign_plus, marker, s, c.signal_spec() is Some)
}

/// Every entry is a decimal digit.
pub open spec fn all_decimal(s: Seq<u8>) -> bool {
    forall|i: int| 0 <= i < s.len() ==> #[trigger] s[i] < 10
}

/// The number written by decimal digits, most significant first.
pub open spec fn digits_number(s: Seq<u8>) -> nat
    decreases s.len(),
{
    if s.len() == 0 {
        0
    } else {
        digits_number(s.drop_last()) * 10 + (s.last() as nat)
    }
}

/// The digits without their trailing zeros.
pub open spec fn trimmed(s: Seq<u8>) -> Seq<u8>
    decreases s.len(),
{
    if s.len() > 0 && s.last() == 0 {
        trimmed(s.drop_last())
    } else {
        s
    }
}

/// Drop the trailing zeros.
fn trim(num: &mut Vec<u8>)
    ensures
        final(num)@ == trimmed(old(num)@),
{
    while num.len() > 0 && num[num.len() - 1] == 0
        invariant
            trimmed(num@) == trimmed(old(num)@),
        decreases num.len(),
    {
        let ghost before = num@;
        num.pop();
        proof {
            assert(num@ =~= before.drop_last());
        }
    }
}

proof fn lemma_number_concat(a: Seq<u8>, b: Seq<u8>)
    ensures
        digits_number(a + b) == digits_number(a) * pow(10, b.len()) + digits_number(b),
    decreases b.len(),
{
    reveal(pow);
    if b.len() == 0 {
        assert(a + b =~= a);
        let p = pow(10, b.len());
        assert(p == 1);
        assert(digits_number(a) * p == digits_number(a)) by (nonlinear_arith)
            requires
                p == 1,
        ;
    } else {
        assert((a + b).drop_last() =~= a + b.drop_last());
        assert((a + b).last() == b.last());
        lemma_number_concat(a, b.drop_last());
        let p = pow(10, (b.len() - 1) as nat);
        assert(pow(10, b.len()) == 10 * p);
        let na = digits_number(a);
        let nb = digits_number(b.drop_last());
        assert(digits_number(a + b) == (na * p + nb) * 10 + b.last());
        assert((na * p + nb) * 10 == na * (10 * p) + nb * 10) by (nonlinear_arith);
    }
}

proof fn lemma_number_nines(s: Seq<u8>)
    requires
        forall|i: int| 0 <= i < s.len() ==> #[trigger] s[i] == 9,
    ensures
        digits_number(s) + 1 == pow(10, s.len()),
    decreases s.len(),
{
    reveal(pow);
    if s.len() > 0 {
        lemma_number_nines(s.drop_last());
        assert(s.last() == 9);
    }
}

proof fn lemma_number_zeros(s: Seq<u8>)
    requires
        forall|i: int| 0 <= i < s.len() ==> #[trigger] s[i] == 0,
    ensures
        digits_number(s) == 0,
    decreases s.len(),
{
    if s.len() > 0 {
        lemma_number_zeros(s.drop_last());
        assert(s.last() == 0);
    }
}

/// Add one in the last place.  When every digit is nine the digits become
/// a one followed by zeros, and the result says so: the value has then
/// gained a decimal place.
#[verifier::spinoff_prover]
#[verifier::rlimit(30)]
fn up(num: &mut Vec<u8>) -> (flag: bool)
    ensures
        old(num)@.len() == 0 ==> flag && final(num)@ == seq![1u8],
        old(num)@.len() > 0 ==> final(num)@.len() == old(num)@.len(),
        all_decimal(old(num)@) ==> all_decimal(final(num)@),
        all_decimal(old(num)@) && !flag ==> digits_number(final(num)@) == digits_number(
            old(num)@,
        ) + 1,
        all_decimal(old(num)@) && flag && old(num)@.len() > 0 ==> digits_number(final(num)@) * 10
            == digits_number(old(num)@) + 1,
        all_decimal(old(num)@) && flag && old(num)@.len() > 0 ==> digits_number(old(num)@) + 1
            == pow(10, old(num)@.len()),
{
    let n = num.len();
    let mut i = n;
    while i > 0 && num[i - 1] == 9
        invariant
            i <= n,
            num@.len() == n,
            num@.take(i as int) == old(num)@.take(i as int),
            forall|j: int| i <= j < n ==> #[trigger] num@[j] == 0,
            forall|j: int| i <= j < n ==> #[trigger] old(num)@[j] == 9,
            n == old(num)@.len(),
        decreases i,
    {
        proof {
            assert(num@.take(i as int)[i - 1] == num@[i - 1]);
        }
        num.set(i - 1, 0);
        i = i - 1;
        proof {
            assert(num@.take(i as int) =~= old(num)@.take(i as int));
        }
    }
    let ghost o = old(num)@;
    if i == 0 {
        if n == 0 {
            num.push(1);
            proof {
                assert(num@ =~= seq![1u8]);
            }
        } else {
            num.set(0, 1);
            proof {
                if all_decimal(o) {
                    let rest = num@.skip(1);
                    assert(num@ =~= seq![1u8] + rest);
                    lemma_number_zeros(rest);
                    lemma_number_concat(seq![1u8], rest);
                    assert(seq![1u8].drop_last() =~= Seq::<u8>::empty());
                    assert(seq![1u8].last() == 1);
                    assert(digits_number(Seq::<u8>::empty()) == 0);
                    assert(digits_number(seq![1u8]) == 1);
                    lemma_number_nines(o);
                    reveal(pow);
                    let p = pow(10, rest.len());
                    assert(pow(10, o.len()) == 10 * p);
                    assert(digits_number(num@) == 1 * p + 0);
                    assert(digits_number(num@) * 10 == digits_number(o) + 1) by (nonlinear_arith)
                        requires
                            digits_number(num@) == 1 * p + 0,
                            digits_number(o) + 1 == 10 * p,
                    ;
                    assert(all_decimal(num@));
                }
            }
        }
        true
    } else {
        let d = num[i - 1];
        if d < 255 {
            num.set(i - 1, d + 1);
        }
        proof {
            if all_decimal(o) {
                let k = i as int;
                let head_old = o.take(k);
                let tail_old = o.skip(k);
                let head_new = num@.take(k);
                let tail_new = num@.skip(k);
                assert(o =~= head_old + tail_old);
                assert(num@ =~= head_new + tail_new);
                lemma_number_concat(head_old, tail_old);
                lemma_number_concat(head_new, tail_new);
                assert(forall|j: int| 0 <= j < tail_old.len() ==> #[trigger] tail_old[j] == o[k + j]);
                lemma_number_nines(tail_old);
                assert(forall|j: int| 0 <= j < tail_new.len() ==> #[trigger] tail_new[j] == num@[k + j]);
                lemma_number_zeros(tail_new);
                assert(head_new.drop_last() =~= head_old.drop_last());
                assert(digits_number(head_new) == digits_number(head_old) + 1);
                let p = pow(10, tail_old.len());
                assert(digits_number(num@) == (digits_number(head_old) + 1) * p);
                assert((digits_number(head_old) + 1) * p == digits_number(head_old) * p + p)
                    by (nonlinear_arith);
                assert forall|j: int| 0 <= j < num@.len() implies #[trigger] num@[j] < 10 by {
                    if j < k - 1 {
                        assert(num@[j] == head_old[j]);
                    }
                }
            }
        }
        false
    }
}

/// The number of bits of precision that give `places` decimal places.
pub open spec fn bits_for(places: nat) -> int {
    (((places + 4) * 32) / 9) as int
}

/// The places asked for, or the default.
pub open spec fn places_or_default(precision: Option<usize>) -> nat {
    match precision {
        Some(p) => p as nat,
        None => DEFAULT_PRECISION as nat,
    }
}

/// A precision that can be asked for.
pub open spec fn precision_ok(precision: Option<usize>) -> bool {
    precision matches Some(p) ==> p <= MAX_PLACES
}

/// Enough bits of precision for the places asked for, for a number whose
/// most significant bit is at `msd`.
fn enough_bits(msd: i64, precision: Option<usize>) -> (res: i64)
    requires
        precision_ok(precision),
        -(MAX_PRECISION as int) <= msd <= MAX_PRECISION,
    ensures
        res == bits_for(places_or_default(precision)) + (if msd > 0 {
            msd as int
        } else {
            0
        }),
        res > msd,
        res <= 0x10_0000_0000,
{
    let p: u64 = match precision {
        Some(p) => p as u64,
        None => DEFAULT_PRECISION as u64,
    };
    let bits = (((p + 4) * 32) / 9) as i64;
    assert(bits >= 14);
    if msd > 0 {
        bits + msd
    } else {
        bits
    }
}

/// How the number of digits to write is decided: a number of places after
/// the first digit, or a number of places after the decimal point.
#[derive(Clone, Copy, Debug)]
pub enum Places {
    Exp(usize),
    Zero(usize),
}

impl Places {
    /// The places are within the limit.
    pub open spec fn valid(self) -> bool {
        match self {
            Places::Exp(n) => n <= MAX_PLACES,
            Places::Zero(n) => n <= MAX_PLACES,
        }
    }

    /// The digits to write for a number whose first digit stands for
    /// `10^exp`.
    pub open spec fn count(self, exp: int) -> int {
        match self {
            Places::Exp(n) => n + 1,
            Places::Zero(n) => if n + exp + 1 < 0 {
                0
            } else {
                n + exp + 1
            },
        }
    }

    fn digits(self, exp: i64) -> (res: u64)
        requires
            self.valid(),
            -EXP_LIMIT - 1 <= exp <= EXP_LIMIT + 1,
        ensures
            res == self.count(exp as int),
    {
        match self {
            Places::Exp(n) => n as u64 + 1,
            Places::Zero(n) => {
                let places = n as i64 + exp + 1;
                if places < 0 {
                    0
                } else {
                    places as u64
                }
            },
        }
    }
}

/// The digits written for zero.
pub open spec fn zero_digits(places: Places, stop: bool) -> Seq<u8> {
    if stop {
        seq![0u8]
    } else {
        Seq::new(places.count(0) as nat, |i: int| 0u8)
    }
}

/// The digits for zero: a single zero when trailing zeros are dropped,
/// else as many zeros as the places ask for.
fn zeroes(places: Places, stop: bool) -> (res: (Vec<u8>, i64))
    requires
        places.valid(),
    ensures
        res.0@ == zero_digits(places, stop),
        res.1 == 0,
{
    if stop {
        (vec![0u8], 0)
    } else {
        let count = places.digits(0);
        let mut v: Vec<u8> = Vec::new();
        let mut k: u64 = 0;
        while k < count
            invariant
                k <= count,
                v@.len() == k,
                forall|j: int| 0 <= j < k ==> #[trigger] v@[j] == 0,
            decreases count - k,
        {
            v.push(0);
            k = k + 1;
        }
        proof {
            assert(v@ =~= zero_digits(places, stop));
        }
        (v, 0)
    }
}

/// The decimal digits of `magn` scaled by `2^(msd - bits)`, with the
/// decimal exponent of the first one, rounded to the number of digits the
/// places ask for.  With `stop`, trailing zeros are dropped.
#[verifier::spinoff_prover]
fn digits(magn: &Natural, places: Places, bits: i64, msd: i64, stop: bool) -> (res: (Vec<u8>, i64))
    requires
        places.valid(),
        msd < bits,
        -(MAX_PRECISION as int) <= msd,
        bits <= 0x10_0000_0000,
    ensures
        magn@ == 0 ==> res.0@ == zero_digits(places, stop) && res.1 == 0,
        -EXP_LIMIT - 1 <= res.1 <= EXP_LIMIT + 2,
        magn@ != 0 && stop ==> res.0@ == trimmed(res.0@),
        digits_exact(magn@, (bits - msd) as nat, EXP_LIMIT as int) ==> (res.0@, res.1 as int)
            == digits_result(magn@, (bits - msd) as nat, places, stop),
{
    if magn.is_zero() {
        return zeroes(places, stop);
    }
    let mut exp: i64 = 0;
    let shift = (bits - msd) as u64;
    let ghost sh = shift as nat;
    let ghost m = magn@;
    let ghost in_range = m < scaled_divisor(sh, EXP_LIMIT as int);
    let ten = Natural::from_u64(10);
    let mut divisor = Natural::from_u64(1).shl(shift);
    proof {
        lemma_pow0(10);
        assert(pow(10, 0) as nat == 1);
        assert(pow2(sh) * 1 == pow2(sh));
        assert(divisor@ == scaled_divisor(sh, 0));
    }
    while !magn.less(&divisor) && exp < EXP_LIMIT
        invariant
            0 <= exp <= EXP_LIMIT,
            ten@ == 10,
            divisor@ == scaled_divisor(sh, exp as int),
            m == magn@,
        decreases EXP_LIMIT - exp,
    {
        proof {
            lemma_scaled_step(sh, exp as int);
        }
        exp = exp + 1;
        divisor = divisor.mul(&ten);
    }
    proof {
        lemma_scaled_step(sh, exp as int);
        if in_range && exp == EXP_LIMIT {
            assert(m < divisor@);
        }
    }
    while magn.less(&divisor) && exp > -EXP_LIMIT
        invariant
            -EXP_LIMIT <= exp <= EXP_LIMIT,
            ten@ == 10,
            divisor@ == scaled_divisor(sh, exp as int),
            m == magn@,
            in_range ==> m < scaled_divisor(sh, exp + 1),
        decreases exp + EXP_LIMIT,
    {
        proof {
            lemma_scaled_step(sh, exp - 1);
        }
        exp = exp - 1;
        divisor = divisor.div_rem(&ten).0;
    }
    proof {
        if in_range {
            if exp == -EXP_LIMIT {
                assert(sh < EXP_LIMIT);
                lemma_pow2_below_pow10(sh, EXP_LIMIT as nat);
                lemma_basic_div(pow2(sh) as int, pow(10, EXP_LIMIT as nat));
            }
            assert(exponent_fits(m, sh, exp as int));
            lemma_exponent_unique(m, sh, exp as int);
        }
    }
    let ghost e0 = exp as int;
    let ghost d = divisor@;
    let count = places.digits(exp);
    if count == 0 {
        let five = Natural::from_u64(5);
        let d5 = divisor.mul(&five);
        if d5.less(magn) {
            let v = vec![1u8];
            proof {
                if stop {
                    assert(v@.last() == 1);
                    assert(trimmed(v@) == v@);
                }
            }
            return (v, exp + 1);
        } else {
            let v: Vec<u8> = Vec::new();
            proof {
                assert(trimmed(v@) == v@);
                assert(v@ =~= Seq::<u8>::empty());
            }
            return (v, exp);
        }
    }
    if divisor.is_zero() {
        divisor = Natural::from_u64(1);
    }
    let ghost decimal = m < 10 * divisor@;
    let ghost dv = divisor@;
    let mut num: Vec<u8> = Vec::new();
    let mut left = magn.clone();
    let mut k: u64 = 0;
    while k < count
        invariant
            k <= count,
            divisor@ > 0,
            divisor@ == dv,
            decimal == (m < 10 * dv),
            ten@ == 10,
            m == magn@,
            num@.len() == k,
            k == 0 ==> left@ == m,
            k > 0 ==> left@ == (m * (pow(10, (k - 1) as nat) as nat)) % divisor@,
            decimal && k > 0 ==> digits_number(num@) == (m * (pow(10, (k - 1) as nat) as nat))
                / divisor@,
            decimal ==> all_decimal(num@),
        decreases count - k,
    {
        let ghost x: nat = if k == 0 { m } else { m * (pow(10, (k - 1) as nat) as nat) };
        if k > 0 {
            left = left.mul(&ten);
        }
        let (q, r) = left.div_rem(&divisor);
        proof {
            lemma_pow_positive(10, k as nat);
            if k == 0 {
                lemma_pow0(10);
                assert(pow(10, 0) as nat == 1);
                assert(m * 1 == m);
                assert(m * (pow(10, 0) as nat) == m);
                if decimal {
                    lemma_fundamental_div_mod(m as int, divisor@ as int);
                    assert(q@ < 10) by (nonlinear_arith)
                        requires
                            m == divisor@ * q@ + r@,
                            m < 10 * divisor@,
                            r@ >= 0,
                            divisor@ > 0,
                    ;
                }
            } else {
                lemma_pow_positive(10, (k - 1) as nat);
                lemma_long_division_step(x, divisor@, q@, r@);
                assert(pow(10, k as nat) == pow(10, (k - 1) as nat) * 10) by {
                    reveal(pow);
                }
                assert(m * (pow(10, k as nat) as nat) == x * 10) by (nonlinear_arith)
                    requires
                        pow(10, k as nat) == pow(10, (k - 1) as nat) * 10,
                        x == m * (pow(10, (k - 1) as nat) as nat),
                        pow(10, (k - 1) as nat) > 0,
                ;
            }
        }
        let digit: u8 = match q.to_u64() {
            Some(v) => if v < 255 {
                v as u8
            } else {
                255
            },
            None => 255,
        };
        let ghost before = num@;
        num.push(digit);
        left = r;
        proof {
            if decimal {
                assert(num@.drop_last() =~= before);
                assert(digit == q@);
                assert(digits_number(num@) == digits_number(before) * 10 + q@);
                if k == 0 {
                    assert(digits_number(before) == 0) by {
                        assert(before =~= Seq::<u8>::empty());
                    }
                    assert(digits_number(num@) == m / divisor@);
                } else {
                    assert(digits_number(num@) == (x * 10) / divisor@);
                }
                assert forall|i: int| 0 <= i < num@.len() implies #[trigger] num@[i] < 10 by {
                    if i < before.len() {
                        assert(num@[i] == before[i]);
                    }
                }
                if k == 0 {
                    assert(before =~= Seq::<u8>::empty());
                }
            }
        }
        k = k + 1;
    }
    let ghost cn = count as nat;
    let ghost scaled = m * (pow(10, (cn - 1) as nat) as nat);
    let ghost quotient = digits_number(num@);
    let two = Natural::from_u64(2);
    left = left.mul(&two);
    let ghost before_up = num@;
    let mut carried = false;
    if divisor.less(&left) {
        if up(&mut num) {
            exp = exp + 1;
            carried = true;
        }
    }
    proof {
        if digits_exact(m, sh, EXP_LIMIT as int) {
            assert(in_range);
            assert(decimal);
            assert(d == divisor@);
            assert(count as int == places.count(e0));
            lemma_number_below(before_up);
            let n = rounded_quotient(m, d, cn);
            assert(quotient == scaled / d);
            assert(left@ == 2 * (scaled % d));
            if carried {
                assert(n == quotient + 1);
                assert(n == pow(10, cn));
                assert(digits_number(num@) * 10 == n);
                lemma_place_digits(num@);
                assert(num@ == place_digits(n / 10, cn));
            } else {
                if divisor@ < left@ {
                    assert(digits_number(num@) == quotient + 1);
                    lemma_number_below(num@);
                } else {
                    assert(num@ == before_up);
                }
                assert(n == digits_number(num@));
                lemma_number_below(num@);
                lemma_place_digits(num@);
            }
        }
    }
    if stop {
        let ghost before = num@;
        trim(&mut num);
        proof {
            lemma_trimmed_idempotent(before);
        }
    }
    (num, exp)
}

proof fn lemma_trimmed_idempotent(s: Seq<u8>)
    ensures
        trimmed(trimmed(s)) == trimmed(s),
    decreases s.len(),
{
    if s.len() > 0 && s.last() == 0 {
        lemma_trimmed_idempotent(s.drop_last());
    }
}

/// Write a digit: a decimal digit, or the decimal number it holds.
fn push_digit(out: &mut Vec<char>, d: u8)
    ensures
        d < 10 ==> final(out)@ == old(out)@.push(crate::rational::text::digit_char_spec(d as nat)),
        d >= 10 ==> final(out)@.len() > old(out)@.len(),
        final(out)@.take(old(out)@.len() as int) == old(out)@,
{
    if d < 10 {
        out.push(digit_char(d as u64));
    } else {
        let text = natural_text(&Natural::from_u64(d as u64));
        let mut i: usize = 0;
        let ghost start = out@;
        while i < text.len()
            invariant
                i <= text@.len(),
                out@.len() == start.len() + i,
                out@.take(start.len() as int) == start,
                text@.len() >= 1,
            decreases text@.len() - i,
        {
            out.push(text[i]);
            i = i + 1;
            proof {
                assert(out@.take(start.len() as int) =~= start);
            }
        }
    }
}

/// Decimal digits as characters.
pub open spec fn digit_chars(s: Seq<u8>) -> Seq<char> {
    Seq::new(s.len(), |i: int| digit_char_spec(s[i] as nat))
}

/// A minus sign for a negative number; with `plus`, a plus sign otherwise.
pub open spec fn sign_chars(negative: bool, plus: bool) -> Seq<char> {
    if negative {
        seq!['-']
    } else if plus {
        seq!['+']
    } else {
        Seq::empty()
    }
}

/// Digits in scientific notation: the first digit, a point before any
/// others, then `marker` and the exponent.
pub open spec fn scientific_chars(num: Seq<u8>, e: int, marker: char) -> Seq<char> {
    let body = if num.len() <= 1 {
        digit_chars(num)
    } else {
        digit_chars(num.take(1)) + seq!['.'] + digit_chars(num.skip(1))
    };
    body + seq![marker] + int_chars(e)
}

/// `n` zeros.
pub open spec fn zero_chars(n: nat) -> Seq<char> {
    Seq::new(n, |i: int| '0')
}

/// Digits whose first stands for `10^e` in positional notation with `dp`
/// places: the whole part (a zero when there is none, zeros where the
/// digits run out), then, unless no places are asked for or, with
/// `fixed` off, no digits are left, a point, the zeros after it, and the
/// remaining digits up to `dp` places, padded with zeros when `fixed`.
pub open spec fn positional_chars(num: Seq<u8>, e: int, dp: nat, fixed: bool) -> Seq<char> {
    let len = num.len() as int;
    let whole = if e < 0 {
        seq!['0']
    } else {
        Seq::new((e + 1) as nat, |i: int| if i < len { digit_char_spec(num[i] as nat) } else { '0' })
    };
    let next = if e < 0 {
        0
    } else if e + 1 < len {
        e + 1
    } else {
        len
    };
    if dp == 0 || (!fixed && next >= len) {
        whole
    } else {
        let lead: int = if e < -1 {
            if -1 - e < dp {
                -1 - e
            } else {
                dp as int
            }
        } else {
            0
        };
        let room = dp - lead;
        let rest = num.skip(next);
        let shown: int = if rest.len() < room {
            rest.len() as int
        } else {
            room
        };
        let pad: int = if fixed {
            room - shown
        } else {
            0
        };
        whole + seq!['.'] + zero_chars(lead as nat) + digit_chars(rest.take(shown)) + zero_chars(
            pad as nat,
        )
    }
}

/// The decimal digits of `a` have at least one digit.
pub proof fn lemma_decimal_chars_len(a: nat)
    ensures
        decimal_chars(a).len() >= 1,
    decreases a,
{
    if a >= 10 {
        lemma_decimal_chars_len(a / 10);
    }
}

/// A number with `k` decimal digits, the first not zero, lies from
/// `10^(k-1)` up to below `10^k`.
pub proof fn lemma_decimal_chars_bounds(a: nat)
    requires
        a >= 1,
    ensures
        pow(10, (decimal_chars(a).len() - 1) as nat) <= a < pow(10, decimal_chars(a).len()),
        digit_chars(place_digits(a, decimal_chars(a).len())) == decimal_chars(a),
        decimal_chars(a)[0] != '0',
    decreases a,
{
    reveal(pow);
    lemma_decimal_chars_len(a);
    if a < 10 {
        assert(decimal_chars(a).len() == 1);
        assert(pow(10, 0) == 1);
        assert(pow(10, 1) == 10 * pow(10, 0));
        assert(place_digits(a, 1) == place_digits(a / 10, 0).push((a % 10) as u8));
        assert(a % 10 == a);
        assert(digit_chars(place_digits(a, 1)) =~= seq![digit_char_spec(a)]);
        let v = a + 48;
        assert(((v as u8) as char) as nat == v);
    } else {
        let b = a / 10;
        lemma_decimal_chars_bounds(b);
        lemma_decimal_chars_len(b);
        let k = decimal_chars(b).len();
        assert(decimal_chars(a) == decimal_chars(b).push(digit_char_spec(a % 10)));
        assert(decimal_chars(a).len() == k + 1);
        lemma_pow_positive(10, (k - 1) as nat);
        assert(pow(10, k) == 10 * pow(10, (k - 1) as nat));
        assert(pow(10, k + 1) == 10 * pow(10, k));
        assert(pow(10, k) <= a < pow(10, k + 1)) by (nonlinear_arith)
            requires
                pow(10, (k - 1) as nat) <= b < pow(10, k),
                b == a / 10,
                a >= 10,
                pow(10, k) == 10 * pow(10, (k - 1) as nat),
                pow(10, k + 1) == 10 * pow(10, k),
        ;
        assert(place_digits(a, k + 1) == place_digits(b, k).push((a % 10) as u8));
        assert(a % 10 < 10);
        assert(digit_chars(place_digits(a, k + 1)) =~= digit_chars(place_digits(b, k)).push(
            digit_char_spec(((a % 10) as u8) as nat),
        ));
        assert(decimal_chars(a)[0] == decimal_chars(b)[0]);
    }
}

/// Write a whole number in decimal, with a minus sign when negative.
fn push_integer(out: &mut Vec<char>, n: i64)
    ensures
        final(out)@ == old(out)@ + int_chars(n as int),
{
    let ghost start = out@;
    let magnitude: u64 = if n < 0 {
        out.push('-');
        if n == i64::MIN {
            0x8000_0000_0000_0000
        } else {
            (-n) as u64
        }
    } else {
        n as u64
    };
    let text = natural_text(&Natural::from_u64(magnitude));
    append_chars(out, &text);
    proof {
        assert(magnitude == abs(n as int));
        assert(out@ =~= start + int_chars(n as int));
    }
}

/// Write digits in scientific notation, with `marker` before the exponent.
fn push_scientific(out: &mut Vec<char>, num: &Vec<u8>, exp: i64, marker: char)
    ensures
        all_decimal(num@) ==> final(out)@ == old(out)@ + scientific_chars(num@, exp as int, marker),
{
    let ghost start = out@;
    let mut n: usize = 0;
    while n < num.len()
        invariant
            n <= num@.len(),
            all_decimal(num@) ==> out@ == start + (if n <= 1 {
                digit_chars(num@.take(n as int))
            } else {
                digit_chars(num@.take(1)) + seq!['.'] + digit_chars(num@.subrange(1, n as int))
            }),
        decreases num@.len() - n,
    {
        if n == 1 {
            out.push('.');
        }
        push_digit(out, num[n]);
        proof {
            if all_decimal(num@) {
                assert(num@[n as int] < 10);
                if n == 0 {
                    assert(digit_chars(num@.take(1)) =~= seq![digit_char_spec(num@[0] as nat)]);
                    assert(digit_chars(num@.take(0)) =~= Seq::<char>::empty());
                } else if n == 1 {
                    assert(digit_chars(num@.subrange(1, 2)) =~= seq![digit_char_spec(num@[1] as nat)]);
                } else {
                    assert(digit_chars(num@.subrange(1, n + 1)) =~= digit_chars(num@.subrange(1, n as int)).push(
                        digit_char_spec(num@[n as int] as nat),
                    ));
                }
                assert(out@ =~= start + (if n + 1 <= 1 {
                    digit_chars(num@.take(n + 1))
                } else {
                    digit_chars(num@.take(1)) + seq!['.'] + digit_chars(num@.subrange(1, n + 1))
                }));
            }
        }
        n = n + 1;
    }
    out.push(marker);
    push_integer(out, exp);
    proof {
        if all_decimal(num@) {
            if num@.len() <= 1 {
                assert(num@.take(num@.len() as int) =~= num@);
            } else {
                assert(num@.subrange(1, num@.len() as int) =~= num@.skip(1));
            }
            assert(out@ =~= start + scientific_chars(num@, exp as int, marker));
        }
    }
}

/// Write digits whose first stands for `10^first` in positional notation:
/// with `precision`, that many places; without, up to the default number,
/// stopping when the digits do.
#[verifier::spinoff_prover]
#[verifier::rlimit(60)]
fn push_positional(out: &mut Vec<char>, num: &Vec<u8>, first: i64, precision: Option<usize>)
    requires
        -EXP_LIMIT - 2 <= first <= EXP_LIMIT + 2,
    ensures
        all_decimal(num@) ==> final(out)@ == old(out)@ + positional_chars(
            num@,
            first as int,
            places_or_default(precision),
            precision is Some,
        ),
{
    let ghost start = out@;
    let ghost len = num@.len() as int;
    let ghost e = first as int;
    let ghost dp0 = places_or_default(precision);
    let ghost fixed = precision is Some;
    let ghost whole = if e < 0 {
        seq!['0']
    } else {
        Seq::new((e + 1) as nat, |i: int| if i < len { digit_char_spec(num@[i] as nat) } else { '0' })
    };
    let ghost next0 = if e < 0 {
        0
    } else if e + 1 < len {
        e + 1
    } else {
        len
    };
    let mut dp: usize = match precision {
        Some(p) => p,
        None => DEFAULT_PRECISION,
    };
    let mut exp = first;
    let mut next: usize = 0;
    if exp < 0 {
        out.push('0');
    }
    while exp >= 0
        invariant
            -EXP_LIMIT - 2 <= exp <= EXP_LIMIT + 2,
            e < 0 ==> exp == e && next == 0 && out@ == start + whole,
            e >= 0 ==> -1 <= exp <= e && next as int == (if e - exp < len {
                e - exp
            } else {
                len
            }) && (all_decimal(num@) ==> out@ == start + whole.take(e - exp)),
            len == num@.len(),
            whole == (if e < 0 {
                seq!['0']
            } else {
                Seq::new((e + 1) as nat, |i: int| if i < len { digit_char_spec(num@[i] as nat) } else { '0' })
            }),
            e == first,
        decreases exp + 1,
    {
        let ghost k = e - exp;
        let digit = if next < num.len() {
            let d = num[next];
            next = next + 1;
            d
        } else {
            0
        };
        push_digit(out, digit);
        proof {
            if all_decimal(num@) {
                if k < len {
                    assert(digit == num@[k]);
                    assert(digit < 10);
                } else {
                    assert(digit == 0);
                    crate::rational::text::lemma_zero_char();
                }
                assert(whole.take(k + 1) =~= whole.take(k).push(whole[k]));
                assert(out@ =~= start + whole.take(k + 1));
            }
        }
        exp = exp - 1;
    }
    proof {
        if e >= 0 && all_decimal(num@) {
            assert(whole.take(e + 1) =~= whole);
        }
    }
    if dp == 0 {
        return;
    }
    if precision.is_none() && next >= num.len() {
        return;
    }
    out.push('.');
    let ghost lead_start = exp as int;
    let ghost mid = out@;
    while exp < -1 && dp > 0
        invariant
            lead_start <= exp,
            lead_start == (if e < 0 { e } else { -1 }),
            dp as int == dp0 - (exp - lead_start),
            exp <= -1 || exp == lead_start,
            out@ == mid + zero_chars((exp - lead_start) as nat),
            -EXP_LIMIT - 2 <= exp,
        decreases dp,
    {
        out.push('0');
        exp = exp + 1;
        dp = dp - 1;
        proof {
            assert(out@ =~= mid + zero_chars((exp - lead_start) as nat));
        }
    }
    let ghost lead = exp - lead_start;
    let ghost after_lead = out@;
    let ghost room = dp as int;
    proof {
        assert(lead == (if e < -1 {
            if -1 - e < dp0 {
                -1 - e
            } else {
                dp0 as int
            }
        } else {
            0
        }));
    }
    while next < num.len()
        invariant
            0 <= next0 <= next <= num@.len(),
            len == num@.len(),
            dp as int == room - (next - next0),
            dp as int >= 0,
            all_decimal(num@) ==> out@ == after_lead + digit_chars(num@.subrange(next0, next as int)),
            all_decimal(num@) ==> after_lead == start + whole + seq!['.'] + zero_chars(lead as nat),
            e == first,
            dp0 == places_or_default(precision),
            fixed == precision is Some,
            whole == (if e < 0 {
                seq!['0']
            } else {
                Seq::new((e + 1) as nat, |i: int| if i < len { digit_char_spec(num@[i] as nat) } else { '0' })
            }),
            next0 == (if e < 0 {
                0
            } else if e + 1 < len {
                e + 1
            } else {
                len
            }),
            lead == (if e < -1 {
                if -1 - e < dp0 {
                    -1 - e
                } else {
                    dp0 as int
                }
            } else {
                0
            }),
            room == dp0 - lead,
            dp0 != 0,
            fixed || next0 < len,
            start == old(out)@,
        decreases num@.len() - next,
    {
        if dp == 0 {
            proof {
                if all_decimal(num@) {
                    assert(num@.subrange(next0, next as int) =~= num@.skip(next0).take(room));
                    assert(zero_chars(0) =~= Seq::<char>::empty());
                    assert(num@.skip(next0).len() > room);
                    assert(out@ =~= start + positional_chars(num@, e, dp0, fixed));
                }
            }
            return;
        }
        dp = dp - 1;
        push_digit(out, num[next]);
        proof {
            if all_decimal(num@) {
                assert(num@[next as int] < 10);
                assert(digit_chars(num@.subrange(next0, next + 1)) =~= digit_chars(
                    num@.subrange(next0, next as int),
                ).push(digit_char_spec(num@[next as int] as nat)));
            }
        }
        next = next + 1;
    }
    proof {
        if all_decimal(num@) {
            assert(num@.subrange(next0, next as int) =~= num@.skip(next0).take(next - next0));
            assert(zero_chars(0) =~= Seq::<char>::empty());
        }
    }
    if precision.is_none() {
        return;
    }
    let ghost before_pad = out@;
    let ghost pad_total = dp as int;
    while dp > 0
        invariant
            out@ == before_pad + zero_chars((pad_total - dp) as nat),
            dp <= pad_total,
        decreases dp,
    {
        out.push('0');
        dp = dp - 1;
        proof {
            assert(out@ =~= before_pad + zero_chars((pad_total - dp) as nat));
        }
    }
}

/// The places that formatting asks for: after the point positionally,
/// after the first digit in scientific notation.
pub open spec fn digit_places(precision: Option<usize>, scientific: bool) -> Places {
    let p = places_or_default(precision) as usize;
    if scientific {
        Places::Exp(p)
    } else {
        Places::Zero(p)
    }
}

/// Trailing zeros are dropped positionally, and in scientific notation
/// when no precision is asked for.
pub open spec fn digits_stop(precision: Option<usize>, scientific: bool) -> bool {
    !scientific || precision is None
}

/// The decimal digits, and the exponent of the first, that formatting
/// writes for the exact rational `n / d`: its estimated most significant
/// binary digit `m` sets the working precision `bits`, the number is
/// rounded to the nearest multiple of `2^(m - bits)`, and that is written
/// in decimal.
pub open spec fn exact_digits(n: int, d: int, precision: Option<usize>, scientific: bool) -> (Seq<u8>, int) {
    let m = exact_iter_msd(n, d);
    let bits = bits_for(places_or_default(precision)) + (if m > 0 {
        m
    } else {
        0
    });
    let mag = abs(
        nearest_scaled(
            if d < 0 {
                -n
            } else {
                n
            },
            if d < 0 {
                -d
            } else {
                d
            },
            clamp_scale(m - bits),
        ),
    );
    let places = digit_places(precision, scientific);
    let stop = digits_stop(precision, scientific);
    if mag == 0 {
        (zero_digits(places, stop), 0)
    } else {
        digits_result(mag, (bits - m) as nat, places, stop)
    }
}

/// For the exact rational `n / d`, the working precision is within the
/// limit and the rounded magnitude is zero or has digits exactly as
/// `digits_result` says.
pub open spec fn text_exact(n: int, d: int, precision: Option<usize>, scientific: bool) -> bool {
    let m = exact_iter_msd(n, d);
    let bits = bits_for(places_or_default(precision)) + (if m > 0 {
        m
    } else {
        0
    });
    let mag = abs(
        nearest_scaled(
            if d < 0 {
                -n
            } else {
                n
            },
            if d < 0 {
                -d
            } else {
                d
            },
            clamp_scale(m - bits),
        ),
    );
    &&& m - bits >= -(MAX_PRECISION as int)
    &&& mag == 0 || digits_exact(mag, (bits - m) as nat, EXP_LIMIT as int)
}

impl Computable {
    /// Write the sign: a minus sign for a negative number, and with
    /// `sign_plus` a plus sign otherwise, even for zero.
    fn push_sign(&self, out: &mut Vec<char>, sign_plus: bool) -> (negative: bool)
        ensures
            final(out)@ == old(out)@ + sign_chars(negative, sign_plus),
            exact_value(self.node_spec()) matches Some((n, d)) ==> negative == (n * d < 0),
            exact_value(self.node_spec()) is None && negative ==> seen_negative(self.node_spec(), self.signal_spec() is Some),
    {
        if self.sign() == Sign::Minus {
            out.push('-');
            true
        } else {
            if sign_plus {
                out.push('+');
            }
            false
        }
    }

    /// This number in positional decimal notation: with `precision`, that
    /// many places after the point; without, up to the default number of
    /// places, leaving out trailing zeros.  With `sign_plus` a plus sign is
    /// written for numbers that are not negative.
#[verifier::spinoff_prover]
    pub fn display(&self, precision: Option<usize>, sign_plus: bool) -> (res: String)
        requires
            precision_ok(precision),
        ensures
            exact_value(self.node_spec()) matches Some((n, d)) ==> (text_exact(n, d, precision, false)
                ==> res@ == sign_chars(n * d < 0, sign_plus) + positional_chars(
                exact_digits(n, d, precision, false).0,
                exact_digits(n, d, precision, false).1,
                places_or_default(precision),
                precision is Some,
            )),
            exact_value(self.node_spec()) is None ==> positional_text(
                self.node_spec(),
                precision,
                sign_plus,
                res@, self.signal_spec() is Some,
            ),
    {
        let mut out: Vec<char> = Vec::new();
        let negative = self.push_sign(&mut out, sign_plus);
        let msd = self.iter_msd();
        let bits = enough_bits(msd, precision);
        let appr = self.approx(msd - bits);
        let dp: usize = match precision {
            Some(p) => p,
            None => DEFAULT_PRECISION,
        };
        let (num, first) = digits(appr.magnitude(), Places::Zero(dp), bits, msd, true);
        push_positional(&mut out, &num, first, precision);
        proof {
            self.lemma_exact_digits(precision, false, appr@, msd as int, bits as int, num@, first as int);
            if exact_value(self.node_spec()) is None {
                assert(digits_of_approximation(
                    self.node_spec(),
                    precision,
                    false,
                    msd as int,
                    appr@,
                    num@,
                    first as int, self.signal_spec() is Some,
                ));
            }
        }
        let res = chars_to_string(&out);
        proof {
            if exact_value(self.node_spec()) is None {
                assert(negative ==> seen_negative(self.node_spec(), self.signal_spec() is Some));
                assert(positional_text(self.node_spec(), precision, sign_plus, res@, self.signal_spec() is Some));
            }
        }
        res
    }

    /// What `approx` and `digits` give, for a number built exactly from
    /// rationals, is `exact_digits`, and its digits are decimal digits.
    proof fn lemma_exact_digits(
        self,
        precision: Option<usize>,
        scientific: bool,
        appr: int,
        msd: int,
        bits: int,
        num: Seq<u8>,
        first: int,
    )
        requires
            precision_ok(precision),
            exact_value(self.node_spec()) matches Some((n, d)) ==> {
                &&& msd == exact_iter_msd(n, d)
                &&& appr == nearest_scaled(
                    if d < 0 {
                        -n
                    } else {
                        n
                    },
                    if d < 0 {
                        -d
                    } else {
                        d
                    },
                    clamp_scale(msd - bits),
                )
            },
            bits == bits_for(places_or_default(precision)) + (if msd > 0 {
                msd
            } else {
                0
            }),
            abs(appr) == 0 ==> num == zero_digits(digit_places(precision, scientific), digits_stop(precision, scientific))
                && first == 0,
            digits_exact(abs(appr), (bits - msd) as nat, EXP_LIMIT as int) ==> (num, first)
                == digits_result(
                abs(appr),
                (bits - msd) as nat,
                digit_places(precision, scientific),
                digits_stop(precision, scientific),
            ),
        ensures
            exact_value(self.node_spec()) matches Some((n, d)) ==> (text_exact(n, d, precision, scientific)
                ==> (num, first) == exact_digits(n, d, precision, scientific) && all_decimal(num)),
    {
        if let Some((n, d)) = exact_value(self.node_spec()) {
            if text_exact(n, d, precision, scientific) {
                let mag = abs(appr);
                if mag == 0 {
                    let places = digit_places(precision, scientific);
                    if !digits_stop(precision, scientific) {
                        assert forall|i: int| 0 <= i < num.len() implies #[trigger] num[i] < 10 by {}
                    } else {
                        assert(all_decimal(seq![0u8]));
                    }
                } else {
                    lemma_digits_result_decimal(
                        mag,
                        (bits - msd) as nat,
                        digit_places(precision, scientific),
                        digits_stop(precision, scientific),
                    );
                }
            }
        }
    }

    /// The text of scientific notation: the sign, the digits with a point
    /// after the first, `marker` and the exponent.
#[verifier::spinoff_prover]
    fn exponent_text(&self, precision: Option<usize>, sign_plus: bool, marker: char) -> (res: Vec<char>)
        requires
            precision_ok(precision),
        ensures
            exact_value(self.node_spec()) matches Some((n, d)) ==> (text_exact(n, d, precision, true)
                ==> res@ == sign_chars(n * d < 0, sign_plus) + scientific_chars(
                exact_digits(n, d, precision, true).0,
                exact_digits(n, d, precision, true).1,
                marker,
            )),
            exact_value(self.node_spec()) is None ==> scientific_text(
                self.node_spec(),
                precision,
                sign_plus,
                marker,
                res@, self.signal_spec() is Some,
            ),
    {
        let mut out: Vec<char> = Vec::new();
        let negative = self.push_sign(&mut out, sign_plus);
        let msd = self.iter_msd();
        let exact: usize = match precision {
            Some(p) => p,
            None => DEFAULT_PRECISION,
        };
        let bits = enough_bits(msd, precision);
        let appr = self.approx(msd - bits);
        let (num, exp) = digits(
            appr.magnitude(),
            Places::Exp(exact),
            bits,
            msd,
            precision.is_none(),
        );
        push_scientific(&mut out, &num, exp, marker);
        proof {
            self.lemma_exact_digits(precision, true, appr@, msd as int, bits as int, num@, exp as int);
            if exact_value(self.node_spec()) is None {
                assert(digits_of_approximation(
                    self.node_spec(),
                    precision,
                    true,
                    msd as int,
                    appr@,
                    num@,
                    exp as int, self.signal_spec() is Some,
                ));
                assert(negative ==> seen_negative(self.node_spec(), self.signal_spec() is Some));
                assert(scientific_text(self.node_spec(), precision, sign_plus, marker, out@, self.signal_spec() is Some));
            }
        }
        out
    }

    /// This number in scientific notation with a lower case `e`: with
    /// `precision`, that many places after the first digit; without, up to
    /// the default number, leaving out trailing zeros.
    pub fn lower_exp(&self, precision: Option<usize>, sign_plus: bool) -> (res: String)
        requires
            precision_ok(precision),
        ensures
            exact_value(self.node_spec()) matches Some((n, d)) ==> (text_exact(n, d, precision, true)
                ==> res@ == sign_chars(n * d < 0, sign_plus) + scientific_chars(
                exact_digits(n, d, precision, true).0,
                exact_digits(n, d, precision, true).1,
                'e',
            )),
            exact_value(self.node_spec()) is None ==> scientific_text(
                self.node_spec(),
                precision,
                sign_plus,
                'e',
                res@, self.signal_spec() is Some,
            ),
    {
        chars_to_string(&self.exponent_text(precision, sign_plus, 'e'))
    }

    /// This number in scientific notation with an upper case `E`.
    pub fn upper_exp(&self, precision: Option<usize>, sign_plus: bool) -> (res: String)
        requires
            precision_ok(precision),
        ensures
            exact_value(self.node_spec()) matches Some((n, d)) ==> (text_exact(n, d, precision, true)
                ==> res@ == sign_chars(n * d < 0, sign_plus) + scientific_chars(
                exact_digits(n, d, precision, true).0,
                exact_digits(n, d, precision, true).1,
                'E',
            )),
            exact_value(self.node_spec()) is None ==> scientific_text(
                self.node_spec(),
                precision,
                sign_plus,
                'E',
                res@, self.signal_spec() is Some,
            ),
    {
        chars_to_string(&self.exponent_text(precision, sign_plus, 'E'))
    }
}

} // verus!
