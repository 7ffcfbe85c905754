//! The arithmetic behind decimal digits: where the first digit of a scaled
//! magnitude stands, and the rounded digits that follow it.

use vstd::prelude::*;
use vstd::arithmetic::power::*;
use vstd::arithmetic::power2::*;
use vstd::arithmetic::div_mod::*;

use crate::computable::format::{Places, trimmed, digits_number, all_decimal};

verus! {

/// `2^shift` times `10^e`, rounded down where `e` is negative: the value of
/// a first digit standing for `10^e` in a magnitude scaled by `2^shift`.
pub open spec fn scaled_divisor(shift: nat, e: int) -> nat {
    if e >= 0 {
        pow2(shift) * (pow(10, e as nat) as nat)
    } else {
        pow2(shift) / (pow(10, (-e) as nat) as nat)
    }
}

/// The first digit of `magn` stands for `10^e`.
pub open spec fn exponent_fits(magn: nat, shift: nat, e: int) -> bool {
    scaled_divisor(shift, e) <= magn < scaled_divisor(shift, e + 1)
}

/// The decimal exponent of the first digit of `magn / 2^shift`.
pub open spec fn decimal_exponent(magn: nat, shift: nat) -> int {
    choose|e: int| exponent_fits(magn, shift, e)
}

/// The `len` lowest decimal digits of `n`, most significant first.
pub open spec fn place_digits(n: nat, len: nat) -> Seq<u8>
    decreases len,
{
    if len == 0 {
        Seq::empty()
    } else {
        place_digits(n / 10, (len - 1) as nat).push((n % 10) as u8)
    }
}

/// The digits of `n / d`, with `count` digits in all, rounded half down
/// in the last place.
pub open spec fn rounded_quotient(n: nat, d: nat, count: nat) -> nat {
    let scaled = n * (pow(10, (count - 1) as nat) as nat);
    let q = scaled / d;
    let r = scaled % d;
    if 2 * r > d {
        q + 1
    } else {
        q
    }
}

/// The decimal digits of `magn / 2^shift` and the exponent of the first,
/// as many as `places` asks for, rounded half down; a carry out of the
/// first place raises the exponent. With `stop`, trailing zeros are left
/// out.
pub open spec fn digits_result(magn: nat, shift: nat, places: Places, stop: bool) -> (Seq<u8>, int) {
    let e = decimal_exponent(magn, shift);
    let d = scaled_divisor(shift, e);
    let count = places.count(e);
    if count <= 0 {
        if magn > 5 * d {
            (seq![1u8], e + 1)
        } else {
            (Seq::empty(), e)
        }
    } else {
        let n = rounded_quotient(magn, d, count as nat);
        let (s, e2) = if n < pow(10, count as nat) {
            (place_digits(n, count as nat), e)
        } else {
            (place_digits(n / 10, count as nat), e + 1)
        };
        (if stop { trimmed(s) } else { s }, e2)
    }
}

/// One step up in the exponent.
pub proof fn lemma_scaled_step(shift: nat, e: int)
    ensures
        e >= 0 ==> scaled_divisor(shift, e + 1) == scaled_divisor(shift, e) * 10,
        e < 0 ==> scaled_divisor(shift, e) == scaled_divisor(shift, e + 1) / 10,
        scaled_divisor(shift, e) <= scaled_divisor(shift, e + 1),
{
    lemma_pow2_pos(shift);
    if e >= 0 {
        let p = pow(10, e as nat);
        lemma_pow_positive(10, e as nat);
        assert(pow(10, (e + 1) as nat) == 10 * p) by {
            reveal(pow);
        }
        assert(pow2(shift) * ((10 * p) as nat) == (pow2(shift) * (p as nat)) * 10) by (nonlinear_arith)
            requires
                p > 0,
        ;
    } else {
        let k = (-e) as nat;
        let p = pow(10, (k - 1) as nat);
        lemma_pow_positive(10, (k - 1) as nat);
        assert(pow(10, k) == p * 10) by {
            reveal(pow);
        }
        if e + 1 < 0 {
            lemma_div_denominator(pow2(shift) as int, p, 10);
        } else {
            assert(p == 1) by {
                reveal(pow);
            }
        }
        lemma_div_is_ordered_by_denominator(pow2(shift) as int, p, p * 10);
        if e + 1 == 0 {
            lemma_div_basics(pow2(shift) as int);
            lemma1_pow(0);
        }
    }
}

/// The divisors do not fall as the exponent rises.
pub proof fn lemma_scaled_monotone(shift: nat, e1: int, e2: int)
    requires
        e1 <= e2,
    ensures
        scaled_divisor(shift, e1) <= scaled_divisor(shift, e2),
    decreases e2 - e1,
{
    if e1 < e2 {
        lemma_scaled_step(shift, e1);
        lemma_scaled_monotone(shift, e1 + 1, e2);
    }
}

/// Only one exponent fits.
pub proof fn lemma_exponent_unique(magn: nat, shift: nat, e: int)
    requires
        exponent_fits(magn, shift, e),
    ensures
        decimal_exponent(magn, shift) == e,
{
    let c = decimal_exponent(magn, shift);
    assert(exponent_fits(magn, shift, c));
    if c < e {
        lemma_scaled_monotone(shift, c + 1, e);
    } else if c > e {
        lemma_scaled_monotone(shift, e + 1, c);
    }
}

/// Digits that are all decimal are the place digits of their number.
pub proof fn lemma_place_digits(s: Seq<u8>)
    requires
        all_decimal(s),
    ensures
        place_digits(digits_number(s), s.len()) == s,
    decreases s.len(),
{
    if s.len() > 0 {
        let t = s.drop_last();
        assert(all_decimal(t)) by {
            assert forall|i: int| 0 <= i < t.len() implies #[trigger] t[i] < 10 by {
                assert(t[i] == s[i]);
            }
        }
        lemma_place_digits(t);
        let n = digits_number(s);
        let last = s.last() as nat;
        assert(s.last() < 10) by {
            assert(s[s.len() - 1] < 10);
        }
        assert(n == digits_number(t) * 10 + last);
        lemma_fundamental_div_mod(n as int, 10);
        assert(n / 10 == digits_number(t) && n % 10 == last) by (nonlinear_arith)
            requires
                n == digits_number(t) * 10 + last,
                last < 10,
        ;
        assert(s =~= t.push(s.last()));
    }
}

/// A power of two is below any power of ten with a larger exponent.
pub proof fn lemma_pow2_below_pow10(shift: nat, k: nat)
    requires
        shift < k,
    ensures
        pow2(shift) < pow(10, k),
{
    lemma_pow2_at_most_pow10(shift);
    lemma_pow_strictly_increases(10, shift, k);
}

proof fn lemma_pow2_at_most_pow10(k: nat)
    ensures
        pow2(k) <= pow(10, k),
    decreases k,
{
    reveal(pow);
    reveal(pow2);
    if k > 0 {
        lemma_pow2_at_most_pow10((k - 1) as nat);
        lemma_pow2_unfold(k);
    }
}

/// The magnitude's first digit is a single decimal digit and its exponent
/// lies within the limit: then its digits are exactly `digits_result`.
pub open spec fn digits_exact(magn: nat, shift: nat, limit: int) -> bool {
    let d = scaled_divisor(shift, decimal_exponent(magn, shift));
    &&& 0 < magn < scaled_divisor(shift, limit)
    &&& 0 < d
    &&& magn < 10 * d
}

/// Decimal digits write a number below ten to their count.
pub proof fn lemma_number_below(s: Seq<u8>)
    requires
        all_decimal(s),
    ensures
        digits_number(s) < pow(10, s.len()),
    decreases s.len(),
{
    reveal(pow);
    if s.len() > 0 {
        let t = s.drop_last();
        assert(all_decimal(t)) by {
            assert forall|i: int| 0 <= i < t.len() implies #[trigger] t[i] < 10 by {
                assert(t[i] == s[i]);
            }
        }
        lemma_number_below(t);
        assert(s.last() < 10) by {
            assert(s[s.len() - 1] < 10);
        }
        let p = pow(10, t.len());
        assert(digits_number(t) * 10 + s.last() < p * 10) by (nonlinear_arith)
            requires
                digits_number(t) < p,
                s.last() < 10,
        ;
    }
}

/// One more step of long division: from the quotient and remainder of `x`
/// by `d` and the next digit `q` of ten times the remainder, the quotient
/// and remainder of `10 x`.
pub proof fn lemma_long_division_step(x: nat, d: nat, q: nat, r: nat)
    requires
        d > 0,
        q == ((x % d) * 10) / d,
        r == ((x % d) * 10) % d,
    ensures
        q < 10,
        (x * 10) / d == (x / d) * 10 + q,
        (x * 10) % d == r,
{
    let a = x / d;
    let b = x % d;
    lemma_fundamental_div_mod(x as int, d as int);
    lemma_fundamental_div_mod((b * 10) as int, d as int);
    assert(q < 10) by (nonlinear_arith)
        requires
            b * 10 == d * q + r,
            b < d,
            r >= 0,
            d > 0,
    ;
    assert(x * 10 == (a * 10 + q) * d + r) by (nonlinear_arith)
        requires
            x == d * a + b,
            b * 10 == d * q + r,
    ;
    lemma_fundamental_div_mod_converse((x * 10) as int, d as int, (a * 10 + q) as int, r as int);
}

/// Place digits are decimal digits.
pub proof fn lemma_place_digits_decimal(n: nat, len: nat)
    ensures
        all_decimal(place_digits(n, len)),
        place_digits(n, len).len() == len,
    decreases len,
{
    if len > 0 {
        lemma_place_digits_decimal(n / 10, (len - 1) as nat);
        let s = place_digits(n, len);
        let t = place_digits(n / 10, (len - 1) as nat);
        assert forall|i: int| 0 <= i < s.len() implies #[trigger] s[i] < 10 by {
            if i < t.len() {
                assert(s[i] == t[i]);
            }
        }
    }
}

/// Dropping trailing zeros keeps decimal digits decimal.
pub proof fn lemma_trimmed_decimal(s: Seq<u8>)
    requires
        all_decimal(s),
    ensures
        all_decimal(trimmed(s)),
    decreases s.len(),
{
    if s.len() > 0 && s.last() == 0 {
        let t = s.drop_last();
        assert forall|i: int| 0 <= i < t.len() implies #[trigger] t[i] < 10 by {
            assert(t[i] == s[i]);
        }
        lemma_trimmed_decimal(t);
    }
}

/// The digits of `digits_result` are decimal digits.
pub proof fn lemma_digits_result_decimal(magn: nat, shift: nat, places: Places, stop: bool)
    ensures
        all_decimal(digits_result(magn, shift, places, stop).0),
{
    let e = decimal_exponent(magn, shift);
    let d = scaled_divisor(shift, e);
    let count = places.count(e);
    if count <= 0 {
        assert(all_decimal(seq![1u8]));
    } else {
        let n = rounded_quotient(magn, d, count as nat);
        lemma_place_digits_decimal(n, count as nat);
        lemma_place_digits_decimal(n / 10, count as nat);
        let s = if n < pow(10, count as nat) {
            place_digits(n, count as nat)
        } else {
            place_digits(n / 10, count as nat)
        };
        lemma_trimmed_decimal(s);
    }
}

/// `k` zero digits.
pub open spec fn zero_places(k: nat) -> Seq<u8> {
    Seq::new(k, |i: int| 0u8)
}

/// Multiplying by a power of ten appends that many zero digits.
pub proof fn lemma_place_digits_shift(x: nat, len: nat, k: nat)
    ensures
        place_digits(x * (pow(10, k) as nat), len + k) == place_digits(x, len) + zero_places(k),
    decreases k,
{
    if k == 0 {
        lemma_pow0(10);
        assert(x * 1 == x);
        assert(place_digits(x, len) + zero_places(0) =~= place_digits(x, len));
    } else {
        lemma_place_digits_shift(x, len, (k - 1) as nat);
        let p = pow(10, (k - 1) as nat);
        lemma_pow_positive(10, (k - 1) as nat);
        assert(pow(10, k) == 10 * p) by {
            reveal(pow);
        }
        let y = x * (p as nat);
        let z = x * (pow(10, k) as nat);
        assert(z == y * 10) by (nonlinear_arith)
            requires
                z == x * (pow(10, k) as nat),
                y == x * (p as nat),
                pow(10, k) == 10 * p,
                p > 0,
        ;
        lemma_fundamental_div_mod_converse(z as int, 10, y as int, 0);
        assert((len + k - 1) as nat == len + (k - 1) as nat);
        assert(place_digits(z, len + k) == place_digits(y, (len + k - 1) as nat).push(0u8));
        assert(place_digits(x, len) + zero_places(k) =~= (place_digits(x, len) + zero_places(
            (k - 1) as nat,
        )).push(0u8));
    }
}

/// Zero digits at the end are dropped by trimming.
pub proof fn lemma_trimmed_zeros(s: Seq<u8>, k: nat)
    ensures
        trimmed(s + zero_places(k)) == trimmed(s),
    decreases k,
{
    if k == 0 {
        assert(s + zero_places(0) =~= s);
    } else {
        let t = s + zero_places(k);
        assert(t.len() > 0 && t.last() == 0);
        assert(t.drop_last() =~= s + zero_places((k - 1) as nat));
        lemma_trimmed_zeros(s, (k - 1) as nat);
    }
}

/// Trimming keeps a prefix and drops only zeros.
pub proof fn lemma_trimmed_prefix(s: Seq<u8>)
    ensures
        trimmed(s).len() <= s.len(),
        trimmed(s) == s.take(trimmed(s).len() as int),
        forall|i: int| trimmed(s).len() <= i < s.len() ==> #[trigger] s[i] == 0,
    decreases s.len(),
{
    if s.len() > 0 && s.last() == 0 {
        let t = s.drop_last();
        lemma_trimmed_prefix(t);
        assert(trimmed(s) == trimmed(t));
        assert(t.take(trimmed(t).len() as int) =~= s.take(trimmed(t).len() as int));
        assert forall|i: int| trimmed(s).len() <= i < s.len() implies #[trigger] s[i] == 0 by {
            if i < t.len() {
                assert(s[i] == t[i]);
            }
        }
    } else {
        assert(s.take(s.len() as int) =~= s);
    }
}

} // verus!
