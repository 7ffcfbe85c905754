//! Approximating computable numbers.
//!
//! Rational expressions are evaluated exactly.  Everything else is
//! evaluated in fixed point: `eval(c, w)` gives an integer close to
//! `c * 2^w`, working with guard bits and the classic series (Machin's
//! formula for π, Taylor series for exp, sin and cos, the inverse hyperbolic
//! tangent for logarithms) after reducing the argument.

use vstd::prelude::*;

use crate::computable::{Computable, Node, Signal, exact_value, approximates};
use crate::natural::{Natural, Integer, bit_length, gcd, lemma_gcd_divides, lemma_divided_by_gcd_coprime};
use crate::rational::{Rational, sign_of, abs, lemma_lowest_terms_unique};
use crate::Sign;
use vstd::arithmetic::power2::pow2;
use vstd::arithmetic::div_mod::{lemma_fundamental_div_mod, lemma_fundamental_div_mod_converse};

verus! {

/// Guard bits added at each step.
pub const GUARD: u64 = 16;

/// The largest working precision, in bits.
pub const MAX_PRECISION: u64 = 0x1_0000_0000;

/// Has the computation been asked to stop?  Reads the flag with
/// `AtomicBool::load`; what it holds is not stated, only that without a
/// flag the answer is no.
#[verifier::external_body]
fn stop_requested(signal: &Option<Signal>) -> (res: bool)
    ensures
        signal is None ==> !res,
{
    match signal {
        Some(s) => s.load(std::sync::atomic::Ordering::Relaxed),
        None => false,
    }
}

/// `a + b`, no larger than the largest working precision.
fn more(a: u64, b: u64) -> (res: u64)
    ensures
        res <= MAX_PRECISION,
        a + b <= MAX_PRECISION ==> res == a + b,
        a + b > MAX_PRECISION ==> res == MAX_PRECISION,
        b <= MAX_PRECISION ==> res >= b,
{
    if a <= MAX_PRECISION && b <= MAX_PRECISION - a {
        a + b
    } else {
        MAX_PRECISION
    }
}

fn small(n: u64) -> (res: Integer)
    ensures
        res@ == n,
{
    Integer::from_natural(Natural::from_u64(n))
}

/// `x / 2^k`, rounded to the nearest integer (halves upward).
pub fn round_shift(x: &Integer, k: u64) -> (res: Integer)
    ensures
        k == 0 ==> res@ == x@,
        k > 0 ==> res@ == (x@ + pow2((k - 1) as nat)) / (pow2(k as nat) as int),
{
    if k == 0 {
        return x.clone();
    }
    let one = small(1);
    let half = one.shl(k - 1);
    let y = x.add(&half);
    y.shr(k)
}

proof fn lemma_swap_middle(a: int, b: int, c: int, d: int)
    ensures
        (a * c) * (b * d) == a * b * (c * d),
{
    assert((a * c) * (b * d) == a * b * (c * d)) by (nonlinear_arith);
}

/// Sums keep their value when the addends are written another way.
proof fn lemma_sum_values(a: Rational, n1: int, d1: int, b: Rational, n2: int, d2: int, p: Rational)
    requires
        a.den() > 0,
        b.den() > 0,
        d1 != 0,
        d2 != 0,
        a.same_value(n1, d1),
        b.same_value(n2, d2),
        p.same_value(a.num() * b.den() + b.num() * a.den(), (a.den() * b.den()) as int),
    ensures
        p.same_value(n1 * d2 + n2 * d1, d1 * d2),
{
    let (x, y, e, f) = (a.num(), a.den() as int, b.num(), b.den() as int);
    let (q, r) = (p.num(), p.den() as int);
    assert(q * (y * f) == (x * f + e * y) * r);
    assert(x * d1 == n1 * y);
    assert(e * d2 == n2 * f);
    assert(q * (y * f) * (d1 * d2) == (x * f + e * y) * (d1 * d2) * r) by (nonlinear_arith)
        requires
            q * (y * f) == (x * f + e * y) * r,
    ;
    vstd::arithmetic::mul::lemma_mul_is_distributive_add_other_way(d1 * d2, x * f, e * y);
    lemma_swap_middle(x, f, d1, d2);
    lemma_swap_middle(e, y, d2, d1);
    assert(e * y * (d2 * d1) == e * y * (d1 * d2)) by (nonlinear_arith);
    assert((x * d1) * (f * d2) + (e * d2) * (y * d1) == (n1 * y) * (f * d2) + (n2 * f) * (y * d1));
    lemma_swap_middle(n1, y, f, d2);
    lemma_swap_middle(n2, f, y, d1);
    assert(n1 * f * (y * d2) == (y * f) * (n1 * d2)) by (nonlinear_arith);
    assert(n2 * y * (f * d1) == (y * f) * (n2 * d1)) by (nonlinear_arith);
    vstd::arithmetic::mul::lemma_mul_is_distributive_add(y * f, n1 * d2, n2 * d1);
    assert((q * d1 * d2) * (y * f) == ((n1 * d2 + n2 * d1) * r) * (y * f)) by (nonlinear_arith)
        requires
            q * (y * f) * (d1 * d2) == (x * f + e * y) * (d1 * d2) * r,
            (x * f + e * y) * (d1 * d2) == (y * f) * (n1 * d2 + n2 * d1),
    ;
    assert(q * d1 * d2 == (n1 * d2 + n2 * d1) * r) by (nonlinear_arith)
        requires
            (q * d1 * d2) * (y * f) == ((n1 * d2 + n2 * d1) * r) * (y * f),
            y > 0,
            f > 0,
    ;
    assert(q * (d1 * d2) == (n1 * d2 + n2 * d1) * r) by (nonlinear_arith)
        requires
            q * d1 * d2 == (n1 * d2 + n2 * d1) * r,
    ;
}

/// The exact rational value of an expression built from rationals with the
/// arithmetic operations, where there is one.
#[verifier::spinoff_prover]
pub fn exact(c: &Computable) -> (res: Option<Rational>)
    ensures
        exact_value(c.node_spec()) is None <==> res is None,
        exact_value(c.node_spec()) matches Some((n, d)) ==> d != 0 && (res matches Some(r)
            && r.same_value(n, d)),
    decreases c,
{
    proof {
        c.lemma_node_smaller();
    }
    match c.node() {
        Node::One => {
            let r = Rational::one();
            proof {
                assert(r.same_value(1, 1));
            }
            Some(r)
        },
        Node::Ratio(r) => {
            proof {
                use_type_invariant(r);
            }
            Some(r.clone())
        },
        Node::Negate(x) => {
            proof {
                x.lemma_node_smaller();
            }
            match exact(x) {
                Some(r) => {
                    let res = r.neg();
                    proof {
                        let (a, b) = exact_value(x.node_spec())->0;
                        assert(res.num() * b == -a * res.den()) by (nonlinear_arith)
                            requires
                                r.num() * b == a * r.den(),
                                res.num() == -r.num(),
                                res.den() == r.den(),
                        ;
                    }
                    Some(res)
                },
                None => None,
            }
        },
        Node::Add(x, y) => match (exact(x), exact(y)) {
            (Some(a), Some(b)) => {
                let res = a.add(&b);
                proof {
                    use_type_invariant(&a);
                    use_type_invariant(&b);
                    let (n1, d1) = exact_value(x.node_spec())->0;
                    let (n2, d2) = exact_value(y.node_spec())->0;
                    lemma_sum_values(a, n1, d1, b, n2, d2, res);
                    assert(d1 * d2 != 0) by (nonlinear_arith)
                        requires
                            d1 != 0,
                            d2 != 0,
                    ;
                }
                Some(res)
            },
            _ => None,
        },
        Node::Multiply(x, y) => match (exact(x), exact(y)) {
            (Some(a), Some(b)) => {
                let res = a.mul(&b);
                proof {
                    use_type_invariant(&a);
                    use_type_invariant(&b);
                    let (n1, d1) = exact_value(x.node_spec())->0;
                    let (n2, d2) = exact_value(y.node_spec())->0;
                    crate::reals::arith::lemma_product_value(a, n1, d1, b, n2, d2, res);
                    assert(d1 * d2 != 0) by (nonlinear_arith)
                        requires
                            d1 != 0,
                            d2 != 0,
                    ;
                }
                Some(res)
            },
            _ => None,
        },
        Node::Square(x) => match exact(x) {
            Some(a) => {
                let res = a.mul(&a);
                proof {
                    use_type_invariant(&a);
                    let (n1, d1) = exact_value(x.node_spec())->0;
                    crate::reals::arith::lemma_product_value(a, n1, d1, a, n1, d1, res);
                    assert(d1 * d1 != 0) by (nonlinear_arith)
                        requires
                            d1 != 0,
                    ;
                }
                Some(res)
            },
            None => None,
        },
        Node::Inverse(x) => match exact(x) {
            Some(a) => {
                proof {
                    use_type_invariant(&a);
                    let (n1, d1) = exact_value(x.node_spec())->0;
                    assert(a.num() == 0 <==> n1 == 0) by (nonlinear_arith)
                        requires
                            a.num() * d1 == n1 * a.den(),
                            d1 != 0,
                            a.den() > 0,
                    ;
                }
                match a.inverse() {
                    Ok(b) => {
                        proof {
                            use_type_invariant(&b);
                            let (n1, d1) = exact_value(x.node_spec())->0;
                            assert(b.num() * n1 == d1 * b.den()) by (nonlinear_arith)
                                requires
                                    b.num() * a.num() == (a.den() as int) * b.den(),
                                    a.num() * d1 == n1 * a.den(),
                                    a.den() > 0,
                            ;
                        }
                        Some(b)
                    },
                    Err(_) => None,
                }
            },
            None => None,
        },
        _ => None,
    }
}

/// The first term of the arctangent series of `1 / k` in fixed point with
/// `w` bits: `2^w / k`, rounded down.
pub open spec fn atan_lead(k: nat, w: nat) -> int {
    (pow2(w) as int) / (k as int)
}

/// The second term of that series, before its sign: the first divided by
/// `k^2` and by three, each rounded down.
pub open spec fn atan_second(k: nat, w: nat) -> int {
    (atan_lead(k, w) / ((k * k) as int)) / 3
}

/// The arctangent of `1 / k`, times `2^w`: a partial sum of its alternating
/// series, so between the first term less the second and the first term.
fn atan_inverse(k: u64, w: u64, stop: &Option<Signal>) -> (res: Integer)
    requires
        k >= 2,
        k <= 1000,
    ensures
        atan_lead(k as nat, w as nat) - atan_second(k as nat, w as nat) <= res@
            <= atan_lead(k as nat, w as nat),
{
    assert(k * k <= 1_000_000) by (nonlinear_arith)
        requires
            k <= 1000,
    ;
    assert(k * k >= 4) by (nonlinear_arith)
        requires
            k >= 2,
    ;
    let kk = Natural::from_u64(k * k);
    let one = small(1);
    let mut term = one.shl(w).div_floor(&Natural::from_u64(k));
    let mut sum = term.clone();
    let mut n: u64 = 1;
    let limit = more(w, 64);
    let ghost hi = atan_lead(k as nat, w as nat);
    let ghost lo = hi - atan_second(k as nat, w as nat);
    let ghost mut last: int = 0;
    proof {
        vstd::arithmetic::power2::lemma_pow2_pos(w as nat);
        vstd::arithmetic::div_mod::lemma_div_pos_is_pos(pow2(w as nat) as int, k as int);
        vstd::arithmetic::div_mod::lemma_div_pos_is_pos(hi, (k * k) as int);
        vstd::arithmetic::div_mod::lemma_div_pos_is_pos(hi / ((k * k) as int), 3);
    }
    while n < limit
        invariant_except_break
            term@ >= 0,
            n == 1 ==> sum@ == hi && term@ == hi,
            n >= 2 ==> last == term@ / ((2 * n - 1) as int),
            n >= 2 && n % 2 == 0 ==> lo <= sum@ && sum@ + last <= hi,
            n >= 2 && n % 2 == 1 ==> lo <= sum@ - last && sum@ <= hi,
        invariant
            1 <= n <= limit,
            limit <= MAX_PRECISION,
            kk@ == k * k,
            kk@ >= 4,
            hi == atan_lead(k as nat, w as nat),
            lo == hi - atan_second(k as nat, w as nat),
            lo <= sum@ <= hi,
        ensures
            lo <= sum@ <= hi,
        decreases limit - n,
    {
        if stop_requested(stop) {
            break;
        }
        let ghost prev = term@;
        term = term.div_floor(&kk);
        let t = term.div_floor(&Natural::from_u64(2 * n + 1));
        proof {
            vstd::arithmetic::div_mod::lemma_div_pos_is_pos(prev, kk@ as int);
            vstd::arithmetic::div_mod::lemma_div_pos_is_pos(term@, (2 * n + 1) as int);
            if n >= 2 {
                vstd::arithmetic::div_mod::lemma_div_is_ordered_by_denominator(prev, 1, kk@ as int);
                vstd::arithmetic::div_mod::lemma_div_basics(prev);
                vstd::arithmetic::div_mod::lemma_div_is_ordered(term@, prev, (2 * n + 1) as int);
                vstd::arithmetic::div_mod::lemma_div_is_ordered_by_denominator(
                    prev,
                    (2 * n - 1) as int,
                    (2 * n + 1) as int,
                );
                assert(t@ <= last);
            }
        }
        if t.is_zero() {
            break;
        }
        if n % 2 == 1 {
            sum = sum.sub(&t);
        } else {
            sum = sum.add(&t);
        }
        proof {
            last = t@;
        }
        n = n + 1;
    }
    sum
}

/// `x` lies where the arctangent series of `1 / k` puts its partial sums
/// with `w` bits.
pub open spec fn within_atan(k: nat, w: nat, x: int) -> bool {
    atan_lead(k, w) - atan_second(k, w) <= x <= atan_lead(k, w)
}

/// `x / 2^k`, rounded to the nearest integer, halves upward.
pub open spec fn rounded_shift(x: int, k: nat) -> int {
    if k == 0 {
        x
    } else {
        (x + pow2((k - 1) as nat)) / (pow2(k) as int)
    }
}

/// The fixed-point value `x` with `from` bits brought to `to` bits, where
/// that drops bits; otherwise `x` as it is.
pub open spec fn to_precision(x: int, from: nat, to: nat) -> int {
    if from >= to {
        rounded_shift(x, (from - to) as nat)
    } else {
        x
    }
}

/// The working precision for `w` bits: sixteen guard bits more, within the
/// largest working precision.
pub open spec fn guarded(w: nat) -> nat {
    if w + GUARD <= MAX_PRECISION {
        (w + GUARD) as nat
    } else {
        MAX_PRECISION as nat
    }
}

/// π times `2^w`, by Machin's formula: sixteen times the arctangent of
/// one fifth less four times that of 1/239, both taken with guard bits and
/// then rounded to `w` bits.  It is at least one.
fn pi_fixed(w: u64, stop: &Option<Signal>) -> (res: Integer)
    ensures
        exists|a: int, b: int|
            #![trigger within_atan(5, guarded(w as nat), a), within_atan(239, guarded(w as nat), b)]
            within_atan(5, guarded(w as nat), a) && within_atan(239, guarded(w as nat), b)
                && res@ == to_precision(16 * a - 4 * b, guarded(w as nat), w as nat),
        res@ >= 1,
        w + GUARD <= MAX_PRECISION ==> res@ >= 3 * pow2(w as nat),
{
    let ww = more(w, GUARD);
    let a = atan_inverse(5, ww, stop);
    let b = atan_inverse(239, ww, stop);
    let four = small(4);
    let s = a.mul(&four).sub(&b).mul(&four);
    proof {
        let p = pow2(ww as nat) as int;
        assert(ww as nat == guarded(w as nat));
        assert(within_atan(5, ww as nat, a@));
        assert(within_atan(239, ww as nat, b@));
        assert(s@ == 16 * a@ - 4 * b@);
        vstd::arithmetic::power2::lemma2_to64();
        assert(p >= 0x10000) by {
            if ww > 16 {
                vstd::arithmetic::power2::lemma_pow2_strictly_increases(16, ww as nat);
            }
        }
        let big = atan_lead(5, ww as nat);
        let tail = atan_lead(239, ww as nat);
        assert(5 * big >= p - 4);
        assert(239 * tail <= p);
        assert(75 * atan_second(5, ww as nat) <= big) by {
            lemma_fundamental_div_mod(big, 25);
            lemma_fundamental_div_mod(big / 25, 3);
            vstd::arithmetic::div_mod::lemma_mod_pos_bound(big, 25);
            vstd::arithmetic::div_mod::lemma_mod_pos_bound(big / 25, 3);
        }
        assert(s@ >= p);
        assert(s@ >= 3 * p);
        if w + GUARD <= MAX_PRECISION {
            let k = (ww - w) as nat;
            assert(k == 16);
            vstd::arithmetic::power2::lemma_pow2_adds(w as nat, k);
            vstd::arithmetic::power2::lemma_pow2_pos(w as nat);
            let q = pow2(k) as int;
            assert(q == 0x10000);
            vstd::arithmetic::div_mod::lemma_div_is_ordered(3 * p, s@ + pow2((k - 1) as nat), q);
            assert(3 * p == (3 * pow2(w as nat)) * q) by (nonlinear_arith)
                requires
                    p == pow2(w as nat) * q,
            ;
            vstd::arithmetic::div_mod::lemma_div_by_multiple(3 * pow2(w as nat) as int, q);
        }
        if ww > w {
            let k = (ww - w) as nat;
            vstd::arithmetic::power2::lemma_pow2_pos((k - 1) as nat);
            vstd::arithmetic::power2::lemma_pow2_pos(k);
            if k < ww {
                vstd::arithmetic::power2::lemma_pow2_strictly_increases(k, ww as nat);
            }
            assert(pow2(k) as int <= p);
            vstd::arithmetic::div_mod::lemma_div_is_ordered(
                pow2(k) as int,
                s@ + pow2((k - 1) as nat),
                pow2(k) as int,
            );
            vstd::arithmetic::div_mod::lemma_div_basics(pow2(k) as int);
        }
    }
    if ww >= w {
        round_shift(&s, ww - w)
    } else {
        s
    }
}

/// `c * 2^w` in fixed point, where the expression of `c` is the number one
/// or a rational: then it is known exactly, rounded down.
pub open spec fn fixed_point(c: Computable, w: nat) -> Option<int> {
    match c.node_spec() {
        Node::One => Some(pow2(w) as int),
        Node::Ratio(r) => Some((r.num() * pow2(w)) / (r.den() as int)),
        _ => None,
    }
}

/// How far above 2 to the power 0 the size of `c` reaches, roughly: the
/// bits of its integer part, plus one.
fn magnitude_bits(c: &Computable, stop: &Option<Signal>) -> (res: u64)
    ensures
        res <= MAX_PRECISION,
        fixed_point(*c, 2) matches Some(x) ==> res == (if bit_length(abs(x)) <= MAX_PRECISION {
            bit_length(abs(x))
        } else {
            MAX_PRECISION as nat
        }),
    decreases c, 4nat,
{
    let x = eval(c, 2, stop);
    let b = x.bits();
    if b <= MAX_PRECISION {
        b
    } else {
        MAX_PRECISION
    }
}

/// Where the leading binary digit of the approximation `x` with `w` bits
/// puts that of the number, when it has more than the guard bits: the
/// largest working precision where the digits go beyond it.
pub open spec fn leading_position(x: int, w: nat) -> int {
    if bit_length(abs(x)) > MAX_PRECISION {
        MAX_PRECISION as int
    } else {
        bit_length(abs(x)) - 1 - w
    }
}

/// The precision up to which the search for the leading digit goes when
/// it may stop at the position `stop`: eight bits beyond `-stop`, and
/// from eight up to 4096 bits.
pub open spec fn msd_limit(stop: int) -> nat {
    if stop >= 0 {
        8
    } else if stop < -4096 {
        4096
    } else {
        (-stop + 8) as nat
    }
}

/// The number `n` is below the position `stop` as far as the search can
/// tell: its leading digit was found below `stop`, or its approximation
/// with `msd_limit(stop)` bits shows no more than the guard bits.
pub open spec fn below_stop(n: Node, stop: int, halted: bool) -> bool {
    ||| exists|w: nat, x: int|
        #![trigger approximates(n, w, x, halted)]
        approximates(n, w, x, halted) && leading_position(x, w) < stop
    ||| exists|x: int|
        #![trigger approximates(n, msd_limit(stop), x, halted)]
        approximates(n, msd_limit(stop), x, halted) && bit_length(abs(x)) <= GUARD
}

/// The bits with which the sign is read once the leading digit is found
/// at the position `e`: the guard bits below that digit.
pub open spec fn sign_bits(e: int) -> nat {
    if e < 0 && e > -4096 {
        (-e + GUARD) as nat
    } else {
        GUARD as nat
    }
}

/// `s` is the sign of an approximation of `n` taken with the guard bits
/// below a leading digit that another approximation showed.
pub open spec fn sign_read(n: Node, halted: bool, s: Sign) -> bool {
    exists|w0: nat, x0: int, x: int|
        #![trigger approximates(n, w0, x0, halted), approximates(n, sign_bits(leading_position(x0, w0)), x, halted)]
        approximates(n, w0, x0, halted) && bit_length(abs(x0)) > GUARD && approximates(
            n,
            sign_bits(leading_position(x0, w0)),
            x,
            halted,
        ) && s == sign_of(x)
}

/// The search of `find_msd` from the precision `w` up to `limit`, for a
/// number known exactly in fixed point: the first precision at which more
/// than the guard bits show gives the exponent of the leading bit; each
/// try has four times the bits of the one before, and the last try has
/// `limit` bits.
pub open spec fn msd_search(c: Computable, w: nat, limit: nat) -> Option<int>
    decreases limit - w,
{
    if w == 0 || w > limit {
        None
    } else {
        match fixed_point(c, w) {
            None => None,
            Some(x) => {
                let b = bit_length(abs(x));
                if b > GUARD {
                    if b > MAX_PRECISION {
                        Some(MAX_PRECISION as int)
                    } else {
                        Some(b - 1 - w)
                    }
                } else if w > limit / 4 {
                    if w == limit {
                        None
                    } else {
                        msd_search(c, limit, limit)
                    }
                } else {
                    msd_search(c, 4 * w, limit)
                }
            },
        }
    }
}

/// Find `e` with `2^e` close to the size of `c`, trying more and more
/// precision; `None` if `c` looks like zero to `limit` bits.
fn find_msd(c: &Computable, limit: u64, stop: &Option<Signal>) -> (res: Option<i64>)
    requires
        limit <= MAX_PRECISION,
    ensures
        res matches Some(e) ==> -(MAX_PRECISION as int) <= e <= MAX_PRECISION,
        res matches Some(e) ==> exists|w: nat, x: int|
            #![trigger approximates(c.node_spec(), w, x, stop is Some)]
            1 <= w <= limit && approximates(c.node_spec(), w, x, stop is Some) && leading_position(x, w) == e
                && bit_length(abs(x)) > GUARD,
        res is None ==> stop is Some || limit < 8 || exists|x: int|
            #![trigger approximates(c.node_spec(), limit as nat, x, stop is Some)]
            approximates(c.node_spec(), limit as nat, x, stop is Some) && bit_length(abs(x)) <= GUARD,
        stop is None && fixed_point(*c, 0) is Some ==> match res {
            Some(e) => msd_search(*c, 8, limit as nat) == Some(e as int),
            None => msd_search(*c, 8, limit as nat) is None,
        },
    decreases c, 4nat,
{
    let mut w: u64 = 8;
    while w <= limit
        invariant
            8 <= w,
            limit >= 8 ==> w <= limit,
            limit <= MAX_PRECISION,
            stop is None && fixed_point(*c, 0) is Some ==> msd_search(*c, w as nat, limit as nat)
                == msd_search(*c, 8, limit as nat),
        ensures
            stop is None && fixed_point(*c, 0) is Some ==> msd_search(*c, 8, limit as nat) is None,
            stop is Some || limit < 8 || exists|x: int|
                #![trigger approximates(c.node_spec(), limit as nat, x, stop is Some)]
                approximates(c.node_spec(), limit as nat, x, stop is Some) && bit_length(abs(x))
                    <= GUARD,
        decreases limit - w,
    {
        if stop_requested(stop) {
            return None;
        }
        let x = eval(c, w, stop);
        let b = x.bits();
        if b > GUARD {
            proof {
                assert(approximates(c.node_spec(), w as nat, x@, stop is Some));
            }
            if b > MAX_PRECISION {
                return Some(MAX_PRECISION as i64);
            }
            return Some(b as i64 - 1 - w as i64);
        }
        if w > limit / 4 {
            if w == limit {
                proof {
                    assert(approximates(c.node_spec(), limit as nat, x@, stop is Some));
                    assert(bit_length(abs(x@)) <= GUARD);
                }
                break;
            }
            w = limit;
        } else {
            w = w * 4;
        }
    }
    None
}

/// The exponential of the number `c`, times `2^w`: never negative, and
/// exactly `2^w` for the rational zero (within the working precision).
fn exp_fixed(c: &Computable, w: u64, stop: &Option<Signal>) -> (res: Integer)
    ensures
        res@ >= 0,
        c.node_spec() matches Node::Ratio(r) && r.num() == 0 && w + GUARD + 2 <= MAX_PRECISION
            ==> res@ == pow2(w as nat),
    decreases c, 4nat,
{
    let ghost zero = c.node_spec() matches Node::Ratio(r) && r.num() == 0;
    if let Node::Ratio(r) = c.node() {
        proof {
            use_type_invariant(r);
            vstd::arithmetic::mul::lemma_mul_basics(pow2(0) as int);
            vstd::arithmetic::power2::lemma_pow2_pos(w as nat);
            vstd::arithmetic::mul::lemma_mul_basics(pow2(w as nat) as int);
            vstd::arithmetic::div_mod::lemma_div_basics(r.den() as int);
        }
    }
    let m = eval(c, 0, stop);
    let mb = m.bits();
    let k = if mb < 64 {
        mb + 2
    } else {
        66
    };
    // Large results need more bits before the point is dropped.
    let extra = if m.sign() == Sign::Plus {
        more(mb, mb)
    } else {
        0
    };
    let wp = more(more(w, GUARD), more(k, extra));
    let y = eval(c, wp, stop).shr(k);
    let one = small(1).shl(wp);
    proof {
        vstd::arithmetic::power2::lemma_pow2_pos(wp as nat);
        vstd::arithmetic::power2::lemma_pow2_pos(k as nat);
        if zero {
            assert(m@ == 0);
            assert(k == 2 && extra == 0);
            assert(y@ == 0);
        }
    }
    let mut sum = one.clone();
    let mut term = one;
    let mut n: u64 = 1;
    let limit = more(wp, 64);
    while n < limit
        invariant
            1 <= n <= limit,
            limit <= MAX_PRECISION,
            pow2(wp as nat) > 0,
            zero ==> y@ == 0 && sum@ == pow2(wp as nat),
        decreases limit - n,
    {
        if stop_requested(stop) {
            break;
        }
        proof {
            if zero {
                vstd::arithmetic::mul::lemma_mul_basics(term@);
                vstd::arithmetic::div_mod::lemma_div_basics(pow2(wp as nat) as int);
            }
        }
        term = term.mul(&y).shr(wp).div_floor(&Natural::from_u64(n));
        if term.is_zero() {
            break;
        }
        sum = sum.add(&term);
        n = n + 1;
    }
    let mut i: u64 = 0;
    while i < k
        invariant
            i <= k,
            k >= 2,
            pow2(wp as nat) > 0,
            i >= 1 ==> sum@ >= 0,
            zero ==> sum@ == pow2(wp as nat),
        decreases k - i,
    {
        proof {
            let p = pow2(wp as nat) as int;
            assert(sum@ * sum@ >= 0) by (nonlinear_arith);
            vstd::arithmetic::div_mod::lemma_div_pos_is_pos(sum@ * sum@, p);
            if zero {
                vstd::arithmetic::div_mod::lemma_div_multiples_vanish(p, p);
            }
        }
        sum = sum.mul(&sum).shr(wp);
        i = i + 1;
    }
    proof {
        if wp > w {
            let h = pow2((wp - w - 1) as nat) as int;
            let q = pow2((wp - w) as nat) as int;
            vstd::arithmetic::power2::lemma_pow2_pos((wp - w - 1) as nat);
            vstd::arithmetic::power2::lemma_pow2_strictly_increases((wp - w - 1) as nat, (wp - w) as nat);
            vstd::arithmetic::div_mod::lemma_div_pos_is_pos(sum@ + h, q);
            if zero && w + GUARD + 2 <= MAX_PRECISION {
                assert(wp == w + 18);
                vstd::arithmetic::power2::lemma_pow2_adds(w as nat, (wp - w) as nat);
                vstd::arithmetic::power2::lemma_pow2_pos(w as nat);
                vstd::arithmetic::div_mod::lemma_fundamental_div_mod_converse(
                    sum@ + h,
                    q,
                    pow2(w as nat) as int,
                    h,
                );
            }
        }
    }
    if wp >= w {
        round_shift(&sum, wp - w)
    } else {
        sum
    }
}

/// The inverse hyperbolic tangent of `z / 2^w`, times `2^w`, for a small
/// positive `z`.
fn atanh_fixed(z: &Integer, w: u64, stop: &Option<Signal>) -> (res: Integer)
    ensures
        z@ >= 0 ==> res@ >= z@,
        z@ == 0 ==> res@ == 0,
{
    let zz = z.mul(z).shr(w);
    proof {
        vstd::arithmetic::power2::lemma_pow2_pos(w as nat);
        assert(z@ * z@ >= 0) by (nonlinear_arith);
        vstd::arithmetic::div_mod::lemma_div_pos_is_pos(z@ * z@, pow2(w as nat) as int);
    }
    let mut power = z.clone();
    let mut sum = z.clone();
    let mut n: u64 = 1;
    let limit = more(w, 64);
    while n < limit
        invariant
            1 <= n <= limit,
            limit <= MAX_PRECISION,
            zz@ >= 0,
            pow2(w as nat) > 0,
            z@ >= 0 ==> power@ >= 0 && sum@ >= z@,
            z@ == 0 ==> power@ == 0 && sum@ == 0,
        decreases limit - n,
    {
        if stop_requested(stop) {
            break;
        }
        proof {
            if z@ >= 0 {
                vstd::arithmetic::mul::lemma_mul_nonnegative(power@, zz@);
                vstd::arithmetic::div_mod::lemma_div_pos_is_pos(power@ * zz@, pow2(w as nat) as int);
            }
        }
        power = power.mul(&zz).shr(w);
        proof {
            if z@ >= 0 {
                vstd::arithmetic::div_mod::lemma_div_pos_is_pos(power@, (2 * n + 1) as int);
            }
        }
        let t = power.div_floor(&Natural::from_u64(2 * n + 1));
        if t.is_zero() {
            break;
        }
        sum = sum.add(&t);
        n = n + 1;
    }
    sum
}

/// The natural logarithm of the number `c`, times `2^w`; zero where `c`
/// does not look positive.
fn ln_fixed(c: &Computable, w: u64, stop: &Option<Signal>) -> (res: Integer)
    ensures
        c.node_spec() is One ==> res@ == 0,
        c.node_spec() matches Node::Ratio(r) && r.num() <= 0 ==> res@ == 0,
    decreases c, 5nat,
{
    let e = match find_msd(c, 4096, stop) {
        Some(e) => e,
        None => {
            return Integer::zero();
        },
    };
    let tiny = if e < 0 && e > -0x1000_0000 {
        (-e) as u64
    } else {
        0
    };
    let wp = more(more(w, more(GUARD, GUARD)), tiny);
    let x = eval(c, wp, stop);
    proof {
        vstd::arithmetic::power2::lemma_pow2_pos(wp as nat);
    }
    if let Node::Ratio(r) = c.node() {
        proof {
            use_type_invariant(r);
            if r.num() <= 0 {
                assert(r.num() * pow2(wp as nat) <= 0) by (nonlinear_arith)
                    requires
                        r.num() <= 0,
                        pow2(wp as nat) > 0,
                ;
                assert((r.num() * pow2(wp as nat)) / (r.den() as int) <= 0) by (nonlinear_arith)
                    requires
                        r.num() * pow2(wp as nat) <= 0,
                        r.den() > 0,
                ;
            }
        }
    }
    if x.sign() != Sign::Plus {
        return Integer::zero();
    }
    let n = x.bits() - 1;
    let ghost unit = c.node_spec() is One;
    proof {
        if unit {
            crate::natural::lemma_bit_length_bounds(x@ as nat);
            if n < wp {
                vstd::arithmetic::power2::lemma_pow2_strictly_increases((n + 1) as nat, wp as nat);
            }
            if n > wp {
                vstd::arithmetic::power2::lemma_pow2_strictly_increases(wp as nat, n as nat);
            }
            assert(n == wp);
            vstd::arithmetic::power2::lemma2_to64();
        }
    }
    // x / 2^wp == (x / 2^n) * 2^(n - wp), with x / 2^n in [1, 2).
    let y = if n >= wp {
        x.shr(n - wp)
    } else {
        x.shl(wp - n)
    };
    let one = small(1).shl(wp);
    let num = y.sub(&one).shl(wp);
    let den = y.add(&one);
    let z = match den.magnitude().is_zero() {
        true => Integer::zero(),
        false => num.div_floor(den.magnitude()),
    };
    proof {
        if unit {
            vstd::arithmetic::div_mod::lemma_div_basics(x@);
            assert(y@ == x@);
            assert(one@ == pow2(wp as nat));
            assert(y@ - one@ == 0);
            vstd::arithmetic::mul::lemma_mul_basics(pow2(wp as nat) as int);
            assert(num@ == 0);
            assert(z@ == 0);
        }
    }
    let ln_y = atanh_fixed(&z, wp, stop).shl(1);
    let third = one.div_floor(&Natural::from_u64(3));
    let ln2 = atanh_fixed(&third, wp, stop).shl(1);
    let t = if n >= wp {
        small(n - wp)
    } else {
        small(wp - n).neg()
    };
    let total = ln_y.add(&ln2.mul(&t));
    proof {
        if unit {
            assert(t@ == 0);
            vstd::arithmetic::mul::lemma_mul_basics(ln2@);
            assert(total@ == 0);
            if wp > w {
                vstd::arithmetic::power2::lemma_pow2_strictly_increases((wp - w - 1) as nat, (wp - w) as nat);
                vstd::arithmetic::power2::lemma_pow2_pos((wp - w - 1) as nat);
                vstd::arithmetic::div_mod::lemma_basic_div(
                    pow2((wp - w - 1) as nat) as int,
                    pow2((wp - w) as nat) as int,
                );
            }
        }
    }
    if wp >= w {
        round_shift(&total, wp - w)
    } else {
        total
    }
}

/// The term of the sine and cosine series after `t`: `-t * rr / d` in
/// fixed point with `p` standing for one, each division rounded down.
pub open spec fn next_term(t: int, rr: int, p: int, d: int) -> int {
    (-((t * rr) / p)) / d
}

/// With `rr` at most one, each term of the series is no larger than the
/// one before and of the other sign.
proof fn lemma_next_term(t: int, rr: int, p: int, d: int)
    requires
        p > 0,
        0 <= rr <= p,
        d >= 1,
    ensures
        t >= 0 ==> next_term(t, rr, p, d) <= 0 && -next_term(t, rr, p, d) <= t,
        t <= 0 ==> next_term(t, rr, p, d) >= 0 && next_term(t, rr, p, d) <= -t,
{
    let m = (t * rr) / p;
    if t >= 0 {
        assert(0 <= t * rr <= t * p) by (nonlinear_arith)
            requires
                t >= 0,
                0 <= rr <= p,
        ;
        vstd::arithmetic::div_mod::lemma_div_is_ordered(0, t * rr, p);
        vstd::arithmetic::div_mod::lemma_div_is_ordered(t * rr, t * p, p);
        vstd::arithmetic::div_mod::lemma_div_by_multiple(t, p);
        assert(0 <= m <= t);
        vstd::arithmetic::div_mod::lemma_div_is_ordered(-m, 0, d);
        assert(-m * d <= -m) by (nonlinear_arith)
            requires
                m >= 0,
                d >= 1,
        ;
        vstd::arithmetic::div_mod::lemma_div_is_ordered(-m * d, -m, d);
        lemma_fundamental_div_mod_converse(-m * d, d, -m, 0);
    } else {
        assert(t * p <= t * rr <= 0) by (nonlinear_arith)
            requires
                t <= 0,
                0 <= rr <= p,
        ;
        vstd::arithmetic::div_mod::lemma_div_is_ordered(t * p, t * rr, p);
        vstd::arithmetic::div_mod::lemma_div_is_ordered(t * rr, 0, p);
        assert((t * p) / p == t) by {
            lemma_fundamental_div_mod_converse(t * p, p, t, 0);
        }
        assert(t <= m <= 0);
        vstd::arithmetic::div_mod::lemma_div_is_ordered(0, -m, d);
        assert(-m <= -m * d) by (nonlinear_arith)
            requires
                m <= 0,
                d >= 1,
        ;
        vstd::arithmetic::div_mod::lemma_div_is_ordered(-m, -m * d, d);
        lemma_fundamental_div_mod_converse(-m * d, d, -m, 0);
    }
}

/// The sum `s` with the last term `t` added lies between `lo` and `hi`,
/// and so does every sum that adds on further terms alternating in sign
/// and no larger than `t`.
pub open spec fn bracketed(t: int, s: int, lo: int, hi: int) -> bool {
    &&& t >= 0 ==> s <= hi && s - t >= lo
    &&& t <= 0 ==> s >= lo && s - t <= hi
}

/// `x` is `n * p / d` rounded down and `rr` is `x * x / p` rounded down,
/// for `|n / d| <= 1`: then `rr` is `(n / d)^2 * p` to within four units,
/// scaled by `d^2`.
proof fn lemma_square_bounds(n: int, d: int, p: int, x: int, rr: int)
    requires
        d > 0,
        p > 0,
        n * n <= d * d,
        d * x <= n * p < d * x + d,
        p * rr <= x * x < p * rr + p,
        -p <= x <= p,
    ensures
        d * d * rr < n * n * p + 3 * d * d,
        d * d * rr > n * n * p - 4 * d * d,
{
    assert(-d <= n <= d) by (nonlinear_arith)
        requires
            n * n <= d * d,
            d > 0,
    ;
    if n >= 0 {
        assert(x >= 0) by (nonlinear_arith)
            requires
                d * x > n * p - d,
                n >= 0,
                p > 0,
                d > 0,
        ;
        assert(d * d * (x * x) <= n * n * (p * p)) by (nonlinear_arith)
            requires
                0 <= d * x <= n * p,
                x >= 0,
                d > 0,
        ;
        assert(d * d * (x * x) > n * n * (p * p) - 2 * d * d * p - d * d) by (nonlinear_arith)
            requires
                d * x + d > n * p,
                n * p >= 0,
                0 <= x <= p,
                d > 0,
        ;
    } else {
        assert(n * p < 0) by (nonlinear_arith)
            requires
                n < 0,
                p > 0,
        ;
        assert(d * d * (x * x) >= n * n * (p * p)) by (nonlinear_arith)
            requires
                d * x <= n * p,
                n * p < 0,
                d > 0,
        ;
        assert(d * d * (x * x) < n * n * (p * p) + 2 * d * d * p + d * d) by (nonlinear_arith)
            requires
                d * x > n * p - d,
                d * x <= n * p,
                n < 0,
                -n <= d,
                p > 0,
                d > 0,
        ;
    }
    assert(d * d * rr * p <= d * d * (x * x)) by (nonlinear_arith)
        requires
            p * rr <= x * x,
            d > 0,
    ;
    assert(d * d * rr * p > d * d * (x * x) - d * d * p) by (nonlinear_arith)
        requires
            x * x < p * rr + p,
            d > 0,
    ;
    assert(d * d * rr < n * n * p + 3 * d * d) by (nonlinear_arith)
        requires
            d * d * rr * p < n * n * (p * p) + 2 * d * d * p + d * d,
            p > 0,
            d > 0,
    ;
    assert(d * d * rr > n * n * p - 4 * d * d) by (nonlinear_arith)
        requires
            d * d * rr * p > n * n * (p * p) - 2 * d * d * p - d * d - d * d * p,
            p > 0,
            d > 0,
    ;
}

/// The cosine series of `x / p`, between its partial sums up to the
/// square and up to the fourth power, rounded to `v = p / q` for one:
/// at least `1 - (n/d)^2 / 2` and at most `1 - 11 (n/d)^2 / 24`, each to
/// within one unit.
proof fn lemma_cosine_bounds(n: int, d: int, p: int, q: int, v: int, x: int, rr: int, sum: int, res: int)
    requires
        d > 0,
        p > 0,
        v > 0,
        q >= 64,
        p == v * q,
        n * n <= d * d,
        d * x <= n * p < d * x + d,
        p * rr <= x * x < p * rr + p,
        -p <= x <= p,
        0 <= rr <= p,
        p + next_term(p, rr, p, 2) <= sum,
        sum <= p + next_term(p, rr, p, 2) + next_term(next_term(p, rr, p, 2), rr, p, 12),
        res == (sum + q / 2) / q,
    ensures
        2 * d * d * (res + 1) >= v * (2 * d * d - n * n),
        24 * d * d * (res - 1) <= v * (24 * d * d - 11 * n * n),
{
    lemma_square_bounds(n, d, p, x, rr);
    let t1 = next_term(p, rr, p, 2);
    let t2 = next_term(t1, rr, p, 12);
    vstd::arithmetic::div_mod::lemma_div_by_multiple(rr, p);
    assert(p * rr == rr * p) by (nonlinear_arith);
    assert(t1 == (-rr) / 2);
    lemma_fundamental_div_mod(-rr, 2);
    vstd::arithmetic::div_mod::lemma_mod_bound(-rr, 2);
    assert(2 * t1 <= -rr < 2 * t1 + 2);
    let m = (t1 * rr) / p;
    lemma_fundamental_div_mod(t1 * rr, p);
    vstd::arithmetic::div_mod::lemma_mod_bound(t1 * rr, p);
    assert(p * m <= t1 * rr < p * m + p);
    lemma_fundamental_div_mod(-m, 12);
    vstd::arithmetic::div_mod::lemma_mod_bound(-m, 12);
    assert(12 * t2 <= -m);
    assert(t1 <= 0);
    assert(-t1 * rr <= -t1 * p) by (nonlinear_arith)
        requires
            t1 <= 0,
            rr <= p,
    ;
    assert(-m < -t1 + 1) by (nonlinear_arith)
        requires
            p * m > t1 * rr - p,
            -t1 * rr <= -t1 * p,
            p > 0,
    ;
    assert(24 * (sum - p) <= -11 * rr);
    lemma_fundamental_div_mod(sum + q / 2, q);
    vstd::arithmetic::div_mod::lemma_mod_bound(sum + q / 2, q);
    assert(q * res <= sum + q / 2 < q * res + q);
    assert(2 * d * d * (sum - p) >= -(n * n * p) - 5 * d * d) by (nonlinear_arith)
        requires
            2 * (sum - p) >= 2 * t1,
            2 * t1 > -rr - 2,
            d * d * rr < n * n * p + 3 * d * d,
            d > 0,
    ;
    assert(2 * d * d * (res + 1) * q >= v * (2 * d * d - n * n) * q) by (nonlinear_arith)
        requires
            q * res + q > sum + q / 2,
            2 * d * d * (sum - p) >= -(n * n * p) - 5 * d * d,
            p == v * q,
            q >= 64,
            d > 0,
    ;
    assert(24 * d * d * (sum - p) <= -(11 * n * n * p) + 44 * d * d) by (nonlinear_arith)
        requires
            24 * (sum - p) <= -11 * rr,
            d * d * rr > n * n * p - 4 * d * d,
            d > 0,
    ;
    assert(24 * d * d * (res - 1) * q <= v * (24 * d * d - 11 * n * n) * q) by (nonlinear_arith)
        requires
            q * res <= sum + q / 2,
            24 * d * d * (sum - p) <= -(11 * n * n * p) + 44 * d * d,
            p == v * q,
            q >= 64,
            d > 0,
    ;
    assert(2 * d * d * (res + 1) >= v * (2 * d * d - n * n)) by (nonlinear_arith)
        requires
            2 * d * d * (res + 1) * q >= v * (2 * d * d - n * n) * q,
            q > 0,
    ;
    assert(24 * d * d * (res - 1) <= v * (24 * d * d - 11 * n * n)) by (nonlinear_arith)
        requires
            24 * d * d * (res - 1) * q <= v * (24 * d * d - 11 * n * n) * q,
            q > 0,
    ;
}

/// The sine series of `x / p`, between its first term and its partial
/// sum up to the cube, rounded to `v = p / q` for one: of the sign of
/// `n / d`, at least five sixths of it and at most all of it in size, each
/// to within one unit.
proof fn lemma_sine_bounds(n: int, d: int, p: int, q: int, v: int, x: int, rr: int, sum: int, res: int)
    requires
        d > 0,
        p > 0,
        v > 0,
        q >= 64,
        p == v * q,
        n * n <= d * d,
        d * x <= n * p < d * x + d,
        -p <= x <= p,
        0 <= rr <= p,
        x <= sum <= x + next_term(x, rr, p, 6) || x + next_term(x, rr, p, 6) <= sum <= x,
        res == (sum + q / 2) / q,
    ensures
        n >= 0 ==> d * (res - 1) <= v * n && 6 * d * (res + 1) >= 5 * v * n,
        n < 0 ==> d * (res + 1) >= v * n && 6 * d * (res - 1) <= 5 * v * n,
{
    let t1 = next_term(x, rr, p, 6);
    let m = (x * rr) / p;
    lemma_fundamental_div_mod(x * rr, p);
    vstd::arithmetic::div_mod::lemma_mod_bound(x * rr, p);
    assert(p * m <= x * rr < p * m + p);
    lemma_fundamental_div_mod(-m, 6);
    vstd::arithmetic::div_mod::lemma_mod_bound(-m, 6);
    assert(6 * t1 <= -m < 6 * t1 + 6);
    lemma_fundamental_div_mod(sum + q / 2, q);
    vstd::arithmetic::div_mod::lemma_mod_bound(sum + q / 2, q);
    assert(q * res <= sum + q / 2 < q * res + q);
    lemma_next_term(x, rr, p, 6);
    if n >= 0 {
        assert(x >= 0) by (nonlinear_arith)
            requires
                d * x > n * p - d,
                n >= 0,
                p > 0,
                d > 0,
        ;
        assert(x * rr <= x * p) by (nonlinear_arith)
            requires
                x >= 0,
                rr <= p,
        ;
        assert(m < x + 1) by (nonlinear_arith)
            requires
                p * m <= x * rr,
                x * rr <= x * p,
                p > 0,
        ;
        assert(6 * sum > 5 * x - 6);
        assert(6 * d * (res + 1) * q >= 5 * v * n * q) by (nonlinear_arith)
            requires
                q * res + q > sum + q / 2,
                6 * sum > 5 * x - 6,
                d * x > n * p - d,
                p == v * q,
                q >= 64,
                d > 0,
        ;
        assert(d * (res - 1) * q <= v * n * q) by (nonlinear_arith)
            requires
                q * res <= sum + q / 2,
                sum <= x,
                d * x <= n * p,
                p == v * q,
                q >= 64,
                d > 0,
        ;
        assert(6 * d * (res + 1) >= 5 * v * n) by (nonlinear_arith)
            requires
                6 * d * (res + 1) * q >= 5 * v * n * q,
                q > 0,
        ;
        assert(d * (res - 1) <= v * n) by (nonlinear_arith)
            requires
                d * (res - 1) * q <= v * n * q,
                q > 0,
        ;
    } else {
        assert(x < 0) by (nonlinear_arith)
            requires
                d * x <= n * p,
                n < 0,
                p > 0,
                d > 0,
        ;
        assert(x * rr >= x * p) by (nonlinear_arith)
            requires
                x < 0,
                rr <= p,
        ;
        assert(m > x - 1) by (nonlinear_arith)
            requires
                x * rr < p * m + p,
                x * rr >= x * p,
                p > 0,
        ;
        assert(6 * sum <= 5 * x);
        assert(6 * d * (res - 1) * q <= 5 * v * n * q) by (nonlinear_arith)
            requires
                q * res <= sum + q / 2,
                6 * sum <= 5 * x,
                d * x <= n * p,
                p == v * q,
                q >= 64,
                d > 0,
        ;
        assert(d * (res + 1) * q >= v * n * q) by (nonlinear_arith)
            requires
                q * res + q > sum + q / 2,
                sum >= x,
                d * x > n * p - d,
                p == v * q,
                q >= 64,
                d > 0,
        ;
        assert(6 * d * (res - 1) <= 5 * v * n) by (nonlinear_arith)
            requires
                6 * d * (res - 1) * q <= 5 * v * n * q,
                q > 0,
        ;
        assert(d * (res + 1) >= v * n) by (nonlinear_arith)
            requires
                d * (res + 1) * q >= v * n * q,
                q > 0,
        ;
    }
}

/// Numbers up to four have at most three binary digits.
proof fn lemma_small_bit_length(x: nat)
    requires
        x <= 4,
    ensures
        bit_length(x) <= 3,
{
    reveal_with_fuel(bit_length, 4);
}

/// What the Taylor series say of the sine (or with `cosine`, the cosine)
/// of `q = n / d` with `|q| <= 1`, times `v`, to within one unit: the cosine
/// lies from `1 - q^2 / 2` to `1 - 11 q^2 / 24`; the sine has the sign of
/// `q` and lies from five sixths of `q` to `q` in size.
pub open spec fn trig_bounds(n: int, d: int, v: int, cosine: bool, x: int) -> bool {
    if cosine {
        &&& 2 * d * d * (x + 1) >= v * (2 * d * d - n * n)
        &&& 24 * d * d * (x - 1) <= v * (24 * d * d - 11 * n * n)
    } else if n >= 0 {
        &&& d * (x - 1) <= v * n
        &&& 6 * d * (x + 1) >= 5 * v * n
    } else {
        &&& d * (x + 1) >= v * n
        &&& 6 * d * (x - 1) <= 5 * v * n
    }
}

/// The sine (or with `cosine`, the cosine) of the number `c`, times `2^w`:
/// for the rational zero, zero (or `2^w` within the working precision).
fn trig_fixed(c: &Computable, w: u64, cosine: bool, stop: &Option<Signal>) -> (res: Integer)
    ensures
        c.node_spec() matches Node::Ratio(r) && r.num() == 0 && !cosine ==> res@ == 0,
        c.node_spec() matches Node::Ratio(r) && r.num() == 0 && cosine && w + 2 * GUARD
            <= MAX_PRECISION ==> res@ == pow2(w as nat),
        stop is None && w + 64 <= MAX_PRECISION ==> (c.node_spec() matches Node::Ratio(r) ==> (
        r.num() * r.num() <= r.den() * r.den() ==> trig_bounds(
            r.num(),
            r.den() as int,
            pow2(w as nat) as int,
            cosine,
            res@,
        ))),
    decreases c, 5nat,
{
    let ghost zero = c.node_spec() matches Node::Ratio(r) && r.num() == 0;
    let ghost good = stop is None && (c.node_spec() matches Node::Ratio(r) && r.num() * r.num()
        <= r.den() * r.den()) && w + 64 <= MAX_PRECISION;
    let ghost num: int = if let Node::Ratio(r) = c.node_spec() { r.num() } else { 0 };
    let ghost den: int = if let Node::Ratio(r) = c.node_spec() { r.den() as int } else { 1 };
    if let Node::Ratio(q) = c.node() {
        proof {
            use_type_invariant(q);
            vstd::arithmetic::mul::lemma_mul_basics(pow2(2) as int);
            vstd::arithmetic::div_mod::lemma_div_basics(q.den() as int);
            if good {
                vstd::arithmetic::power2::lemma2_to64();
                let f = (num * 4) / den;
                assert(-4 * den <= num * 4 <= 4 * den) by (nonlinear_arith)
                    requires
                        num * num <= den * den,
                        den > 0,
                ;
                vstd::arithmetic::div_mod::lemma_div_is_ordered(-4 * den, num * 4, den);
                vstd::arithmetic::div_mod::lemma_div_is_ordered(num * 4, 4 * den, den);
                vstd::arithmetic::div_mod::lemma_div_by_multiple(4, den);
                assert((-4 * den) / den == -4) by {
                    lemma_fundamental_div_mod_converse(-4 * den, den, -4, 0);
                }
                assert(-4 <= f <= 4);
                lemma_small_bit_length(abs(f));
            }
        }
    }
    let mb = magnitude_bits(c, stop);
    let wp = more(more(w, more(GUARD, GUARD)), mb);
    let ghost p = pow2(wp as nat) as int;
    proof {
        vstd::arithmetic::power2::lemma_pow2_pos(wp as nat);
        if let Node::Ratio(q) = c.node_spec() {
            vstd::arithmetic::mul::lemma_mul_basics(pow2(wp as nat) as int);
        }
        if zero {
            assert(mb == 0);
        }
        if good {
            assert(mb <= 3);
            assert(wp + GUARD <= MAX_PRECISION);
            assert(wp >= w + 2 * GUARD);
        }
    }
    let x = eval(c, wp, stop);
    let two_pi = pi_fixed(wp, stop).shl(1);
    let four_pi = two_pi.shl(1);
    let m = four_pi.magnitude().clone();
    proof {
        vstd::arithmetic::power2::lemma2_to64();
        assert(m@ >= 4);
        if good {
            assert(-den * p <= num * p <= den * p) by (nonlinear_arith)
                requires
                    num * num <= den * den,
                    den > 0,
                    p > 0,
            ;
            vstd::arithmetic::div_mod::lemma_div_is_ordered(-den * p, num * p, den);
            vstd::arithmetic::div_mod::lemma_div_is_ordered(num * p, den * p, den);
            assert((den * p) / den == p) by {
                lemma_fundamental_div_mod_converse(den * p, den, p, 0);
            }
            assert((-den * p) / den == -p) by {
                assert(-den * p == (-p) * den) by (nonlinear_arith);
                lemma_fundamental_div_mod_converse(-den * p, den, -p, 0);
            }
            assert(x@ == (num * p) / den);
            assert(-p <= x@ <= p);
            assert(two_pi@ >= 6 * p);
        }
    }
    if m.is_zero() {
        return Integer::zero();
    }
    // The nearest whole number of turns.
    let k = x.shl(1).add(&two_pi).div_floor(&m);
    proof {
        if zero {
            assert(x@ == 0);
            assert(m@ == 2 * two_pi@);
            vstd::arithmetic::div_mod::lemma_basic_div(two_pi@, m@ as int);
            assert(k@ == 0);
        }
        if good {
            assert(m@ == 2 * two_pi@);
            vstd::arithmetic::div_mod::lemma_basic_div(2 * x@ + two_pi@, m@ as int);
            assert(k@ == 0);
        }
    }
    let r = x.sub(&k.mul(&two_pi));
    let rr = r.mul(&r).shr(wp);
    let one = small(1).shl(wp);
    proof {
        if zero {
            vstd::arithmetic::mul::lemma_mul_basics(two_pi@);
            assert(r@ == 0);
            vstd::arithmetic::mul::lemma_mul_basics(r@);
            assert(r@ * r@ == 0);
            vstd::arithmetic::div_mod::lemma_div_basics(pow2(wp as nat) as int);
            assert(rr@ == 0);
        }
        if good {
            vstd::arithmetic::mul::lemma_mul_basics(two_pi@);
            assert(r@ == x@);
            assert(0 <= r@ * r@ <= p * p) by (nonlinear_arith)
                requires
                    -p <= r@ <= p,
            ;
            vstd::arithmetic::div_mod::lemma_div_is_ordered(0, r@ * r@, p);
            vstd::arithmetic::div_mod::lemma_div_is_ordered(r@ * r@, p * p, p);
            vstd::arithmetic::div_mod::lemma_div_by_multiple(p, p);
            assert(0 <= rr@ <= p);
        }
    }
    let ghost t0: int = if cosine { p } else { r@ };
    let ghost t1: int = next_term(t0, rr@, p, if cosine { 2 } else { 6 });
    let ghost t2: int = next_term(t1, rr@, p, if cosine { 12 } else { 20 });
    let ghost j: int = if cosine { 2 } else { 1 };
    let ghost s_lo: int = if cosine { t0 + t1 } else { t0 };
    let ghost s_hi: int = if cosine { t0 + t1 + t2 } else { t0 + t1 };
    let ghost lo: int = if s_lo <= s_hi { s_lo } else { s_hi };
    let ghost hi: int = if s_lo <= s_hi { s_hi } else { s_lo };
    let mut term = if cosine {
        one
    } else {
        r.clone()
    };
    let mut sum = term.clone();
    let mut n: u64 = 1;
    let limit = more(wp, 64);
    while n < limit
        invariant_except_break
            good ==> n == 1 ==> term@ == t0 && sum@ == t0,
            good ==> n == 2 ==> term@ == t1 && sum@ == t0 + t1,
            good ==> n >= j + 1 ==> bracketed(term@, sum@, lo, hi),
        invariant
            1 <= n <= limit,
            limit <= MAX_PRECISION,
            limit >= 64,
            good ==> stop is None,
            j == if cosine { 2int } else { 1int },
            t0 == if cosine { p } else { r@ },
            s_lo == if cosine { t0 + t1 } else { t0 },
            s_hi == if cosine { t0 + t1 + t2 } else { t0 + t1 },
            lo == if s_lo <= s_hi { s_lo } else { s_hi },
            hi == if s_lo <= s_hi { s_hi } else { s_lo },
            p == pow2(wp as nat),
            pow2(wp as nat) > 0,
            zero ==> rr@ == 0 && sum@ == (if cosine { pow2(wp as nat) as int } else { 0 }),
            good ==> 0 <= rr@ <= p,
            good ==> t1 == next_term(t0, rr@, p, if cosine { 2 } else { 6 }),
            good ==> t2 == next_term(t1, rr@, p, if cosine { 12 } else { 20 }),
        ensures
            zero ==> rr@ == 0 && sum@ == (if cosine { pow2(wp as nat) as int } else { 0 }),
            good ==> lo <= sum@ <= hi,
        decreases limit - n,
    {
        if stop_requested(stop) {
            break;
        }
        let a = if cosine {
            2 * n - 1
        } else {
            2 * n
        };
        let d = Natural::from_u64(a).mul(&Natural::from_u64(a + 1));
        if d.is_zero() {
            break;
        }
        proof {
            if zero {
                vstd::arithmetic::mul::lemma_mul_basics(term@);
                vstd::arithmetic::div_mod::lemma_div_basics(pow2(wp as nat) as int);
                vstd::arithmetic::div_mod::lemma_div_basics(d@ as int);
            }
            if good {
                lemma_next_term(term@, rr@, p, d@ as int);
            }
        }
        let ghost old_term = term@;
        term = term.mul(&rr).shr(wp).neg().div_floor(&d);
        proof {
            if good {
                assert(d@ == a * (a + 1));
                assert(term@ == next_term(old_term, rr@, p, d@ as int));
                let aa = a as int;
                let dd = d@ as int;
                if n == 1 && cosine {
                    assert(dd == 2) by (nonlinear_arith)
                        requires
                            dd == aa * (aa + 1),
                            aa == 1,
                    ;
                }
                if n == 1 && !cosine {
                    assert(dd == 6) by (nonlinear_arith)
                        requires
                            dd == aa * (aa + 1),
                            aa == 2,
                    ;
                }
                if n == 2 && cosine {
                    assert(dd == 12) by (nonlinear_arith)
                        requires
                            dd == aa * (aa + 1),
                            aa == 3,
                    ;
                }
                if n == 2 && !cosine {
                    assert(dd == 20) by (nonlinear_arith)
                        requires
                            dd == aa * (aa + 1),
                            aa == 4,
                    ;
                }
                if n == 1 && term@ == 0 {
                    lemma_next_term(0, rr@, p, if cosine { 12 } else { 20 });
                }
            }
        }
        if term.is_zero() {
            break;
        }
        sum = sum.add(&term);
        n = n + 1;
    }
    proof {
        if zero && wp > w {
            let h = pow2((wp - w - 1) as nat) as int;
            let q = pow2((wp - w) as nat) as int;
            vstd::arithmetic::power2::lemma_pow2_pos((wp - w - 1) as nat);
            vstd::arithmetic::power2::lemma_pow2_strictly_increases((wp - w - 1) as nat, (wp - w) as nat);
            if !cosine {
                vstd::arithmetic::div_mod::lemma_basic_div(h, q);
            } else if w + 2 * GUARD <= MAX_PRECISION {
                assert(wp == w + 2 * GUARD);
                vstd::arithmetic::power2::lemma_pow2_adds(w as nat, (wp - w) as nat);
                vstd::arithmetic::div_mod::lemma_fundamental_div_mod_converse(
                    sum@ + h,
                    q,
                    pow2(w as nat) as int,
                    h,
                );
            }
        }
    }
    let res = if wp >= w {
        round_shift(&sum, wp - w)
    } else {
        sum
    };
    proof {
        if good {
            let k = (wp - w) as nat;
            let v = pow2(w as nat) as int;
            let q = pow2(k) as int;
            vstd::arithmetic::power2::lemma_pow2_adds(w as nat, k);
            vstd::arithmetic::power2::lemma_pow2_pos(w as nat);
            vstd::arithmetic::power2::lemma_pow2_unfold(k);
            vstd::arithmetic::power2::lemma_pow2_strictly_increases(6, k);
            vstd::arithmetic::power2::lemma2_to64();
            assert(q == 2 * pow2((k - 1) as nat));
            assert(q / 2 == pow2((k - 1) as nat));
            assert(p == v * q);
            lemma_fundamental_div_mod(num * p, den);
            vstd::arithmetic::div_mod::lemma_mod_bound(num * p, den);
            assert(den * x@ <= num * p < den * x@ + den);
            lemma_fundamental_div_mod(r@ * r@, p);
            vstd::arithmetic::div_mod::lemma_mod_bound(r@ * r@, p);
            assert(p * rr@ <= x@ * x@ < p * rr@ + p);
            if cosine {
                lemma_next_term(p, rr@, p, 2);
                lemma_next_term(t1, rr@, p, 12);
                lemma_cosine_bounds(num, den, p, q, v, x@, rr@, sum@, res@);
            } else {
                lemma_sine_bounds(num, den, p, q, v, x@, rr@, sum@, res@);
            }
        }
    }
    res
}

/// `a + b`, no larger than the largest working precision, as `more`
/// gives it.
pub open spec fn capped(n: nat) -> nat {
    if n <= MAX_PRECISION {
        n
    } else {
        MAX_PRECISION as nat
    }
}

/// What the exponential series gives for `c` with `w` bits: never
/// negative, and `2^w` for the rational zero within the working precision.
pub open spec fn exp_approximation(c: Computable, w: nat, x: int) -> bool {
    &&& x >= 0
    &&& (c.node_spec() matches Node::Ratio(r) && r.num() == 0 && w + GUARD + 2 <= MAX_PRECISION
        ==> x == pow2(w))
}

/// What the logarithm series gives for `c`: zero for one and for a rational
/// that is not positive.
pub open spec fn ln_approximation(c: Computable, x: int) -> bool {
    &&& (c.node_spec() is One ==> x == 0)
    &&& (c.node_spec() matches Node::Ratio(r) && r.num() <= 0 ==> x == 0)
}

/// What the sine (or cosine) series gives for `c` with `w` bits: zero (or
/// `2^w` within the working precision) for the rational zero, and, unless
/// halted, the Taylor bounds for a rational of size at most one.
pub open spec fn trig_approximation(c: Computable, w: nat, cosine: bool, x: int, halted: bool) -> bool {
    &&& (c.node_spec() matches Node::Ratio(r) && r.num() == 0 && !cosine ==> x == 0)
    &&& (c.node_spec() matches Node::Ratio(r) && r.num() == 0 && cosine && w + 2 * GUARD
        <= MAX_PRECISION ==> x == pow2(w))
    &&& (!halted && w + 64 <= MAX_PRECISION ==> (c.node_spec() matches Node::Ratio(r) ==> (r.num()
        * r.num() <= r.den() * r.den() ==> trig_bounds(
        r.num(),
        r.den() as int,
        pow2(w) as int,
        cosine,
        x,
    ))))
}

/// The bits a square root taken with `ww` bits has beyond `w`.
pub open spec fn root_shift(ww: nat, w: nat) -> nat {
    if ww / 2 >= w {
        (ww / 2 - w) as nat
    } else {
        0
    }
}

/// `x` is `q * 2^w / |d|`, rounded down, with the sign of `d`; zero for a
/// zero `d`.
pub open spec fn signed_quotient(q: int, d: int) -> int {
    if d == 0 {
        0
    } else if d < 0 {
        -(q / (-d))
    } else {
        q / d
    }
}

/// An integer close to `c * 2^w`.
pub fn eval(c: &Computable, w: u64, stop: &Option<Signal>) -> (res: Integer)
    ensures
        c.node_spec() is One ==> res@ == pow2(w as nat),
        c.node_spec() matches Node::Ratio(r) ==> res@ == (r.num() * pow2(w as nat)) / (r.den() as int),
        approximates(c.node_spec(), w as nat, res@, stop is Some),
    decreases c, 3nat,
{
    match c.node() {
        Node::One => small(1).shl(w),
        Node::Pi => pi_fixed(w, stop),
        Node::Ratio(r) => r.shifted_big_integer(w),
        Node::Negate(x) => {
            let v = eval(x, w, stop);
            let res = v.neg();
            proof {
                assert(-res@ == v@);
            }
            res
        },
        Node::Add(x, y) => {
            let ww = more(w, 2);
            let a = eval(x, ww, stop);
            let b = eval(y, ww, stop);
            let res = if ww >= w {
                round_shift(&a.add(&b), ww - w)
            } else {
                a.add(&b)
            };
            proof {
                assert(ww == capped(w as nat + 2));
                assert(res@ == to_precision(a@ + b@, ww as nat, w as nat));
                assert(c.node_spec()->Add_0 == *x && c.node_spec()->Add_1 == *y);
                assert(crate::computable::operands(a@, b@));
                assert(crate::computable::sum_approximates(c.node_spec(), w as nat, res@, stop is Some));
                assert(approximates(c.node_spec(), w as nat, res@, stop is Some));
            }
            res
        },
        Node::Multiply(x, y) => {
            let ma = magnitude_bits(x, stop);
            let mb = magnitude_bits(y, stop);
            let wa = more(more(w, mb), GUARD);
            let wb = more(more(w, ma), GUARD);
            let a = eval(x, wa, stop);
            let b = eval(y, wb, stop);
            let total = more(wa, wb);
            let res = if total >= w {
                round_shift(&a.mul(&b), total - w)
            } else {
                a.mul(&b)
            };
            proof {
                assert(total == capped(wa as nat + wb as nat));
                assert(crate::computable::operands(wa as int, a@));
                assert(crate::computable::operands(wb as int, b@));
                assert(c.node_spec()->Multiply_0 == *x && c.node_spec()->Multiply_1 == *y);
                assert(crate::computable::product_approximates(c.node_spec(), w as nat, res@, stop is Some));
                assert(approximates(c.node_spec(), w as nat, res@, stop is Some));
            }
            res
        },
        Node::Square(x) => {
            let ma = magnitude_bits(x, stop);
            let wa = more(more(w, ma), GUARD);
            let a = eval(x, wa, stop);
            let total = more(wa, wa);
            let res = if total >= w {
                round_shift(&a.mul(&a), total - w)
            } else {
                a.mul(&a)
            };
            proof {
                assert(total == capped(wa as nat + wa as nat));
                assert(crate::computable::operands(wa as int, a@));
                assert(c.node_spec()->Square_0 == *x);
                assert(crate::computable::square_approximates(c.node_spec(), w as nat, res@, stop is Some));
                assert(approximates(c.node_spec(), w as nat, res@, stop is Some));
            }
            res
        },
        Node::Inverse(x) => {
            let e = match find_msd(x, 4096, stop) {
                Some(e) => e,
                None => {
                    let res = Integer::zero();
                    proof {
                        assert(c.node_spec()->Inverse_0 == *x);
                        if stop is None {
                            let z = choose|z: int|
                                approximates(x.node_spec(), 4096, z, stop is Some) && bit_length(abs(z))
                                    <= GUARD;
                            assert(crate::computable::operands(4096, z));
                            assert(crate::computable::operand_vanishes(c.node_spec(), stop is Some));
                        }
                    }
                    return res;
                },
            };
            let tiny = if e < 0 && e > -0x1000_0000 {
                (-e) as u64
            } else {
                0
            };
            let q = more(more(w, GUARD), more(tiny, tiny));
            let a = eval(x, q, stop);
            if a.is_zero() {
                let res = Integer::zero();
                proof {
                    assert(c.node_spec()->Inverse_0 == *x);
                    assert(crate::computable::operands(q as int, a@));
                    assert(crate::computable::operand_vanishes(c.node_spec(), stop is Some));
                }
                return res;
            }
            let num = small(1).shl(more(w, q));
            let quotient = num.div_floor(a.magnitude());
            let res = if a.sign() == Sign::Minus {
                quotient.neg()
            } else {
                quotient
            };
            proof {
                assert(num@ == pow2(capped(w as nat + q as nat)));
                assert(res@ == signed_quotient(num@, a@));
                assert(crate::computable::operands(q as int, a@));
                assert(c.node_spec()->Inverse_0 == *x);
                assert(crate::computable::inverse_approximates(c.node_spec(), w as nat, res@, stop is Some));
                assert(approximates(c.node_spec(), w as nat, res@, stop is Some));
            }
            res
        },
        Node::Sqrt(x) => {
            let ww = more(more(w, w), 2);
            let a = eval(x, ww, stop);
            proof {
                assert(ww == capped(capped(w as nat + w as nat) + 2));
                assert(approximates(x.node_spec(), ww as nat, a@, stop is Some));
            }
            if a.sign() != Sign::Plus {
                let res = Integer::zero();
                proof {
                    assert(crate::computable::operands(a@, 0));
                    assert(c.node_spec()->Sqrt_0 == *x);
                    assert(crate::computable::root_approximates(c.node_spec(), w as nat, res@, stop is Some));
                    assert(approximates(c.node_spec(), w as nat, res@, stop is Some));
                }
                return res;
            }
            let s = a.magnitude().sqrt_floor();
            let r = Integer::from_natural(s);
            let shift = if ww / 2 >= w {
                ww / 2 - w
            } else {
                0
            };
            let res = round_shift(&r, shift);
            proof {
                assert(shift as nat == crate::computable::root_shift(ww as nat, w as nat));
                assert(crate::computable::operands(a@, s@ as int));
                assert(c.node_spec()->Sqrt_0 == *x);
                assert(crate::computable::root_approximates(c.node_spec(), w as nat, res@, stop is Some));
                assert(approximates(c.node_spec(), w as nat, res@, stop is Some));
            }
            res
        },
        Node::Exp(x) => exp_fixed(x, w, stop),
        Node::Ln(x) => ln_fixed(x, w, stop),
        Node::Sin(x) => trig_fixed(x, w, false, stop),
        Node::Cos(x) => trig_fixed(x, w, true, stop),
        Node::Tan(x) => {
            let ww = more(w, GUARD);
            let s = trig_fixed(x, ww, false, stop);
            let co = trig_fixed(x, ww, true, stop);
            proof {
                assert(trig_approximation(*x, capped(w as nat + GUARD as nat), false, s@, stop is Some));
                assert(trig_approximation(*x, capped(w as nat + GUARD as nat), true, co@, stop is Some));
            }
            if co.is_zero() {
                return Integer::zero();
            }
            let q = s.shl(w).div_floor(co.magnitude());
            if co.sign() == Sign::Minus {
                q.neg()
            } else {
                q
            }
        },
    }
}

/// The integer nearest to `n / d`, halves upward, for `d` above zero.
pub open spec fn nearest(n: int, d: int) -> int {
    (2 * n + d) / (2 * d)
}

/// The scale `p`, within the largest working precision either way.
pub open spec fn clamp_scale(p: int) -> int {
    if p < -(MAX_PRECISION as int) {
        -(MAX_PRECISION as int)
    } else if p > MAX_PRECISION as int {
        MAX_PRECISION as int
    } else {
        p
    }
}

/// The integer nearest to `(n / d) * 2^-p`, halves upward.
pub open spec fn nearest_scaled(n: int, d: int, p: int) -> int {
    if p <= 0 {
        nearest(n * pow2((-p) as nat), d)
    } else {
        nearest(n, d * pow2(p as nat))
    }
}

/// Halving the floor of `x / d`, rounded upward, rounds `x / 2d` to
/// the nearest integer.
proof fn lemma_halve_floor(x: int, d: int)
    requires
        d > 0,
    ensures
        ((x / d) + 1) / 2 == (x + d) / (2 * d),
{
    let t = x / d;
    let r = x % d;
    lemma_fundamental_div_mod(x, d);
    let m = (t + 1) / 2;
    let b = (t + 1) % 2;
    lemma_fundamental_div_mod(t + 1, 2);
    assert(x + d == (2 * d) * m + (d * b + r)) by (nonlinear_arith)
        requires
            x == d * t + r,
            t + 1 == 2 * m + b,
    ;
    assert(0 <= d * b + r < 2 * d) by (nonlinear_arith)
        requires
            0 <= b < 2,
            0 <= r < d,
    ;
    lemma_fundamental_div_mod_converse(x + d, 2 * d, m, d * b + r);
}

/// Fractions of the same value have the same floor.
proof fn lemma_same_floor(a: int, b: int, c: int, e: int)
    requires
        b > 0,
        e > 0,
        a * e == c * b,
    ensures
        a / b == c / e,
{
    let t = a / b;
    let r = a % b;
    lemma_fundamental_div_mod(a, b);
    assert(c * b == e * t * b + r * e) by (nonlinear_arith)
        requires
            a * e == c * b,
            a == b * t + r,
    ;
    assert(e * t <= c < e * (t + 1)) by (nonlinear_arith)
        requires
            c * b == e * t * b + r * e,
            0 <= r < b,
            b > 0,
            e > 0,
    ;
    let s = c - e * t;
    assert(e * (t + 1) == e * t + e) by (nonlinear_arith);
    assert(c == t * e + s) by (nonlinear_arith)
        requires
            s == c - e * t,
    ;
    lemma_fundamental_div_mod_converse(c, e, t, s);
}

/// Equal fractions round alike.
proof fn lemma_nearest_scaled_same(n: int, d: int, n1: int, d1: int, p: int)
    requires
        d > 0,
        d1 > 0,
        n * d1 == n1 * d,
    ensures
        nearest_scaled(n, d, p) == nearest_scaled(n1, d1, p),
{
    if p <= 0 {
        let s = pow2((-p) as nat);
        let a = n * s;
        let c = n1 * s;
        assert((2 * a + d) * (2 * d1) == (2 * c + d1) * (2 * d)) by (nonlinear_arith)
            requires
                n * d1 == n1 * d,
                a == n * s,
                c == n1 * s,
        ;
        lemma_same_floor(2 * a + d, 2 * d, 2 * c + d1, 2 * d1);
    } else {
        let s = pow2(p as nat);
        vstd::arithmetic::power2::lemma_pow2_pos(p as nat);
        let b = d * s;
        let e = d1 * s;
        assert(b > 0 && e > 0) by (nonlinear_arith)
            requires
                d > 0,
                d1 > 0,
                s > 0,
                b == d * s,
                e == d1 * s,
        ;
        assert((2 * n + b) * (2 * e) == (2 * n1 + e) * (2 * b)) by (nonlinear_arith)
            requires
                n * d1 == n1 * d,
                b == d * s,
                e == d1 * s,
        ;
        lemma_same_floor(2 * n + b, 2 * b, 2 * n1 + e, 2 * e);
    }
}

/// `r * 2^-p`, rounded to the nearest integer (halves upward), with `p`
/// kept within the largest working precision.
#[verifier::spinoff_prover]
pub fn round_scaled(r: &Rational, p: i64) -> (res: Integer)
    ensures
        res@ == nearest_scaled(r.num(), r.den() as int, clamp_scale(p as int)),
{
    proof {
        use_type_invariant(r);
    }
    if p <= 0 {
        let w: u64 = if p == i64::MIN {
            MAX_PRECISION
        } else if -p > MAX_PRECISION as i64 {
            MAX_PRECISION
        } else {
            (-p) as u64
        };
        let t = r.shifted_big_integer(w + 1);
        let one = small(1);
        let res = t.add(&one).shr(1);
        proof {
            let x = r.num() * pow2((w + 1) as nat);
            let d = r.den() as int;
            lemma_halve_floor(x, d);
            vstd::arithmetic::power2::lemma_pow2_unfold((w + 1) as nat);
            assert(x == 2 * (r.num() * pow2(w as nat))) by (nonlinear_arith)
                requires
                    x == r.num() * pow2((w + 1) as nat),
                    pow2((w + 1) as nat) == 2 * pow2(w as nat),
            ;
            assert(pow2(1) == 2) by {
                vstd::arithmetic::power2::lemma2_to64();
            }
            assert(clamp_scale(p as int) == -(w as int));
        }
        res
    } else {
        let k: u64 = if p > MAX_PRECISION as i64 {
            MAX_PRECISION
        } else {
            p as u64
        };
        let d = Natural::from_u64(1).shl(k - 1);
        let scale = Rational::from_bigint(Integer::from_natural(d));
        let one = small(1);
        proof {
            vstd::arithmetic::power2::lemma_pow2_pos((k - 1) as nat);
        }
        let q = r.div(&scale);
        let res = q.shifted_big_integer(0).add(&one).shr(1);
        proof {
            use_type_invariant(&q);
            let big_d = (r.den() * pow2((k - 1) as nat)) as int;
            vstd::arithmetic::power2::lemma_pow2_pos((k - 1) as nat);
            assert(big_d > 0) by (nonlinear_arith)
                requires
                    big_d == r.den() * pow2((k - 1) as nat),
                    r.den() > 0,
                    pow2((k - 1) as nat) > 0,
            ;
            vstd::arithmetic::power2::lemma2_to64();
            assert(q.num() * big_d == r.num() * q.den()) by (nonlinear_arith)
                requires
                    q.num() * (r.den() * pow2((k - 1) as nat)) == (r.num() * 1) * q.den(),
                    big_d == r.den() * pow2((k - 1) as nat),
            ;
            assert(q.num() * 1 == q.num());
            lemma_same_floor(q.num(), q.den() as int, r.num(), big_d);
            lemma_halve_floor(r.num(), big_d);
            vstd::arithmetic::power2::lemma_pow2_unfold(k as nat);
            let big = (r.den() * pow2(k as nat)) as int;
            assert(big == 2 * big_d) by (nonlinear_arith)
                requires
                    big == r.den() * pow2(k as nat),
                    pow2(k as nat) == 2 * pow2((k - 1) as nat),
                    big_d == r.den() * pow2((k - 1) as nat),
            ;
            assert((2 * r.num() + big) / (2 * big) == (r.num() + big_d) / (2 * big_d)) by {
                assert((2 * r.num() + big) * (2 * big_d) == (r.num() + big_d) * (2 * big))
                    by (nonlinear_arith)
                    requires
                        big == 2 * big_d,
                ;
                lemma_same_floor(2 * r.num() + big, 2 * big, r.num() + big_d, 2 * big_d);
            }
            assert(clamp_scale(p as int) == k as int);
        }
        res
    }
}

/// `n / d` in lowest terms, as a numerator and a denominator without signs.
pub open spec fn lowest_terms(n: int, d: int) -> (nat, nat) {
    let g = gcd(abs(n), abs(d));
    (abs(n) / g, abs(d) / g)
}

/// The position of the most significant binary digit of `n / d` as it is
/// estimated for exact rationals: the bits of the numerator less those of
/// the denominator, in lowest terms; `None` for zero and for numbers too
/// large to tell.
pub open spec fn exact_msd(n: int, d: int) -> Option<int> {
    if n == 0 {
        None
    } else {
        let (a, b) = lowest_terms(n, d);
        if bit_length(a) > MAX_PRECISION || bit_length(b) > MAX_PRECISION {
            None
        } else {
            Some(bit_length(a) - bit_length(b))
        }
    }
}

/// What `iter_msd` gives for the exact rational `n / d`: its estimated
/// most significant digit, or zero where that is unknown or below the
/// lowest position looked at.
pub open spec fn exact_iter_msd(n: int, d: int) -> int {
    match exact_msd(n, d) {
        Some(e) => if e < -4096 {
            0
        } else {
            e
        },
        None => 0,
    }
}

/// A rational written in lowest terms has the lowest terms of any way of
/// writing it.
proof fn lemma_reduced_is_lowest_terms(r: Rational, n: int, d: int)
    requires
        r.inv(),
        d != 0,
        n != 0,
        r.same_value(n, d),
    ensures
        abs(r.num()) == lowest_terms(n, d).0,
        r.den() == lowest_terms(n, d).1,
{
    let a = abs(n);
    let b = abs(d);
    let g = gcd(a, b);
    lemma_gcd_divides(a, b);
    lemma_fundamental_div_mod(a as int, g as int);
    lemma_fundamental_div_mod(b as int, g as int);
    let a1 = a / g;
    let b1 = b / g;
    assert(a == a1 * g && b == b1 * g) by (nonlinear_arith)
        requires
            a == g * (a / g) + a % g,
            b == g * (b / g) + b % g,
            a % g == 0,
            b % g == 0,
            a1 == a / g,
            b1 == b / g,
    ;
    lemma_divided_by_gcd_coprime(a, b, a1, b1);
    let x = abs(r.num());
    let y = r.den();
    assert(x * b == a * y) by (nonlinear_arith)
        requires
            r.num() * d == n * r.den(),
            x == abs(r.num()),
            a == abs(n),
            b == abs(d),
            y == r.den(),
            y > 0,
    ;
    assert(x * b1 == a1 * y) by (nonlinear_arith)
        requires
            x * b == a * y,
            a == a1 * g,
            b == b1 * g,
            g > 0,
    ;
    assert(b1 > 0) by (nonlinear_arith)
        requires
            b == b1 * g,
            b > 0,
    ;
    assert(abs(x as int) == x);
    assert(abs(a1 as int) == a1);
    lemma_lowest_terms_unique(x as int, y, a1 as int, b1);
}

impl Computable {
    /// An integer close to this number divided by `2^p`: for a number
    /// built exactly from rationals, the nearest one (halves upward).
    pub fn approx(&self, p: i64) -> (res: Integer)
        ensures
            exact_value(self.node_spec()) matches Some((n, d)) ==> res@ == nearest_scaled(
                if d < 0 {
                    -n
                } else {
                    n
                },
                if d < 0 {
                    -d
                } else {
                    d
                },
                clamp_scale(p as int),
            ),
            exact_value(self.node_spec()) is None && p <= 0 ==> approximates(
                self.node_spec(),
                (-clamp_scale(p as int)) as nat,
                res@, self.signal_spec() is Some,
            ),
            exact_value(self.node_spec()) is None && p > 0 ==> exists|x: int|
                #![trigger approximates(self.node_spec(), 0, x, self.signal_spec() is Some)]
                approximates(self.node_spec(), 0, x, self.signal_spec() is Some) && res@ == rounded_shift(
                    x,
                    clamp_scale(p as int) as nat,
                ),
    {
        match exact(self) {
            Some(r) => {
                let res = round_scaled(&r, p);
                proof {
                    use_type_invariant(&r);
                    let (n, d) = exact_value(self.node_spec())->0;
                    let n1 = if d < 0 { -n } else { n };
                    let d1 = if d < 0 { -d } else { d };
                    assert(r.num() * d1 == n1 * r.den()) by (nonlinear_arith)
                        requires
                            r.num() * d == n * r.den(),
                            n1 == (if d < 0 { -n } else { n }),
                            d1 == (if d < 0 { -d } else { d }),
                    ;
                    lemma_nearest_scaled_same(r.num(), r.den() as int, n1, d1, clamp_scale(p as int));
                }
                res
            },
            None => {
                if p <= 0 {
                    let w: u64 = if p == i64::MIN || -p > MAX_PRECISION as i64 {
                        MAX_PRECISION
                    } else {
                        (-p) as u64
                    };
                    eval(self, w, &self.signal)
                } else {
                    let k: u64 = if p > MAX_PRECISION as i64 {
                        MAX_PRECISION
                    } else {
                        p as u64
                    };
                    let x = eval(self, 0, &self.signal);
                    round_shift(&x, k)
                }
            },
        }
    }

    /// The position of the most significant binary digit, where it can be
    /// found: `e` with `2^e` close to the size of this number.
    pub fn iter_msd_stop(&self, stop: i64) -> (res: Option<i64>)
        ensures
            res matches Some(e) ==> stop <= e && -(MAX_PRECISION as int) <= e <= MAX_PRECISION,
            exact_value(self.node_spec()) matches Some((n, d)) ==> match exact_msd(n, d) {
                Some(e) => if e < stop {
                    res is None
                } else {
                    res == Some(e as i64)
                },
                None => res is None,
            },
            exact_value(self.node_spec()) is None ==> (res matches Some(e) ==> exists|w: nat, x: int|
                #![trigger approximates(self.node_spec(), w, x, self.signal_spec() is Some)]
                approximates(self.node_spec(), w, x, self.signal_spec() is Some) && leading_position(x, w) == e),
            exact_value(self.node_spec()) is None && res is None ==> self.signal_spec() is Some
                || below_stop(self.node_spec(), stop as int, self.signal_spec() is Some),
    {
        let limit: u64 = if stop >= 0 {
            8
        } else if stop < -4096 {
            4096
        } else {
            (-stop) as u64 + 8
        };
        assert(limit == msd_limit(stop as int));
        let found = match exact(self) {
            Some(r) => {
                proof {
                    use_type_invariant(&r);
                    let (n, d) = exact_value(self.node_spec())->0;
                    assert(r.num() == 0 <==> n == 0) by (nonlinear_arith)
                        requires
                            r.num() * d == n * r.den(),
                            d != 0,
                            r.den() > 0,
                    ;
                    if n != 0 {
                        lemma_reduced_is_lowest_terms(r, n, d);
                    }
                }
                if r.sign() == Sign::NoSign {
                    None
                } else {
                    let nb = r.magnitude().bits();
                    let db = r.denominator().bits();
                    if nb > MAX_PRECISION || db > MAX_PRECISION {
                        None
                    } else {
                        Some(nb as i64 - db as i64)
                    }
                }
            },
            None => find_msd(self, limit, &self.signal),
        };
        match found {
            Some(e) => {
                if e < stop {
                    None
                } else {
                    Some(e)
                }
            },
            None => None,
        }
    }

    /// The position of the most significant binary digit, or zero for a
    /// number too close to zero to tell.
    pub fn iter_msd(&self) -> (res: i64)
        ensures
            -(MAX_PRECISION as int) <= res <= MAX_PRECISION,
            exact_value(self.node_spec()) matches Some((n, d)) ==> res == exact_iter_msd(n, d),
            exact_value(self.node_spec()) is None ==> res == 0 || exists|w: nat, x: int|
                #![trigger approximates(self.node_spec(), w, x, self.signal_spec() is Some)]
                approximates(self.node_spec(), w, x, self.signal_spec() is Some) && leading_position(x, w) == res,
            exact_value(self.node_spec()) is None ==> self.signal_spec() is Some || below_stop(
                self.node_spec(),
                -4096,
                self.signal_spec() is Some,
            ) || exists|w: nat, x: int|
                #![trigger approximates(self.node_spec(), w, x, self.signal_spec() is Some)]
                approximates(self.node_spec(), w, x, self.signal_spec() is Some) && leading_position(x, w) == res,
    {
        match self.iter_msd_stop(-4096) {
            Some(e) => e,
            None => 0,
        }
    }

    /// The sign of this number, as far as it can be told; `NoSign` for a
    /// number too close to zero to tell.
    pub fn sign(&self) -> (res: Sign)
        ensures
            exact_value(self.node_spec()) matches Some((n, d)) ==> res == sign_of(n * d),
            exact_value(self.node_spec()) is None ==> res == Sign::NoSign || exists|w: nat, x: int|
                #![trigger approximates(self.node_spec(), w, x, self.signal_spec() is Some)]
                approximates(self.node_spec(), w, x, self.signal_spec() is Some) && res == sign_of(x),
            exact_value(self.node_spec()) is None && res == Sign::NoSign ==> self.signal_spec() is Some
                || crate::computable::looks_zero(self.node_spec(), self.signal_spec() is Some),
            exact_value(self.node_spec()) is None ==> self.signal_spec() is Some || sign_read(
                self.node_spec(),
                self.signal_spec() is Some,
                res,
            ) || (res == Sign::NoSign && exists|x: int|
                #![trigger approximates(self.node_spec(), 4096, x, self.signal_spec() is Some)]
                approximates(self.node_spec(), 4096, x, self.signal_spec() is Some) && bit_length(abs(x))
                    <= GUARD),
    {
        match exact(self) {
            Some(r) => {
                proof {
                    use_type_invariant(&r);
                    let (n, d) = exact_value(self.node_spec())->0;
                    assert(r.num() < 0 <==> n * d < 0) by (nonlinear_arith)
                        requires
                            r.num() * d == n * r.den(),
                            r.den() > 0,
                            d != 0,
                    ;
                    assert(r.num() == 0 <==> n * d == 0) by (nonlinear_arith)
                        requires
                            r.num() * d == n * r.den(),
                            r.den() > 0,
                            d != 0,
                    ;
                }
                r.sign()
            },
            None => match find_msd(self, 4096, &self.signal) {
                Some(e) => {
                    let w: u64 = if e < 0 && e > -4096 {
                        (-e) as u64 + GUARD
                    } else {
                        GUARD
                    };
                    let x = eval(self, w, &self.signal);
                    proof {
                        assert(approximates(self.node_spec(), w as nat, x@, self.signal_spec() is Some));
                        let (w0, x0) = choose|w0: nat, x0: int|
                            1 <= w0 <= 4096 && approximates(
                                self.node_spec(),
                                w0,
                                x0,
                                self.signal_spec() is Some,
                            ) && leading_position(x0, w0) == e && bit_length(abs(x0)) > GUARD;
                        assert(w as nat == sign_bits(leading_position(x0, w0)));
                        assert(sign_read(self.node_spec(), self.signal_spec() is Some, sign_of(x@)));
                    }
                    x.sign()
                },
                None => {
                    proof {
                        if self.signal_spec() is None {
                            let z = choose|z: int|
                                approximates(self.node_spec(), 4096, z, self.signal_spec() is Some)
                                    && bit_length(abs(z)) <= GUARD;
                            assert(approximates(self.node_spec(), 4096, z, self.signal_spec() is Some));
                        }
                    }
                    Sign::NoSign
                },
            },
        }
    }
}

} // verus!
