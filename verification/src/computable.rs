//! Computable real numbers: exact symbolic expressions over rationals and
//! the constants and functions of analysis.

use vstd::prelude::*;
use std::sync::Arc;
use std::sync::atomic::AtomicBool;

use crate::natural::Integer;
use crate::rational::Rational;
use crate::computable::approx::{within_atan, guarded, to_precision, capped, signed_quotient, root_shift, rounded_shift, exp_approximation, ln_approximation, trig_approximation, MAX_PRECISION, GUARD};
use vstd::arithmetic::power2::pow2;
use crate::natural::bit_length;
use crate::rational::abs;

pub mod approx;
pub mod decimal;
pub mod format;

verus! {

/// A flag which, once raised, asks long calculations to stop early.
pub type Signal = Arc<AtomicBool>;

/// The shape of a computable number: a constant, or an operation on other
/// computable numbers.
#[derive(Debug)]
pub enum Node {
    One,
    Pi,
    Ratio(Rational),
    Exp(Computable),
    Ln(Computable),
    Sqrt(Computable),
    Sin(Computable),
    Cos(Computable),
    Tan(Computable),
    Add(Computable, Computable),
    Multiply(Computable, Computable),
    Square(Computable),
    Inverse(Computable),
    Negate(Computable),
}

/// A computable real number.
#[derive(Debug)]
pub struct Computable {
    node: Box<Node>,
    signal: Option<Signal>,
}

/// Two computable numbers are the same expression, with rationals compared
/// by value.
pub open spec fn same_node(a: Node, b: Node) -> bool
    decreases a,
{
    match (a, b) {
        (Node::One, Node::One) => true,
        (Node::Pi, Node::Pi) => true,
        (Node::Ratio(r), Node::Ratio(s)) => r.num() * s.den() == s.num() * r.den(),
        (Node::Exp(x), Node::Exp(y)) => same_node(x.node_spec(), y.node_spec()),
        (Node::Ln(x), Node::Ln(y)) => same_node(x.node_spec(), y.node_spec()),
        (Node::Sqrt(x), Node::Sqrt(y)) => same_node(x.node_spec(), y.node_spec()),
        (Node::Sin(x), Node::Sin(y)) => same_node(x.node_spec(), y.node_spec()),
        (Node::Cos(x), Node::Cos(y)) => same_node(x.node_spec(), y.node_spec()),
        (Node::Tan(x), Node::Tan(y)) => same_node(x.node_spec(), y.node_spec()),
        (Node::Square(x), Node::Square(y)) => same_node(x.node_spec(), y.node_spec()),
        (Node::Inverse(x), Node::Inverse(y)) => same_node(x.node_spec(), y.node_spec()),
        (Node::Negate(x), Node::Negate(y)) => same_node(x.node_spec(), y.node_spec()),
        (Node::Add(x1, x2), Node::Add(y1, y2)) => same_node(x1.node_spec(), y1.node_spec())
            && same_node(x2.node_spec(), y2.node_spec()),
        (Node::Multiply(x1, x2), Node::Multiply(y1, y2)) => same_node(
            x1.node_spec(),
            y1.node_spec(),
        ) && same_node(x2.node_spec(), y2.node_spec()),
        _ => false,
    }
}

/// The value of an expression built from rationals with negation,
/// addition, multiplication, squaring and inversion, as a numerator and a
/// non-zero denominator; `None` for any other expression, and for the
/// inverse of zero.
pub open spec fn exact_value(n: Node) -> Option<(int, int)>
    decreases n,
{
    match n {
        Node::One => Some((1, 1)),
        Node::Ratio(r) => Some((r.num(), r.den() as int)),
        Node::Negate(x) => match exact_value(x.node_spec()) {
            Some((a, b)) => Some((-a, b)),
            None => None,
        },
        Node::Add(x, y) => match (exact_value(x.node_spec()), exact_value(y.node_spec())) {
            (Some((a, b)), Some((c, d))) => Some((a * d + c * b, b * d)),
            _ => None,
        },
        Node::Multiply(x, y) => match (exact_value(x.node_spec()), exact_value(y.node_spec())) {
            (Some((a, b)), Some((c, d))) => Some((a * c, b * d)),
            _ => None,
        },
        Node::Square(x) => match exact_value(x.node_spec()) {
            Some((a, b)) => Some((a * a, b * b)),
            None => None,
        },
        Node::Inverse(x) => match exact_value(x.node_spec()) {
            Some((a, b)) => if a == 0 {
                None
            } else {
                Some((b, a))
            },
            None => None,
        },
        _ => None,
    }
}

/// `x` is what `eval` gives for the expression `n` with `w` bits: exact for
/// one and rationals; Machin's formula for π; for the operations, the
/// operation done on what the operands give at higher precision, rounded
/// back to `w` bits; and what the series give for the functions.
pub open spec fn approximates(n: Node, w: nat, x: int, halted: bool) -> bool
    decreases n, 1nat,
{
    match n {
        Node::One => x == pow2(w),
        Node::Pi => pi_approximates(w, x),
        Node::Ratio(r) => x == (r.num() * pow2(w)) / (r.den() as int),
        Node::Negate(y) => approximates(y.node_spec(), w, -x, halted),
        Node::Add(_, _) => sum_approximates(n, w, x, halted),
        Node::Multiply(_, _) => product_approximates(n, w, x, halted),
        Node::Square(_) => square_approximates(n, w, x, halted),
        Node::Inverse(_) => inverse_approximates(n, w, x, halted) || (x == 0 && (halted
            || operand_vanishes(n, halted))),
        Node::Sqrt(_) => root_approximates(n, w, x, halted),
        Node::Exp(y) => exp_approximation(y, w, x),
        Node::Ln(y) => ln_approximation(y, x),
        Node::Sin(y) => trig_approximation(y, w, false, x, halted),
        Node::Cos(y) => trig_approximation(y, w, true, x, halted),
        Node::Tan(y) => tan_approximates(y, w, x, halted),
    }
}

/// The values a step of an approximation was built from: a name for them
/// that proofs can point at.
pub open spec fn operands(a: int, b: int) -> bool {
    true
}

/// π with `w` bits by Machin's formula, from the two arctangent series.
pub open spec fn pi_approximates(w: nat, x: int) -> bool {
    &&& x >= 1
    &&& exists|a: int, b: int|
        #![trigger within_atan(5, guarded(w), a), within_atan(239, guarded(w), b)]
        within_atan(5, guarded(w), a) && within_atan(239, guarded(w), b) && x == to_precision(
            16 * a - 4 * b,
            guarded(w),
            w,
        )
}

/// The sum of what the operands give with two bits more, rounded back.
pub open spec fn sum_approximates(n: Node, w: nat, x: int, halted: bool) -> bool
    decreases n, 0nat,
{
    &&& n is Add
    &&& exists|a: int, b: int|
        #![trigger operands(a, b)]
        approximates(n->Add_0.node_spec(), capped(w + 2), a, halted) && approximates(
            n->Add_1.node_spec(),
            capped(w + 2),
            b, halted,
        ) && x == to_precision(a + b, capped(w + 2), w)
}

/// The product of what the operands give with enough bits, rounded back.
pub open spec fn product_approximates(n: Node, w: nat, x: int, halted: bool) -> bool
    decreases n, 0nat,
{
    &&& n is Multiply
    &&& exists|wa: nat, wb: nat, a: int, b: int|
        #![trigger operands(wa as int, a), operands(wb as int, b)]
        wa <= MAX_PRECISION && wb <= MAX_PRECISION && approximates(n->Multiply_0.node_spec(), wa, a, halted)
            && approximates(n->Multiply_1.node_spec(), wb, b, halted) && x == to_precision(
            a * b,
            capped(wa + wb),
            w,
        )
}

/// The square of what the operand gives with enough bits, rounded back.
pub open spec fn square_approximates(n: Node, w: nat, x: int, halted: bool) -> bool
    decreases n, 0nat,
{
    &&& n is Square
    &&& exists|wa: nat, a: int|
        #![trigger operands(wa as int, a)]
        wa <= MAX_PRECISION && approximates(n->Square_0.node_spec(), wa, a, halted) && x == to_precision(
            a * a,
            capped(wa + wa),
            w,
        )
}

/// `2^(w + q)` divided by what the operand gives with `q` bits, rounded
/// toward zero, for an operand that does not look like zero.
pub open spec fn inverse_approximates(n: Node, w: nat, x: int, halted: bool) -> bool
    decreases n, 0nat,
{
    &&& n is Inverse
    &&& exists|q: nat, a: int|
        #![trigger operands(q as int, a)]
        q <= MAX_PRECISION && a != 0 && approximates(n->Inverse_0.node_spec(), q, a, halted) && x
            == signed_quotient(pow2(capped(w + q)) as int, a)
}

/// The number `n` looks like zero: an approximation of it is zero, or its
/// approximation with 4096 bits shows no more than the guard bits.
pub open spec fn looks_zero(n: Node, halted: bool) -> bool {
    exists|w: nat, x: int|
        #![trigger approximates(n, w, x, halted)]
        approximates(n, w, x, halted) && (x == 0 || (w == 4096 && bit_length(abs(x)) <= GUARD))
}

/// The operand of the reciprocal `n` looks like zero: an approximation of
/// it is zero, or its approximation with 4096 bits shows no more than the
/// guard bits.
pub open spec fn operand_vanishes(n: Node, halted: bool) -> bool
    decreases n, 0nat,
{
    &&& n is Inverse
    &&& exists|q: nat, a: int|
        #![trigger operands(q as int, a)]
        approximates(n->Inverse_0.node_spec(), q, a, halted) && (a == 0 || (q == 4096 && bit_length(
            abs(a),
        ) <= GUARD))
}

/// The square root, rounded down, of what the operand gives with twice
/// the bits and two more, brought back to `w` bits; zero where that is
/// not positive.
pub open spec fn root_approximates(n: Node, w: nat, x: int, halted: bool) -> bool
    decreases n, 0nat,
{
    &&& n is Sqrt
    &&& exists|a: int, s: int|
        #![trigger operands(a, s)]
        approximates(n->Sqrt_0.node_spec(), capped(capped(w + w) + 2), a, halted) && (a <= 0 ==> x == 0)
            && (a > 0 ==> 0 <= s && s * s <= a < (s + 1) * (s + 1) && x == rounded_shift(
            s,
            root_shift(capped(capped(w + w) + 2), w),
        ))
}

/// The quotient of what the sine and cosine series give with guard bits.
pub open spec fn tan_approximates(y: Computable, w: nat, x: int, halted: bool) -> bool {
    exists|s: int, co: int|
        #![trigger trig_approximation(y, capped(w + GUARD as nat), false, s, halted), trig_approximation(y, capped(w + GUARD as nat), true, co, halted)]
        trig_approximation(y, capped(w + GUARD as nat), false, s, halted) && trig_approximation(
            y,
            capped(w + GUARD as nat),
            true,
            co,
            halted,
        ) && x == signed_quotient(s * pow2(w), co)
}

impl Computable {
    /// The shape of this number.
    pub closed spec fn node_spec(self) -> Node {
        *self.node
    }

    /// The parts of this number's expression are smaller than it.
    pub proof fn lemma_node_smaller(self)
        ensures
            decreases_to!(self => self.node_spec()),
    {
        assert(decreases_to!(self => self.node));
    }

    /// The flag that asks this number's calculations to stop, if any.
    pub closed spec fn signal_spec(self) -> Option<Signal> {
        self.signal
    }

    /// This number is the expression `n`.
    pub open spec fn is(self, n: Node) -> bool {
        same_node(self.node_spec(), n)
    }

    fn make(node: Node) -> (res: Computable)
        ensures
            res.node_spec() == node,
    {
        Computable { node: Box::new(node), signal: None }
    }

    /// The computable number with this shape.
    pub fn from_node(node: Node) -> (res: Computable)
        ensures
            res.node_spec() == node,
    {
        Self::make(node)
    }

    /// The shape of this number.
    pub fn node(&self) -> (res: &Node)
        ensures
            *res == self.node_spec(),
    {
        &self.node
    }

    /// One.
    pub fn one() -> (res: Computable)
        ensures
            res.node_spec() == Node::One,
    {
        Self::make(Node::One)
    }

    /// π.
    pub fn pi() -> (res: Computable)
        ensures
            res.node_spec() == Node::Pi,
    {
        Self::make(Node::Pi)
    }

    /// The rational `r`.
    pub fn rational(r: Rational) -> (res: Computable)
        ensures
            res.node_spec() == Node::Ratio(r),
    {
        Self::make(Node::Ratio(r))
    }

    /// The integer `n`.
    pub fn integer(n: Integer) -> (res: Computable)
        ensures
            res.node_spec() matches Node::Ratio(r) && r.is_int_value(n@),
    {
        Self::make(Node::Ratio(Rational::from_bigint(n)))
    }

    /// e to the power `r`.
    pub fn e(r: Rational) -> (res: Computable)
        ensures
            res.node_spec() matches Node::Exp(x) && x.node_spec() == Node::Ratio(r),
    {
        Self::make(Node::Exp(Self::rational(r)))
    }

    /// The square root of the rational `r`.
    pub fn sqrt_rational(r: Rational) -> (res: Computable)
        ensures
            res.node_spec() matches Node::Sqrt(x) && x.node_spec() == Node::Ratio(r),
    {
        Self::make(Node::Sqrt(Self::rational(r)))
    }

    /// The exponential function.
    pub fn exp(self) -> (res: Computable)
        ensures
            res.node_spec() == Node::Exp(self),
    {
        Self::make(Node::Exp(self))
    }

    /// The natural logarithm.
    pub fn ln(self) -> (res: Computable)
        ensures
            res.node_spec() == Node::Ln(self),
    {
        Self::make(Node::Ln(self))
    }

    /// The square root.
    pub fn sqrt(self) -> (res: Computable)
        ensures
            res.node_spec() == Node::Sqrt(self),
    {
        Self::make(Node::Sqrt(self))
    }

    /// The sine.
    pub fn sin(self) -> (res: Computable)
        ensures
            res.node_spec() == Node::Sin(self),
    {
        Self::make(Node::Sin(self))
    }

    /// The cosine.
    pub fn cos(self) -> (res: Computable)
        ensures
            res.node_spec() == Node::Cos(self),
    {
        Self::make(Node::Cos(self))
    }

    /// The tangent.
    pub fn tan(self) -> (res: Computable)
        ensures
            res.node_spec() == Node::Tan(self),
    {
        Self::make(Node::Tan(self))
    }

    /// The sum.
    pub fn add(self, other: Computable) -> (res: Computable)
        ensures
            res.node_spec() == Node::Add(self, other),
    {
        Self::make(Node::Add(self, other))
    }

    /// The product.
    pub fn multiply(self, other: Computable) -> (res: Computable)
        ensures
            res.node_spec() == Node::Multiply(self, other),
    {
        Self::make(Node::Multiply(self, other))
    }

    /// The square.
    pub fn square(self) -> (res: Computable)
        ensures
            res.node_spec() == Node::Square(self),
    {
        Self::make(Node::Square(self))
    }

    /// The reciprocal.
    pub fn inverse(self) -> (res: Computable)
        ensures
            res.node_spec() == Node::Inverse(self),
    {
        Self::make(Node::Inverse(self))
    }

    /// The negation.
    pub fn negate(self) -> (res: Computable)
        ensures
            res.node_spec() == Node::Negate(self),
    {
        Self::make(Node::Negate(self))
    }

    /// Give this number a flag which asks its calculations to stop early.
    pub fn abort(&mut self, s: Signal)
        ensures
            final(self).node_spec() == old(self).node_spec(),
            final(self).signal_spec() == Some(s),
        no_unwind
    {
        self.signal = Some(s);
    }
}

impl Clone for Computable {
    fn clone(&self) -> (res: Self)
        ensures
            same_node(res.node_spec(), self.node_spec()),
        decreases self,
    {
        let node = match &*self.node {
            Node::One => Node::One,
            Node::Pi => Node::Pi,
            Node::Ratio(r) => Node::Ratio(r.clone()),
            Node::Exp(x) => Node::Exp(x.clone()),
            Node::Ln(x) => Node::Ln(x.clone()),
            Node::Sqrt(x) => Node::Sqrt(x.clone()),
            Node::Sin(x) => Node::Sin(x.clone()),
            Node::Cos(x) => Node::Cos(x.clone()),
            Node::Tan(x) => Node::Tan(x.clone()),
            Node::Add(x, y) => Node::Add(x.clone(), y.clone()),
            Node::Multiply(x, y) => Node::Multiply(x.clone(), y.clone()),
            Node::Square(x) => Node::Square(x.clone()),
            Node::Inverse(x) => Node::Inverse(x.clone()),
            Node::Negate(x) => Node::Negate(x.clone()),
        };
        Computable { node: Box::new(node), signal: clone_signal(&self.signal) }
    }
}

/// `Arc::clone` on an optional flag: the same flag.
#[verifier::external_body]
pub(crate) fn clone_signal(s: &Option<Signal>) -> (res: Option<Signal>)
    ensures
        res == *s,
{
    s.clone()
}

} // verus!
