//! A Lisp-like language of prefix-notation expressions over reals, such as
//! `(+ 1 (* 2 3) 4)` or `(√ (+ pi pi))`.

use vstd::prelude::*;

use crate::rational::Rational;
use crate::rational::text::{parse_chars, parse_result, str_chars, text_value};
use crate::reals::{Class, Real, candidate, class_copy};
use crate::Problem;

pub mod grammar;

use crate::simple::grammar::{
    eat_end,
    eat_ok,
    operator_at,
    op_at,
    found,
    expression_at,
    operands_at,
    literal_end,
    literal_text,
    symbol_end,
    scan_literal,
    scan_symbol,
    without_ignored,
    lemma_literal_end_advances,
    lemma_symbol_end_advances,
};

verus! {

/// Characters read one at a time, with a look at the next one.
pub struct CharStream {
    chars: Vec<char>,
    pos: usize,
}

impl CharStream {
    /// The characters of the stream.
    pub closed spec fn text(self) -> Seq<char> {
        self.chars@
    }

    /// How many characters have been read.
    pub closed spec fn position(self) -> nat {
        self.pos as nat
    }

    /// The characters not yet read.
    pub open spec fn rest(self) -> Seq<char> {
        self.text().skip(self.position() as int)
    }

    /// The position is within the text.
    pub closed spec fn valid(self) -> bool {
        self.pos <= self.chars@.len()
    }

    /// A stream over the characters of `s`.
    pub fn new(s: &str) -> (res: CharStream)
        ensures
            res.valid(),
            res.text() == s@,
            res.position() == 0,
    {
        CharStream { chars: str_chars(s), pos: 0 }
    }

    /// The next character, if any, without reading it.
    pub fn peek(&self) -> (res: Option<char>)
        requires
            self.valid(),
        ensures
            res == (if self.position() < self.text().len() {
                Some(self.text()[self.position() as int])
            } else {
                None
            }),
    {
        if self.pos < self.chars.len() {
            Some(self.chars[self.pos])
        } else {
            None
        }
    }

    /// Read the next character, if any.
    pub fn next(&mut self) -> (res: Option<char>)
        requires
            old(self).valid(),
        ensures
            final(self).valid(),
            final(self).text() == old(self).text(),
            res == (if old(self).position() < old(self).text().len() {
                Some(old(self).text()[old(self).position() as int])
            } else {
                None
            }),
            final(self).position() == (if old(self).position() < old(self).text().len() {
                old(self).position() + 1
            } else {
                old(self).position()
            }),
    {
        if self.pos < self.chars.len() {
            let c = self.chars[self.pos];
            self.pos = self.pos + 1;
            Some(c)
        } else {
            None
        }
    }
}

/// The operators of the language.
#[derive(Clone, Copy, Debug, PartialEq, Eq, Structural)]
pub enum Operator {
    Plus,
    Minus,
    Star,
    Slash,
    Sqrt,
    Exp,
    Log10,
    Ln,
    Cos,
    Sin,
    Tan,
    Pow,
}

/// What an operator is applied to.
#[derive(Debug, PartialEq)]
pub enum Operand {
    /// A number, such as `123_456.789`.
    Literal(Rational),
    /// A name, such as `pi`.
    Symbol(Vec<char>),
    /// A parenthesised expression, such as `(+ 1 2 3)`.
    SubExpression(Simple),
}

/// An expression: an operator and its operands.  These are typically made
/// by parsing text.
#[derive(Debug, PartialEq)]
pub struct Simple {
    op: Operator,
    operands: Vec<Operand>,
}

/// An ASCII letter.
pub open spec fn is_letter(c: char) -> bool {
    ('A' <= c && c <= 'Z') || ('a' <= c && c <= 'z')
}

/// An ASCII letter or digit.
pub open spec fn is_alphanumeric(c: char) -> bool {
    is_letter(c) || ('0' <= c && c <= '9')
}

/// The message for a problem met while reading a number.
pub fn parse_problem(problem: Problem) -> (res: &'static str)
    ensures
        res == match problem {
            Problem::DivideByZero => "Attempting to divide by zero",
            Problem::NotFound => "Symbol not found",
            Problem::ParseError => "Unable to parse number",
            _ => "Some unknown problem during parsing",
        },
{
    match problem {
        Problem::DivideByZero => "Attempting to divide by zero",
        Problem::NotFound => "Symbol not found",
        Problem::ParseError => "Unable to parse number",
        _ => "Some unknown problem during parsing",
    }
}

impl Simple {
    /// The operator.
    pub closed spec fn op_spec(self) -> Operator {
        self.op
    }

    /// The operands.
    pub closed spec fn operands_spec(self) -> Seq<Operand> {
        self.operands@
    }

    /// The operands are smaller than the expression that holds them.
    pub proof fn lemma_operands_smaller(self)
        ensures
            decreases_to!(self => self.operands_spec()),
    {
        assert(decreases_to!(self => self.operands));
        assert(decreases_to!(self.operands => self.operands@));
    }

    /// Read the characters of `suffix` if they come next, one by one; then
    /// say whether all of them came and no letter follows.  Characters that
    /// matched stay read even when a later one does not.
#[verifier::spinoff_prover]
    fn eat_keyword(chars: &mut CharStream, suffix: &str) -> (res: bool)
        requires
            old(chars).valid(),
        ensures
            final(chars).valid(),
            final(chars).text() == old(chars).text(),
            old(chars).position() <= final(chars).position(),
            res == eat_ok(old(chars).text(), old(chars).position() as int, suffix@),
            final(chars).position() == eat_end(old(chars).text(), old(chars).position() as int, suffix@),
    {
        let expected = str_chars(suffix);
        let ghost start = *chars;
        let mut i: usize = 0;
        proof {
            assert(suffix@.skip(0) =~= suffix@);
        }
        while i < expected.len()
            invariant
                i <= expected@.len(),
                chars.valid(),
                chars.text() == start.text(),
                chars.position() == start.position() + i,
                start.rest().take(i as int) == expected@.take(i as int),
                start.valid(),
                start == *old(chars),
                expected@ == suffix@,
                eat_end(start.text(), start.position() as int, suffix@) == eat_end(
                    start.text(),
                    chars.position() as int,
                    suffix@.skip(i as int),
                ),
            decreases expected@.len() - i,
        {
            let ghost text = start.text();
            let ghost p = start.position() as int;
            proof {
                assert(suffix@.skip(i as int)[0] == suffix@[i as int]);
                assert(suffix@.skip(i as int).skip(1) =~= suffix@.skip(i + 1));
            }
            match chars.peek() {
                Some(c) => {
                    if c == expected[i] {
                        chars.next();
                        proof {
                            assert(start.rest().take(i + 1) =~= start.rest().take(i as int).push(
                                c,
                            ));
                            assert(expected@.take(i + 1) =~= expected@.take(i as int).push(
                                expected@[i as int],
                            ));
                        }
                    } else {
                        proof {
                            if p + suffix@.len() <= text.len() {
                                assert(text.subrange(p, p + suffix@.len())[i as int] == text[p + i]);
                            }
                        }
                        return false;
                    }
                },
                None => {
                    return false;
                },
            }
            i = i + 1;
        }
        proof {
            assert(expected@.take(expected@.len() as int) =~= expected@);
            assert(suffix@.skip(suffix@.len() as int) =~= Seq::<char>::empty());
            assert(start.text().subrange(
                start.position() as int,
                (start.position() + suffix@.len()) as int,
            ) =~= start.rest().take(suffix@.len() as int));
        }
        match chars.peek() {
            Some(c) => !(('A' <= c && c <= 'Z') || ('a' <= c && c <= 'z')),
            None => true,
        }
    }

    /// A named operator: `log10`, `ln` or `l`, `exp` or `e`, `sqrt` or
    /// `s`, `cos`, `sin`, `pow` and `tan`, with the first letter tried
    /// against each in that order.  The letters matched while trying a
    /// word stay taken, so `log` is the natural logarithm: its `og` is
    /// taken in trying `log10`, and what is left matches `l` alone.
    fn operator(chars: &mut CharStream) -> (res: Result<Operator, &'static str>)
        requires
            old(chars).valid(),
        ensures
            final(chars).valid(),
            final(chars).text() == old(chars).text(),
            (res, final(chars).position() as int) == operator_at(
                old(chars).text(),
                old(chars).position() as int,
            ),
    {
        let first = match chars.next() {
            Some(c) => c,
            None => {
                return Err("No such operator");
            },
        };
        if first == 'l' && (Self::eat_keyword(chars, "og10") || Self::eat_keyword(chars, "og")) {
            return Ok(Operator::Log10);
        }
        if first == 'l' && (Self::eat_keyword(chars, "n") || Self::eat_keyword(chars, "")) {
            return Ok(Operator::Ln);
        }
        if first == 'e' && (Self::eat_keyword(chars, "xp") || Self::eat_keyword(chars, "")) {
            return Ok(Operator::Exp);
        }
        if first == 's' && (Self::eat_keyword(chars, "qrt") || Self::eat_keyword(chars, "")) {
            return Ok(Operator::Sqrt);
        }
        if first == 'c' && Self::eat_keyword(chars, "os") {
            return Ok(Operator::Cos);
        }
        if first == 's' && Self::eat_keyword(chars, "in") {
            return Ok(Operator::Sin);
        }
        if first == 'p' && Self::eat_keyword(chars, "ow") {
            return Ok(Operator::Pow);
        }
        if first == 't' && Self::eat_keyword(chars, "an") {
            return Ok(Operator::Tan);
        }
        Err("No such operator")
    }

    /// Read a symbol: an optional `#`, then letters and digits.
    fn consume_symbol(chars: &mut CharStream) -> (res: Operand)
        requires
            old(chars).valid(),
            old(chars).position() < old(chars).text().len(),
            old(chars).text()[old(chars).position() as int] == '#' || (
            'a' <= old(chars).text()[old(chars).position() as int]
                && old(chars).text()[old(chars).position() as int] <= 'z'),
        ensures
            final(chars).valid(),
            final(chars).text() == old(chars).text(),
            final(chars).position() == symbol_end(old(chars).text(), old(chars).position() as int),
            res matches Operand::Symbol(v) && v@ == old(chars).text().subrange(
                old(chars).position() as int,
                final(chars).position() as int,
            ),
    {
        let mut sym: Vec<char> = Vec::new();
        let ghost start = *chars;
        let ghost text = start.text();
        let ghost p0 = start.position() as int;
        let ghost s0 = if text[p0] == '#' { p0 + 1 } else { p0 };
        if chars.peek() == Some('#') {
            sym.push('#');
            chars.next();
        }
        proof {
            assert(sym@ =~= text.subrange(p0, chars.position() as int));
        }
        while chars.peek().is_some()
            invariant
                chars.valid(),
                chars.text() == text,
                start.valid(),
                0 <= p0 <= chars.position(),
                s0 <= chars.position(),
                start == *old(chars),
                sym@ == text.subrange(p0, chars.position() as int),
                scan_symbol(text, chars.position() as int) == scan_symbol(text, s0),
            ensures
                chars.valid(),
                chars.text() == text,
                chars.position() == scan_symbol(text, s0),
                sym@ == text.subrange(p0, chars.position() as int),
            decreases chars.text().len() - chars.position(),
        {
            let item = match chars.peek() {
                Some(c) => c,
                None => ' ',
            };
            if ('A' <= item && item <= 'Z') || ('a' <= item && item <= 'z') || ('0' <= item
                && item <= '9') {
                sym.push(item);
            } else {
                break;
            }
            chars.next();
            proof {
                assert(sym@ =~= text.subrange(p0, chars.position() as int));
            }
        }
        Operand::Symbol(sym)
    }

    /// Read a number: an optional minus sign, then digits, decimal points
    /// and slashes, ignoring underscores, commas and apostrophes.
#[verifier::spinoff_prover]
    fn consume_literal(chars: &mut CharStream) -> (res: Result<Operand, Problem>)
        requires
            old(chars).valid(),
            old(chars).position() < old(chars).text().len(),
            old(chars).text()[old(chars).position() as int] == '-' || (
            '0' <= old(chars).text()[old(chars).position() as int]
                && old(chars).text()[old(chars).position() as int] <= '9'),
        ensures
            final(chars).valid(),
            final(chars).text() == old(chars).text(),
            final(chars).position() == literal_end(old(chars).text(), old(chars).position() as int),
            res matches Ok(o) ==> (o matches Operand::Literal(r) && parse_result(
                Ok(r),
                literal_text(old(chars).text(), old(chars).position() as int),
            )),
            res matches Err(e) ==> parse_result(
                Err(e),
                literal_text(old(chars).text(), old(chars).position() as int),
            ),
    {
        let mut num: Vec<char> = Vec::new();
        let ghost start = *chars;
        let ghost text = start.text();
        let ghost p0 = start.position() as int;
        let ghost s0 = if text[p0] == '-' { p0 + 1 } else { p0 };
        if chars.peek() == Some('-') {
            num.push('-');
            chars.next();
            proof {
                let t = text.subrange(p0, p0 + 1);
                assert(t.drop_last() =~= Seq::<char>::empty());
                assert(t.last() == '-');
                assert(without_ignored(Seq::<char>::empty()) =~= Seq::<char>::empty());
            }
        }
        proof {
            assert(num@ =~= without_ignored(text.subrange(p0, chars.position() as int)));
        }
        while chars.peek().is_some()
            invariant
                chars.valid(),
                chars.text() == text,
                start.valid(),
                0 <= p0 <= chars.position(),
                s0 <= chars.position(),
                start == *old(chars),
                num@ == without_ignored(text.subrange(p0, chars.position() as int)),
                scan_literal(text, chars.position() as int) == scan_literal(text, s0),
            ensures
                chars.valid(),
                chars.text() == text,
                chars.position() == scan_literal(text, s0),
                num@ == without_ignored(text.subrange(p0, chars.position() as int)),
            decreases chars.text().len() - chars.position(),
        {
            let item = match chars.peek() {
                Some(c) => c,
                None => ' ',
            };
            let ghost pos = chars.position() as int;
            if ('0' <= item && item <= '9') || item == '.' || item == '/' {
                num.push(item);
            } else if item == '_' || item == ',' || item == '\'' {
            } else {
                break;
            }
            chars.next();
            proof {
                let t = text.subrange(p0, pos + 1);
                assert(t.drop_last() =~= text.subrange(p0, pos));
                assert(t.last() == item);
            }
        }
        match parse_chars(&num) {
            Ok(n) => Ok(Operand::Literal(n)),
            Err(e) => Err(e),
        }
    }

    /// Read an expression: an opening parenthesis, an operator (a symbol or
    /// a name), one space or tab, then operands separated by spaces or tabs
    /// up to the closing parenthesis.
#[verifier::spinoff_prover]
    pub fn parse(chars: &mut CharStream) -> (res: Result<Simple, &'static str>)
        requires
            old(chars).valid(),
        ensures
            final(chars).valid(),
            final(chars).text() == old(chars).text(),
            expression_at(
                res,
                old(chars).text(),
                old(chars).position() as int,
                final(chars).position() as int,
            ),
            old(chars).position() <= final(chars).position(),
            old(chars).rest().len() > 0 && old(chars).rest()[0] == '(' ==> old(chars).position()
                < final(chars).position(),
        decreases old(chars).text().len() - old(chars).position(),
    {
        let ghost start = *old(chars);
        let ghost text = start.text();
        let ghost p0 = start.position() as int;
        if chars.peek() == Some('(') {
            chars.next();
        } else {
            return Err("No parenthetical expression");
        }
        let ghost j = p0 + 1;
        let op = match chars.peek() {
            Some('+') => {
                chars.next();
                Operator::Plus
            },
            Some('-') => {
                chars.next();
                Operator::Minus
            },
            Some('*') => {
                chars.next();
                Operator::Star
            },
            Some('/') => {
                chars.next();
                Operator::Slash
            },
            Some('^') => {
                chars.next();
                Operator::Pow
            },
            Some('√') => {
                chars.next();
                Operator::Sqrt
            },
            Some(c) => {
                if 'a' <= c && c <= 'z' {
                    match Self::operator(chars) {
                        Ok(o) => o,
                        Err(e) => {
                            proof {
                                crate::simple::grammar::lemma_op_at_advances(text, j);
                            }
                            return Err(e);
                        },
                    }
                } else {
                    return Err("Unexpected symbol while looking for an operator");
                }
            },
            None => {
                return Err("Unexpected symbol while looking for an operator");
            },
        };
        proof {
            assert(op_at(text, j) == (Ok::<Operator, &'static str>(op), chars.position() as int));
            crate::simple::grammar::lemma_op_at_advances(text, j);
        }
        let ghost w = chars.position() as int;
        match chars.peek() {
            Some(' ') | Some('\t') => {
                chars.next();
            },
            _ => {
                return Err("No whitespace after operator");
            },
        }
        let mut operands: Vec<Operand> = Vec::new();
        proof {
            assert forall|r: Result<Simple, &'static str>, q: int|
                operands_at(r, op, text, chars.position() as int, 0, q) && (r matches Ok(s)
                    ==> operands@.len() <= s.operands_spec().len() && s.operands_spec().take(0)
                    == operands@) implies expression_at(
                r,
                text,
                p0,
                q,
            ) by {}
        }
        while chars.peek().is_some()
            invariant
                chars.valid(),
                chars.text() == text,
                text == start.text(),
                0 <= p0 < chars.position(),
                p0 == start.position(),
                start.valid(),
                start == *old(chars),
                start.rest().len() > 0 && start.rest()[0] == '(',
                forall|r: Result<Simple, &'static str>, q: int|
                    operands_at(r, op, text, chars.position() as int, operands@.len() as int, q) && (
                    r matches Ok(s) ==> operands@.len() <= s.operands_spec().len() && s.operands_spec().take(
                        operands@.len() as int,
                    ) == operands@)
                        ==> expression_at(r, text, p0, q),
            decreases chars.text().len() - chars.position(),
        {
            let c = match chars.peek() {
                Some(c) => c,
                None => ' ',
            };
            let ghost i = chars.position() as int;
            let ghost k = operands@.len() as int;
            let ghost before = operands@;
            if c == ' ' || c == '\t' {
                chars.next();
            } else if c == '#' || ('a' <= c && c <= 'z') {
                let operand = Self::consume_symbol(chars);
                operands.push(operand);
                proof {
                    lemma_symbol_end_advances(text, i);
                    assert forall|r: Result<Simple, &'static str>, q: int|
                        operands_at(r, op, text, chars.position() as int, k + 1, q) && (r matches Ok(
                            s,
                        ) ==> operands@.len() <= s.operands_spec().len() && s.operands_spec().take(
                            k + 1,
                        ) == operands@) implies expression_at(
                        r,
                        text,
                        p0,
                        q,
                    ) by {
                        if let Ok(s) = r {
                            assert(s.operands_spec()[k] == s.operands_spec().take(k + 1)[k]);
                            assert(s.operands_spec().take(k) =~= s.operands_spec().take(k + 1).take(k));
                            assert(operands@.take(k) =~= before);
                        }
                        assert(operands_at(r, op, text, i, k, q));
                    }
                }
            } else if c == '-' || ('0' <= c && c <= '9') {
                match Self::consume_literal(chars) {
                    Ok(operand) => {
                        operands.push(operand);
                        proof {
                            lemma_literal_end_advances(text, i);
                            assert forall|r: Result<Simple, &'static str>, q: int|
                                operands_at(r, op, text, chars.position() as int, k + 1, q) && (
                                r matches Ok(s) ==> operands@.len() <= s.operands_spec().len()
                                    && s.operands_spec().take(k + 1) == operands@)
                                    implies expression_at(r, text, p0, q) by {
                                if let Ok(s) = r {
                                    assert(s.operands_spec()[k] == s.operands_spec().take(k + 1)[k]);
                                    assert(s.operands_spec().take(k) =~= s.operands_spec().take(
                                        k + 1,
                                    ).take(k));
                                    assert(operands@.take(k) =~= before);
                                }
                                assert(operands_at(r, op, text, i, k, q));
                            }
                        }
                    },
                    Err(problem) => {
                        let res = Err(parse_problem(problem));
                        proof {
                            lemma_literal_end_advances(text, i);
                            assert(operands_at(res, op, text, i, k, chars.position() as int));
                        }
                        return res;
                    },
                }
            } else if c == '(' {
                let sub = Self::parse(chars);
                let ghost e = chars.position() as int;
                proof {
                    assert(found(sub, e));
                }
                match sub {
                    Ok(xpr) => {
                        operands.push(Operand::SubExpression(xpr));
                        proof {
                            assert forall|r: Result<Simple, &'static str>, q: int|
                                operands_at(r, op, text, e, k + 1, q) && (r matches Ok(s)
                                    ==> operands@.len() <= s.operands_spec().len()
                                    && s.operands_spec().take(k + 1) == operands@) implies expression_at(
                                r,
                                text,
                                p0,
                                q,
                            ) by {
                                if let Ok(s) = r {
                                    assert(s.operands_spec()[k] == s.operands_spec().take(k + 1)[k]);
                                    assert(s.operands_spec().take(k) =~= s.operands_spec().take(
                                        k + 1,
                                    ).take(k));
                                    assert(operands@.take(k) =~= before);
                                }
                                assert(found(sub, e));
                                assert(operands_at(r, op, text, i, k, q));
                            }
                        }
                    },
                    Err(m) => {
                        proof {
                            assert(operands_at(sub, op, text, i, k, e));
                        }
                        return Err(m);
                    },
                }
            } else if c == ')' {
                chars.next();
                let res = Ok(Simple { op, operands });
                proof {
                    let ghost s = Simple { op, operands };
                    assert(s.operands_spec().take(k) =~= before);
                    assert(operands_at(res, op, text, i, k, i + 1));
                }
                return res;
            } else {
                return Err("Unexpected character while looking for operands ...");
            }
        }
        Err("Incomplete expression")
    }

    /// Read an expression from text.
    pub fn parse_text(s: &str) -> (res: Result<Simple, &'static str>)
        ensures
            exists|q: int| expression_at(res, s@, 0, q),
    {
        let mut chars = CharStream::new(s);
        let res = Self::parse(&mut chars);
        proof {
            assert(expression_at(res, s@, 0, chars.position() as int));
        }
        res
    }
}

impl core::str::FromStr for Simple {
    type Err = &'static str;

    fn from_str(s: &str) -> (res: Result<Simple, &'static str>)
        ensures
            exists|q: int| expression_at(res, s@, 0, q),
    {
        Simple::parse_text(s)
    }
}

/// The first entry for `name`, if any.
pub open spec fn lookup_in(entries: Seq<(Seq<char>, Real)>, name: Seq<char>) -> Option<Real>
    decreases entries.len(),
{
    if entries.len() == 0 {
        None
    } else if entries[0].0 == name {
        Some(entries[0].1)
    } else {
        lookup_in(entries.skip(1), name)
    }
}

/// Names and the reals they stand for.
pub struct Symbols {
    entries: Vec<(Vec<char>, Real)>,
}

impl Symbols {
    /// The names, as characters, with their values, latest first.
    pub closed spec fn entries_spec(self) -> Seq<(Seq<char>, Real)> {
        self.entries@.map_values(|e: (Vec<char>, Real)| (e.0@, e.1))
    }

    /// The value of a name.
    pub open spec fn value_of(self, name: Seq<char>) -> Option<Real> {
        lookup_in(self.entries_spec(), name)
    }

    /// No names.
    pub fn new() -> (res: Symbols)
        ensures
            forall|n: Seq<char>| #[trigger] res.value_of(n) is None,
    {
        let res = Symbols { entries: Vec::new() };
        proof {
            assert(res.entries_spec().len() == 0);
        }
        res
    }

    /// Give `name` the value `value`, in place of any it had.
    pub fn insert(&mut self, name: &str, value: Real)
        ensures
            forall|n: Seq<char>|
                #[trigger] final(self).value_of(n) == if n == name@ {
                    Some(value)
                } else {
                    old(self).value_of(n)
                },
    {
        let key = str_chars(name);
        let ghost before = self.entries_spec();
        self.entries.insert(0, (key, value));
        proof {
            let after = self.entries_spec();
            assert(after.skip(1) =~= before);
            assert(after[0] == (name@, value));
        }
    }

    /// The value of `name`.
    pub fn get(&self, name: &Vec<char>) -> (res: Option<&Real>)
        ensures
            res is Some <==> self.value_of(name@) is Some,
            res matches Some(v) ==> self.value_of(name@) == Some(*v),
    {
        let mut i: usize = 0;
        proof {
            assert(self.entries_spec().skip(0) =~= self.entries_spec());
        }
        while i < self.entries.len()
            invariant
                i <= self.entries@.len(),
                self.value_of(name@) == lookup_in(self.entries_spec().skip(i as int), name@),
            decreases self.entries@.len() - i,
        {
            let ghost rest = self.entries_spec().skip(i as int);
            proof {
                assert(rest.skip(1) =~= self.entries_spec().skip(i + 1));
                assert(rest[0] == (self.entries@[i as int].0@, self.entries@[i as int].1));
            }
            if chars_equal(&self.entries[i].0, name) {
                return Some(&self.entries[i].1);
            }
            i = i + 1;
        }
        None
    }
}

/// Are the two character sequences the same?
fn chars_equal(a: &Vec<char>, b: &Vec<char>) -> (res: bool)
    ensures
        res == (a@ == b@),
{
    if a.len() != b.len() {
        return false;
    }
    let mut i: usize = 0;
    while i < a.len()
        invariant
            i <= a@.len(),
            a@.len() == b@.len(),
            a@.take(i as int) == b@.take(i as int),
        decreases a@.len() - i,
    {
        if a[i] != b[i] {
            proof {
                assert(a@[i as int] != b@[i as int]);
            }
            return false;
        }
        i = i + 1;
        proof {
            assert(a@.take(i as int) =~= a@.take((i - 1) as int).push(a@[i - 1]));
            assert(b@.take(i as int) =~= b@.take((i - 1) as int).push(b@[i - 1]));
        }
    }
    proof {
        assert(a@ =~= a@.take(i as int));
        assert(b@ =~= b@.take(i as int));
    }
    true
}

/// Every operand is a literal number.
pub open spec fn all_literals(s: Seq<Operand>) -> bool {
    forall|i: int| 0 <= i < s.len() ==> #[trigger] s[i] is Literal
}

/// The number of a literal operand.
pub open spec fn literal_value(o: Operand) -> Rational {
    match o {
        Operand::Literal(r) => r,
        _ => arbitrary(),
    }
}

/// The sum of literal operands, as a numerator and a denominator.
pub open spec fn literal_sum(s: Seq<Operand>) -> (int, int)
    decreases s.len(),
{
    if s.len() == 0 {
        (0, 1)
    } else {
        let (n, d) = literal_sum(s.drop_last());
        let r = literal_value(s.last());
        (n * r.den() + r.num() * d, d * r.den())
    }
}

/// The product of literal operands.
pub open spec fn literal_product(s: Seq<Operand>) -> (int, int)
    decreases s.len(),
{
    if s.len() == 0 {
        (1, 1)
    } else {
        let (n, d) = literal_product(s.drop_last());
        let r = literal_value(s.last());
        (n * r.num(), d * r.den())
    }
}

/// The first literal operand less the others.
pub open spec fn literal_difference(s: Seq<Operand>) -> (int, int)
    decreases s.len(),
{
    if s.len() <= 1 {
        let r = literal_value(s[0]);
        (r.num(), r.den() as int)
    } else {
        let (n, d) = literal_difference(s.drop_last());
        let r = literal_value(s.last());
        (n * r.den() - r.num() * d, d * r.den())
    }
}

/// The first literal operand divided by the others.
pub open spec fn literal_quotient(s: Seq<Operand>) -> (int, int)
    decreases s.len(),
{
    if s.len() <= 1 {
        let r = literal_value(s[0]);
        (r.num(), r.den() as int)
    } else {
        let (n, d) = literal_quotient(s.drop_last());
        let r = literal_value(s.last());
        (n * r.den(), d * r.num())
    }
}

/// Some literal operand after the first is zero.
pub open spec fn zero_divisor(s: Seq<Operand>) -> bool {
    exists|i: int| 1 <= i < s.len() && #[trigger] literal_value(s[i]).num() == 0
}

/// A sum of rationals has the sum of their values.
proof fn lemma_sum_value(x: Rational, xn: int, xd: int, y: Rational, p: Rational)
    requires
        x.den() > 0,
        x.same_value(xn, xd),
        p.same_value(x.num() * y.den() + y.num() * x.den(), (x.den() * y.den()) as int),
    ensures
        p.same_value(xn * y.den() + y.num() * xd, xd * y.den()),
{
    let a = x.num();
    let b = x.den() as int;
    let e = y.den() as int;
    let c = y.num();
    let q = p.num();
    let r = p.den() as int;
    assert(q * (b * e) == (a * e + c * b) * r);
    assert(a * xd == xn * b);
    assert(q * (b * e) * xd == (a * xd * e + c * b * xd) * r) by (nonlinear_arith)
        requires
            q * (b * e) == (a * e + c * b) * r,
    ;
    let u = xn * e + c * xd;
    assert(a * xd * e + c * b * xd == b * u) by (nonlinear_arith)
        requires
            a * xd == xn * b,
            u == xn * e + c * xd,
    ;
    assert((b * u) * r == b * (u * r)) by (nonlinear_arith);
    assert(q * (xd * e) == (xn * e + c * xd) * r) by (nonlinear_arith)
        requires
            q * (b * e) * xd == b * ((xn * e + c * xd) * r),
            b > 0,
    ;
}

/// A difference of rationals has the difference of their values.
proof fn lemma_difference_value(x: Rational, xn: int, xd: int, y: Rational, p: Rational)
    requires
        x.den() > 0,
        x.same_value(xn, xd),
        p.same_value(x.num() * y.den() - y.num() * x.den(), (x.den() * y.den()) as int),
    ensures
        p.same_value(xn * y.den() - y.num() * xd, xd * y.den()),
{
    let a = x.num();
    let b = x.den() as int;
    let e = y.den() as int;
    let c = y.num();
    let q = p.num();
    let r = p.den() as int;
    assert(q * (b * e) == (a * e - c * b) * r);
    assert(a * xd == xn * b);
    assert(q * (b * e) * xd == (a * xd * e - c * b * xd) * r) by (nonlinear_arith)
        requires
            q * (b * e) == (a * e - c * b) * r,
    ;
    let u = xn * e - c * xd;
    assert(a * xd * e - c * b * xd == b * u) by (nonlinear_arith)
        requires
            a * xd == xn * b,
            u == xn * e - c * xd,
    ;
    assert((b * u) * r == b * (u * r)) by (nonlinear_arith);
    assert(q * (xd * e) == (xn * e - c * xd) * r) by (nonlinear_arith)
        requires
            q * (b * e) * xd == b * ((xn * e - c * xd) * r),
            b > 0,
    ;
}

/// A quotient of rationals has the quotient of their values.
proof fn lemma_quotient_value(x: Rational, xn: int, xd: int, y: Rational, p: Rational)
    requires
        x.den() > 0,
        x.same_value(xn, xd),
        p.same_value(x.num() * y.den(), x.den() * y.num()),
    ensures
        p.same_value(xn * y.den(), xd * y.num()),
{
    let a = x.num();
    let b = x.den() as int;
    let e = y.den() as int;
    let c = y.num();
    let q = p.num();
    let r = p.den() as int;
    assert(q * (b * c) == (a * e) * r);
    assert(a * xd == xn * b);
    assert(q * (b * c) * xd == b * (xn * e) * r) by (nonlinear_arith)
        requires
            q * (b * c) == (a * e) * r,
            a * xd == xn * b,
    ;
    assert(q * (xd * c) == (xn * e) * r) by (nonlinear_arith)
        requires
            q * (b * c) * xd == b * (xn * e) * r,
            b > 0,
    ;
}

impl Operand {
    /// The number, for a literal.
    fn literal(&self) -> (res: Option<&Rational>)
        ensures
            res is Some <==> *self is Literal,
            res matches Some(r) ==> *r == literal_value(*self),
    {
        match self {
            Operand::Literal(n) => Some(n),
            _ => None,
        }
    }

    /// The value of this operand: a literal number, the value of a name, or
    /// the value of a parenthesised expression.
    pub fn value(&self, names: &Symbols) -> (res: Result<Real, Problem>)
        ensures
            operand_result(res, *self, *names),
        decreases self,
    {
        match self {
            Operand::Literal(n) => Ok(Real::new(n.clone())),
            Operand::Symbol(s) => Simple::lookup(s, names),
            Operand::SubExpression(xpr) => xpr.evaluate(names),
        }
    }
}

/// Are all the operands from `from` on literal numbers?
fn literals_from(operands: &Vec<Operand>, from: usize) -> (res: bool)
    ensures
        res == (forall|i: int| from <= i < operands@.len() ==> #[trigger] operands@[i] is Literal),
{
    let mut i = from;
    while i < operands.len()
        invariant
            from <= i,
            forall|j: int| from <= j < i && j < operands@.len() ==> #[trigger] operands@[j] is Literal,
        decreases operands@.len() - i,
    {
        if operands[i].literal().is_none() {
            proof {
                assert(!(operands@[i as int] is Literal));
            }
            return false;
        }
        i = i + 1;
    }
    true
}

/// What a function of one operand gives for `x`.
pub open spec fn apply_unary(res: Result<Real, Problem>, op: Operator, x: Real) -> bool {
    match op {
        Operator::Minus => res matches Ok(r) && Real::neg_spec(r, x),
        Operator::Slash => Real::inverse_spec(res, x),
        Operator::Sqrt => Real::sqrt_spec(res, x),
        Operator::Exp => Real::exp_spec(res, x),
        Operator::Log10 => Real::log10_spec(res, x),
        Operator::Ln => Real::ln_spec(res, x),
        Operator::Cos => res matches Ok(r) && Real::cos_spec(r, x),
        Operator::Sin => res matches Ok(r) && Real::sin_spec(r, x),
        Operator::Tan => Real::tan_spec(res, x),
        _ => false,
    }
}

/// What an operator of several operands gives for `x` and `y`.
pub open spec fn apply_binary(res: Result<Real, Problem>, op: Operator, x: Real, y: Real) -> bool {
    match op {
        Operator::Plus => res matches Ok(r) && Real::add_spec(r, x, y),
        Operator::Minus => res matches Ok(r) && Real::sub_spec(r, x, y),
        Operator::Star => res matches Ok(r) && Real::mul_spec(r, x, y),
        Operator::Slash => Real::div_spec(res, x, y),
        Operator::Pow => Real::pow_spec(res, x, y),
        _ => false,
    }
}

/// The value of an operand: a literal is that number, a name what it
/// stands for, and a parenthesised expression its evaluation.
pub open spec fn operand_result(res: Result<Real, Problem>, o: Operand, names: Symbols) -> bool
    decreases o, 0int,
{
    match o {
        Operand::Literal(n) => res matches Ok(r) && r.class_spec() is One && r.rational_spec().num()
            == n.num() && r.rational_spec().den() == n.den(),
        Operand::Symbol(s) => Simple::symbol_result(res, s@, names),
        Operand::SubExpression(x) => evaluation(res, x, names),
    }
}

/// Folding the operands from `i` on into `acc` with the operator, value
/// by value, gives `res`; the first problem met is the answer.
pub open spec fn fold_from(
    res: Result<Real, Problem>,
    op: Operator,
    ops: Seq<Operand>,
    names: Symbols,
    i: int,
    acc: Real,
) -> bool
    decreases ops, ops.len() - i,
{
    if i < 0 || i >= ops.len() {
        res == Ok::<Real, Problem>(acc)
    } else {
        exists|v: Result<Real, Problem>|
            #[trigger] candidate(v) && operand_result(v, ops[i], names) && match v {
                Err(e) => res == Err::<Real, Problem>(e),
                Ok(x) => exists|next: Result<Real, Problem>|
                    #[trigger] candidate(next) && apply_binary(next, op, acc, x) && match next {
                        Err(e) => res == Err::<Real, Problem>(e),
                        Ok(a) => fold_from(res, op, ops, names, i + 1, a),
                    },
            }
    }
}

/// The first operand's value folded with the rest.
pub open spec fn first_then_fold(res: Result<Real, Problem>, op: Operator, ops: Seq<Operand>, names: Symbols) -> bool
    decreases ops, ops.len() + 1,
{
    ops.len() > 0 && exists|v: Result<Real, Problem>|
        #[trigger] candidate(v) && operand_result(v, ops[0], names) && match v {
            Err(e) => res == Err::<Real, Problem>(e),
            Ok(x) => fold_from(res, op, ops, names, 1, x),
        }
}

/// A function of the single operand's value.
pub open spec fn unary_of(res: Result<Real, Problem>, op: Operator, ops: Seq<Operand>, names: Symbols) -> bool
    decreases ops, 0int,
{
    ops.len() == 1 && exists|v: Result<Real, Problem>|
        #[trigger] candidate(v) && operand_result(v, ops[0], names) && match v {
            Err(e) => res == Err::<Real, Problem>(e),
            Ok(x) => apply_unary(res, op, x),
        }
}

/// The first operand to the power of the second.
pub open spec fn power_of(res: Result<Real, Problem>, ops: Seq<Operand>, names: Symbols) -> bool
    decreases ops, 0int,
{
    ops.len() == 2 && exists|v1: Result<Real, Problem>|
        #[trigger] candidate(v1) && operand_result(v1, ops[0], names) && match v1 {
            Err(e) => res == Err::<Real, Problem>(e),
            Ok(x) => exists|v2: Result<Real, Problem>|
                #[trigger] candidate(v2) && operand_result(v2, ops[1], names) && match v2 {
                    Err(e) => res == Err::<Real, Problem>(e),
                    Ok(y) => apply_binary(res, Operator::Pow, x, y),
                },
        }
}

/// What evaluating `s` with `names` gives: for the arithmetic operators,
/// the exact rational arithmetic of `evaluate_spec` when every operand is a
/// literal number; otherwise the operands' values, left to right, combined
/// with the operator or given to the function; the first problem met is
/// the answer.
pub open spec fn evaluation(res: Result<Real, Problem>, s: Simple, names: Symbols) -> bool
    decreases s, 0int,
{
    let ops = s.operands_spec();
    let op = s.op_spec();
    proof {
        s.lemma_operands_smaller();
    }
    &&& Simple::evaluate_spec(res, op, ops)
    &&& match op {
        Operator::Plus | Operator::Star => ops.len() > 0 && !all_literals(ops) ==> first_then_fold(
            res,
            op,
            ops,
            names,
        ),
        Operator::Minus | Operator::Slash => !all_literals(ops) ==> {
            &&& ops.len() == 1 ==> unary_of(res, op, ops, names)
            &&& ops.len() >= 2 ==> first_then_fold(res, op, ops, names)
        },
        Operator::Pow => ops.len() == 2 ==> power_of(res, ops, names),
        _ => ops.len() == 1 ==> unary_of(res, op, ops, names),
    }
}

impl Simple {
    /// What `evaluate` gives for an operator and its operands: how many
    /// operands each operator takes, and the exact rational arithmetic on
    /// operands that are all literal numbers.
    pub open spec fn evaluate_spec(res: Result<Real, Problem>, op: Operator, ops: Seq<Operand>) -> bool {
        match op {
            Operator::Plus => {
                &&& ops.len() == 0 ==> (res matches Ok(r) && r.is_rational_times(0, Class::One))
                &&& ops.len() > 0 && all_literals(ops) ==> (res matches Ok(r) && r.class_spec() is One
                    && r.rational_spec().same_value(literal_sum(ops).0, literal_sum(ops).1))
            },
            Operator::Star => {
                &&& ops.len() == 0 ==> (res matches Ok(r) && r.is_rational_times(1, Class::One))
                &&& ops.len() > 0 && all_literals(ops) ==> (res matches Ok(r) && r.class_spec() is One
                    && r.rational_spec().same_value(literal_product(ops).0, literal_product(ops).1))
            },
            Operator::Minus => {
                &&& ops.len() == 0 ==> res == Err::<Real, Problem>(Problem::InsufficientParameters)
                &&& ops.len() == 1 && all_literals(ops) ==> (res matches Ok(r) && r.class_spec() is One
                    && r.rational_spec().num() == -literal_value(ops[0]).num()
                    && r.rational_spec().den() == literal_value(ops[0]).den())
                &&& ops.len() >= 2 && all_literals(ops) ==> (res matches Ok(r) && r.class_spec() is One
                    && r.rational_spec().same_value(literal_difference(ops).0, literal_difference(ops).1))
            },
            Operator::Slash => {
                &&& ops.len() == 0 ==> res == Err::<Real, Problem>(Problem::InsufficientParameters)
                &&& ops.len() == 1 && all_literals(ops) ==> if literal_value(ops[0]).num() == 0 {
                    res == Err::<Real, Problem>(Problem::DivideByZero)
                } else {
                    res matches Ok(r) && r.class_spec() is One && r.rational_spec().same_value(
                        literal_value(ops[0]).den() as int,
                        literal_value(ops[0]).num(),
                    )
                }
                &&& ops.len() >= 2 && all_literals(ops) ==> if zero_divisor(ops) {
                    res == Err::<Real, Problem>(Problem::DivideByZero)
                } else {
                    res matches Ok(r) && r.class_spec() is One && r.rational_spec().same_value(
                        literal_quotient(ops).0,
                        literal_quotient(ops).1,
                    )
                }
            },
            Operator::Pow => ops.len() != 2 ==> res == Err::<Real, Problem>(Problem::ParseError),
            _ => ops.len() != 1 ==> res == Err::<Real, Problem>(Problem::ParseError),
        }
    }

    /// What a name stands for: `pi` and `e` are π and e, other names
    /// have the value given them, and a name without one is `NotFound`.
    pub open spec fn symbol_result(res: Result<Real, Problem>, name: Seq<char>, names: Symbols) -> bool {
        &&& res matches Err(e) ==> e == Problem::NotFound
        &&& name == "pi"@ ==> (res matches Ok(r) && r.is_rational_times(1, Class::Pi))
        &&& name == "e"@ ==> (res matches Ok(r) && r.rational_spec().is_int_value(1) && (
        r.class_spec() matches Class::Exp(q) && q.is_int_value(1)))
        &&& name != "pi"@ && name != "e"@ ==> (res is Err <==> names.value_of(name) is None)
        &&& name != "pi"@ && name != "e"@ ==> (res matches Ok(r) ==> (names.value_of(name) matches Some(
            v,
        ) && r.rational_spec().num() == v.rational_spec().num() && r.rational_spec().den()
            == v.rational_spec().den() && class_copy(r.class_spec(), v.class_spec())
            && r.is_copy_of(v)))
        &&& name == "pi"@ ==> (res matches Ok(r) && r.computable_spec().node_spec() is Pi)
    }

    /// The value of a name: `pi` and `e` are π and e, other names are
    /// looked up, `NotFound` when they have no value.
    fn lookup(name: &Vec<char>, names: &Symbols) -> (res: Result<Real, Problem>)
        ensures
            Self::symbol_result(res, name@, *names),
    {
        proof {
            reveal_strlit("pi");
            reveal_strlit("e");
            assert("pi"@.len() == 2);
            assert("e"@.len() == 1);
        }
        let pi = str_chars("pi");
        if chars_equal(name, &pi) {
            return Ok(Real::pi());
        }
        let e = str_chars("e");
        if chars_equal(name, &e) {
            return Ok(Real::e());
        }
        match names.get(name) {
            Some(v) => Ok(v.clone()),
            None => Err(Problem::NotFound),
        }
    }

    /// The operand at `i` as a value.
    fn operand_value(&self, i: usize, names: &Symbols) -> (res: Result<Real, Problem>)
        requires
            i < self.operands@.len(),
        ensures
            operand_result(res, self.operands@[i as int], *names),
        decreases self, 0nat,
    {
        proof {
            assert(decreases_to!(self => self.operands));
            assert(decreases_to!(self.operands => self.operands@));
            assert(decreases_to!(self.operands@ => self.operands@[i as int]));
        }
        self.operands[i].value(names)
    }

    /// The literal number of the operand at `i`.
    fn literal_at(&self, i: usize) -> (res: &Rational)
        requires
            i < self.operands@.len(),
            self.operands@[i as int] is Literal,
        ensures
            *res == literal_value(self.operands@[i as int]),
    {
        self.operands[i].literal().unwrap()
    }

    /// A function of one operand evaluates to that function of the
    /// operand's value (for negation and inversion, of an operand that is
    /// not a literal number).
    proof fn lemma_unary_evaluation(self, res: Result<Real, Problem>, names: Symbols, v: Result<Real, Problem>)
        requires
            self.operands_spec().len() == 1,
            self.op_spec() == Operator::Minus || self.op_spec() == Operator::Slash ==> !all_literals(
                self.operands_spec(),
            ),
            self.op_spec() != Operator::Plus,
            self.op_spec() != Operator::Star,
            self.op_spec() != Operator::Pow,
            operand_result(v, self.operands_spec()[0], names),
            v matches Err(e) ==> res == Err::<Real, Problem>(e),
            v matches Ok(x) ==> apply_unary(res, self.op_spec(), x),
        ensures
            evaluation(res, self, names),
    {
        assert(candidate(v));
        assert(unary_of(res, self.op_spec(), self.operands_spec(), names));
        assert(Self::evaluate_spec(res, self.op_spec(), self.operands_spec()));
    }

    /// Operands that are not all literal numbers evaluate to their values
    /// folded with the operator.
    proof fn lemma_fold_evaluation(self, res: Result<Real, Problem>, names: Symbols)
        requires
            self.operands_spec().len() >= 1,
            !all_literals(self.operands_spec()),
            self.op_spec() == Operator::Plus || self.op_spec() == Operator::Star || (
            self.operands_spec().len() >= 2 && (self.op_spec() == Operator::Minus || self.op_spec()
                == Operator::Slash)),
            first_then_fold(res, self.op_spec(), self.operands_spec(), names),
        ensures
            evaluation(res, self, names),
    {
        assert(Self::evaluate_spec(res, self.op_spec(), self.operands_spec()));
    }

    /// Two operands evaluate to the first to the power of the second.
    proof fn lemma_power_evaluation(
        self,
        res: Result<Real, Problem>,
        names: Symbols,
        v1: Result<Real, Problem>,
        v2: Result<Real, Problem>,
    )
        requires
            self.operands_spec().len() == 2,
            self.op_spec() == Operator::Pow,
            operand_result(v1, self.operands_spec()[0], names),
            v1 matches Err(e) ==> res == Err::<Real, Problem>(e),
            v1 matches Ok(x) ==> {
                &&& operand_result(v2, self.operands_spec()[1], names)
                &&& v2 matches Err(e) ==> res == Err::<Real, Problem>(e)
                &&& v2 matches Ok(y) ==> Real::pow_spec(res, x, y)
            },
        ensures
            evaluation(res, self, names),
    {
        assert(candidate(v1));
        assert(candidate(v2));
        assert(power_of(res, self.operands_spec(), names));
        assert(Self::evaluate_spec(res, self.op_spec(), self.operands_spec()));
    }

    /// Evaluate the expression with the given names.
#[verifier::spinoff_prover]
    pub fn evaluate(&self, names: &Symbols) -> (res: Result<Real, Problem>)
        ensures
            evaluation(res, *self, *names),
        decreases self, 1nat,
    {
        let n = self.operands.len();
        let ghost ops = self.operands@;
        match self.op {
            Operator::Plus => {
                if n > 0 && self.operands[0].literal().is_some() && literals_from(&self.operands, 1) {
                    let mut value = self.literal_at(0).clone();
                    let mut i: usize = 1;
                    proof {
                        let t = ops.take(1);
                        assert(t.drop_last() =~= Seq::<Operand>::empty());
                        assert(t.last() == ops[0]);
                        assert(literal_sum(Seq::<Operand>::empty()) == (0int, 1int));
                        let r = literal_value(ops[0]);
                        assert(literal_sum(t) == (0 * r.den() + r.num() * 1, (1 * r.den()) as int));
                        assert(all_literals(ops));
                    }
                    while i < n
                        invariant
                            1 <= i <= n,
                            n == self.operands@.len(),
                            ops == self.operands@,
                            all_literals(ops),
                            value.same_value(literal_sum(ops.take(i as int)).0, literal_sum(ops.take(i as int)).1),
                        decreases n - i,
                    {
                        let lit = self.literal_at(i);
                        let ghost old_value = value;
                        proof {
                            use_type_invariant(&value);
                        }
                        value = value.add(lit);
                        proof {
                            let t = ops.take(i as int);
                            lemma_sum_value(old_value, literal_sum(t).0, literal_sum(t).1, *lit, value);
                            assert(ops.take(i + 1).drop_last() =~= t);
                            assert(ops.take(i + 1).last() == ops[i as int]);
                        }
                        i = i + 1;
                    }
                    proof {
                        assert(ops.take(n as int) =~= ops);
                    }
                    return Ok(Real::new(value));
                }
                if n == 0 {
                    return Ok(Real::zero());
                }
                let first = self.operand_value(0, names);
                let mut value = match first {
                    Ok(v) => v,
                    Err(e) => {
                        proof {
                            assert(candidate(first) && operand_result(first, ops[0], *names));
                            assert(first_then_fold(first, self.op_spec(), ops, *names));
                            self.lemma_fold_evaluation(first, *names);
                        }
                        return Err(e);
                    },
                };
                let mut i: usize = 1;
                proof {
                    if all_literals(ops) {
                        assert(ops[0] is Literal);
                    }
                    assert forall|r: Result<Real, Problem>|
                        fold_from(r, Operator::Plus, ops, *names, 1, value) implies first_then_fold(
                        r,
                        Operator::Plus,
                        ops,
                        *names,
                    ) by {
                        assert(candidate(first) && operand_result(first, ops[0], *names));
                    }
                }
                while i < n
                    invariant
                        1 <= i <= n,
                        n == self.operands@.len(),
                        ops == self.operands@,
                        !all_literals(ops),
                        self.op_spec() == Operator::Plus,
                        n >= 1,
                        forall|r: Result<Real, Problem>|
                            fold_from(r, Operator::Plus, ops, *names, i as int, value) ==> first_then_fold(
                                r,
                                Operator::Plus,
                                ops,
                                *names,
                            ),
                    decreases n - i,
                {
                    let got = self.operand_value(i, names);
                    let next = match got {
                        Ok(v) => v,
                        Err(e) => {
                            proof {
                                assert(candidate(got) && operand_result(got, ops[i as int], *names));
                                assert(fold_from(got, Operator::Plus, ops, *names, i as int, value));
                                self.lemma_fold_evaluation(got, *names);
                            }
                            return Err(e);
                        },
                    };
                    let ghost before = value;
                    value = value.add(next);
                    proof {
                        let step = Ok::<Real, Problem>(value);
                        assert(apply_binary(step, Operator::Plus, before, next));
                        assert forall|r: Result<Real, Problem>|
                            fold_from(r, Operator::Plus, ops, *names, i + 1, value) implies first_then_fold(
                            r,
                            Operator::Plus,
                            ops,
                            *names,
                        ) by {
                            assert(candidate(got) && operand_result(got, ops[i as int], *names));
                            assert(candidate(step));
                            assert(apply_binary(step, Operator::Plus, before, next));
                            assert(fold_from(r, Operator::Plus, ops, *names, i as int, before));
                        }
                    }
                    i = i + 1;
                }
                proof {
                    assert(fold_from(Ok::<Real, Problem>(value), Operator::Plus, ops, *names, n as int, value));
                    self.lemma_fold_evaluation(Ok::<Real, Problem>(value), *names);
                }
                Ok(value)
            },
            Operator::Minus => {
                if n == 0 {
                    return Err(Problem::InsufficientParameters);
                }
                if n == 1 {
                    if self.operands[0].literal().is_some() {
                        let lit = self.literal_at(0);
                        return Ok(Real::new(lit.neg()));
                    }
                    let first = self.operand_value(0, names);
                    let value = match first {
                        Ok(v) => v,
                        Err(e) => {
                            proof {
                                assert(!all_literals(ops));
                                self.lemma_unary_evaluation(first, *names, first);
                            }
                            return Err(e);
                        },
                    };
                    let res = Ok(value.neg());
                    proof {
                        assert(!all_literals(ops));
                        self.lemma_unary_evaluation(res, *names, first);
                    }
                    return res;
                }
                if self.operands[0].literal().is_some() && literals_from(&self.operands, 1) {
                    let mut value = self.literal_at(0).clone();
                    let mut i: usize = 1;
                    proof {
                        assert(ops.take(1)[0] == ops[0]);
                        assert(all_literals(ops));
                    }
                    while i < n
                        invariant
                            1 <= i <= n,
                            n == self.operands@.len(),
                            ops == self.operands@,
                            all_literals(ops),
                            value.same_value(
                                literal_difference(ops.take(i as int)).0,
                                literal_difference(ops.take(i as int)).1,
                            ),
                        decreases n - i,
                    {
                        let lit = self.literal_at(i);
                        let ghost old_value = value;
                        proof {
                            use_type_invariant(&value);
                        }
                        value = value.sub(lit);
                        proof {
                            let t = ops.take(i as int);
                            lemma_difference_value(
                                old_value,
                                literal_difference(t).0,
                                literal_difference(t).1,
                                *lit,
                                value,
                            );
                            assert(ops.take(i + 1).drop_last() =~= t);
                            assert(ops.take(i + 1).last() == ops[i as int]);
                        }
                        i = i + 1;
                    }
                    proof {
                        assert(ops.take(n as int) =~= ops);
                    }
                    return Ok(Real::new(value));
                }
                let first = self.operand_value(0, names);
                let mut value = match first {
                    Ok(v) => v,
                    Err(e) => {
                        proof {
                            assert(candidate(first) && operand_result(first, ops[0], *names));
                            assert(first_then_fold(first, self.op_spec(), ops, *names));
                            self.lemma_fold_evaluation(first, *names);
                        }
                        return Err(e);
                    },
                };
                let mut i: usize = 1;
                proof {
                    if all_literals(ops) {
                        assert(ops[0] is Literal);
                    }
                    assert forall|r: Result<Real, Problem>|
                        fold_from(r, Operator::Minus, ops, *names, 1, value) implies first_then_fold(
                        r,
                        Operator::Minus,
                        ops,
                        *names,
                    ) by {
                        assert(candidate(first) && operand_result(first, ops[0], *names));
                    }
                }
                while i < n
                    invariant
                        1 <= i <= n,
                        n == self.operands@.len(),
                        ops == self.operands@,
                        !all_literals(ops),
                        self.op_spec() == Operator::Minus,
                        n >= 1,
                        forall|r: Result<Real, Problem>|
                            fold_from(r, Operator::Minus, ops, *names, i as int, value) ==> first_then_fold(
                                r,
                                Operator::Minus,
                                ops,
                                *names,
                            ),
                    decreases n - i,
                {
                    let got = self.operand_value(i, names);
                    let next = match got {
                        Ok(v) => v,
                        Err(e) => {
                            proof {
                                assert(candidate(got) && operand_result(got, ops[i as int], *names));
                                assert(fold_from(got, Operator::Minus, ops, *names, i as int, value));
                                self.lemma_fold_evaluation(got, *names);
                            }
                            return Err(e);
                        },
                    };
                    let ghost before = value;
                    value = value.sub(next);
                    proof {
                        let step = Ok::<Real, Problem>(value);
                        assert(apply_binary(step, Operator::Minus, before, next));
                        assert forall|r: Result<Real, Problem>|
                            fold_from(r, Operator::Minus, ops, *names, i + 1, value) implies first_then_fold(
                            r,
                            Operator::Minus,
                            ops,
                            *names,
                        ) by {
                            assert(candidate(got) && operand_result(got, ops[i as int], *names));
                            assert(candidate(step));
                            assert(apply_binary(step, Operator::Minus, before, next));
                            assert(fold_from(r, Operator::Minus, ops, *names, i as int, before));
                        }
                    }
                    i = i + 1;
                }
                proof {
                    assert(fold_from(Ok::<Real, Problem>(value), Operator::Minus, ops, *names, n as int, value));
                    self.lemma_fold_evaluation(Ok::<Real, Problem>(value), *names);
                }
                Ok(value)
            },
            Operator::Star => {
                if n > 0 && self.operands[0].literal().is_some() && literals_from(&self.operands, 1) {
                    let mut value = self.literal_at(0).clone();
                    let mut i: usize = 1;
                    proof {
                        let t = ops.take(1);
                        assert(t.drop_last() =~= Seq::<Operand>::empty());
                        assert(t.last() == ops[0]);
                        assert(literal_product(Seq::<Operand>::empty()) == (1int, 1int));
                        let r = literal_value(ops[0]);
                        assert(literal_product(t) == (1 * r.num(), (1 * r.den()) as int));
                        assert(all_literals(ops));
                    }
                    while i < n
                        invariant
                            1 <= i <= n,
                            n == self.operands@.len(),
                            ops == self.operands@,
                            all_literals(ops),
                            value.same_value(
                                literal_product(ops.take(i as int)).0,
                                literal_product(ops.take(i as int)).1,
                            ),
                        decreases n - i,
                    {
                        let lit = self.literal_at(i);
                        let ghost old_value = value;
                        proof {
                            use_type_invariant(&value);
                            use_type_invariant(lit);
                        }
                        value = value.mul(lit);
                        proof {
                            let t = ops.take(i as int);
                            crate::reals::arith::lemma_product_value(
                                old_value,
                                literal_product(t).0,
                                literal_product(t).1,
                                *lit,
                                lit.num(),
                                lit.den() as int,
                                value,
                            );
                            assert(ops.take(i + 1).drop_last() =~= t);
                            assert(ops.take(i + 1).last() == ops[i as int]);
                        }
                        i = i + 1;
                    }
                    proof {
                        assert(ops.take(n as int) =~= ops);
                    }
                    return Ok(Real::new(value));
                }
                if n == 0 {
                    return Ok(Real::new(Rational::one()));
                }
                let first = self.operand_value(0, names);
                let mut value = match first {
                    Ok(v) => v,
                    Err(e) => {
                        proof {
                            assert(candidate(first) && operand_result(first, ops[0], *names));
                            assert(first_then_fold(first, self.op_spec(), ops, *names));
                            self.lemma_fold_evaluation(first, *names);
                        }
                        return Err(e);
                    },
                };
                let mut i: usize = 1;
                proof {
                    if all_literals(ops) {
                        assert(ops[0] is Literal);
                    }
                    assert forall|r: Result<Real, Problem>|
                        fold_from(r, Operator::Star, ops, *names, 1, value) implies first_then_fold(
                        r,
                        Operator::Star,
                        ops,
                        *names,
                    ) by {
                        assert(candidate(first) && operand_result(first, ops[0], *names));
                    }
                }
                while i < n
                    invariant
                        1 <= i <= n,
                        n == self.operands@.len(),
                        ops == self.operands@,
                        !all_literals(ops),
                        self.op_spec() == Operator::Star,
                        n >= 1,
                        forall|r: Result<Real, Problem>|
                            fold_from(r, Operator::Star, ops, *names, i as int, value) ==> first_then_fold(
                                r,
                                Operator::Star,
                                ops,
                                *names,
                            ),
                    decreases n - i,
                {
                    let got = self.operand_value(i, names);
                    let next = match got {
                        Ok(v) => v,
                        Err(e) => {
                            proof {
                                assert(candidate(got) && operand_result(got, ops[i as int], *names));
                                assert(fold_from(got, Operator::Star, ops, *names, i as int, value));
                                self.lemma_fold_evaluation(got, *names);
                            }
                            return Err(e);
                        },
                    };
                    let ghost before = value;
                    value = value.mul(next);
                    proof {
                        let step = Ok::<Real, Problem>(value);
                        assert(apply_binary(step, Operator::Star, before, next));
                        assert forall|r: Result<Real, Problem>|
                            fold_from(r, Operator::Star, ops, *names, i + 1, value) implies first_then_fold(
                            r,
                            Operator::Star,
                            ops,
                            *names,
                        ) by {
                            assert(candidate(got) && operand_result(got, ops[i as int], *names));
                            assert(candidate(step));
                            assert(apply_binary(step, Operator::Star, before, next));
                            assert(fold_from(r, Operator::Star, ops, *names, i as int, before));
                        }
                    }
                    i = i + 1;
                }
                proof {
                    assert(fold_from(Ok::<Real, Problem>(value), Operator::Star, ops, *names, n as int, value));
                    self.lemma_fold_evaluation(Ok::<Real, Problem>(value), *names);
                }
                Ok(value)
            },
            Operator::Slash => {
                if n == 0 {
                    return Err(Problem::InsufficientParameters);
                }
                if n == 1 {
                    if self.operands[0].literal().is_some() {
                        let lit = self.literal_at(0);
                        return match lit.inverse() {
                            Ok(r) => Ok(Real::new(r)),
                            Err(e) => Err(e),
                        };
                    }
                    let first = self.operand_value(0, names);
                    let value = match first {
                        Ok(v) => v,
                        Err(e) => {
                            proof {
                                assert(!all_literals(ops));
                                self.lemma_unary_evaluation(first, *names, first);
                            }
                            return Err(e);
                        },
                    };
                    let res = value.inverse();
                    proof {
                        assert(!all_literals(ops));
                        self.lemma_unary_evaluation(res, *names, first);
                    }
                    return res;
                }
                if self.operands[0].literal().is_some() && literals_from(&self.operands, 1) {
                    let mut value = self.literal_at(0).clone();
                    let mut i: usize = 1;
                    proof {
                        assert(ops.take(1)[0] == ops[0]);
                        assert(all_literals(ops));
                    }
                    while i < n
                        invariant
                            1 <= i <= n,
                            n == self.operands@.len(),
                            ops == self.operands@,
                            all_literals(ops),
                            self.op_spec() == Operator::Slash,
                            forall|j: int| 1 <= j < i ==> #[trigger] literal_value(ops[j]).num() != 0,
                            value.same_value(
                                literal_quotient(ops.take(i as int)).0,
                                literal_quotient(ops.take(i as int)).1,
                            ),
                        decreases n - i,
                    {
                        let lit = self.literal_at(i);
                        if lit.sign() == crate::Sign::NoSign {
                            proof {
                                assert(literal_value(ops[i as int]).num() == 0);
                                assert(zero_divisor(ops));
                            }
                            return Err(Problem::DivideByZero);
                        }
                        let ghost old_value = value;
                        proof {
                            use_type_invariant(&value);
                        }
                        value = value.div(lit);
                        proof {
                            let t = ops.take(i as int);
                            lemma_quotient_value(
                                old_value,
                                literal_quotient(t).0,
                                literal_quotient(t).1,
                                *lit,
                                value,
                            );
                            assert(ops.take(i + 1).drop_last() =~= t);
                            assert(ops.take(i + 1).last() == ops[i as int]);
                        }
                        i = i + 1;
                    }
                    proof {
                        assert(ops.take(n as int) =~= ops);
                    }
                    return Ok(Real::new(value));
                }
                let first = self.operand_value(0, names);
                let mut value = match first {
                    Ok(v) => v,
                    Err(e) => {
                        proof {
                            if all_literals(ops) {
                                assert(ops[0] is Literal);
                            }
                            assert(candidate(first) && operand_result(first, ops[0], *names));
                            assert(first_then_fold(first, self.op_spec(), ops, *names));
                            self.lemma_fold_evaluation(first, *names);
                        }
                        return Err(e);
                    },
                };
                let mut i: usize = 1;
                proof {
                    if all_literals(ops) {
                        assert(ops[0] is Literal);
                    }
                    assert forall|r: Result<Real, Problem>|
                        fold_from(r, Operator::Slash, ops, *names, 1, value) implies first_then_fold(
                        r,
                        Operator::Slash,
                        ops,
                        *names,
                    ) by {
                        assert(candidate(first) && operand_result(first, ops[0], *names));
                    }
                }
                while i < n
                    invariant
                        1 <= i <= n,
                        n == self.operands@.len(),
                        ops == self.operands@,
                        !all_literals(ops),
                        self.op_spec() == Operator::Slash,
                        n >= 2,
                        forall|r: Result<Real, Problem>|
                            fold_from(r, Operator::Slash, ops, *names, i as int, value) ==> first_then_fold(
                                r,
                                Operator::Slash,
                                ops,
                                *names,
                            ),
                    decreases n - i,
                {
                    let got = self.operand_value(i, names);
                    let next = match got {
                        Ok(v) => v,
                        Err(e) => {
                            proof {
                                assert(candidate(got) && operand_result(got, ops[i as int], *names));
                                assert(fold_from(got, Operator::Slash, ops, *names, i as int, value));
                                self.lemma_fold_evaluation(got, *names);
                            }
                            return Err(e);
                        },
                    };
                    let ghost before = value;
                    let step = value.div(next);
                    proof {
                        assert(candidate(got) && operand_result(got, ops[i as int], *names));
                        assert(candidate(step));
                        assert(apply_binary(step, Operator::Slash, before, next));
                    }
                    value = match step {
                        Ok(v) => v,
                        Err(e) => {
                            proof {
                                assert(fold_from(step, Operator::Slash, ops, *names, i as int, before));
                                self.lemma_fold_evaluation(step, *names);
                            }
                            return Err(e);
                        },
                    };
                    proof {
                        assert forall|r: Result<Real, Problem>|
                            fold_from(r, Operator::Slash, ops, *names, i + 1, value) implies first_then_fold(
                            r,
                            Operator::Slash,
                            ops,
                            *names,
                        ) by {
                            assert(candidate(got) && operand_result(got, ops[i as int], *names));
                            assert(candidate(step));
                            assert(fold_from(r, Operator::Slash, ops, *names, i as int, before));
                        }
                    }
                    i = i + 1;
                }
                proof {
                    assert(fold_from(Ok::<Real, Problem>(value), Operator::Slash, ops, *names, n as int, value));
                    self.lemma_fold_evaluation(Ok::<Real, Problem>(value), *names);
                }
                Ok(value)
            },
            Operator::Pow => {
                if n != 2 {
                    return Err(Problem::ParseError);
                }
                let r1 = self.operand_value(0, names);
                let v1 = match r1 {
                    Ok(v) => v,
                    Err(e) => {
                        proof {
                            self.lemma_power_evaluation(r1, *names, r1, r1);
                        }
                        return Err(e);
                    },
                };
                let r2 = self.operand_value(1, names);
                let v2 = match r2 {
                    Ok(v) => v,
                    Err(e) => {
                        proof {
                            self.lemma_power_evaluation(r2, *names, r1, r2);
                        }
                        return Err(e);
                    },
                };
                let res = v1.pow(v2);
                proof {
                    self.lemma_power_evaluation(res, *names, r1, r2);
                }
                res
            },
            unary => {
                if n != 1 {
                    return Err(Problem::ParseError);
                }
                let first = self.operand_value(0, names);
                let value = match first {
                    Ok(v) => v,
                    Err(e) => {
                        proof {
                            if all_literals(ops) {
                                assert(ops[0] is Literal);
                            }
                            self.lemma_unary_evaluation(first, *names, first);
                        }
                        return Err(e);
                    },
                };
                let res = match unary {
                    Operator::Exp => value.exp(),
                    Operator::Log10 => value.log10(),
                    Operator::Ln => value.ln(),
                    Operator::Sqrt => value.sqrt(),
                    Operator::Cos => Ok(value.cos()),
                    Operator::Sin => Ok(value.sin()),
                    _ => value.tan(),
                };
                proof {
                    if all_literals(ops) {
                        assert(ops[0] is Literal);
                    }
                    self.lemma_unary_evaluation(res, *names, first);
                }
                res
            },
        }
    }
}

} // verus!
